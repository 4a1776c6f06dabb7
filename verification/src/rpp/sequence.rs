//! Sequences of addresses: parts of them, and what it means for one to be
//! left over from another.
use crate::connection::Address;
use vstd::prelude::*;

verus! {

/// `at` tells, for each item of `a`, where it stands in `b`, and keeps the
/// order of the items.
pub open spec fn embeds<T>(a: Seq<T>, b: Seq<T>, at: Seq<int>) -> bool {
    &&& at.len() == a.len()
    &&& forall|i: int| 0 <= i < a.len() ==> 0 <= #[trigger] at[i] < b.len() && a[i] == b[at[i]]
    &&& forall|i: int, j: int| 0 <= i < j < a.len() ==> #[trigger] at[i] < #[trigger] at[j]
}

/// `a` is what is left of `b` after some of its items were taken out.
pub open spec fn is_subsequence<T>(a: Seq<T>, b: Seq<T>) -> bool {
    exists|at: Seq<int>| embeds(a, b, at)
}

/// `s` without the `len` items that start at `start`.
pub open spec fn without_range<T>(s: Seq<T>, start: int, len: int) -> Seq<T> {
    s.subrange(0, start) + s.subrange(start + len, s.len() as int)
}

/// The later sequence begins with the earlier one.
pub open spec fn extends<T>(later: Seq<T>, earlier: Seq<T>) -> bool {
    earlier.len() <= later.len() && later.subrange(0, earlier.len() as int) =~= earlier
}

/// `shorter` is `longer` without its first occurrence of `a`.
pub open spec fn without_first<T>(longer: Seq<T>, a: T, shorter: Seq<T>) -> bool {
    exists|i: int|
        {
            &&& 0 <= i < longer.len()
            &&& longer[i] == a
            &&& forall|j: int| 0 <= j < i ==> longer[j] != a
            &&& shorter == #[trigger] without_range(longer, i, 1)
        }
}

/// What begins with a sequence that begins with another begins with that
/// other one.
pub proof fn lemma_extends_trans<T>(c: Seq<T>, b: Seq<T>, a: Seq<T>)
    requires
        extends(c, b),
        extends(b, a),
    ensures
        extends(c, a),
{
    assert forall|i: int| 0 <= i < a.len() implies c.subrange(0, a.len() as int)[i] == a[i] by {
        assert(c.subrange(0, b.len() as int)[i] == b[i]);
        assert(b.subrange(0, a.len() as int)[i] == a[i]);
    }
}

/// The two sequences have no item in common.
pub open spec fn disjoint<T>(a: Seq<T>, b: Seq<T>) -> bool {
    forall|i: int, j: int| 0 <= i < a.len() && 0 <= j < b.len() ==> a[i] != b[j]
}

/// Every sequence is left over from itself.
pub proof fn lemma_subsequence_refl<T>(a: Seq<T>)
    ensures
        is_subsequence(a, a),
{
    let at = Seq::new(a.len(), |i: int| i);
    assert(embeds(a, a, at));
}

/// What is left over from a leftover is left over from the whole.
pub proof fn lemma_subsequence_trans<T>(a: Seq<T>, b: Seq<T>, c: Seq<T>)
    requires
        is_subsequence(a, b),
        is_subsequence(b, c),
    ensures
        is_subsequence(a, c),
{
    let f = choose|at: Seq<int>| embeds(a, b, at);
    let g = choose|at: Seq<int>| embeds(b, c, at);
    let h = Seq::new(a.len(), |i: int| g[f[i]]);
    assert forall|i: int| 0 <= i < a.len() implies 0 <= #[trigger] h[i] < c.len() && a[i] == c[h[i]] by {
        assert(0 <= f[i] < b.len());
        assert(0 <= g[f[i]] < c.len());
    }
    assert forall|i: int, j: int| 0 <= i < j < a.len() implies #[trigger] h[i] < #[trigger] h[j] by {
        assert(f[i] < f[j]);
        assert(0 <= f[i] < b.len());
        assert(0 <= f[j] < b.len());
        assert(g[f[i]] < g[f[j]]);
    }
    assert(embeds(a, c, h));
}

/// Taking a range out of a sequence leaves a subsequence of it.
pub proof fn lemma_without_range_is_subsequence<T>(s: Seq<T>, start: int, len: int)
    requires
        0 <= start,
        0 <= len,
        start + len <= s.len(),
    ensures
        is_subsequence(without_range(s, start, len), s),
        without_range(s, start, len).len() == s.len() - len,
{
    let r = without_range(s, start, len);
    let at = Seq::new(
        r.len(),
        |i: int|
            if i < start {
                i
            } else {
                i + len
            },
    );
    assert(embeds(r, s, at));
}

/// A prefix of a sequence is a subsequence of it.
pub proof fn lemma_prefix_is_subsequence<T>(s: Seq<T>, n: int)
    requires
        0 <= n <= s.len(),
    ensures
        is_subsequence(s.subrange(0, n), s),
{
    let at = Seq::new(n as nat, |i: int| i);
    assert(embeds(s.subrange(0, n), s, at));
}

/// An embedding into a prefix of a sequence, extended by the item that
/// follows the prefix.
pub proof fn lemma_subsequence_push<T>(a: Seq<T>, b: Seq<T>, x: T)
    requires
        is_subsequence(a, b),
    ensures
        is_subsequence(a.push(x), b.push(x)),
        is_subsequence(a, b.push(x)),
{
    let at = choose|at: Seq<int>| embeds(a, b, at);
    assert(embeds(a, b.push(x), at));
    let at2 = at.push(b.len() as int);
    assert(embeds(a.push(x), b.push(x), at2));
}

/// The items of a sequence that meet a condition are a subsequence of it.
pub proof fn lemma_filter_is_subsequence<T>(s: Seq<T>, pred: spec_fn(T) -> bool)
    ensures
        is_subsequence(s.filter(pred), s),
    decreases s.len(),
{
    reveal(Seq::filter);
    if s.len() == 0 {
        lemma_subsequence_refl(s);
    } else {
        let front = s.drop_last();
        lemma_filter_is_subsequence(front, pred);
        lemma_subsequence_push(front.filter(pred), front, s.last());
        assert(front.push(s.last()) =~= s);
    }
}

/// Every item of a subsequence is an item of the whole.
pub proof fn lemma_subsequence_contains<T>(a: Seq<T>, b: Seq<T>, x: T)
    requires
        is_subsequence(a, b),
        a.contains(x),
    ensures
        b.contains(x),
{
    let at = choose|at: Seq<int>| embeds(a, b, at);
    let i = choose|i: int| 0 <= i < a.len() && a[i] == x;
    assert(0 <= at[i] < b.len() && b[at[i]] == x);
}

/// A subsequence is no longer than the whole.
pub proof fn lemma_subsequence_len<T>(a: Seq<T>, b: Seq<T>)
    requires
        is_subsequence(a, b),
    ensures
        a.len() <= b.len(),
    decreases a.len(),
{
    let at = choose|at: Seq<int>| embeds(a, b, at);
    if a.len() > 0 {
        let n = a.len() - 1;
        let a1 = a.subrange(0, n);
        let b1 = b.subrange(0, at[n]);
        let at1 = at.subrange(0, n);
        assert forall|i: int| 0 <= i < a1.len() implies 0 <= #[trigger] at1[i] < b1.len() && a1[i]
            == b1[at1[i]] by {
            assert(at[i] < at[n]);
        }
        assert(embeds(a1, b1, at1));
        lemma_subsequence_len(a1, b1);
    }
}

/// A subsequence of a sequence in which nothing occurs twice holds nothing
/// twice either.
pub proof fn lemma_subsequence_no_duplicates<T>(a: Seq<T>, b: Seq<T>)
    requires
        is_subsequence(a, b),
        b.no_duplicates(),
    ensures
        a.no_duplicates(),
{
    let at = choose|at: Seq<int>| embeds(a, b, at);
    assert forall|i: int, j: int| 0 <= i < a.len() && 0 <= j < a.len() && i != j implies a[i]
        != a[j] by {
        if i < j {
            assert(at[i] < at[j]);
        } else {
            assert(at[j] < at[i]);
        }
        assert(0 <= at[i] < b.len() && a[i] == b[at[i]]);
        assert(0 <= at[j] < b.len() && a[j] == b[at[j]]);
    }
}

/// What has nothing in common with a sequence has nothing in common with
/// what is left over from it.
pub proof fn lemma_subsequence_disjoint<T>(a: Seq<T>, b: Seq<T>, s: Seq<T>)
    requires
        is_subsequence(a, b),
        disjoint(s, b),
    ensures
        disjoint(s, a),
        disjoint(a, s),
{
    let at = choose|at: Seq<int>| embeds(a, b, at);
    assert forall|i: int, j: int| 0 <= i < s.len() && 0 <= j < a.len() implies s[i] != a[j] by {
        assert(0 <= at[j] < b.len() && a[j] == b[at[j]]);
    }
}

/// A condition that holds of every item of a sequence holds of every item
/// of what is left over from it.
pub proof fn lemma_subsequence_all<T>(a: Seq<T>, b: Seq<T>, pred: spec_fn(T) -> bool)
    requires
        is_subsequence(a, b),
        forall|j: int| 0 <= j < b.len() ==> pred(#[trigger] b[j]),
    ensures
        forall|i: int| 0 <= i < a.len() ==> pred(#[trigger] a[i]),
{
    let at = choose|at: Seq<int>| embeds(a, b, at);
    assert forall|i: int| 0 <= i < a.len() implies pred(#[trigger] a[i]) by {
        assert(0 <= at[i] < b.len() && a[i] == b[at[i]]);
    }
}

/// What is left of a pool without the addresses of `s` has nothing in
/// common with `s`.
pub proof fn lemma_unused_disjoint(pool: Seq<Address>, s: Seq<Address>)
    ensures
        disjoint(s, pool.filter(|a: Address| !s.contains(a))),
{
    let keep = |a: Address| !s.contains(a);
    let rest = pool.filter(keep);
    assert forall|i: int, j: int| 0 <= i < s.len() && 0 <= j < rest.len() implies s[i]
        != rest[j] by {
        pool.lemma_filter_pred(keep, j);
        assert(keep(rest[j]));
        assert(s.contains(s[i]));
    }
}

/// Tests whether `x` is among the addresses of `s`.
pub fn contains_address(s: &[Address], x: Address) -> (b: bool)
    ensures
        b <==> s@.contains(x),
{
    let mut i: usize = 0;
    while i < s.len()
        invariant
            i <= s.len(),
            forall|j: int| 0 <= j < i ==> s@[j] != x,
        decreases s.len() - i,
    {
        if s[i] == x {
            return true;
        }
        i += 1;
    }
    false
}

/// The first `n` addresses of `pool`.
pub fn prefix(pool: &[Address], n: usize) -> (r: Vec<Address>)
    requires
        n <= pool@.len(),
    ensures
        r@ == pool@.subrange(0, n as int),
{
    let mut out: Vec<Address> = Vec::with_capacity(n);
    let mut i: usize = 0;
    while i < n
        invariant
            i <= n,
            n <= pool@.len(),
            out@ == pool@.subrange(0, i as int),
        decreases n - i,
    {
        out.push(pool[i]);
        proof {
            assert(pool@.subrange(0, i as int + 1) =~= pool@.subrange(0, i as int).push(
                pool@[i as int],
            ));
        }
        i += 1;
    }
    out
}

/// The addresses of `s` but for the `len` that start at `start`.
pub fn without_chunk(s: &[Address], start: usize, len: usize) -> (r: Vec<Address>)
    requires
        start + len <= s@.len(),
    ensures
        r@ == without_range(s@, start as int, len as int),
{
    let total = s.len();
    let mut out: Vec<Address> = prefix(s, start);
    let mut i: usize = start + len;
    while i < total
        invariant
            total == s.len(),
            start + len <= i <= total,
            out@ == s@.subrange(0, start as int) + s@.subrange(start + len, i as int),
        decreases total - i,
    {
        out.push(s[i]);
        proof {
            assert(s@.subrange(start + len, i as int + 1) =~= s@.subrange(
                start + len,
                i as int,
            ).push(s@[i as int]));
            assert(out@ =~= s@.subrange(0, start as int) + s@.subrange(start + len, i as int + 1));
        }
        i += 1;
    }
    proof {
        assert(out@ =~= without_range(s@, start as int, len as int));
    }
    out
}

/// The addresses of `pool` that do not occur in `used`, in their order.
pub fn unused(pool: &[Address], used: &[Address]) -> (r: Vec<Address>)
    ensures
        r@ == pool@.filter(|a: Address| !used@.contains(a)),
{
    let ghost keep = |a: Address| !used@.contains(a);
    let mut out: Vec<Address> = Vec::new();
    let mut i: usize = 0;
    proof {
        assert(pool@.subrange(0, 0) =~= Seq::<Address>::empty());
        reveal_with_fuel(Seq::filter, 1);
        assert(pool@.subrange(0, 0).filter(keep) =~= Seq::<Address>::empty());
    }
    while i < pool.len()
        invariant
            i <= pool.len(),
            keep == (|a: Address| !used@.contains(a)),
            out@ == pool@.subrange(0, i as int).filter(keep),
        decreases pool.len() - i,
    {
        let a = pool[i];
        proof {
            let before = pool@.subrange(0, i as int);
            assert(pool@.subrange(0, i as int + 1) =~= before + seq![a]);
            Seq::<Address>::filter_distributes_over_add(before, seq![a], keep);
            reveal_with_fuel(Seq::filter, 2);
            assert(seq![a].drop_last() =~= Seq::<Address>::empty());
        }
        if !contains_address(used, a) {
            out.push(a);
            proof {
                assert(seq![a].filter(keep) =~= seq![a]);
            }
        } else {
            proof {
                assert(seq![a].filter(keep) =~= Seq::<Address>::empty());
            }
        }
        i += 1;
    }
    proof {
        assert(pool@.subrange(0, pool@.len() as int) =~= pool@);
    }
    out
}

} // verus!
