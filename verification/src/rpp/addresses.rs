//! The addresses that an engine works with: where they lie, and which set
//! of a page they select.
use crate::connection::Address;
use crate::rpp::params::PAGE_SIZE;
use crate::rpp::sequence::without_range;
use crate::rpp::{CTL_BIT, NUM_VARIANTS};
use vstd::prelude::*;

verus! {

/// The addresses lie below `limit`.
pub open spec fn below(s: Seq<Address>, limit: int) -> bool {
    forall|k: int| 0 <= k < s.len() ==> (#[trigger] s[k]) < limit
}

/// The variant of an address: what its bits 6 to 12 hold.
pub open spec fn variant_of(a: Address) -> usize {
    (a & 0xFC0) >> CTL_BIT
}

/// The address is the first one of a cache line of 64 bytes, is of variant
/// `variant`, and lies below `limit`.
pub open spec fn at_home(a: Address, variant: int, limit: int) -> bool {
    a & 0x3F == 0 && variant_of(a) == variant && a < limit
}

/// The addresses are first addresses of cache lines, are of variant
/// `variant` and lie below `limit`, and none of them occurs twice.
pub open spec fn homed(s: Seq<Address>, variant: int, limit: int) -> bool {
    &&& s.no_duplicates()
    &&& forall|k: int| 0 <= k < s.len() ==> at_home(#[trigger] s[k], variant, limit)
}

/// Addresses that are at home below a limit lie below it.
pub proof fn lemma_homed_below(s: Seq<Address>, variant: int, limit: int)
    requires
        homed(s, variant, limit),
    ensures
        below(s, limit),
{
    assert forall|k: int| 0 <= k < s.len() implies (#[trigger] s[k]) < limit by {
        assert(at_home(s[k], variant, limit));
    }
}

/// The addresses of a prefix, and of what is left when a range is taken
/// out, lie below a limit that the addresses of the whole lie below.
pub proof fn lemma_parts_below(s: Seq<Address>, start: int, len: int, limit: int)
    requires
        below(s, limit),
        0 <= start,
        0 <= len,
        start + len <= s.len(),
    ensures
        below(s.subrange(0, start), limit),
        below(without_range(s, start, len), limit),
{
    let rest = without_range(s, start, len);
    assert forall|k: int| 0 <= k < rest.len() implies (#[trigger] rest[k]) < limit by {
        if k < start {
            assert(rest[k] == s[k]);
        } else {
            assert(rest[k] == s[k + len]);
        }
    }
    let front = s.subrange(0, start);
    assert forall|k: int| 0 <= k < front.len() implies (#[trigger] front[k]) < limit by {
        assert(front[k] == s[k]);
    }
}

/// An address that is moved to another variant stays in its page, and so
/// below every limit that is a multiple of the page size and that it lay
/// below.
pub proof fn lemma_variant_moved(a: usize, variant: usize, limit: usize)
    requires
        a < limit,
        limit as int % PAGE_SIZE as int == 0,
        variant < NUM_VARIANTS,
    ensures
        (a ^ (variant << CTL_BIT)) < limit,
{
    let b = a ^ (variant << 6);
    assert(b / 4096 == a / 4096) by (bit_vector)
        requires
            b == a ^ (variant << 6),
            variant < 64,
    ;
}

/// An address of a page has the variant that it was given, and lies in the
/// page.
pub proof fn lemma_variant_of_page(page: usize, variant: usize)
    requires
        page * PAGE_SIZE <= usize::MAX,
        variant < NUM_VARIANTS,
    ensures
        variant_of(variant_of_page(page, variant)) == variant,
        variant_of_page(page, variant) & 0x3F == 0,
        page * PAGE_SIZE <= variant_of_page(page, variant) < (page + 1) * PAGE_SIZE,
{
    let p = (page * PAGE_SIZE) as usize;
    let a = p ^ (variant << 6);
    assert(p & 0xFFF == 0) by (bit_vector)
        requires
            p == page * 4096,
    ;
    assert(((p ^ (variant << 6)) & 0xFC0) >> 6 == variant) by (bit_vector)
        requires
            p & 0xFFF == 0,
            variant < 64,
    ;
    assert(a & 0x3F == 0) by (bit_vector)
        requires
            a == p ^ (variant << 6),
            p & 0xFFF == 0,
            variant < 64,
    ;
    assert(a / 4096 == p / 4096 && a >= p) by (bit_vector)
        requires
            a == p ^ (variant << 6),
            p & 0xFFF == 0,
            variant < 64,
    ;
}

/// Different pages have different addresses of a variant.
pub proof fn lemma_pages_differ(page: usize, other: usize, variant: usize)
    requires
        page * PAGE_SIZE <= usize::MAX,
        other * PAGE_SIZE <= usize::MAX,
        page != other,
    ensures
        variant_of_page(page, variant) != variant_of_page(other, variant),
{
    let a = (page * PAGE_SIZE) as usize;
    let b = (other * PAGE_SIZE) as usize;
    let k = variant << CTL_BIT;
    if a ^ k == b ^ k {
        assert(a == b) by (bit_vector)
            requires
                a ^ k == b ^ k,
        ;
    }
}

/// The address in page `page` whose bits 6 to 12 hold `variant`.
pub open spec fn variant_of_page(page: usize, variant: usize) -> usize {
    ((page * PAGE_SIZE) as usize) ^ (variant << CTL_BIT)
}

/// The addresses of the first `pages` pages whose bits 6 to 12 hold
/// `variant`, page by page.
pub fn page_offsets(pages: usize, variant: usize) -> (r: Vec<Address>)
    requires
        pages * PAGE_SIZE <= usize::MAX,
        variant < NUM_VARIANTS,
    ensures
        r@ == Seq::new(pages as nat, |x: int| variant_of_page(x as usize, variant)),
        homed(r@, variant as int, pages * PAGE_SIZE),
{
    let mut out: Vec<Address> = Vec::with_capacity(pages);
    let mut x: usize = 0;
    while x < pages
        invariant
            x <= pages,
            pages * PAGE_SIZE <= usize::MAX,
            variant < NUM_VARIANTS,
            out@ == Seq::new(x as nat, |x: int| variant_of_page(x as usize, variant)),
        decreases pages - x,
    {
        assert(x * PAGE_SIZE <= pages * PAGE_SIZE) by (nonlinear_arith)
            requires
                x <= pages,
        ;
        out.push((x * PAGE_SIZE) ^ (variant << CTL_BIT));
        x += 1;
        proof {
            assert(out@ =~= Seq::new(x as nat, |x: int| variant_of_page(x as usize, variant)));
        }
    }
    proof {
        assert forall|k: int| 0 <= k < out@.len() implies at_home(
            #[trigger] out@[k],
            variant as int,
            pages * PAGE_SIZE,
        ) by {
            assert((k + 1) * PAGE_SIZE <= pages * PAGE_SIZE) by (nonlinear_arith)
                requires
                    0 <= k < pages,
            ;
            lemma_variant_of_page(k as usize, variant);
        }
        assert forall|k: int, m: int|
            0 <= k < out@.len() && 0 <= m < out@.len() && k != m implies out@[k] != out@[m] by {
            assert(k * PAGE_SIZE <= pages * PAGE_SIZE && m * PAGE_SIZE <= pages * PAGE_SIZE)
                by (nonlinear_arith)
                requires
                    0 <= k <= pages,
                    0 <= m <= pages,
            ;
            lemma_pages_differ(k as usize, m as usize, variant);
        }
    }
    out
}

} // verus!
