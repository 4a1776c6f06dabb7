//! The order in which the slots of the receive ring map to cache sets, and
//! how a position in that order is found again.
use crate::error::Error;
use crate::rpp::{ColorCode, ColoredSetCode, ProbeResult, SetCode};
use std::collections::HashMap;
use vstd::arithmetic::div_mod::{
    lemma_add_mod_noop, lemma_mod_bound, lemma_mod_self_0, lemma_small_mod,
};
use vstd::prelude::*;
use vstd::std_specs::hash::spec_keys_iter;
use vstd::std_specs::iter::IteratorSpec;

verus! {

/// Number of sets that are primed and probed around the current position.
pub const WINDOW_SIZE: usize = 10;

/// Number of passes over the sets of a color that a trace is made of.
pub const REPEATINGS: usize = 8;

/// A position in a pattern.
pub type PatternIdx = usize;

/// One probe of a trace: the set that registered an activation, if one did.
pub type Sighting = Option<ColoredSetCode>;

/// For each color, the trace of the probes of its sets, pass after pass.
pub type PossiblePatterns = HashMap<ColorCode, Vec<Sighting>>;

/// Number of times that set `v` was sighted at position `pos` of a pass,
/// among the first `upto` probes of a trace whose passes are `chunk` long.
pub open spec fn tally(trace: Seq<Sighting>, chunk: int, pos: int, v: usize, upto: int) -> nat
    decreases upto,
{
    if upto <= 0 {
        0
    } else {
        tally(trace, chunk, pos, v, upto - 1) + if (upto - 1) % chunk == pos && trace[upto - 1]
            == Some(v) {
            1nat
        } else {
            0nat
        }
    }
}

/// Length of one pass of a trace.
pub open spec fn pass_len(trace: Seq<Sighting>) -> int {
    trace.len() as int / REPEATINGS as int
}

/// Number of times that set `v` was sighted at position `pos` of a pass.
pub open spec fn votes(trace: Seq<Sighting>, pos: int, v: usize) -> nat {
    tally(trace, pass_len(trace), pos, v, trace.len() as int)
}

/// Set `v` was sighted at position `pos`, and more often than any other set.
pub open spec fn wins(trace: Seq<Sighting>, pos: int, v: usize) -> bool {
    &&& votes(trace, pos, v) > 0
    &&& forall|w: usize| w != v ==> votes(trace, pos, w) < votes(trace, pos, v)
}

/// The trace shows `pat`: each position of a pass has a set that was sighted
/// there more often than any other, and `pat` lists these sets. A trace that
/// is not empty but shorter than `REPEATINGS` probes shows nothing.
pub open spec fn shows_pattern(trace: Seq<Sighting>, pat: Seq<ColoredSetCode>) -> bool {
    &&& trace.len() == 0 || pass_len(trace) > 0
    &&& pat.len() == pass_len(trace)
    &&& forall|pos: int| 0 <= pos < pat.len() ==> wins(trace, pos, #[trigger] pat[pos])
}

/// The trace shows some pattern.
pub open spec fn has_pattern(trace: Seq<Sighting>) -> bool {
    exists|pat: Seq<ColoredSetCode>| shows_pattern(trace, pat)
}

/// The color is the only one whose trace shows a pattern.
pub open spec fn decides(traces: Map<ColorCode, Vec<Sighting>>, color: ColorCode) -> bool {
    &&& traces.contains_key(color)
    &&& has_pattern(traces[color]@)
    &&& forall|other: ColorCode|
        traces.contains_key(other) && other != color ==> !has_pattern(#[trigger] traces[other]@)
}

/// The sets of `pat`, named with their color.
pub open spec fn coded(color: ColorCode, pat: Seq<ColoredSetCode>) -> Seq<SetCode> {
    Seq::new(pat.len(), |i: int| SetCode(color, pat[i]))
}

/// A set that was never sighted at a position has no votes there, and one
/// that was has at least one.
pub proof fn lemma_tally_sighted(trace: Seq<Sighting>, chunk: int, pos: int, v: usize, upto: int)
    requires
        0 <= upto <= trace.len(),
    ensures
        tally(trace, chunk, pos, v, upto) <= upto,
        tally(trace, chunk, pos, v, upto) > 0 <==> exists|j: int|
            0 <= j < upto && j % chunk == pos && #[trigger] trace[j] == Some(v),
    decreases upto,
{
    if upto > 0 {
        lemma_tally_sighted(trace, chunk, pos, v, upto - 1);
        if (upto - 1) % chunk == pos && trace[upto - 1] == Some(v) {
            assert(tally(trace, chunk, pos, v, upto) > 0);
        } else if tally(trace, chunk, pos, v, upto) > 0 {
            let j = choose|j: int|
                0 <= j < upto - 1 && j % chunk == pos && #[trigger] trace[j] == Some(v);
            assert(0 <= j < upto && j % chunk == pos && trace[j] == Some(v));
        }
    }
}

/// No two sets win the same position.
pub proof fn lemma_winner_unique(trace: Seq<Sighting>, pos: int, v: usize, w: usize)
    requires
        wins(trace, pos, v),
        wins(trace, pos, w),
    ensures
        v == w,
{
}

/// A trace shows at most one pattern.
pub proof fn lemma_pattern_unique(
    trace: Seq<Sighting>,
    a: Seq<ColoredSetCode>,
    b: Seq<ColoredSetCode>,
)
    requires
        shows_pattern(trace, a),
        shows_pattern(trace, b),
    ensures
        a == b,
{
    assert forall|pos: int| 0 <= pos < a.len() implies a[pos] == b[pos] by {
        lemma_winner_unique(trace, pos, a[pos], b[pos]);
    }
    assert(a =~= b);
}

/// At most one color decides.
pub proof fn lemma_decision_unique(
    traces: Map<ColorCode, Vec<Sighting>>,
    a: ColorCode,
    b: ColorCode,
)
    requires
        decides(traces, a),
        decides(traces, b),
    ensures
        a == b,
{
}

/// The step from one position of a cycle to the next.
pub proof fn lemma_mod_step(x: int, m: int)
    requires
        m > 0,
    ensures
        (x + 1) % m == if x % m + 1 == m {
            0
        } else {
            x % m + 1
        },
{
    lemma_add_mod_noop(x, 1, m);
    lemma_mod_bound(x, m);
    if m == 1 {
        lemma_mod_bound(x + 1, m);
    } else {
        lemma_small_mod(1, m as nat);
        if x % m + 1 == m {
            lemma_mod_self_0(m);
        } else {
            lemma_small_mod((x % m + 1) as nat, m as nat);
        }
    }
}

/// The position that is reached from `pos` in `steps` steps through a cycle
/// of `len` positions.
pub open spec fn advanced(len: int, pos: int, steps: nat) -> int
    decreases steps,
{
    if steps == 0 {
        pos
    } else {
        (advanced(len, pos, (steps - 1) as nat) + 1) % len
    }
}

/// Stepping from a position of the pattern with `next_pos` runs through the
/// pattern in its order: after `steps` steps the position is `pos + steps`,
/// taken round the pattern.
pub proof fn lemma_advanced(len: int, pos: int, steps: nat)
    requires
        0 <= pos < len,
    ensures
        advanced(len, pos, steps) == (pos + steps) % len,
    decreases steps,
{
    if steps == 0 {
        lemma_small_mod(pos as nat, len as nat);
    } else {
        lemma_advanced(len, pos, (steps - 1) as nat);
        lemma_add_mod_noop(pos + steps - 1, 1, len);
        lemma_add_mod_noop((pos + steps - 1) % len, 1, len);
        vstd::arithmetic::div_mod::lemma_mod_twice(pos + steps - 1, len);
    }
}

/// Stepping with `next_pos` cycles through all positions of the pattern:
/// from every position every other one is reached in fewer steps than the
/// pattern is long, and after as many steps as the pattern is long the
/// position is the one that was started from.
pub proof fn lemma_next_pos_cycles(len: int, pos: int, target: int)
    requires
        0 <= pos < len,
        0 <= target < len,
    ensures
        exists|steps: nat| steps < len && advanced(len, pos, steps) == target,
        advanced(len, pos, len as nat) == pos,
{
    let steps: nat = if target >= pos {
        (target - pos) as nat
    } else {
        (target + len - pos) as nat
    };
    lemma_advanced(len, pos, steps);
    if target >= pos {
        lemma_small_mod(target as nat, len as nat);
    } else {
        vstd::arithmetic::div_mod::lemma_mod_add_multiples_vanish(target, len);
        lemma_small_mod(target as nat, len as nat);
    }
    assert(steps < len && advanced(len, pos, steps) == target);
    lemma_advanced(len, pos, len as nat);
    vstd::arithmetic::div_mod::lemma_mod_add_multiples_vanish(pos, len);
    lemma_small_mod(pos as nat, len as nat);
    assert(pos + len == len + pos);
}

/// Index of the first probe from `from` on, and before `to`, that registered
/// an activation.
pub open spec fn first_activated<A>(probes: Seq<ProbeResult<A>>, from: int, to: int) -> Option<
    int,
>
    decreases to - from,
{
    if from >= to || from < 0 || from >= probes.len() {
        None
    } else if probes[from] is Activated {
        Some(from)
    } else {
        first_activated(probes, from + 1, to)
    }
}

/// Index of the probe that a lost position is recovered from: the first
/// activation in the upper half of the window, or else the first one in the
/// lower half.
pub open spec fn located<A>(probes: Seq<ProbeResult<A>>) -> Option<int> {
    match first_activated(probes, WINDOW_SIZE as int / 2, probes.len() as int) {
        Some(i) => Some(i),
        None => first_activated(probes, 0, WINDOW_SIZE as int / 2),
    }
}

/// What `first_activated` finds is an activation within the range, with no
/// other before it; it finds nothing only where the range holds none.
pub proof fn lemma_first_activated<A>(probes: Seq<ProbeResult<A>>, from: int, to: int)
    requires
        0 <= from,
    ensures
        first_activated(probes, from, to) matches Some(i) ==> from <= i < to && i < probes.len()
            && probes[i] is Activated && forall|j: int| from <= j < i ==> !(#[trigger] probes[j]
            is Activated),
        first_activated(probes, from, to) is None ==> forall|j: int|
            from <= j < to && j < probes.len() ==> !(#[trigger] probes[j] is Activated),
    decreases to - from,
{
    if from >= to || from >= probes.len() {
    } else if probes[from] is Activated {
    } else {
        lemma_first_activated(probes, from + 1, to);
    }
}

/// The sets that the slots of the receive ring map to, in the order in which
/// the slots are filled.
#[derive(Debug, Clone, PartialEq, Eq)]
pub struct Pattern(Vec<SetCode>);

impl View for Pattern {
    type V = Seq<SetCode>;

    closed spec fn view(&self) -> Seq<SetCode> {
        self.0@
    }
}

impl Default for Pattern {
    fn default() -> (p: Pattern)
        ensures
            p@ == Seq::<SetCode>::empty(),
    {
        Pattern(Vec::new())
    }
}

impl From<Vec<SetCode>> for Pattern {
    fn from(codes: Vec<SetCode>) -> (p: Pattern) {
        Pattern(codes)
    }
}

impl vstd::std_specs::convert::FromSpecImpl<Vec<SetCode>> for Pattern {
    open spec fn obeys_from_spec() -> bool {
        true
    }

    closed spec fn from_spec(codes: Vec<SetCode>) -> Pattern {
        Pattern(codes)
    }
}

/// The pattern that is made from a list of sets holds these sets, in their
/// order.
pub proof fn lemma_pattern_from(codes: Vec<SetCode>)
    ensures
        <Pattern as vstd::std_specs::convert::FromSpec<Vec<SetCode>>>::from_spec(codes)@ == codes@,
{
}

/// The colors of the traces, each once.
fn colors_of(patterns: &PossiblePatterns) -> (r: Vec<ColorCode>)
    ensures
        r@.no_duplicates(),
        r@.to_set() == patterns@.dom(),
{
    broadcast use vstd::std_specs::hash::group_hash_axioms;

    let mut out: Vec<ColorCode> = Vec::new();
    for k in it: patterns.keys()
        invariant
            it.seq() == spec_keys_iter(patterns).remaining(),
            out@ == it.seq().subrange(0, it.index() as int).unref(),
    {
        out.push(*k);
        proof {
            assert(out@ =~= it.seq().subrange(0, it.index() + 1).unref());
        }
    }
    proof {
        let all = spec_keys_iter(patterns).remaining();
        assert(all.subrange(0, all.len() as int) =~= all);
        assert forall|i: int, j: int|
            0 <= i < out@.len() && 0 <= j < out@.len() && i != j implies out@[i] != out@[j] by {
            assert(all[i] != all[j]);
        }
    }
    out
}

/// Counts the sightings of set `v` at position `pos` of a pass.
fn count_votes(trace: &[Sighting], chunk: usize, pos: usize, v: ColoredSetCode) -> (n: usize)
    requires
        chunk > 0,
    ensures
        n == tally(trace@, chunk as int, pos as int, v, trace@.len() as int),
{
    let mut n: usize = 0;
    let mut i: usize = 0;
    while i < trace.len()
        invariant
            chunk > 0,
            i <= trace.len(),
            n <= i,
            n == tally(trace@, chunk as int, pos as int, v, i as int),
        decreases trace.len() - i,
    {
        if i % chunk == pos {
            match trace[i] {
                Some(w) => {
                    if w == v {
                        n += 1;
                    }
                },
                None => {},
            }
        }
        i += 1;
    }
    n
}

/// The set that was sighted at position `pos` more often than any other, if
/// there is one.
fn winner_at(trace: &[Sighting], chunk: usize, pos: usize) -> (r: Option<ColoredSetCode>)
    requires
        chunk > 0,
        chunk == pass_len(trace@),
    ensures
        r matches Some(v) ==> wins(trace@, pos as int, v),
        r is None ==> forall|v: usize| !wins(trace@, pos as int, v),
{
    let mut best: Option<ColoredSetCode> = None;
    let mut best_votes: usize = 0;
    let mut tied = false;
    let ghost mut rival: usize = 0;
    let mut i: usize = 0;
    while i < trace.len()
        invariant
            chunk > 0,
            chunk == pass_len(trace@),
            i <= trace.len(),
            best is None ==> forall|j: int|
                0 <= j < i && j % (chunk as int) == pos ==> (#[trigger] trace@[j]) is None,
            best matches Some(b) ==> best_votes == votes(trace@, pos as int, b) && best_votes > 0,
            forall|j: int|
                0 <= j < i && j % (chunk as int) == pos && (#[trigger] trace@[j]) is Some ==> votes(
                    trace@,
                    pos as int,
                    trace@[j].unwrap(),
                ) <= best_votes,
            tied ==> best is Some && rival != best.unwrap() && votes(trace@, pos as int, rival)
                == best_votes,
            !tied ==> forall|j: int|
                0 <= j < i && j % (chunk as int) == pos && (#[trigger] trace@[j]) is Some
                    && trace@[j] != best ==> votes(trace@, pos as int, trace@[j].unwrap())
                    < best_votes,
        decreases trace.len() - i,
    {
        if i % chunk == pos {
            match trace[i] {
                Some(v) => {
                    let c = count_votes(trace, chunk, pos, v);
                    proof {
                        lemma_tally_sighted(
                            trace@,
                            chunk as int,
                            pos as int,
                            v,
                            trace@.len() as int,
                        );
                        assert(trace@[i as int] == Some(v));
                    }
                    if best.is_none() || c > best_votes {
                        best = Some(v);
                        best_votes = c;
                        tied = false;
                    } else if c == best_votes && Some(v) != best {
                        tied = true;
                        proof {
                            rival = v;
                        }
                    }
                },
                None => {},
            }
        }
        i += 1;
    }
    if tied {
        proof {
            let b = best.unwrap();
            assert forall|v: usize| !wins(trace@, pos as int, v) by {
                if v == b {
                    assert(votes(trace@, pos as int, rival) == votes(trace@, pos as int, b));
                } else if wins(trace@, pos as int, v) {
                    lemma_tally_sighted(
                        trace@,
                        chunk as int,
                        pos as int,
                        v,
                        trace@.len() as int,
                    );
                    let j = choose|j: int|
                        0 <= j < trace@.len() && j % (chunk as int) == pos as int
                            && #[trigger] trace@[j] == Some(v);
                    assert(trace@[j] is Some);
                    assert(votes(trace@, pos as int, v) <= best_votes);
                }
            }
        }
        return None;
    }
    proof {
        match best {
            Some(b) => {
                assert forall|w: usize| w != b implies votes(trace@, pos as int, w) < votes(
                    trace@,
                    pos as int,
                    b,
                ) by {
                    lemma_tally_sighted(
                        trace@,
                        chunk as int,
                        pos as int,
                        w,
                        trace@.len() as int,
                    );
                    if votes(trace@, pos as int, w) > 0 {
                        let j = choose|j: int|
                            0 <= j < trace@.len() && j % (chunk as int) == pos as int
                                && #[trigger] trace@[j] == Some(w);
                        assert(trace@[j] is Some && trace@[j] != best);
                    }
                }
            },
            None => {
                assert forall|v: usize| !wins(trace@, pos as int, v) by {
                    lemma_tally_sighted(
                        trace@,
                        chunk as int,
                        pos as int,
                        v,
                        trace@.len() as int,
                    );
                    if votes(trace@, pos as int, v) > 0 {
                        let j = choose|j: int|
                            0 <= j < trace@.len() && j % (chunk as int) == pos as int
                                && #[trigger] trace@[j] == Some(v);
                        assert(trace@[j] is None);
                    }
                }
            },
        }
    }
    best
}

/// The pattern that a trace shows, if it shows one.
pub fn pattern_of(trace: &[Sighting]) -> (r: Option<Vec<ColoredSetCode>>)
    ensures
        r matches Some(pat) ==> shows_pattern(trace@, pat@),
        r is None ==> !has_pattern(trace@),
{
    let chunk = trace.len() / REPEATINGS;
    let mut pat: Vec<ColoredSetCode> = Vec::with_capacity(chunk);
    if chunk == 0 {
        if trace.len() == 0 {
            return Some(pat);
        }
        return None;
    }
    let mut pos: usize = 0;
    while pos < chunk
        invariant
            chunk > 0,
            chunk == pass_len(trace@),
            pos <= chunk,
            pat@.len() == pos,
            forall|p: int| 0 <= p < pos ==> wins(trace@, p, #[trigger] pat@[p]),
        decreases chunk - pos,
    {
        match winner_at(trace, chunk, pos) {
            Some(v) => {
                pat.push(v);
            },
            None => {
                proof {
                    assert forall|other: Seq<ColoredSetCode>| !shows_pattern(trace@, other) by {
                        if shows_pattern(trace@, other) {
                            assert(wins(trace@, pos as int, other[pos as int]));
                        }
                    }
                }
                return None;
            },
        }
        pos += 1;
    }
    Some(pat)
}

impl Pattern {
    /// Number of positions of the pattern.
    pub fn len(&self) -> (n: usize)
        ensures
            n == self@.len(),
    {
        self.0.len()
    }

    /// Tests whether the pattern has no position.
    pub fn is_empty(&self) -> (b: bool)
        ensures
            b <==> self@.len() == 0,
    {
        self.0.len() == 0
    }

    /// The set at position `i`.
    pub fn get(&self, i: PatternIdx) -> (code: SetCode)
        requires
            i < self@.len(),
        ensures
            code == self@[i as int],
    {
        self.0[i]
    }

    /// The sets of the pattern, in their order.
    pub fn as_slice(&self) -> (s: &[SetCode])
        ensures
            s@ == self@,
    {
        self.0.as_slice()
    }

    /// Picks the pattern out of the traces of all colors. There is one if
    /// exactly one color has a trace that shows a pattern; its sets are then
    /// returned under the code of that color.
    pub fn find(patterns: PossiblePatterns) -> (r: Result<Pattern, Error>)
        ensures
            r is Ok <==> exists|color: ColorCode| decides(patterns@, color),
            r matches Ok(p) ==> exists|color: ColorCode, pat: Seq<ColoredSetCode>|
                decides(patterns@, color) && shows_pattern(patterns@[color]@, pat) && p@ == coded(
                    color,
                    pat,
                ),
            r matches Err(e) ==> e is Indecisive,
    {
        broadcast use vstd::std_specs::hash::group_hash_axioms;

        let colors = colors_of(&patterns);
        let mut found: Option<(ColorCode, Vec<ColoredSetCode>)> = None;
        let mut i: usize = 0;
        while i < colors.len()
            invariant
                i <= colors@.len(),
                colors@.no_duplicates(),
                colors@.to_set() == patterns@.dom(),
                found is None ==> forall|j: int|
                    0 <= j < i ==> !has_pattern(#[trigger] patterns@[colors@[j]]@),
                found matches Some(f) ==> exists|k: int|
                    0 <= k < i && colors@[k] == f.0 && shows_pattern(patterns@[f.0]@, f.1@)
                        && forall|j: int|
                        0 <= j < i && j != k ==> !has_pattern(#[trigger] patterns@[colors@[j]]@),
            decreases colors@.len() - i,
        {
            let color = colors[i];
            assert(colors@.to_set().contains(colors@[i as int]));
            let shown = match patterns.get(&color) {
                Some(trace) => pattern_of(trace.as_slice()),
                None => None,
            };
            match shown {
                Some(pat) => {
                    if found.is_some() {
                        proof {
                            let f = found.unwrap();
                            let k = choose|k: int|
                                0 <= k < i && colors@[k] == f.0 && shows_pattern(
                                    patterns@[f.0]@,
                                    f.1@,
                                );
                            assert forall|c: ColorCode| !decides(patterns@, c) by {
                                if decides(patterns@, c) {
                                    assert(patterns@.contains_key(color));
                                    assert(patterns@.contains_key(f.0));
                                    assert(has_pattern(patterns@[color]@));
                                    assert(has_pattern(patterns@[f.0]@));
                                    assert(colors@[k] != colors@[i as int]);
                                }
                            }
                        }
                        return Err(Error::Indecisive);
                    }
                    found = Some((color, pat));
                },
                None => {},
            }
            i += 1;
        }
        match found {
            Some((color, pat)) => {
                let mut codes: Vec<SetCode> = Vec::with_capacity(pat.len());
                let mut n: usize = 0;
                while n < pat.len()
                    invariant
                        n <= pat@.len(),
                        codes@ == Seq::new(n as nat, |i: int| SetCode(color, pat@[i])),
                    decreases pat@.len() - n,
                {
                    codes.push(SetCode(color, pat[n]));
                    n += 1;
                    proof {
                        assert(codes@ =~= Seq::new(n as nat, |i: int| SetCode(color, pat@[i])));
                    }
                }
                proof {
                    let k = choose|k: int|
                        0 <= k < colors@.len() && colors@[k] == color && shows_pattern(
                            patterns@[color]@,
                            pat@,
                        ) && forall|j: int|
                            0 <= j < colors@.len() && j != k ==> !has_pattern(
                                #[trigger] patterns@[colors@[j]]@,
                            );
                    assert(colors@.to_set().contains(colors@[k]));
                    assert forall|other: ColorCode|
                        patterns@.contains_key(other) && other != color implies !has_pattern(
                        #[trigger] patterns@[other]@,
                    ) by {
                        assert(colors@.to_set().contains(other));
                        let j = choose|j: int| 0 <= j < colors@.len() && colors@[j] == other;
                        assert(!has_pattern(patterns@[colors@[j]]@));
                    }
                    assert(decides(patterns@, color));
                    assert(codes@ == coded(color, pat@));
                }
                Ok(Pattern(codes))
            },
            None => {
                proof {
                    assert forall|c: ColorCode| !decides(patterns@, c) by {
                        if patterns@.contains_key(c) {
                            assert(colors@.to_set().contains(c));
                            let j = choose|j: int| 0 <= j < colors@.len() && colors@[j] == c;
                            assert(!has_pattern(patterns@[colors@[j]]@));
                        }
                    }
                }
                Err(Error::Indecisive)
            },
        }
    }

    /// The sets to watch around position `pos`: `WINDOW_SIZE` sets in the
    /// order of the pattern, taken round its end, with the set of `pos` at
    /// index `WINDOW_SIZE / 2`.
    pub fn window(&self, pos: PatternIdx) -> (w: Vec<SetCode>)
        requires
            self@.len() > 0,
        ensures
            w@.len() == WINDOW_SIZE,
            forall|k: int|
                0 <= k < WINDOW_SIZE ==> #[trigger] w@[k] == self@[(pos + k - WINDOW_SIZE / 2)
                    % (self@.len() as int)],
    {
        let len = self.0.len();
        let half = WINDOW_SIZE / 2;
        let at = pos % len;
        let behind = half % len;
        let mut idx = if at >= behind {
            at - behind
        } else {
            at + (len - behind)
        };
        proof {
            let l = len as int;
            vstd::arithmetic::div_mod::lemma_sub_mod_noop(pos as int, half as int, l);
            if at >= behind {
                lemma_small_mod((at - behind) as nat, l as nat);
            } else {
                vstd::arithmetic::div_mod::lemma_mod_add_multiples_vanish(at - behind, l);
                lemma_small_mod((at - behind + l) as nat, l as nat);
            }
        }
        let mut out: Vec<SetCode> = Vec::with_capacity(WINDOW_SIZE);
        let mut k: usize = 0;
        while k < WINDOW_SIZE
            invariant
                len == self@.len(),
                len > 0,
                k <= WINDOW_SIZE,
                idx == (pos + k - WINDOW_SIZE / 2) % (len as int),
                idx < len,
                out@.len() == k,
                forall|j: int|
                    0 <= j < k ==> #[trigger] out@[j] == self@[(pos + j - WINDOW_SIZE / 2) % (
                    len as int)],
            decreases WINDOW_SIZE - k,
        {
            out.push(self.0[idx]);
            proof {
                lemma_mod_step(pos + k - WINDOW_SIZE / 2, len as int);
            }
            idx = if idx + 1 == len {
                0
            } else {
                idx + 1
            };
            k += 1;
        }
        out
    }

    /// The position that follows `pos` in the pattern, taken round its end.
    pub fn next_pos(&self, pos: PatternIdx) -> (next: PatternIdx)
        requires
            self@.len() > 0,
        ensures
            next == (pos + 1) % (self@.len() as int),
            pos < self@.len() ==> next == advanced(self@.len() as int, pos as int, 1),
    {
        let len = self.0.len();
        let at = pos % len;
        proof {
            lemma_mod_step(pos as int, len as int);
            reveal_with_fuel(advanced, 2);
            if pos < len {
                lemma_small_mod(pos as nat, len as nat);
            }
        }
        if at + 1 == len {
            0
        } else {
            at + 1
        }
    }

    /// Finds the position that is expected next from the probes of the
    /// window around `pos`. The first activation in the upper half of the
    /// window tells it; where there is none, the first one in the lower half
    /// does. The probe at index `i` stands for the position
    /// `pos + i - WINDOW_SIZE / 2`, taken round the pattern, and the position
    /// that follows that one is expected next. Fails where no probe
    /// registered an activation. On an empty pattern there is no position to
    /// recover: it is to be asked for stale probes only.
    pub fn recover_next<A>(&self, pos: PatternIdx, probe_res: &[ProbeResult<A>]) -> (r: Result<
        PatternIdx,
        Error,
    >)
        requires
            self@.len() > 0 || forall|i: int|
                0 <= i < probe_res@.len() ==> #[trigger] probe_res@[i] is Stale,
        ensures
            match located(probe_res@) {
                Some(i) => r matches Ok(p) && p == (pos + i - WINDOW_SIZE / 2 + 1) % (
                self@.len() as int),
                None => r matches Err(e) && e is Unrecoverable,
            },
            r is Err <==> forall|i: int|
                0 <= i < probe_res@.len() ==> #[trigger] probe_res@[i] is Stale,
    {
        let len = self.0.len();
        let half = WINDOW_SIZE / 2;
        proof {
            lemma_first_activated(probe_res@, half as int, probe_res@.len() as int);
            lemma_first_activated(probe_res@, 0, half as int);
        }
        if len == 0 {
            return Err(Error::Unrecoverable);
        }
        let mut i: usize = half;
        while i < probe_res.len()
            invariant
                len == self@.len(),
                len > 0,
                half == WINDOW_SIZE / 2,
                half <= i,
                forall|j: int|
                    half <= j < i && j < probe_res@.len() ==> !(#[trigger] probe_res@[j]
                        is Activated),
            decreases probe_res.len() - i,
        {
            if probe_res[i].is_activated() {
                // The sets from the middle of the window on follow the position.
                let ahead = (i - half) % len;
                let at = pos % len;
                proof {
                    lemma_first_activated(probe_res@, half as int, probe_res@.len() as int);
                    lemma_add_mod_noop(pos as int, i - half, len as int);
                }
                let sum = if at >= len - ahead {
                    at - (len - ahead)
                } else {
                    at + ahead
                };
                proof {
                    let l = len as int;
                    if at >= len - ahead {
                        vstd::arithmetic::div_mod::lemma_mod_add_multiples_vanish(
                            at + ahead - l,
                            l,
                        );
                        lemma_small_mod((at + ahead - l) as nat, l as nat);
                    } else {
                        lemma_small_mod((at + ahead) as nat, l as nat);
                    }
                    lemma_mod_step(pos + i - half, l);
                }
                let next = if sum + 1 == len {
                    0
                } else {
                    sum + 1
                };
                return Ok(next);
            }
            i += 1;
        }
        let mut i: usize = 0;
        while i < half && i < probe_res.len()
            invariant
                len == self@.len(),
                len > 0,
                half == WINDOW_SIZE / 2,
                i <= half,
                forall|j: int|
                    half <= j < probe_res@.len() ==> !(#[trigger] probe_res@[j] is Activated),
                forall|j: int|
                    0 <= j < i && j < probe_res@.len() ==> !(#[trigger] probe_res@[j]
                        is Activated),
            decreases half - i,
        {
            if probe_res[i].is_activated() {
                // The sets before the middle of the window precede the position.
                let behind = (half - i) % len;
                let at = pos % len;
                proof {
                    lemma_first_activated(probe_res@, half as int, probe_res@.len() as int);
                    lemma_first_activated(probe_res@, 0, half as int);
                    vstd::arithmetic::div_mod::lemma_sub_mod_noop(
                        pos as int,
                        half - i,
                        len as int,
                    );
                }
                let diff = if at >= behind {
                    at - behind
                } else {
                    at + (len - behind)
                };
                proof {
                    let l = len as int;
                    if at >= behind {
                        lemma_small_mod((at - behind) as nat, l as nat);
                    } else {
                        vstd::arithmetic::div_mod::lemma_mod_add_multiples_vanish(
                            at - behind,
                            l,
                        );
                        lemma_small_mod((at - behind + l) as nat, l as nat);
                    }
                    lemma_mod_step(pos - (half - i), l);
                }
                let next = if diff + 1 == len {
                    0
                } else {
                    diff + 1
                };
                return Ok(next);
            }
            i += 1;
        }
        proof {
            lemma_first_activated(probe_res@, half as int, probe_res@.len() as int);
            lemma_first_activated(probe_res@, 0, half as int);
        }
        Err(Error::Unrecoverable)
    }
}

} // verus!
