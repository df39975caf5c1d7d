//! Full-sequence matching and derivation of matching blocks.
//!
//! A `SequenceMatcher` validates its inputs once (every element must be
//! hashable), computes the raw match list eagerly, and then answers queries
//! as pure functions of that fixed list.

use crate::element::all_hashable;
use crate::element::keys_of;
use crate::element::DiffError;
use crate::element::Element;
use crate::lcs::matches_agree;
use crate::lcs::matches_sorted;
use crate::recurse::diagonal_matches;
use crate::recurse::recurse_matches;
use vstd::prelude::*;

verus! {

/// Recursion budget for the initial full-range matching pass: generous for
/// realistic inputs, and a hard ceiling on adversarial ones.
pub const MAX_RECURSION: i32 = 10;

/// Two consecutive matches continue one run: both coordinates advance by one.
pub open spec fn step_adjacent(ms: Seq<(usize, usize)>, t: int) -> bool {
    ms[t].0 == ms[t - 1].0 + 1 && ms[t].1 == ms[t - 1].1 + 1
}

/// End (exclusive) of the maximal run of consecutive matches starting at `k`.
pub open spec fn run_end(ms: Seq<(usize, usize)>, k: int) -> int
    decreases ms.len() - k
    when 0 <= k < ms.len()
{
    if k + 1 < ms.len() && step_adjacent(ms, k + 1) {
        run_end(ms, k + 1)
    } else {
        k + 1
    }
}

/// Matching blocks derived from the match list, from run start `k` on:
/// one maximal block per run, closed by the sentinel block.
pub open spec fn blocks_from(
    ms: Seq<(usize, usize)>,
    k: int,
    alen: usize,
    blen: usize,
) -> Seq<(usize, usize, usize)>
    decreases ms.len() - k
    when 0 <= k <= ms.len()
    via blocks_from_decreases
{
    if k >= ms.len() {
        seq![(alen, blen, 0usize)]
    } else {
        seq![(ms[k].0, ms[k].1, ((run_end(ms, k) - k) as usize))] + blocks_from(
            ms,
            run_end(ms, k),
            alen,
            blen,
        )
    }
}

#[via_fn]
proof fn blocks_from_decreases(ms: Seq<(usize, usize)>, k: int, alen: usize, blen: usize) {
    if k < ms.len() {
        lemma_run_end_props(ms, k);
    }
}

/// A block `(i, j, n)` denotes `n` aligned positions: the slices of length
/// `n` at `a[i..]` and `b[j..]` are in bounds and element-wise equal.
pub open spec fn block_wf(blk: (usize, usize, usize), a: Seq<u64>, b: Seq<u64>) -> bool {
    &&& blk.0 + blk.2 <= a.len()
    &&& blk.1 + blk.2 <= b.len()
    &&& a.subrange(blk.0 as int, blk.0 + blk.2) == b.subrange(blk.1 as int, blk.1 + blk.2)
}

/// Shape of a matching-block list for sequences of the given lengths:
/// non-empty, closed by the sentinel `(len(a), len(b), 0)` which is the only
/// block with `n == 0`; monotonic and non-overlapping in both coordinates;
/// maximal (consecutive real blocks never abut in both coordinates at once);
/// and each block aligns equal slices.
pub open spec fn blocks_valid(bs: Seq<(usize, usize, usize)>, a: Seq<u64>, b: Seq<u64>) -> bool {
    &&& bs.len() >= 1
    &&& bs[bs.len() - 1] == ((a.len() as usize), (b.len() as usize), 0usize)
    &&& (forall|k: int| 0 <= k < bs.len() - 1 ==> (#[trigger] bs[k]).2 > 0)
    &&& (forall|k: int|
        0 <= k < bs.len() - 1 ==> (#[trigger] bs[k]).0 + bs[k].2 <= bs[k + 1].0 && bs[k].1
            + bs[k].2 <= bs[k + 1].1)
    &&& (forall|k: int|
        0 <= k < bs.len() - 2 ==> !((#[trigger] bs[k]).0 + bs[k].2 == bs[k + 1].0 && bs[k].1
            + bs[k].2 == bs[k + 1].1))
    &&& (forall|k: int| 0 <= k < bs.len() ==> block_wf(#[trigger] bs[k], a, b))
}

/// Properties of a maximal run: it is non-empty, stays inside the list,
/// advances both coordinates in lockstep, and stops exactly where the
/// lockstep breaks.
proof fn lemma_run_end_props(ms: Seq<(usize, usize)>, k: int)
    requires
        0 <= k < ms.len(),
    ensures
        k < run_end(ms, k) <= ms.len(),
        forall|t: int| k < t < run_end(ms, k) ==> step_adjacent(ms, t),
        run_end(ms, k) == ms.len() || !step_adjacent(ms, run_end(ms, k)),
        forall|t: int|
            k <= t < run_end(ms, k) ==> (#[trigger] ms[t]).0 == ms[k].0 + (t - k) && ms[t].1
                == ms[k].1 + (t - k),
    decreases ms.len() - k,
{
    if k + 1 < ms.len() && step_adjacent(ms, k + 1) {
        lemma_run_end_props(ms, k + 1);
    }
}

/// The run end is characterized by its stopping conditions; this lets the
/// iterative search used in executable code meet the recursive definition.
proof fn lemma_run_end_is(ms: Seq<(usize, usize)>, k: int, e: int)
    requires
        0 <= k < e <= ms.len(),
        forall|t: int| k < t < e ==> step_adjacent(ms, t),
        e == ms.len() || !step_adjacent(ms, e),
    ensures
        run_end(ms, k) == e,
    decreases e - k,
{
    if e == k + 1 {
        if k + 1 < ms.len() {
            assert(!step_adjacent(ms, k + 1));
        }
    } else {
        assert(step_adjacent(ms, k + 1));
        lemma_run_end_is(ms, k + 1, e);
    }
}

/// The blocks derived from a sorted, agreeing match list are valid.
proof fn lemma_blocks_from_valid(ms: Seq<(usize, usize)>, k: int, a: Seq<u64>, b: Seq<u64>)
    requires
        matches_sorted(ms),
        matches_agree(ms, a, b),
        0 <= k <= ms.len(),
        a.len() <= usize::MAX,
        b.len() <= usize::MAX,
    ensures
        blocks_valid(blocks_from(ms, k, a.len() as usize, b.len() as usize), a, b),
        k < ms.len() ==> blocks_from(ms, k, a.len() as usize, b.len() as usize)[0] == (
            ms[k].0,
            ms[k].1,
            ((run_end(ms, k) - k) as usize),
        ),
        k >= ms.len() ==> blocks_from(ms, k, a.len() as usize, b.len() as usize).len() == 1,
    decreases ms.len() - k,
{
    let alen = a.len() as usize;
    let blen = b.len() as usize;
    let bs = blocks_from(ms, k, alen, blen);
    if k >= ms.len() {
        assert(a.subrange(alen as int, alen as int) =~= b.subrange(blen as int, blen as int));
        assert(block_wf(bs[0], a, b));
    } else {
        lemma_run_end_props(ms, k);
        let e = run_end(ms, k);
        lemma_blocks_from_valid(ms, e, a, b);
        let rest = blocks_from(ms, e, alen, blen);
        let head = (ms[k].0, ms[k].1, ((e - k) as usize));
        assert(bs == seq![head] + rest);
        // The head block aligns equal slices.
        assert(ms[e - 1].0 == ms[k].0 + (e - 1 - k) && ms[e - 1].1 == ms[k].1 + (e - 1 - k));
        assert(ms[e - 1].0 < a.len() && ms[e - 1].1 < b.len());
        let sa = a.subrange(head.0 as int, head.0 + head.2);
        let sb = b.subrange(head.1 as int, head.1 + head.2);
        assert forall|x: int| 0 <= x < head.2 implies sa[x] == sb[x] by {
            assert(ms[k + x].0 == ms[k].0 + x && ms[k + x].1 == ms[k].1 + x);
            assert(a[ms[k + x].0 as int] == b[ms[k + x].1 as int]);
        }
        assert(sa =~= sb);
        assert(block_wf(head, a, b));
        // Ordering between the head and the first block of the rest.
        if e < ms.len() {
            assert(rest[0] == (ms[e].0, ms[e].1, ((run_end(ms, e) - e) as usize)));
            assert(ms[e - 1].0 < ms[e].0 && ms[e - 1].1 < ms[e].1);
            assert(!step_adjacent(ms, e));
        }
        assert forall|k2: int|
            0 <= k2 < bs.len() - 1 implies (#[trigger] bs[k2]).2 > 0 && bs[k2].0 + bs[k2].2 <= bs[
            k2 + 1].0 && bs[k2].1 + bs[k2].2 <= bs[k2 + 1].1 by {
            if k2 == 0 {
                assert(bs[0] == head && bs[1] == rest[0]);
            } else {
                assert(bs[k2] == rest[k2 - 1] && bs[k2 + 1] == rest[k2]);
            }
        }
        assert forall|k2: int|
            0 <= k2 < bs.len() - 2 implies !((#[trigger] bs[k2]).0 + bs[k2].2 == bs[k2 + 1].0 && bs[
            k2].1 + bs[k2].2 == bs[k2 + 1].1) by {
            if k2 == 0 {
                assert(bs[0] == head && bs[1] == rest[0]);
                assert(e < ms.len());
            } else {
                assert(bs[k2] == rest[k2 - 1] && bs[k2 + 1] == rest[k2]);
            }
        }
        assert forall|k2: int| 0 <= k2 < bs.len() implies block_wf(#[trigger] bs[k2], a, b) by {
            if k2 > 0 {
                assert(bs[k2] == rest[k2 - 1]);
            }
        }
        assert(bs[bs.len() - 1] == rest[rest.len() - 1]);
    }
}

/// Matcher over two fixed sequences of interned element keys.
///
/// The match list is computed once at construction; every query afterwards
/// is a pure derivation over it, so repeated calls return identical results.
pub struct SequenceMatcher {
    a: Vec<u64>,
    b: Vec<u64>,
    matches: Vec<(usize, usize)>,
}

impl SequenceMatcher {
    /// The first sequence, as interned keys.
    pub closed spec fn seq_a(&self) -> Seq<u64> {
        self.a@
    }

    /// The second sequence, as interned keys.
    pub closed spec fn seq_b(&self) -> Seq<u64> {
        self.b@
    }

    /// The raw match list computed at construction.
    pub closed spec fn match_list(&self) -> Seq<(usize, usize)> {
        self.matches@
    }

    /// Validity: the match list is strictly ascending in both coordinates
    /// and every match aligns equal keys. Construction establishes this and
    /// nothing ever mutates a matcher.
    pub open spec fn wf(&self) -> bool {
        &&& matches_sorted(self.match_list())
        &&& matches_agree(self.match_list(), self.seq_a(), self.seq_b())
    }

    /// The matching blocks this matcher's queries derive their answers from.
    pub open spec fn spec_blocks(&self) -> Seq<(usize, usize, usize)> {
        blocks_from(
            self.match_list(),
            0,
            self.seq_a().len() as usize,
            self.seq_b().len() as usize,
        )
    }

    /// Length of the first sequence.
    pub fn len_a(&self) -> (n: usize)
        ensures
            n == self.seq_a().len(),
    {
        self.a.len()
    }

    /// Length of the second sequence.
    pub fn len_b(&self) -> (n: usize)
        ensures
            n == self.seq_b().len(),
    {
        self.b.len()
    }

    /// Build a matcher for the two element sequences.
    ///
    /// Fails with `DiffError::UnhashableElement`, producing no matcher, as
    /// soon as any input element lacks the hash capability; otherwise the
    /// whole range is matched eagerly with the fixed recursion budget.
    #[verifier::loop_isolation(false)]
    pub fn new(a: &Vec<Element>, b: &Vec<Element>) -> (r: Result<SequenceMatcher, DiffError>)
        ensures
            r is Ok <==> (all_hashable(a@) && all_hashable(b@)),
            r matches Ok(m) ==> m.wf() && m.seq_a() == keys_of(a@) && m.seq_b() == keys_of(b@),
            r is Err ==> r == Err::<SequenceMatcher, DiffError>(DiffError::UnhashableElement),
            (keys_of(a@) == keys_of(b@) && a@.len() <= MAX_RECURSION as int) ==> (r matches Ok(m)
                ==> m.match_list() == diagonal_matches(0, 0, a@.len() as int)),
    {
        let mut ka: Vec<u64> = Vec::new();
        let mut i: usize = 0;
        while i < a.len()
            invariant
                i <= a@.len(),
                ka@.len() == i,
                forall|x: int| 0 <= x < i ==> a@[x].is_hashable(),
                forall|x: int| 0 <= x < i ==> #[trigger] ka@[x] == a@[x].spec_key(),
            decreases a@.len() - i,
        {
            match a[i] {
                Element::Value(key) => {
                    ka.push(key);
                },
                Element::Unhashable => {
                    return Err(DiffError::UnhashableElement);
                },
            }
            i = i + 1;
        }
        let mut kb: Vec<u64> = Vec::new();
        let mut j: usize = 0;
        while j < b.len()
            invariant
                j <= b@.len(),
                kb@.len() == j,
                forall|x: int| 0 <= x < j ==> b@[x].is_hashable(),
                forall|x: int| 0 <= x < j ==> #[trigger] kb@[x] == b@[x].spec_key(),
            decreases b@.len() - j,
        {
            match b[j] {
                Element::Value(key) => {
                    kb.push(key);
                },
                Element::Unhashable => {
                    return Err(DiffError::UnhashableElement);
                },
            }
            j = j + 1;
        }
        assert(ka@ =~= keys_of(a@));
        assert(kb@ =~= keys_of(b@));
        let alen = ka.len();
        let blen = kb.len();
        let mut matches: Vec<(usize, usize)> = Vec::new();
        recurse_matches(&ka, &kb, 0, 0, alen, blen, &mut matches, MAX_RECURSION);
        proof {
            assert(matches@.skip(0) =~= matches@);
            if ka@ == kb@ && ka@.len() <= MAX_RECURSION as int {
                assert forall|s: int| 0 <= s < alen as int implies ka@[s] == kb@[s - 0 + 0] by {}
                assert(matches@ == Seq::<(usize, usize)>::empty() + diagonal_matches(
                    0,
                    0,
                    alen as int,
                ));
                assert(Seq::<(usize, usize)>::empty() + diagonal_matches(0, 0, alen as int)
                    =~= diagonal_matches(0, 0, alen as int));
            }
        }
        Ok(SequenceMatcher { a: ka, b: kb, matches })
    }

    /// Matching blocks: maximal runs `(i, j, n)` with `a[i..i+n] == b[j..j+n]`,
    /// monotonically increasing in `i` and `j`, closed by the sentinel
    /// `(len(a), len(b), 0)` — the unique block with `n == 0`.
    #[verifier::loop_isolation(false)]
    pub fn get_matching_blocks(&self) -> (r: Vec<(usize, usize, usize)>)
        requires
            self.wf(),
        ensures
            r@ == self.spec_blocks(),
            blocks_valid(r@, self.seq_a(), self.seq_b()),
    {
        let alen = self.a.len();
        let blen = self.b.len();
        let ms = &self.matches;
        proof {
            lemma_blocks_from_valid(ms@, 0, self.seq_a(), self.seq_b());
        }
        let mut r: Vec<(usize, usize, usize)> = Vec::new();
        let mut k: usize = 0;
        while k < ms.len()
            invariant
                k <= ms@.len(),
                r@ + blocks_from(ms@, k as int, alen, blen) == self.spec_blocks(),
            decreases ms@.len() - k,
        {
            let i0 = ms[k].0;
            let j0 = ms[k].1;
            let mut e: usize = k + 1;
            while e < ms.len() && ms[e].0 == ms[e - 1].0 + 1 && ms[e].1 == ms[e - 1].1 + 1
                invariant
                    k < e <= ms@.len(),
                    forall|t: int| k < t < e ==> step_adjacent(ms@, t),
                decreases ms@.len() - e,
            {
                e = e + 1;
            }
            proof {
                lemma_run_end_is(ms@, k as int, e as int);
            }
            let ghost r0 = r@;
            r.push((i0, j0, e - k));
            proof {
                assert(blocks_from(ms@, k as int, alen, blen) == seq![
                    (i0, j0, ((e - k) as usize)),
                ] + blocks_from(ms@, e as int, alen, blen));
                assert(r@ + blocks_from(ms@, e as int, alen, blen) =~= r0 + blocks_from(
                    ms@,
                    k as int,
                    alen,
                    blen,
                ));
            }
            k = e;
        }
        let ghost r1 = r@;
        r.push((alen, blen, 0));
        proof {
            assert(blocks_from(ms@, k as int, alen, blen) =~= seq![(alen, blen, 0usize)]);
            assert(r@ =~= r1 + blocks_from(ms@, k as int, alen, blen));
        }
        r
    }
}

} // verus!
