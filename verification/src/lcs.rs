//! Longest common subsequence over uniquely-occurring elements, found with
//! patience sorting.
//!
//! A match is a pair `(i, j)` meaning `a[i] == b[j]`. The functions here
//! promise that every returned match really aligns equal keys and that the
//! list is strictly increasing in both coordinates (no crossing).

use std::collections::HashMap;
use vstd::prelude::*;

verus! {

broadcast use vstd::std_specs::hash::group_hash_axioms;

/// The match list is strictly increasing in both coordinates.
pub open spec fn matches_sorted(ms: Seq<(usize, usize)>) -> bool {
    forall|k: int, l: int|
        0 <= k < l < ms.len() ==> (#[trigger] ms[k]).0 < (#[trigger] ms[l]).0 && ms[k].1 < ms[l].1
}

/// Every match `(i, j)` is in bounds and aligns equal keys: `a[i] == b[j]`.
pub open spec fn matches_agree(ms: Seq<(usize, usize)>, a: Seq<u64>, b: Seq<u64>) -> bool {
    forall|k: int|
        0 <= k < ms.len() ==> (#[trigger] ms[k]).0 < a.len() && ms[k].1 < b.len()
            && a[ms[k].0 as int] == b[ms[k].1 as int]
}

/// Every match lies inside the rectangle `[alo, ahi) x [blo, bhi)`.
pub open spec fn matches_in_range(
    ms: Seq<(usize, usize)>,
    alo: int,
    ahi: int,
    blo: int,
    bhi: int,
) -> bool {
    forall|k: int|
        0 <= k < ms.len() ==> alo <= (#[trigger] ms[k]).0 < ahi && blo <= ms[k].1 < bhi
}

/// Number of occurrences of `v` in `s`.
pub open spec fn count_of(s: Seq<u64>, v: u64) -> nat
    decreases s.len(),
{
    if s.len() == 0 {
        0
    } else {
        count_of(s.drop_last(), v) + (if s.last() == v {
            1nat
        } else {
            0nat
        })
    }
}

/// Every match points at a key that occurs exactly once in `a` and exactly
/// once in `b`.
pub open spec fn matches_unique(ms: Seq<(usize, usize)>, a: Seq<u64>, b: Seq<u64>) -> bool {
    forall|k: int|
        0 <= k < ms.len() ==> count_of(a, a[(#[trigger] ms[k]).0 as int]) == 1 && count_of(
            b,
            b[ms[k].1 as int],
        ) == 1
}

/// `(x, y)` aligns a key that occurs exactly once in each sequence.
pub open spec fn unique_pair(a: Seq<u64>, b: Seq<u64>, x: int, y: int) -> bool {
    &&& 0 <= x < a.len()
    &&& 0 <= y < b.len()
    &&& a[x] == b[y]
    &&& count_of(a, a[x]) == 1
    &&& count_of(b, b[y]) == 1
}

/// A key found at some index occurs at least once.
pub(crate) proof fn lemma_count_has_index(s: Seq<u64>, v: u64, x: int)
    requires
        0 <= x < s.len(),
        s[x] == v,
    ensures
        count_of(s, v) >= 1,
    decreases s.len(),
{
    if x < s.len() - 1 {
        lemma_count_has_index(s.drop_last(), v, x);
    }
}

/// A key that occurs exactly once has exactly one index.
pub(crate) proof fn lemma_count_unique_index(s: Seq<u64>, v: u64, x: int, y: int)
    requires
        count_of(s, v) == 1,
        0 <= x < s.len(),
        0 <= y < s.len(),
        s[x] == v,
        s[y] == v,
    ensures
        x == y,
    decreases s.len(),
{
    if x != y {
        let n = s.len() - 1;
        if x == n {
            lemma_count_has_index(s.drop_last(), v, y);
        } else if y == n {
            lemma_count_has_index(s.drop_last(), v, x);
        } else {
            lemma_count_has_index(s.drop_last(), v, x);
            lemma_count_unique_index(s.drop_last(), v, x, y);
        }
    }
}

proof fn lemma_count_step(s: Seq<u64>, i: int, v: u64)
    requires
        0 <= i < s.len(),
    ensures
        count_of(s.take(i + 1), v) == count_of(s.take(i), v) + (if s[i] == v {
            1nat
        } else {
            0nat
        }),
{
    assert(s.take(i + 1).drop_last() =~= s.take(i));
    assert(s.take(i + 1).last() == s[i]);
}

/// A back-pointer entry is consistent: it points strictly backwards, to a
/// candidate with a strictly smaller second coordinate.
pub open spec fn back_ok_at(backs: Seq<Option<usize>>, cands: Seq<(usize, usize)>, t: int) -> bool {
    match backs[t] {
        Some(u) => u < t && cands[u as int].1 < cands[t].1,
        None => true,
    }
}

/// The back-pointer of candidate `t` descends exactly one pile.
pub open spec fn pile_step_at(backs: Seq<Option<usize>>, pof: Seq<int>, t: int) -> bool {
    match backs[t] {
        Some(u) => pof[u as int] == pof[t] - 1,
        None => pof[t] == 0,
    }
}

/// Map each key that occurs in `s` to its first index and its number of
/// occurrences; keys absent from the map do not occur in `s` at all.
#[verifier::loop_isolation(false)]
fn build_index(s: &Vec<u64>) -> (m: HashMap<u64, (usize, usize)>)
    ensures
        forall|v: u64|
            #[trigger] m@.contains_key(v) ==> m@[v].0 < s@.len() && s@[m@[v].0 as int] == v
                && m@[v].1 == count_of(s@, v),
        forall|v: u64| !(#[trigger] m@.contains_key(v)) ==> count_of(s@, v) == 0,
{
    let mut m: HashMap<u64, (usize, usize)> = HashMap::new();
    let mut i: usize = 0;
    while i < s.len()
        invariant
            i <= s@.len(),
            forall|v: u64|
                #[trigger] m@.contains_key(v) ==> m@[v].0 < s@.len() && s@[m@[v].0 as int] == v
                    && m@[v].1 == count_of(s@.take(i as int), v) && m@[v].1 <= i,
            forall|v: u64|
                !(#[trigger] m@.contains_key(v)) ==> count_of(s@.take(i as int), v) == 0,
        decreases s@.len() - i,
    {
        let v = s[i];
        match m.get(&v) {
            Some(p) => {
                let first = p.0;
                let seen = p.1;
                m.insert(v, (first, seen + 1));
            },
            None => {
                m.insert(v, (i, 1));
            },
        }
        proof {
            assert forall|w: u64| #[trigger] m@.contains_key(w) implies m@[w].0 < s@.len()
                && s@[m@[w].0 as int] == w && m@[w].1 == count_of(s@.take(i as int + 1), w)
                && m@[w].1 <= i + 1 by {
                lemma_count_step(s@, i as int, w);
            }
            assert forall|w: u64| !(#[trigger] m@.contains_key(w)) implies count_of(
                s@.take(i as int + 1),
                w,
            ) == 0 by {
                lemma_count_step(s@, i as int, w);
            }
        }
        i = i + 1;
    }
    proof {
        assert(s@.take(s@.len() as int) =~= s@);
    }
    m
}

/// Candidate matches: pairs `(i, j)` where the key at `a[i]` occurs exactly
/// once in `a` and exactly once in `b`, at `b[j]`; ascending in `i`.
#[verifier::loop_isolation(false)]
fn build_candidates(a: &Vec<u64>, b: &Vec<u64>) -> (cands: Vec<(usize, usize)>)
    ensures
        matches_agree(cands@, a@, b@),
        matches_unique(cands@, a@, b@),
        forall|k: int, l: int|
            0 <= k < l < cands@.len() ==> (#[trigger] cands@[k]).0 < (#[trigger] cands@[l]).0,
        forall|x: int, y: int|
            #[trigger] unique_pair(a@, b@, x, y) ==> exists|k: int|
                0 <= k < cands@.len() && (#[trigger] cands@[k]).0 == x && cands@[k].1 == y,
{
    let amap = build_index(a);
    let bmap = build_index(b);
    let mut cands: Vec<(usize, usize)> = Vec::new();
    let mut i: usize = 0;
    while i < a.len()
        invariant
            i <= a@.len(),
            matches_agree(cands@, a@, b@),
            matches_unique(cands@, a@, b@),
            forall|k: int| 0 <= k < cands@.len() ==> (#[trigger] cands@[k]).0 < i,
            forall|k: int, l: int|
                0 <= k < l < cands@.len() ==> (#[trigger] cands@[k]).0 < (#[trigger] cands@[l]).0,
            forall|x: int, y: int|
                x < i && #[trigger] unique_pair(a@, b@, x, y) ==> exists|k: int|
                    0 <= k < cands@.len() && (#[trigger] cands@[k]).0 == x && cands@[k].1 == y,
        decreases a@.len() - i,
    {
        let v = a[i];
        let ghost cands0 = cands@;
        let mut pushed = false;
        match amap.get(&v) {
            Some(pa) => {
                if pa.1 == 1 {
                    match bmap.get(&v) {
                        Some(pb) => {
                            if pb.1 == 1 {
                                cands.push((i, pb.0));
                                pushed = true;
                                proof {
                                    assert forall|y: int|
                                        unique_pair(a@, b@, i as int, y) implies y
                                        == pb.0 as int by {
                                        lemma_count_unique_index(b@, v, y, pb.0 as int);
                                    }
                                }
                            } else {
                                assert(forall|y: int| !unique_pair(a@, b@, i as int, y));
                            }
                        },
                        None => {
                            assert(forall|y: int| !unique_pair(a@, b@, i as int, y));
                        },
                    }
                } else {
                    assert(forall|y: int| !unique_pair(a@, b@, i as int, y));
                }
            },
            None => {
                assert(forall|y: int| !unique_pair(a@, b@, i as int, y));
            },
        }
        proof {
            if !pushed {
                assert(cands@ == cands0);
            }
            assert forall|x: int, y: int|
                x < i + 1 && #[trigger] unique_pair(a@, b@, x, y) implies exists|k: int|
                0 <= k < cands@.len() && (#[trigger] cands@[k]).0 == x && cands@[k].1 == y by {
                if x < i {
                    let k0 = choose|k: int|
                        0 <= k < cands0.len() && (#[trigger] cands0[k]).0 == x && cands0[k].1 == y;
                    assert(cands@[k0].0 == x && cands@[k0].1 == y);
                } else {
                    assert(pushed);
                    assert(cands@[cands@.len() - 1].0 == x && cands@[cands@.len() - 1].1 == y);
                }
            }
        }
        i = i + 1;
    }
    cands
}

/// One patience-sorting placement step preserves the pile bookkeeping:
/// candidate `k` goes on pile `lo` (found by binary search), replacing or
/// extending the pile tops, with its back-pointer on the previous pile.
#[verifier::rlimit(100)]
proof fn lemma_pile_step(
    cands: Seq<(usize, usize)>,
    piles0: Seq<usize>,
    piles1: Seq<usize>,
    backs0: Seq<Option<usize>>,
    backs1: Seq<Option<usize>>,
    pof0: Seq<int>,
    pof1: Seq<int>,
    k: usize,
    lo: usize,
)
    requires
        0 <= k < cands.len(),
        backs0.len() == k,
        pof0.len() == k,
        lo <= piles0.len(),
        piles0.len() <= k,
        forall|p: int| 0 <= p < piles0.len() ==> #[trigger] piles0[p] < k,
        forall|p: int, q: int|
            0 <= p < q < piles0.len() ==> cands[#[trigger] piles0[p] as int].1
                < cands[#[trigger] piles0[q] as int].1,
        forall|t: int| 0 <= t < k ==> back_ok_at(backs0, cands, t),
        forall|t: int| 0 <= t < k ==> 0 <= #[trigger] pof0[t] < piles0.len(),
        forall|p: int| 0 <= p < piles0.len() ==> pof0[#[trigger] piles0[p] as int] == p,
        forall|t: int| 0 <= t < k ==> cands[piles0[#[trigger] pof0[t]] as int].1 <= cands[t].1,
        forall|t: int| 0 <= t < k ==> #[trigger] pile_step_at(backs0, pof0, t),
        forall|t1: int, t2: int|
            #![trigger pof0[t1], pof0[t2]]
            0 <= t1 < t2 < k && cands[t1].1 < cands[t2].1 ==> pof0[t1] < pof0[t2],
        lo > 0 ==> cands[piles0[lo - 1] as int].1 < cands[k as int].1,
        lo < piles0.len() ==> cands[k as int].1 <= cands[piles0[lo as int] as int].1,
        backs1 == backs0.push(
            if lo > 0 {
                Option::Some(piles0[lo - 1])
            } else {
                Option::None
            },
        ),
        piles1 == (if lo == piles0.len() {
            piles0.push(k)
        } else {
            piles0.update(lo as int, k)
        }),
        pof1 == pof0.push(lo as int),
    ensures
        piles1.len() <= k + 1,
        piles1.len() >= 1,
        backs1.len() == k + 1,
        pof1.len() == k + 1,
        forall|p: int| 0 <= p < piles1.len() ==> #[trigger] piles1[p] < k + 1,
        forall|p: int, q: int|
            0 <= p < q < piles1.len() ==> cands[#[trigger] piles1[p] as int].1
                < cands[#[trigger] piles1[q] as int].1,
        forall|t: int| 0 <= t < k + 1 ==> back_ok_at(backs1, cands, t),
        forall|t: int| 0 <= t < k + 1 ==> 0 <= #[trigger] pof1[t] < piles1.len(),
        forall|p: int| 0 <= p < piles1.len() ==> pof1[#[trigger] piles1[p] as int] == p,
        forall|t: int| 0 <= t < k + 1 ==> cands[piles1[#[trigger] pof1[t]] as int].1 <= cands[t].1,
        forall|t: int| 0 <= t < k + 1 ==> #[trigger] pile_step_at(backs1, pof1, t),
        forall|t1: int, t2: int|
            #![trigger pof1[t1], pof1[t2]]
            0 <= t1 < t2 < k + 1 && cands[t1].1 < cands[t2].1 ==> pof1[t1] < pof1[t2],
{
    let j = cands[k as int].1;
    // Every earlier candidate with a smaller second coordinate sits on a
    // pile strictly before lo: the top of its pile stays at most its own
    // coordinate, while every top from lo onward reaches j.
    assert forall|t: int| 0 <= t < k && cands[t].1 < j implies pof0[t] < lo as int by {
        if pof0[t] >= lo as int {
            if lo < piles0.len() {
                if (lo as int) < pof0[t] {
                    assert(cands[piles0[lo as int] as int].1 < cands[piles0[pof0[t]] as int].1);
                }
                assert(false);
            } else {
                assert(false);
            }
        }
    }
    assert forall|p: int, q: int|
        0 <= p < q < piles1.len() implies cands[#[trigger] piles1[p] as int].1
        < cands[#[trigger] piles1[q] as int].1 by {
        if q == lo as int {
            if p < lo - 1 {
                assert(cands[piles0[p] as int].1 < cands[piles0[lo - 1] as int].1);
            }
        } else if p == lo as int {
            assert(lo < piles0.len());
            assert(j <= cands[piles0[lo as int] as int].1);
            assert(cands[piles0[lo as int] as int].1 < cands[piles0[q] as int].1);
        } else {
            assert(piles1[p] == piles0[p] && piles1[q] == piles0[q]);
        }
    }
    assert forall|t: int| 0 <= t < k + 1 implies back_ok_at(backs1, cands, t) by {
        if t < k {
            assert(backs1[t] == backs0[t]);
            assert(back_ok_at(backs0, cands, t));
        }
    }
    assert forall|p: int| 0 <= p < piles1.len() implies pof1[#[trigger] piles1[p] as int]
        == p by {
        if p != lo as int {
            assert(piles1[p] == piles0[p]);
        }
    }
    assert forall|t: int| 0 <= t < k + 1 implies cands[piles1[#[trigger] pof1[t]] as int].1
        <= cands[t].1 by {
        if t < k {
            if pof0[t] == lo as int {
                assert(lo < piles0.len());
                assert(cands[piles1[lo as int] as int].1 == j);
                assert(j <= cands[piles0[lo as int] as int].1);
                assert(cands[piles0[lo as int] as int].1 <= cands[t].1);
            } else {
                assert(piles1[pof0[t]] == piles0[pof0[t]]);
            }
        }
    }
    assert forall|t: int| 0 <= t < k + 1 implies #[trigger] pile_step_at(backs1, pof1, t) by {
        if t < k {
            assert(backs1[t] == backs0[t]);
            assert(pile_step_at(backs0, pof0, t));
            assert(back_ok_at(backs0, cands, t));
            if backs0[t] is Some {
                let u = backs0[t]->0;
                assert(u < t);
                assert(pof1[u as int] == pof0[u as int]);
            }
        } else {
            if lo > 0 {
                assert(backs1[t] == Some(piles0[lo - 1]));
                assert(pof0[piles0[lo - 1] as int] == lo - 1);
                assert(pof1[piles0[lo - 1] as int] == lo - 1);
            }
        }
    }
    assert forall|t1: int, t2: int|
        #![trigger pof1[t1], pof1[t2]]
        0 <= t1 < t2 < k + 1 && cands[t1].1 < cands[t2].1 implies pof1[t1] < pof1[t2] by {
        if t2 == k {
            assert(pof0[t1] < lo as int);
        }
    }
}

/// A strictly increasing sequence of non-negative integers is bounded
/// below by its index.
proof fn lemma_strictly_increasing_ge_index(vals: Seq<int>, m: int)
    requires
        forall|p: int, q: int| 0 <= p < q < vals.len() ==> vals[p] < vals[q],
        forall|p: int| 0 <= p < vals.len() ==> vals[p] >= 0,
        0 <= m < vals.len(),
    ensures
        vals[m] >= m,
    decreases m,
{
    if m > 0 {
        lemma_strictly_increasing_ge_index(vals, m - 1);
    }
}

/// Any ascending unique-aligned match list is at most as long as the
/// number of piles: its members are all candidates, their candidate
/// indices ascend, and the pile indices strictly ascend with them.
proof fn lemma_selection_bound(
    c: Seq<(usize, usize)>,
    cands: Seq<(usize, usize)>,
    pile_of: Seq<int>,
    npiles: int,
    a: Seq<u64>,
    b: Seq<u64>,
)
    requires
        matches_sorted(c),
        matches_agree(c, a, b),
        matches_unique(c, a, b),
        pile_of.len() == cands.len(),
        npiles >= 0,
        forall|t: int| 0 <= t < cands.len() ==> 0 <= #[trigger] pile_of[t] < npiles,
        forall|t1: int, t2: int|
            #![trigger pile_of[t1], pile_of[t2]]
            0 <= t1 < t2 < cands.len() && cands[t1].1 < cands[t2].1 ==> pile_of[t1] < pile_of[t2],
        forall|k: int, l: int|
            0 <= k < l < cands.len() ==> (#[trigger] cands[k]).0 < (#[trigger] cands[l]).0,
        forall|x: int, y: int|
            #[trigger] unique_pair(a, b, x, y) ==> exists|k: int|
                0 <= k < cands.len() && (#[trigger] cands[k]).0 == x && cands[k].1 == y,
    ensures
        c.len() <= npiles,
{
    if c.len() == 0 {
        return ;
    }
    let ks = Seq::<int>::new(
        c.len() as nat,
        |t: int|
            choose|k: int|
                0 <= k < cands.len() && (#[trigger] cands[k]).0 == c[t].0 && cands[k].1 == c[t].1,
    );
    assert forall|t: int| 0 <= t < c.len() implies 0 <= #[trigger] ks[t] < cands.len()
        && cands[ks[t]].0 == c[t].0 && cands[ks[t]].1 == c[t].1 by {
        assert((#[trigger] c[t]).0 < a.len());
        assert(unique_pair(a, b, c[t].0 as int, c[t].1 as int));
        assert(exists|k: int|
            0 <= k < cands.len() && (#[trigger] cands[k]).0 == c[t].0 && cands[k].1 == c[t].1);
    }
    let pv = Seq::<int>::new(c.len() as nat, |t: int| pile_of[ks[t]]);
    assert forall|t1: int, t2: int| 0 <= t1 < t2 < pv.len() implies #[trigger] pv[t1]
        < #[trigger] pv[t2] by {
        assert(0 <= ks[t1] < cands.len() && cands[ks[t1]].0 == c[t1].0 && cands[ks[t1]].1 == c[
            t1].1);
        assert(0 <= ks[t2] < cands.len() && cands[ks[t2]].0 == c[t2].0 && cands[ks[t2]].1 == c[
            t2].1);
        assert(c[t1].0 < c[t2].0 && c[t1].1 < c[t2].1);
        if ks[t2] < ks[t1] {
            assert(cands[ks[t2]].0 < cands[ks[t1]].0);
        }
        if ks[t2] == ks[t1] {
            assert(cands[ks[t1]].0 == cands[ks[t2]].0);
        }
        assert(ks[t1] < ks[t2]);
        assert(pile_of[ks[t1]] < pile_of[ks[t2]]);
    }
    assert forall|t: int| 0 <= t < pv.len() implies #[trigger] pv[t] >= 0 && pv[t] < npiles by {
        assert(0 <= ks[t] < cands.len());
    }
    lemma_strictly_increasing_ge_index(pv, c.len() - 1);
}

/// Longest common subsequence restricted to elements unique in each input.
///
/// Runs patience sorting over the candidate matches: one pile top per
/// achievable subsequence length, each top holding the minimal second
/// coordinate reached, with back-pointers for reconstruction.
///
/// The result is an ascending list of matches: strictly increasing in both
/// coordinates, each pair aligning a key that occurs exactly once in `a`
/// and exactly once in `b`. It is a longest such list: no ascending
/// unique-aligned match list over `a` and `b` is longer.
#[verifier::loop_isolation(false)]
#[verifier::rlimit(100)]
pub fn unique_lcs(a: &Vec<u64>, b: &Vec<u64>) -> (r: Vec<(usize, usize)>)
    ensures
        matches_sorted(r@),
        matches_agree(r@, a@, b@),
        matches_unique(r@, a@, b@),
        forall|c: Seq<(usize, usize)>|
            matches_sorted(c) && matches_agree(c, a@, b@) && matches_unique(c, a@, b@)
                ==> c.len() <= r@.len(),
{
    let cands = build_candidates(a, b);
    // Patience sorting: piles[p] is the candidate index on top of pile p.
    // The ghost pile_of records, for every processed candidate, the pile it
    // was placed on; it carries the optimality argument.
    let mut piles: Vec<usize> = Vec::new();
    let mut backs: Vec<Option<usize>> = Vec::new();
    let ghost mut pile_of: Seq<int> = Seq::<int>::empty();
    let mut k: usize = 0;
    while k < cands.len()
        invariant
            k <= cands@.len(),
            backs@.len() == k,
            piles@.len() <= k,
            k > 0 ==> piles@.len() >= 1,
            pile_of.len() == k,
            forall|p: int| 0 <= p < piles@.len() ==> #[trigger] piles@[p] < k,
            forall|p: int, q: int|
                0 <= p < q < piles@.len() ==> cands@[#[trigger] piles@[p] as int].1
                    < cands@[#[trigger] piles@[q] as int].1,
            forall|t: int| 0 <= t < k ==> back_ok_at(backs@, cands@, t),
            forall|t: int| 0 <= t < k ==> 0 <= #[trigger] pile_of[t] < piles@.len(),
            forall|p: int| 0 <= p < piles@.len() ==> pile_of[#[trigger] piles@[p] as int] == p,
            forall|t: int|
                0 <= t < k ==> cands@[piles@[#[trigger] pile_of[t]] as int].1 <= cands@[t].1,
            forall|t: int| 0 <= t < k ==> #[trigger] pile_step_at(backs@, pile_of, t),
            forall|t1: int, t2: int|
                #![trigger pile_of[t1], pile_of[t2]]
                0 <= t1 < t2 < k && cands@[t1].1 < cands@[t2].1 ==> pile_of[t1] < pile_of[t2],
        decreases cands@.len() - k,
    {
        let j = cands[k].1;
        // Binary search for the first pile whose top reaches at least j.
        let mut lo: usize = 0;
        let mut hi: usize = piles.len();
        while lo < hi
            invariant
                lo <= hi <= piles@.len(),
                lo > 0 ==> cands@[piles@[lo - 1] as int].1 < j,
                hi < piles@.len() ==> j <= cands@[piles@[hi as int] as int].1,
            decreases hi - lo,
        {
            let mid = lo + (hi - lo) / 2;
            if cands[piles[mid]].1 < j {
                lo = mid + 1;
            } else {
                hi = mid;
            }
        }
        let ghost backs0 = backs@;
        let ghost piles0 = piles@;
        let ghost pof0 = pile_of;
        if lo > 0 {
            backs.push(Some(piles[lo - 1]));
        } else {
            backs.push(None);
        }
        if lo == piles.len() {
            piles.push(k);
        } else {
            piles[lo] = k;
        }
        proof {
            pile_of = pile_of.push(lo as int);
            lemma_pile_step(cands@, piles0, piles@, backs0, backs@, pof0, pile_of, k, lo);
        }
        k = k + 1;
    }
    if piles.len() == 0 {
        let r: Vec<(usize, usize)> = Vec::new();
        proof {
            assert(cands@.len() == 0);
            assert forall|c: Seq<(usize, usize)>|
                matches_sorted(c) && matches_agree(c, a@, b@) && matches_unique(
                    c,
                    a@,
                    b@,
                ) implies c.len() <= r@.len() by {
                lemma_selection_bound(c, cands@, pile_of, 0, a@, b@);
            }
        }
        return r;
    }
    // Walk the back-pointer chain from the top of the last pile; each step
    // descends exactly one pile, so the chain visits every pile once.
    let mut rev: Vec<(usize, usize)> = Vec::new();
    let mut cur_opt: Option<usize> = Some(piles[piles.len() - 1]);
    while cur_opt.is_some()
        invariant
            cur_opt matches Some(c) ==> c < cands@.len(),
            cur_opt matches Some(c) ==> forall|x: int|
                0 <= x < rev@.len() ==> (#[trigger] rev@[x]).0 > cands@[c as int].0
                    && rev@[x].1 > cands@[c as int].1,
            cur_opt matches Some(c) ==> rev@.len() == piles@.len() - 1 - pile_of[c as int],
            cur_opt is None ==> rev@.len() == piles@.len(),
            matches_agree(rev@, a@, b@),
            matches_unique(rev@, a@, b@),
            forall|x: int, y: int|
                0 <= x < y < rev@.len() ==> (#[trigger] rev@[x]).0 > (#[trigger] rev@[y]).0
                    && rev@[x].1 > rev@[y].1,
        decreases (match cur_opt {
            Some(c) => c as int + 1,
            None => 0,
        }),
    {
        let cur = cur_opt.unwrap();
        rev.push(cands[cur]);
        proof {
            assert(back_ok_at(backs@, cands@, cur as int));
            assert(pile_step_at(backs@, pile_of, cur as int));
        }
        cur_opt = backs[cur];
    }
    // Reverse into ascending order.
    let mut r: Vec<(usize, usize)> = Vec::new();
    let mut t: usize = rev.len();
    while t > 0
        invariant
            t <= rev@.len(),
            r@.len() == rev@.len() - t,
            forall|x: int| 0 <= x < r@.len() ==> #[trigger] r@[x] == rev@[rev@.len() - 1 - x],
        decreases t,
    {
        t = t - 1;
        r.push(rev[t]);
    }
    assert forall|k2: int, l: int| 0 <= k2 < l < r@.len() implies (#[trigger] r@[k2]).0
        < (#[trigger] r@[l]).0 && r@[k2].1 < r@[l].1 by {
        assert(r@[k2] == rev@[rev@.len() - 1 - k2]);
        assert(r@[l] == rev@[rev@.len() - 1 - l]);
    }
    assert forall|k2: int| 0 <= k2 < r@.len() implies (#[trigger] r@[k2]).0 < a@.len()
        && r@[k2].1 < b@.len() && a@[r@[k2].0 as int] == b@[r@[k2].1 as int] && count_of(
        a@,
        a@[r@[k2].0 as int],
    ) == 1 && count_of(b@, b@[r@[k2].1 as int]) == 1 by {
        assert(r@[k2] == rev@[rev@.len() - 1 - k2]);
    }
    proof {
        assert(r@.len() == piles@.len());
        assert forall|c: Seq<(usize, usize)>|
            matches_sorted(c) && matches_agree(c, a@, b@) && matches_unique(
                c,
                a@,
                b@,
            ) implies c.len() <= r@.len() by {
            lemma_selection_bound(c, cands@, pile_of, piles@.len() as int, a@, b@);
        }
    }
    r
}

} // verus!
