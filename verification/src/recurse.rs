//! Recursive refinement of matches around unique-LCS anchors.
//!
//! `recurse_matches` appends matches for the sub-ranges `[alo, ahi)` of `a`
//! and `[blo, bhi)` of `b` to an accumulator, in ascending order, bounded by
//! a recursion budget that guarantees termination on adversarial inputs.

use crate::lcs::count_of;
use crate::lcs::lemma_count_unique_index;
use crate::lcs::matches_agree;
use crate::lcs::matches_in_range;
use crate::lcs::matches_sorted;
use crate::lcs::unique_lcs;
use vstd::prelude::*;

verus! {

/// The fully aligned run of `n` matches starting at `(alo, blo)`.
pub open spec fn diagonal_matches(alo: usize, blo: usize, n: int) -> Seq<(usize, usize)> {
    Seq::new(n as nat, |t: int| (((alo + t) as usize), ((blo + t) as usize)))
}

/// Two abutting diagonal runs concatenate to one diagonal run.
proof fn lemma_diagonal_concat(alo: usize, blo: usize, mid_a: usize, mid_b: usize, n1: int, n2: int)
    requires
        n1 >= 0,
        n2 >= 0,
        mid_a == alo + n1,
        mid_b == blo + n1,
        alo + n1 + n2 <= usize::MAX,
        blo + n1 + n2 <= usize::MAX,
    ensures
        diagonal_matches(alo, blo, n1) + diagonal_matches(mid_a, mid_b, n2) == diagonal_matches(
            alo,
            blo,
            n1 + n2,
        ),
{
    let lhs = diagonal_matches(alo, blo, n1) + diagonal_matches(mid_a, mid_b, n2);
    let rhs = diagonal_matches(alo, blo, n1 + n2);
    assert forall|x: int| 0 <= x < lhs.len() implies lhs[x] == rhs[x] by {
        if x < n1 {
            assert(lhs[x] == diagonal_matches(alo, blo, n1)[x]);
        } else {
            assert(lhs[x] == diagonal_matches(mid_a, mid_b, n2)[x - n1]);
        }
    }
    assert(lhs =~= rhs);
}

/// Two ascending match lists over abutting rectangles concatenate to an
/// ascending match list over the joined rectangle.
proof fn lemma_matches_concat(
    s1: Seq<(usize, usize)>,
    s2: Seq<(usize, usize)>,
    alo: int,
    ma: int,
    ahi: int,
    blo: int,
    mb: int,
    bhi: int,
    a: Seq<u64>,
    b: Seq<u64>,
)
    requires
        matches_sorted(s1),
        matches_sorted(s2),
        matches_agree(s1, a, b),
        matches_agree(s2, a, b),
        matches_in_range(s1, alo, ma, blo, mb),
        matches_in_range(s2, ma, ahi, mb, bhi),
        alo <= ma <= ahi,
        blo <= mb <= bhi,
    ensures
        matches_sorted(s1 + s2),
        matches_agree(s1 + s2, a, b),
        matches_in_range(s1 + s2, alo, ahi, blo, bhi),
{
    let s = s1 + s2;
    assert forall|k: int, l: int|
        0 <= k < l < s.len() implies (#[trigger] s[k]).0 < (#[trigger] s[l]).0 && s[k].1
        < s[l].1 by {
        if k < s1.len() {
            assert(s[k] == s1[k]);
        } else {
            assert(s[k] == s2[k - s1.len()]);
        }
        if l < s1.len() {
            assert(s[l] == s1[l]);
        } else {
            assert(s[l] == s2[l - s1.len()]);
        }
    }
    assert forall|k: int| 0 <= k < s.len() implies (#[trigger] s[k]).0 < a.len() && s[k].1
        < b.len() && a[s[k].0 as int] == b[s[k].1 as int] && alo <= s[k].0 < ahi && blo <= s[k].1
        < bhi by {
        if k < s1.len() {
            assert(s[k] == s1[k]);
        } else {
            assert(s[k] == s2[k - s1.len()]);
        }
    }
}

/// Splitting an accumulator that grew from `prev` to `whole`: the part after
/// `n0` is the old part after `n0` followed by whatever was appended.
proof fn lemma_skip_split(whole: Seq<(usize, usize)>, prev: Seq<(usize, usize)>, n0: int)
    requires
        0 <= n0 <= prev.len() <= whole.len(),
        whole.subrange(0, prev.len() as int) == prev,
    ensures
        whole.skip(n0) == prev.skip(n0) + whole.skip(prev.len() as int),
        whole.subrange(0, n0) == prev.subrange(0, n0),
{
    let lhs = whole.skip(n0);
    let rhs = prev.skip(n0) + whole.skip(prev.len() as int);
    assert forall|x: int| 0 <= x < lhs.len() implies lhs[x] == rhs[x] by {
        if x < prev.len() - n0 {
            assert(whole.subrange(0, prev.len() as int)[n0 + x] == whole[n0 + x]);
        }
    }
    assert(lhs =~= rhs);
    assert forall|x: int| 0 <= x < n0 implies whole.subrange(0, n0)[x] == prev.subrange(
        0,
        n0,
    )[x] by {
        assert(whole.subrange(0, prev.len() as int)[x] == whole[x]);
    }
    assert(whole.subrange(0, n0) =~= prev.subrange(0, n0));
}

/// Append matches for `a[alo..ahi)` against `b[blo..bhi)` to `answer`.
///
/// Anchors found by `unique_lcs` over the sub-ranges are taken as fixed
/// alignment points; the gaps strictly between consecutive anchors (and
/// between each outer boundary and the nearest anchor) are refined
/// recursively with `maxrecursion - 1`. When no anchor exists and the two
/// sub-ranges are element-wise equal, the whole range is emitted directly.
/// A negative budget, or an empty range, appends nothing: running out of
/// budget degrades match quality, never termination.
///
/// The entries already in `answer` stay untouched; the appended entries are
/// strictly ascending in both coordinates, lie inside the given rectangle,
/// and each aligns equal keys of `a` and `b`.
#[verifier::loop_isolation(false)]
#[verifier::rlimit(100)]
pub fn recurse_matches(
    a: &Vec<u64>,
    b: &Vec<u64>,
    alo: usize,
    blo: usize,
    ahi: usize,
    bhi: usize,
    answer: &mut Vec<(usize, usize)>,
    maxrecursion: i32,
)
    requires
        alo <= ahi && ahi <= a@.len(),
        blo <= bhi && bhi <= b@.len(),
    ensures
        final (answer)@.len() >= old(answer)@.len(),
        final (answer)@.subrange(0, old(answer)@.len() as int) == old(answer)@,
        matches_sorted(final (answer)@.skip(old(answer)@.len() as int)),
        matches_agree(final (answer)@.skip(old(answer)@.len() as int), a@, b@),
        matches_in_range(
            final (answer)@.skip(old(answer)@.len() as int),
            alo as int,
            ahi as int,
            blo as int,
            bhi as int,
        ),
        (maxrecursion < 0 || alo == ahi || blo == bhi) ==> final (answer)@ == old(answer)@,
        (maxrecursion >= ahi - alo && ahi - alo == bhi - blo && (forall|s: int|
            alo <= s < ahi ==> a@[s] == b@[s - alo + blo])) ==> final (answer)@ == old(answer)@
            + diagonal_matches(alo, blo, (ahi - alo) as int),
    decreases maxrecursion as int + 1,
{
    let ghost n0 = answer@.len();
    let ghost beq: bool = maxrecursion >= ahi - alo && ahi - alo == bhi - blo && (forall|s: int|
        alo <= s < ahi ==> a@[s] == b@[s - alo + blo]);
    if maxrecursion < 0 || alo == ahi || blo == bhi {
        assert(answer@.skip(n0 as int) =~= Seq::<(usize, usize)>::empty());
        proof {
            if beq {
                assert(ahi == alo);
                assert(answer@ + diagonal_matches(alo, blo, 0) =~= answer@);
            }
        }
        return ;
    }
    // Local copies of the two sub-ranges, in local indices.
    let mut la: Vec<u64> = Vec::new();
    let mut idx: usize = alo;
    while idx < ahi
        invariant
            alo <= idx <= ahi,
            la@ == a@.subrange(alo as int, idx as int),
        decreases ahi - idx,
    {
        la.push(a[idx]);
        idx = idx + 1;
        proof {
            assert(a@.subrange(alo as int, idx as int) =~= a@.subrange(
                alo as int,
                idx as int - 1,
            ).push(a@[idx as int - 1]));
        }
    }
    let mut lb: Vec<u64> = Vec::new();
    let mut jdx: usize = blo;
    while jdx < bhi
        invariant
            blo <= jdx <= bhi,
            lb@ == b@.subrange(blo as int, jdx as int),
        decreases bhi - jdx,
    {
        lb.push(b[jdx]);
        jdx = jdx + 1;
        proof {
            assert(b@.subrange(blo as int, jdx as int) =~= b@.subrange(
                blo as int,
                jdx as int - 1,
            ).push(b@[jdx as int - 1]));
        }
    }
    let anchors = unique_lcs(&la, &lb);
    proof {
        if beq {
            assert forall|x: int| 0 <= x < la@.len() implies la@[x] == lb@[x] by {
                assert(a@[alo + x] == b@[alo + x - alo + blo]);
            }
            assert(la@ =~= lb@);
            assert forall|m: int|
                0 <= m < anchors@.len() implies (#[trigger] anchors@[m]).0 == anchors@[m].1 by {
                let x = anchors@[m].0 as int;
                let y = anchors@[m].1 as int;
                assert(la@[x] == lb@[y]);
                assert(count_of(la@, la@[x]) == 1);
                assert(count_of(lb@, lb@[y]) == 1);
                lemma_count_unique_index(la@, la@[x], x, y);
            }
            assert(answer@.skip(n0 as int) =~= diagonal_matches(alo, blo, 0));
        }
    }
    if anchors.len() == 0 {
        // No anchors: emit the whole range if it is element-wise equal,
        // otherwise leave it for opcode derivation to classify.
        if ahi - alo == bhi - blo {
            let len = ahi - alo;
            let mut t: usize = 0;
            while t < len
                invariant
                    t <= len,
                    forall|s: int| alo <= s < alo + t ==> #[trigger] a@[s] == b@[s - alo + blo],
                    answer@ == old(answer)@,
                decreases len - t,
            {
                if a[alo + t] != b[blo + t] {
                    assert(answer@.skip(n0 as int) =~= Seq::<(usize, usize)>::empty());
                    proof {
                        if beq {
                            assert(a@[alo + t] == b@[alo + t - alo + blo]);
                            assert(false);
                        }
                    }
                    return ;
                }
                t = t + 1;
            }
            let mut t2: usize = 0;
            while t2 < len
                invariant
                    t2 <= len,
                    answer@.len() == n0 + t2,
                    answer@.subrange(0, n0 as int) == old(answer)@,
                    forall|x: int|
                        n0 <= x < answer@.len() ==> #[trigger] answer@[x] == (
                        ((alo + (x - n0)) as usize),
                        ((blo + (x - n0)) as usize),
                    ),
                decreases len - t2,
            {
                answer.push((alo + t2, blo + t2));
                proof {
                    assert(answer@.subrange(0, n0 as int) =~= answer@.subrange(
                        0,
                        answer@.len() - 1,
                    ).subrange(0, n0 as int));
                }
                t2 = t2 + 1;
            }
            proof {
                let app = answer@.skip(n0 as int);
                assert forall|x: int| 0 <= x < app.len() implies (#[trigger] app[x]) == (
                ((alo + x) as usize), ((blo + x) as usize)) by {
                    assert(answer@[n0 + x] == (((alo + x) as usize), ((blo + x) as usize)));
                    assert(app[x] == answer@[n0 + x]);
                }
                assert forall|x: int| 0 <= x < answer@.len() implies answer@[x] == (old(answer)@
                    + diagonal_matches(alo, blo, len as int))[x] by {
                    if x < n0 {
                        assert(answer@.subrange(0, n0 as int)[x] == answer@[x]);
                    } else {
                        assert(app[x - n0] == answer@[x]);
                    }
                }
                assert(answer@ =~= old(answer)@ + diagonal_matches(alo, blo, len as int));
            }
        } else {
            assert(answer@.skip(n0 as int) =~= Seq::<(usize, usize)>::empty());
        }
        return ;
    }
    // Anchors exist: refine each gap, then append the anchor behind it.
    let mut last_a: usize = alo;
    let mut last_b: usize = blo;
    let mut k: usize = 0;
    while k < anchors.len()
        invariant
            k <= anchors@.len(),
            alo <= last_a && blo <= last_b,
            last_a <= ahi && last_b <= bhi,
            k > 0 ==> last_a > alo,
            beq ==> last_a - alo == last_b - blo,
            beq ==> answer@.skip(n0 as int) == diagonal_matches(alo, blo, last_a - alo),
            k < anchors@.len() ==> last_a <= alo + anchors@[k as int].0 && last_b <= blo
                + anchors@[k as int].1,
            answer@.len() >= n0,
            answer@.subrange(0, n0 as int) == old(answer)@,
            matches_sorted(answer@.skip(n0 as int)),
            matches_agree(answer@.skip(n0 as int), a@, b@),
            matches_in_range(
                answer@.skip(n0 as int),
                alo as int,
                last_a as int,
                blo as int,
                last_b as int,
            ),
        decreases anchors@.len() - k,
    {
        assert(anchors@[k as int].0 < la@.len() && anchors@[k as int].1 < lb@.len());
        let apos = alo + anchors[k].0;
        let bpos = blo + anchors[k].1;
        let ghost prev = answer@;
        recurse_matches(a, b, last_a, last_b, apos, bpos, answer, maxrecursion - 1);
        proof {
            lemma_skip_split(answer@, prev, n0 as int);
            lemma_matches_concat(
                prev.skip(n0 as int),
                answer@.skip(prev.len() as int),
                alo as int,
                last_a as int,
                apos as int,
                blo as int,
                last_b as int,
                bpos as int,
                a@,
                b@,
            );
        }
        let ghost prev2 = answer@;
        answer.push((apos, bpos));
        proof {
            assert(answer@.subrange(0, prev2.len() as int) =~= prev2);
            lemma_skip_split(answer@, prev2, n0 as int);
            assert(answer@.skip(prev2.len() as int) =~= seq![(apos, bpos)]);
            assert(la@[anchors@[k as int].0 as int] == a@[apos as int]);
            assert(lb@[anchors@[k as int].1 as int] == b@[bpos as int]);
            lemma_matches_concat(
                prev2.skip(n0 as int),
                seq![(apos, bpos)],
                alo as int,
                apos as int,
                apos as int + 1,
                blo as int,
                bpos as int,
                bpos as int + 1,
                a@,
                b@,
            );
        }
        proof {
            if beq {
                assert(anchors@[k as int].0 == anchors@[k as int].1);
                assert(apos - alo == bpos - blo);
                assert(maxrecursion - 1 >= apos - last_a);
                assert forall|s: int|
                    last_a <= s < apos implies a@[s] == b@[s - last_a + last_b] by {
                    assert(a@[s] == b@[s - alo + blo]);
                }
                assert(prev2 == prev + diagonal_matches(last_a, last_b, apos - last_a));
                assert(prev2.skip(prev.len() as int) =~= diagonal_matches(
                    last_a,
                    last_b,
                    apos - last_a,
                ));
                lemma_diagonal_concat(alo, blo, last_a, last_b, last_a - alo, apos - last_a);
                assert(prev2.skip(n0 as int) == diagonal_matches(alo, blo, apos - alo));
                assert(answer@.skip(n0 as int) =~= diagonal_matches(alo, blo, apos + 1 - alo));
            }
        }
        last_a = apos + 1;
        last_b = bpos + 1;
        k = k + 1;
        proof {
            if k < anchors@.len() {
                assert(anchors@[k as int - 1].0 < anchors@[k as int].0);
                assert(anchors@[k as int - 1].1 < anchors@[k as int].1);
            }
        }
    }
    // The gap after the last anchor.
    proof {
        if beq {
            assert(maxrecursion - 1 >= ahi - last_a);
            assert(ahi - last_a == bhi - last_b);
            assert forall|s: int| last_a <= s < ahi implies a@[s] == b@[s - last_a + last_b] by {
                assert(a@[s] == b@[s - alo + blo]);
            }
        }
    }
    let ghost prev3 = answer@;
    recurse_matches(a, b, last_a, last_b, ahi, bhi, answer, maxrecursion - 1);
    proof {
        lemma_skip_split(answer@, prev3, n0 as int);
        lemma_matches_concat(
            prev3.skip(n0 as int),
            answer@.skip(prev3.len() as int),
            alo as int,
            last_a as int,
            ahi as int,
            blo as int,
            last_b as int,
            bhi as int,
            a@,
            b@,
        );
        if beq {
            assert(answer@ == prev3 + diagonal_matches(last_a, last_b, ahi - last_a));
            assert(answer@.skip(prev3.len() as int) =~= diagonal_matches(
                last_a,
                last_b,
                ahi - last_a,
            ));
            lemma_diagonal_concat(alo, blo, last_a, last_b, last_a - alo, ahi - last_a);
            assert(answer@.skip(n0 as int) == diagonal_matches(alo, blo, ahi - alo));
            assert forall|x: int| 0 <= x < answer@.len() implies answer@[x] == (old(answer)@
                + diagonal_matches(alo, blo, ahi - alo))[x] by {
                if x < n0 {
                    assert(answer@.subrange(0, n0 as int)[x] == answer@[x]);
                } else {
                    assert(answer@.skip(n0 as int)[x - n0] == answer@[x]);
                }
            }
            assert(answer@ =~= old(answer)@ + diagonal_matches(alo, blo, ahi - alo));
        }
    }
}

} // verus!
