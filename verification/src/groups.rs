//! Context-windowed opcode groups.
//!
//! A group is a run of opcodes around changes, with `Equal` context trimmed
//! to at most `n` elements on each side: the leading and trailing `Equal`
//! opcodes are clipped, and an interior `Equal` opcode longer than `2 * n`
//! closes the current group (keeping `n` trailing elements of context) and
//! seeds the next one (with `n` leading elements of context).

use crate::matcher::SequenceMatcher;
use crate::opcodes::op_i1;
use crate::opcodes::op_i2;
use crate::opcodes::op_j1;
use crate::opcodes::op_j2;
use crate::opcodes::op_wf;
use crate::opcodes::opcodes_valid;
use crate::opcodes::Opcode;
use vstd::prelude::*;

verus! {

/// `max(x1, x2 - n)`: keep at most the last `n` positions of `[x1, x2)`.
pub open spec fn clip_low(x1: usize, x2: usize, n: usize) -> usize {
    if x2 - n > x1 {
        (x2 - n) as usize
    } else {
        x1
    }
}

/// `min(x2, x1 + n)`: keep at most the first `n` positions of `[x1, x2)`.
pub open spec fn clip_high(x1: usize, x2: usize, n: usize) -> usize {
    if x1 + n < x2 {
        (x1 + n) as usize
    } else {
        x2
    }
}

/// An `Equal` opcode cut down to at most its last `n` elements; any other
/// opcode is kept whole.
pub open spec fn keep_tail(op: Opcode, n: usize) -> Opcode {
    match op {
        Opcode::Equal(i1, i2, j1, j2) => Opcode::Equal(
            clip_low(i1, i2, n),
            i2,
            clip_low(j1, j2, n),
            j2,
        ),
        _ => op,
    }
}

/// An `Equal` opcode cut down to at most its first `n` elements; any other
/// opcode is kept whole.
pub open spec fn keep_head(op: Opcode, n: usize) -> Opcode {
    match op {
        Opcode::Equal(i1, i2, j1, j2) => Opcode::Equal(
            i1,
            clip_high(i1, i2, n),
            j1,
            clip_high(j1, j2, n),
        ),
        _ => op,
    }
}

/// Clip a leading `Equal` opcode to its last `n` elements and a trailing
/// one to its first `n` elements.
pub open spec fn trim_ends(ops: Seq<Opcode>, n: usize) -> Seq<Opcode> {
    if ops.len() == 0 {
        ops
    } else {
        let t1 = ops.update(0, keep_tail(ops[0], n));
        t1.update(t1.len() - 1, keep_head(t1[t1.len() - 1], n))
    }
}

/// Grouping of the trimmed opcodes from index `k` on, with `cur` the group
/// currently being assembled. An interior `Equal` opcode longer than
/// `2 * n` closes the current group and seeds the next; at the end, the
/// last group is emitted unless it is empty or pure context.
pub open spec fn groups_rec(
    codes: Seq<Opcode>,
    k: int,
    cur: Seq<Opcode>,
    n: usize,
) -> Seq<Seq<Opcode>>
    decreases codes.len() - k
    when 0 <= k <= codes.len()
{
    if k >= codes.len() {
        if cur.len() > 0 && !(cur.len() == 1 && cur[0] is Equal) {
            seq![cur]
        } else {
            Seq::<Seq<Opcode>>::empty()
        }
    } else {
        let op = codes[k];
        if op is Equal && op_i2(op) - op_i1(op) > 2 * (n as int) {
            seq![cur.push(keep_head(op, n))] + groups_rec(codes, k + 1, seq![keep_tail(op, n)], n)
        } else {
            groups_rec(codes, k + 1, cur.push(op), n)
        }
    }
}

/// The groups derived from an opcode list with `n` elements of context.
pub open spec fn spec_grouped(ops: Seq<Opcode>, n: usize) -> Seq<Seq<Opcode>> {
    groups_rec(trim_ends(ops, n), 0, Seq::<Opcode>::empty(), n)
}

/// An opcode as it may appear inside a zero-context group: an `Equal`
/// kept only as an empty anchor, or a non-`Equal` opcode of the original
/// list, unchanged.
pub open spec fn zero_context_op(op: Opcode, ops: Seq<Opcode>) -> bool {
    match op {
        Opcode::Equal(i1, i2, j1, j2) => i1 == i2 && j1 == j2,
        _ => ops.contains(op),
    }
}

proof fn lemma_zero_groups_rec(codes: Seq<Opcode>, k: int, cur: Seq<Opcode>, ops: Seq<Opcode>)
    requires
        0 <= k <= codes.len(),
        forall|t: int|
            0 <= t < codes.len() && !((#[trigger] codes[t]) is Equal) ==> ops.contains(codes[t]),
        forall|t: int|
            0 <= t < codes.len() && (#[trigger] codes[t]) is Equal ==> op_i1(codes[t]) <= op_i2(
                codes[t],
            ) && op_j1(codes[t]) <= op_j2(codes[t]),
        forall|t: int|
            0 <= t < codes.len() && (#[trigger] codes[t]) is Equal && op_i1(codes[t]) == op_i2(
                codes[t],
            ) ==> op_j1(codes[t]) == op_j2(codes[t]),
        forall|x: int| 0 <= x < cur.len() ==> zero_context_op(#[trigger] cur[x], ops),
    ensures
        forall|g: int, x: int|
            0 <= g < groups_rec(codes, k, cur, 0).len() && 0 <= x < groups_rec(
                codes,
                k,
                cur,
                0,
            )[g].len() ==> zero_context_op(#[trigger] groups_rec(codes, k, cur, 0)[g][x], ops),
    decreases codes.len() - k,
{
    let gs = groups_rec(codes, k, cur, 0);
    if k >= codes.len() {
        assert forall|g: int, x: int|
            0 <= g < gs.len() && 0 <= x < gs[g].len() implies zero_context_op(
            #[trigger] gs[g][x],
            ops,
        ) by {
            assert(gs[g] == cur);
        }
    } else {
        let op = codes[k];
        if op is Equal && op_i2(op) - op_i1(op) > 0 {
            let head = keep_head(op, 0);
            let tail = keep_tail(op, 0);
            assert(zero_context_op(head, ops));
            assert(zero_context_op(tail, ops));
            lemma_zero_groups_rec(codes, k + 1, seq![tail], ops);
            let rest = groups_rec(codes, k + 1, seq![tail], 0);
            assert(gs == seq![cur.push(head)] + rest);
            assert forall|g: int, x: int|
                0 <= g < gs.len() && 0 <= x < gs[g].len() implies zero_context_op(
                #[trigger] gs[g][x],
                ops,
            ) by {
                if g == 0 {
                    assert(gs[0] == cur.push(head));
                    if x < cur.len() {
                        assert(gs[0][x] == cur[x]);
                    } else {
                        assert(gs[0][x] == head);
                    }
                } else {
                    assert(gs[g] == rest[g - 1]);
                }
            }
        } else {
            assert(zero_context_op(op, ops));
            assert forall|x: int|
                0 <= x < cur.push(op).len() implies zero_context_op(
                #[trigger] cur.push(op)[x],
                ops,
            ) by {
                if x < cur.len() {
                    assert(cur.push(op)[x] == cur[x]);
                }
            }
            lemma_zero_groups_rec(codes, k + 1, cur.push(op), ops);
            assert(gs == groups_rec(codes, k + 1, cur.push(op), 0));
        }
    }
}

/// Law (zero context): in the groups derived with `n == 0` from a valid
/// opcode list, every `Equal` opcode is an empty anchor — `i1 == i2` and
/// `j1 == j2`, so no context elements are retained, only the minimal
/// boundary anchoring adjacent groups — and every other opcode is an
/// opcode of the original list, unchanged.
pub proof fn lemma_zero_context_groups(ops: Seq<Opcode>, a: Seq<u64>, b: Seq<u64>)
    requires
        opcodes_valid(ops, a, b),
    ensures
        forall|g: int, x: int|
            0 <= g < spec_grouped(ops, 0).len() && 0 <= x < spec_grouped(ops, 0)[g].len()
                ==> zero_context_op(#[trigger] spec_grouped(ops, 0)[g][x], ops),
{
    let codes = trim_ends(ops, 0);
    assert forall|t: int|
        0 <= t < codes.len() implies ((!((#[trigger] codes[t]) is Equal) ==> ops.contains(
        codes[t],
    )) && (codes[t] is Equal ==> op_i1(codes[t]) <= op_i2(codes[t]) && op_j1(codes[t]) <= op_j2(
        codes[t],
    )) && (codes[t] is Equal && op_i1(codes[t]) == op_i2(codes[t]) ==> op_j1(codes[t]) == op_j2(
        codes[t],
    ))) by {
        assert(op_wf(ops[t], a, b));
        if t != 0 && t != codes.len() - 1 {
            assert(codes[t] == ops[t]);
        }
        if ops.len() > 0 {
            assert(op_wf(ops[0], a, b));
            assert(op_wf(ops[ops.len() - 1], a, b));
        }
        assert(ops[t] == ops[t]);
    }
    lemma_zero_groups_rec(codes, 0, Seq::<Opcode>::empty(), ops);
}

/// The element-wise views of a list of opcode groups.
pub open spec fn views_of(gs: Seq<Vec<Opcode>>) -> Seq<Seq<Opcode>> {
    gs.map_values(|g: Vec<Opcode>| g@)
}

impl SequenceMatcher {
    /// The opcode groups this matcher derives for context width `n`.
    pub open spec fn spec_grouped_opcodes(&self, n: usize) -> Seq<Seq<Opcode>> {
        spec_grouped(self.spec_opcodes(), n)
    }

    /// Opcode groups with up to `n` elements of equal context around each
    /// run of changes; each group has the same shape as `get_opcodes`
    /// output. An empty opcode list yields no groups, and no group is ever
    /// empty or pure context.
    #[verifier::loop_isolation(false)]
    #[verifier::rlimit(60)]
    pub fn get_grouped_opcodes(&self, n: usize) -> (r: Vec<Vec<Opcode>>)
        requires
            self.wf(),
        ensures
            views_of(r@) == self.spec_grouped_opcodes(n),
    {
        let mut codes = self.get_opcodes();
        if codes.len() == 0 {
            let r: Vec<Vec<Opcode>> = Vec::new();
            proof {
                assert(views_of(r@) =~= Seq::<Seq<Opcode>>::empty());
                assert(trim_ends(codes@, n) == codes@);
                assert(views_of(r@) =~= self.spec_grouped_opcodes(n));
            }
            return r;
        }
        // Clip the leading and trailing Equal context.
        proof {
            assert(op_wf(self.spec_opcodes()[0], self.seq_a(), self.seq_b()));
            assert(op_wf(
                self.spec_opcodes()[self.spec_opcodes().len() - 1],
                self.seq_a(),
                self.seq_b(),
            ));
        }
        let first = codes[0];
        match first {
            Opcode::Equal(i1, i2, j1, j2) => {
                let ni1: usize = if i2 - i1 > n {
                    i2 - n
                } else {
                    i1
                };
                let nj1: usize = if j2 - j1 > n {
                    j2 - n
                } else {
                    j1
                };
                codes[0] = Opcode::Equal(ni1, i2, nj1, j2);
            },
            _ => {},
        }
        proof {
            assert(codes@ =~= self.spec_opcodes().update(0, keep_tail(self.spec_opcodes()[0], n)));
        }
        let lastpos = codes.len() - 1;
        let last = codes[lastpos];
        match last {
            Opcode::Equal(i1, i2, j1, j2) => {
                let ni2: usize = if i2 - i1 > n {
                    i1 + n
                } else {
                    i2
                };
                let nj2: usize = if j2 - j1 > n {
                    j1 + n
                } else {
                    j2
                };
                codes[lastpos] = Opcode::Equal(i1, ni2, j1, nj2);
            },
            _ => {},
        }
        let ghost codes0 = codes@;
        proof {
            assert(codes0 =~= trim_ends(self.spec_opcodes(), n));
            assert forall|t: int|
                0 <= t < codes0.len() implies op_i1(#[trigger] codes0[t]) <= op_i2(codes0[t])
                && op_j1(codes0[t]) <= op_j2(codes0[t]) by {
                assert(op_wf(self.spec_opcodes()[t], self.seq_a(), self.seq_b()));
            }
        }
        let mut out: Vec<Vec<Opcode>> = Vec::new();
        let mut cur: Vec<Opcode> = Vec::new();
        let mut k: usize = 0;
        proof {
            assert(views_of(out@) =~= Seq::<Seq<Opcode>>::empty());
            assert(cur@ =~= Seq::<Opcode>::empty());
        }
        while k < codes.len()
            invariant
                k <= codes@.len(),
                codes@ == codes0,
                forall|t: int|
                    0 <= t < codes0.len() ==> op_i1(#[trigger] codes0[t]) <= op_i2(codes0[t])
                        && op_j1(codes0[t]) <= op_j2(codes0[t]),
                views_of(out@) + groups_rec(codes0, k as int, cur@, n) == self.spec_grouped_opcodes(
                    n,
                ),
            decreases codes@.len() - k,
        {
            let op = codes[k];
            let ghost out0 = out@;
            let ghost cur0 = cur@;
            let mut split = false;
            match op {
                Opcode::Equal(i1, i2, j1, j2) => {
                    if i2 - i1 > n && (i2 - i1) - n > n {
                        split = true;
                        let ci2: usize = if i2 - i1 > n {
                            i1 + n
                        } else {
                            i2
                        };
                        let cj2: usize = if j2 - j1 > n {
                            j1 + n
                        } else {
                            j2
                        };
                        cur.push(Opcode::Equal(i1, ci2, j1, cj2));
                        out.push(cur);
                        cur = Vec::new();
                        let ni1: usize = if i2 - i1 > n {
                            i2 - n
                        } else {
                            i1
                        };
                        let nj1: usize = if j2 - j1 > n {
                            j2 - n
                        } else {
                            j1
                        };
                        cur.push(Opcode::Equal(ni1, i2, nj1, j2));
                    }
                },
                _ => {},
            }
            if !split {
                cur.push(op);
            }
            proof {
                if split {
                    assert(views_of(out@) =~= views_of(out0).push(cur0.push(keep_head(op, n))));
                    assert(cur@ =~= seq![keep_tail(op, n)]);
                    assert(groups_rec(codes0, k as int, cur0, n) == seq![
                        cur0.push(keep_head(op, n)),
                    ] + groups_rec(codes0, k as int + 1, seq![keep_tail(op, n)], n));
                    assert(views_of(out@) + groups_rec(codes0, k as int + 1, cur@, n)
                        =~= views_of(out0) + groups_rec(codes0, k as int, cur0, n));
                } else {
                    assert(groups_rec(codes0, k as int, cur0, n) == groups_rec(
                        codes0,
                        k as int + 1,
                        cur0.push(op),
                        n,
                    ));
                }
            }
            k = k + 1;
        }
        if cur.len() > 0 {
            let single_context = cur.len() == 1 && (match cur[0] {
                Opcode::Equal(_, _, _, _) => true,
                _ => false,
            });
            if !single_context {
                let ghost out1 = out@;
                let ghost cur1 = cur@;
                out.push(cur);
                proof {
                    assert(views_of(out@) =~= views_of(out1).push(cur1));
                    assert(groups_rec(codes0, k as int, cur1, n) == seq![cur1]);
                    assert(views_of(out@) =~= views_of(out1) + seq![cur1]);
                }
            } else {
                proof {
                    assert(groups_rec(codes0, k as int, cur@, n) =~= Seq::<Seq<Opcode>>::empty());
                }
            }
        } else {
            proof {
                assert(groups_rec(codes0, k as int, cur@, n) =~= Seq::<Seq<Opcode>>::empty());
            }
        }
        proof {
            assert(views_of(out@) =~= self.spec_grouped_opcodes(n));
        }
        out
    }
}

} // verus!
