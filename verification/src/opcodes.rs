//! Edit opcodes derived from matching blocks.
//!
//! Walking the matching blocks in order turns the gap before each block into
//! a `Replace`, `Delete` or `Insert` opcode and each real block into an
//! `Equal` opcode. The resulting list partitions both sequences exactly and
//! contiguously: it starts at `(0, 0)`, each opcode starts where the
//! previous one ended, and it ends at `(len(a), len(b))`.

use crate::matcher::block_wf;
use crate::matcher::blocks_valid;
use crate::matcher::SequenceMatcher;
use vstd::prelude::*;

verus! {

/// One edit instruction over paired ranges `(i1, i2, j1, j2)` of the two
/// sequences: `a[i1..i2]` and `b[j1..j2]`.
#[derive(Clone, Copy, PartialEq, Eq, Structural, Debug)]
pub enum Opcode {
    /// `a[i1..i2] == b[j1..j2]`.
    Equal(usize, usize, usize, usize),
    /// `a[i1..i2]` should be replaced by `b[j1..j2]`.
    Replace(usize, usize, usize, usize),
    /// `a[i1..i2]` should be deleted (`j1 == j2`).
    Delete(usize, usize, usize, usize),
    /// `b[j1..j2]` should be inserted at `a[i1..i1]` (`i1 == i2`).
    Insert(usize, usize, usize, usize),
}

pub open spec fn op_i1(op: Opcode) -> usize {
    match op {
        Opcode::Equal(i1, _, _, _) => i1,
        Opcode::Replace(i1, _, _, _) => i1,
        Opcode::Delete(i1, _, _, _) => i1,
        Opcode::Insert(i1, _, _, _) => i1,
    }
}

pub open spec fn op_i2(op: Opcode) -> usize {
    match op {
        Opcode::Equal(_, i2, _, _) => i2,
        Opcode::Replace(_, i2, _, _) => i2,
        Opcode::Delete(_, i2, _, _) => i2,
        Opcode::Insert(_, i2, _, _) => i2,
    }
}

pub open spec fn op_j1(op: Opcode) -> usize {
    match op {
        Opcode::Equal(_, _, j1, _) => j1,
        Opcode::Replace(_, _, j1, _) => j1,
        Opcode::Delete(_, _, j1, _) => j1,
        Opcode::Insert(_, _, j1, _) => j1,
    }
}

pub open spec fn op_j2(op: Opcode) -> usize {
    match op {
        Opcode::Equal(_, _, _, j2) => j2,
        Opcode::Replace(_, _, _, j2) => j2,
        Opcode::Delete(_, _, _, j2) => j2,
        Opcode::Insert(_, _, _, j2) => j2,
    }
}

/// Well-formedness of a single opcode: ranges in bounds, the shape its tag
/// dictates, and for `Equal` the element-wise equality of the two slices.
pub open spec fn op_wf(op: Opcode, a: Seq<u64>, b: Seq<u64>) -> bool {
    match op {
        Opcode::Equal(i1, i2, j1, j2) => i1 < i2 && i2 <= a.len() && j1 < j2 && j2 <= b.len() && i2
            - i1 == j2 - j1 && a.subrange(i1 as int, i2 as int) == b.subrange(
            j1 as int,
            j2 as int,
        ),
        Opcode::Replace(i1, i2, j1, j2) => i1 < i2 && i2 <= a.len() && j1 < j2 && j2 <= b.len(),
        Opcode::Delete(i1, i2, j1, j2) => i1 < i2 && i2 <= a.len() && j1 == j2 && j2 <= b.len(),
        Opcode::Insert(i1, i2, j1, j2) => i1 == i2 && i2 <= a.len() && j1 < j2 && j2 <= b.len(),
    }
}

/// The opcodes form a contiguous chain of well-formed edits from `(i, j)`
/// to `(iend, jend)`: each opcode starts where the previous one ended.
pub open spec fn ops_chain_between(
    ops: Seq<Opcode>,
    i: usize,
    j: usize,
    iend: usize,
    jend: usize,
    a: Seq<u64>,
    b: Seq<u64>,
) -> bool
    decreases ops.len(),
{
    if ops.len() == 0 {
        i == iend && j == jend
    } else {
        op_i1(ops[0]) == i && op_j1(ops[0]) == j && op_wf(ops[0], a, b) && ops_chain_between(
            ops.skip(1),
            op_i2(ops[0]),
            op_j2(ops[0]),
            iend,
            jend,
            a,
            b,
        )
    }
}

/// The opcodes partition `[0, len(a))` and `[0, len(b))` exactly and
/// contiguously.
pub open spec fn opcodes_cover(ops: Seq<Opcode>, a: Seq<u64>, b: Seq<u64>) -> bool {
    ops_chain_between(ops, 0, 0, a.len() as usize, b.len() as usize, a, b)
}

/// The partition property in indexed form: the list is empty exactly for
/// two empty inputs, starts at `(0, 0)`, ends at `(len(a), len(b))`, each
/// opcode begins where its predecessor ended, and each opcode is
/// well-formed.
pub open spec fn opcodes_valid(ops: Seq<Opcode>, a: Seq<u64>, b: Seq<u64>) -> bool {
    &&& (ops.len() == 0 <==> (a.len() == 0 && b.len() == 0))
    &&& (ops.len() > 0 ==> op_i1(ops[0]) == 0 && op_j1(ops[0]) == 0 && op_i2(ops[ops.len() - 1])
        == a.len() && op_j2(ops[ops.len() - 1]) == b.len())
    &&& (forall|k: int|
        0 <= k < ops.len() - 1 ==> op_i1(ops[k + 1]) == op_i2(#[trigger] ops[k]) && op_j1(
            ops[k + 1],
        ) == op_j2(ops[k]))
    &&& (forall|k: int| 0 <= k < ops.len() ==> op_wf(#[trigger] ops[k], a, b))
}

/// The opcode (if any) for the gap between the cursor `(i, j)` and the
/// start `(bi, bj)` of the next block.
pub open spec fn gap_ops(i: usize, j: usize, bi: usize, bj: usize) -> Seq<Opcode> {
    if i == bi && j == bj {
        Seq::<Opcode>::empty()
    } else if i == bi {
        seq![Opcode::Insert(i, i, j, bj)]
    } else if j == bj {
        seq![Opcode::Delete(i, bi, j, j)]
    } else {
        seq![Opcode::Replace(i, bi, j, bj)]
    }
}

/// The `Equal` opcode of a real matching block; nothing for the sentinel.
pub open spec fn block_equal_ops(blk: (usize, usize, usize)) -> Seq<Opcode> {
    if blk.2 > 0 {
        seq![
            Opcode::Equal(blk.0, ((blk.0 + blk.2) as usize), blk.1, ((blk.1 + blk.2) as usize)),
        ]
    } else {
        Seq::<Opcode>::empty()
    }
}

/// Opcodes derived from the blocks from index `k` on, with the cursor at
/// `(i, j)`.
pub open spec fn ops_from(
    bs: Seq<(usize, usize, usize)>,
    k: int,
    i: usize,
    j: usize,
) -> Seq<Opcode>
    decreases bs.len() - k
    when 0 <= k <= bs.len()
{
    if k >= bs.len() {
        Seq::<Opcode>::empty()
    } else {
        gap_ops(i, j, bs[k].0, bs[k].1) + block_equal_ops(bs[k]) + ops_from(
            bs,
            k + 1,
            ((bs[k].0 + bs[k].2) as usize),
            ((bs[k].1 + bs[k].2) as usize),
        )
    }
}

/// Chains compose: a chain to a midpoint followed by a chain from that
/// midpoint is a chain over the concatenation.
proof fn lemma_chain_concat(
    s1: Seq<Opcode>,
    s2: Seq<Opcode>,
    i: usize,
    j: usize,
    mi: usize,
    mj: usize,
    iend: usize,
    jend: usize,
    a: Seq<u64>,
    b: Seq<u64>,
)
    requires
        ops_chain_between(s1, i, j, mi, mj, a, b),
        ops_chain_between(s2, mi, mj, iend, jend, a, b),
    ensures
        ops_chain_between(s1 + s2, i, j, iend, jend, a, b),
    decreases s1.len(),
{
    if s1.len() == 0 {
        assert(s1 + s2 =~= s2);
    } else {
        lemma_chain_concat(
            s1.skip(1),
            s2,
            op_i2(s1[0]),
            op_j2(s1[0]),
            mi,
            mj,
            iend,
            jend,
            a,
            b,
        );
        assert((s1 + s2).skip(1) =~= s1.skip(1) + s2);
        assert((s1 + s2)[0] == s1[0]);
    }
}

/// The opcodes derived from valid blocks chain from the cursor to the two
/// sequence ends.
proof fn lemma_ops_from_chain(
    bs: Seq<(usize, usize, usize)>,
    k: int,
    i: usize,
    j: usize,
    a: Seq<u64>,
    b: Seq<u64>,
)
    requires
        blocks_valid(bs, a, b),
        0 <= k < bs.len(),
        i <= bs[k].0,
        j <= bs[k].1,
        a.len() <= usize::MAX,
        b.len() <= usize::MAX,
    ensures
        ops_chain_between(
            ops_from(bs, k, i, j),
            i,
            j,
            (a.len() as usize),
            (b.len() as usize),
            a,
            b,
        ),
    decreases bs.len() - k,
{
    let bi = bs[k].0;
    let bj = bs[k].1;
    let n = bs[k].2;
    assert(block_wf(bs[k], a, b));
    let gap = gap_ops(i, j, bi, bj);
    let eq = block_equal_ops(bs[k]);
    if i == bi && j == bj {
    } else if i == bi {
        let op = Opcode::Insert(i, i, j, bj);
        assert(gap == seq![op]);
        assert(op_wf(op, a, b));
        assert(gap.skip(1) =~= Seq::<Opcode>::empty());
    } else if j == bj {
        let op = Opcode::Delete(i, bi, j, j);
        assert(gap == seq![op]);
        assert(op_wf(op, a, b));
        assert(gap.skip(1) =~= Seq::<Opcode>::empty());
    } else {
        let op = Opcode::Replace(i, bi, j, bj);
        assert(gap == seq![op]);
        assert(op_wf(op, a, b));
        assert(gap.skip(1) =~= Seq::<Opcode>::empty());
    }
    assert(ops_chain_between(Seq::<Opcode>::empty(), bi, bj, bi, bj, a, b));
    assert(ops_chain_between(gap, i, j, bi, bj, a, b));
    if n > 0 {
        let i2 = ((bi + n) as usize);
        let j2 = ((bj + n) as usize);
        let op = Opcode::Equal(bi, i2, bj, j2);
        assert(eq == seq![op]);
        assert(op_wf(op, a, b));
        assert(eq.skip(1) =~= Seq::<Opcode>::empty());
        assert(ops_chain_between(Seq::<Opcode>::empty(), i2, j2, i2, j2, a, b));
        assert(ops_chain_between(eq, bi, bj, i2, j2, a, b));
    }
    if k == bs.len() - 1 {
        assert(bs[k] == ((a.len() as usize), (b.len() as usize), 0usize));
        assert(ops_from(bs, k + 1, ((bi + n) as usize), ((bj + n) as usize)) =~= Seq::<
            Opcode,
        >::empty());
        lemma_chain_concat(
            gap,
            eq + ops_from(bs, k + 1, ((bi + n) as usize), ((bj + n) as usize)),
            i,
            j,
            bi,
            bj,
            (a.len() as usize),
            (b.len() as usize),
            a,
            b,
        );
        assert(eq + ops_from(bs, k + 1, ((bi + n) as usize), ((bj + n) as usize)) =~= eq);
        assert(gap + eq + ops_from(bs, k + 1, ((bi + n) as usize), ((bj + n) as usize)) =~= gap + (
        eq + ops_from(bs, k + 1, ((bi + n) as usize), ((bj + n) as usize))));
    } else {
        assert(bi + n <= bs[k + 1].0 && bj + n <= bs[k + 1].1);
        lemma_ops_from_chain(bs, k + 1, ((bi + n) as usize), ((bj + n) as usize), a, b);
        let rest = ops_from(bs, k + 1, ((bi + n) as usize), ((bj + n) as usize));
        lemma_chain_concat(
            eq,
            rest,
            bi,
            bj,
            ((bi + n) as usize),
            ((bj + n) as usize),
            (a.len() as usize),
            (b.len() as usize),
            a,
            b,
        );
        lemma_chain_concat(
            gap,
            eq + rest,
            i,
            j,
            bi,
            bj,
            (a.len() as usize),
            (b.len() as usize),
            a,
            b,
        );
        assert(gap + eq + rest =~= gap + (eq + rest));
    }
}

/// A chain yields the indexed partition facts, opcode by opcode.
proof fn lemma_chain_indexed(
    ops: Seq<Opcode>,
    i: usize,
    j: usize,
    iend: usize,
    jend: usize,
    a: Seq<u64>,
    b: Seq<u64>,
)
    requires
        ops_chain_between(ops, i, j, iend, jend, a, b),
    ensures
        ops.len() == 0 ==> i == iend && j == jend,
        ops.len() > 0 ==> op_i1(ops[0]) == i && op_j1(ops[0]) == j,
        ops.len() > 0 ==> op_i2(ops[ops.len() - 1]) == iend && op_j2(ops[ops.len() - 1]) == jend,
        forall|k: int|
            0 <= k < ops.len() - 1 ==> op_i1(ops[k + 1]) == op_i2(#[trigger] ops[k]) && op_j1(
                ops[k + 1],
            ) == op_j2(ops[k]),
        forall|k: int| 0 <= k < ops.len() ==> op_wf(#[trigger] ops[k], a, b),
    decreases ops.len(),
{
    if ops.len() > 0 {
        let tail = ops.skip(1);
        lemma_chain_indexed(tail, op_i2(ops[0]), op_j2(ops[0]), iend, jend, a, b);
        assert forall|k: int|
            0 <= k < ops.len() - 1 implies op_i1(ops[k + 1]) == op_i2(#[trigger] ops[k]) && op_j1(
            ops[k + 1],
        ) == op_j2(ops[k]) by {
            if k == 0 {
                if tail.len() > 0 {
                    assert(ops[1] == tail[0]);
                }
            } else {
                assert(ops[k] == tail[k - 1] && ops[k + 1] == tail[k]);
            }
        }
        assert forall|k: int| 0 <= k < ops.len() implies op_wf(#[trigger] ops[k], a, b) by {
            if k > 0 {
                assert(ops[k] == tail[k - 1]);
            }
        }
        if ops.len() > 1 {
            assert(ops[ops.len() - 1] == tail[tail.len() - 1]);
        }
    }
}

/// A full cover implies the indexed partition property.
proof fn lemma_cover_valid(ops: Seq<Opcode>, a: Seq<u64>, b: Seq<u64>)
    requires
        opcodes_cover(ops, a, b),
        a.len() <= usize::MAX,
        b.len() <= usize::MAX,
    ensures
        opcodes_valid(ops, a, b),
{
    lemma_chain_indexed(ops, 0, 0, (a.len() as usize), (b.len() as usize), a, b);
    if a.len() == 0 && b.len() == 0 && ops.len() > 0 {
        assert(op_wf(ops[0], a, b));
        assert(false);
    }
}

impl SequenceMatcher {
    /// The opcodes this matcher's queries derive.
    pub open spec fn spec_opcodes(&self) -> Seq<Opcode> {
        ops_from(self.spec_blocks(), 0, 0, 0)
    }

    /// Edit opcodes that turn `a` into `b`.
    ///
    /// The list partitions both sequences exactly and contiguously: the
    /// first opcode starts at `(0, 0)`, each subsequent opcode starts where
    /// the previous one ended, the last ends at `(len(a), len(b))`, and for
    /// every `Equal` opcode the two slices are element-wise equal.
    #[verifier::loop_isolation(false)]
    #[verifier::rlimit(60)]
    pub fn get_opcodes(&self) -> (r: Vec<Opcode>)
        requires
            self.wf(),
        ensures
            r@ == self.spec_opcodes(),
            opcodes_cover(r@, self.seq_a(), self.seq_b()),
            opcodes_valid(r@, self.seq_a(), self.seq_b()),
    {
        let blocks = self.get_matching_blocks();
        let alen = self.len_a();
        let blen = self.len_b();
        let mut r: Vec<Opcode> = Vec::new();
        let mut i: usize = 0;
        let mut j: usize = 0;
        let mut k: usize = 0;
        while k < blocks.len()
            invariant
                k <= blocks@.len(),
                k < blocks@.len() ==> i <= blocks@[k as int].0 && j <= blocks@[k as int].1,
                k == blocks@.len() ==> i == alen && j == blen,
                i <= alen && j <= blen,
                r@ + ops_from(blocks@, k as int, i, j) == self.spec_opcodes(),
            decreases blocks@.len() - k,
        {
            let bi = blocks[k].0;
            let bj = blocks[k].1;
            let n = blocks[k].2;
            let ghost r0 = r@;
            let ghost i0 = i;
            let ghost j0 = j;
            if i < bi || j < bj {
                if i == bi {
                    r.push(Opcode::Insert(i, i, j, bj));
                } else if j == bj {
                    r.push(Opcode::Delete(i, bi, j, j));
                } else {
                    r.push(Opcode::Replace(i, bi, j, bj));
                }
            }
            proof {
                assert(r@ =~= r0 + gap_ops(i0, j0, bi, bj));
            }
            let ghost r1 = r@;
            if n > 0 {
                r.push(Opcode::Equal(bi, bi + n, bj, bj + n));
            }
            proof {
                assert(r@ =~= r1 + block_equal_ops(blocks@[k as int]));
                assert(ops_from(blocks@, k as int, i0, j0) == gap_ops(i0, j0, bi, bj)
                    + block_equal_ops(blocks@[k as int]) + ops_from(
                    blocks@,
                    k as int + 1,
                    ((bi + n) as usize),
                    ((bj + n) as usize),
                ));
                assert(r@ + ops_from(blocks@, k as int + 1, ((bi + n) as usize), ((bj + n) as usize))
                    =~= r0 + ops_from(blocks@, k as int, i0, j0));
            }
            i = bi + n;
            j = bj + n;
            k = k + 1;
            proof {
                if k < blocks@.len() {
                    assert(blocks@[k as int - 1].0 + blocks@[k as int - 1].2 <= blocks@[
                        k as int].0);
                }
                if k == blocks@.len() {
                    assert(blocks@[k as int - 1] == ((alen, blen, 0usize)));
                }
            }
        }
        proof {
            assert(ops_from(blocks@, k as int, i, j) =~= Seq::<Opcode>::empty());
            assert(r@ =~= self.spec_opcodes());
            lemma_ops_from_chain(blocks@, 0, 0, 0, self.seq_a(), self.seq_b());
            lemma_cover_valid(r@, self.seq_a(), self.seq_b());
        }
        r
    }
}

} // verus!
