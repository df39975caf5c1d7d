//! Laws of the opcode partition.
//!
//! Any opcode list that covers two sequences — as `get_opcodes` promises —
//! reconstructs both of them from its slices, and applying it to the first
//! sequence as edit instructions yields exactly the second.

use crate::opcodes::op_i1;
use crate::opcodes::op_i2;
use crate::opcodes::op_j1;
use crate::opcodes::op_j2;
use crate::opcodes::op_wf;
use crate::opcodes::opcodes_cover;
use crate::opcodes::ops_chain_between;
use crate::opcodes::Opcode;
use vstd::prelude::*;

verus! {

/// Concatenation of each opcode's A-slice, in order.
pub open spec fn ops_source_slices(ops: Seq<Opcode>, a: Seq<u64>) -> Seq<u64>
    decreases ops.len(),
{
    if ops.len() == 0 {
        Seq::<u64>::empty()
    } else {
        a.subrange(op_i1(ops[0]) as int, op_i2(ops[0]) as int) + ops_source_slices(
            ops.skip(1),
            a,
        )
    }
}

/// Concatenation of each opcode's B-slice, in order.
pub open spec fn ops_target_slices(ops: Seq<Opcode>, b: Seq<u64>) -> Seq<u64>
    decreases ops.len(),
{
    if ops.len() == 0 {
        Seq::<u64>::empty()
    } else {
        b.subrange(op_j1(ops[0]) as int, op_j2(ops[0]) as int) + ops_target_slices(
            ops.skip(1),
            b,
        )
    }
}

/// Result of applying the opcodes to `a` as edit instructions: `Equal`
/// keeps the A-slice, `Replace` and `Insert` take the B-slice, `Delete`
/// contributes nothing.
pub open spec fn apply_ops(ops: Seq<Opcode>, a: Seq<u64>, b: Seq<u64>) -> Seq<u64>
    decreases ops.len(),
{
    if ops.len() == 0 {
        Seq::<u64>::empty()
    } else {
        (match ops[0] {
            Opcode::Equal(i1, i2, _, _) => a.subrange(i1 as int, i2 as int),
            Opcode::Replace(_, _, j1, j2) => b.subrange(j1 as int, j2 as int),
            Opcode::Delete(_, _, _, _) => Seq::<u64>::empty(),
            Opcode::Insert(_, _, j1, j2) => b.subrange(j1 as int, j2 as int),
        }) + apply_ops(ops.skip(1), a, b)
    }
}

proof fn lemma_chain_slices(
    ops: Seq<Opcode>,
    i: usize,
    j: usize,
    iend: usize,
    jend: usize,
    a: Seq<u64>,
    b: Seq<u64>,
)
    requires
        ops_chain_between(ops, i, j, iend, jend, a, b),
        iend <= a.len(),
        jend <= b.len(),
    ensures
        i <= iend && j <= jend,
        ops_source_slices(ops, a) == a.subrange(i as int, iend as int),
        ops_target_slices(ops, b) == b.subrange(j as int, jend as int),
        apply_ops(ops, a, b) == b.subrange(j as int, jend as int),
    decreases ops.len(),
{
    if ops.len() == 0 {
        assert(a.subrange(i as int, iend as int) =~= Seq::<u64>::empty());
        assert(b.subrange(j as int, jend as int) =~= Seq::<u64>::empty());
    } else {
        let op = ops[0];
        let i2 = op_i2(op);
        let j2 = op_j2(op);
        lemma_chain_slices(ops.skip(1), i2, j2, iend, jend, a, b);
        assert(a.subrange(i as int, i2 as int) + a.subrange(i2 as int, iend as int) =~= a.subrange(
            i as int,
            iend as int,
        ));
        assert(b.subrange(j as int, j2 as int) + b.subrange(j2 as int, jend as int) =~= b.subrange(
            j as int,
            jend as int,
        ));
        match op {
            Opcode::Equal(x1, x2, y1, y2) => {
                assert(a.subrange(x1 as int, x2 as int) == b.subrange(y1 as int, y2 as int));
            },
            Opcode::Replace(_, _, _, _) => {},
            Opcode::Delete(_, _, y1, y2) => {
                assert(b.subrange(y1 as int, y2 as int) =~= Seq::<u64>::empty());
            },
            Opcode::Insert(_, _, _, _) => {},
        }
    }
}

/// Law: a covering opcode list partitions both sequences exactly —
/// concatenating each opcode's A-slice reproduces `a`, and concatenating
/// each opcode's B-slice reproduces `b`.
pub proof fn lemma_opcodes_reconstruct(ops: Seq<Opcode>, a: Seq<u64>, b: Seq<u64>)
    requires
        opcodes_cover(ops, a, b),
        a.len() <= usize::MAX,
        b.len() <= usize::MAX,
    ensures
        ops_source_slices(ops, a) == a,
        ops_target_slices(ops, b) == b,
{
    lemma_chain_slices(ops, 0, 0, (a.len() as usize), (b.len() as usize), a, b);
    assert(a.subrange(0, a.len() as int) =~= a);
    assert(b.subrange(0, b.len() as int) =~= b);
}

/// Law: applying a covering opcode list to `a` as edit instructions
/// deterministically yields exactly `b`.
pub proof fn lemma_opcodes_apply(ops: Seq<Opcode>, a: Seq<u64>, b: Seq<u64>)
    requires
        opcodes_cover(ops, a, b),
        a.len() <= usize::MAX,
        b.len() <= usize::MAX,
    ensures
        apply_ops(ops, a, b) == b,
{
    lemma_chain_slices(ops, 0, 0, (a.len() as usize), (b.len() as usize), a, b);
    assert(b.subrange(0, b.len() as int) =~= b);
}

} // verus!
