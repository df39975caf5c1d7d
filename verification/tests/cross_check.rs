//! Comparison against the patiencediff crate on inputs whose alignment is
//! unambiguous. The two implementations may lawfully disagree elsewhere:
//! they break ties between equally long common subsequences differently,
//! and for anchor-less gaps that crate walks matching prefixes and
//! suffixes, while here only fully equal ranges are emitted.

use patience_diff::opcodes::Opcode;
use patience_diff::Element;
use patience_diff::SequenceMatcher;

type Tuple5 = (&'static str, usize, usize, usize, usize);

fn our_opcodes(a: &[u64], b: &[u64]) -> Vec<Tuple5> {
    let ea: Vec<Element> = a.iter().map(|&k| Element::Value(k)).collect();
    let eb: Vec<Element> = b.iter().map(|&k| Element::Value(k)).collect();
    let m = SequenceMatcher::new(&ea, &eb).unwrap();
    m.get_opcodes()
        .into_iter()
        .map(|op| match op {
            Opcode::Equal(i1, i2, j1, j2) => ("equal", i1, i2, j1, j2),
            Opcode::Replace(i1, i2, j1, j2) => ("replace", i1, i2, j1, j2),
            Opcode::Delete(i1, i2, j1, j2) => ("delete", i1, i2, j1, j2),
            Opcode::Insert(i1, i2, j1, j2) => ("insert", i1, i2, j1, j2),
        })
        .collect()
}

fn their_opcodes(a: &[u64], b: &[u64]) -> Vec<Tuple5> {
    let mut m = patiencediff::SequenceMatcher::new(a, b);
    m.get_opcodes()
        .iter()
        .map(|op| match *op {
            patiencediff::Opcode::Equal(i1, i2, j1, j2) => ("equal", i1, i2, j1, j2),
            patiencediff::Opcode::Replace(i1, i2, j1, j2) => ("replace", i1, i2, j1, j2),
            patiencediff::Opcode::Delete(i1, i2, j1, j2) => ("delete", i1, i2, j1, j2),
            patiencediff::Opcode::Insert(i1, i2, j1, j2) => ("insert", i1, i2, j1, j2),
        })
        .collect()
}

#[test]
fn opcodes_agree_on_unambiguous_inputs() {
    let mut long_a: Vec<u64> = (1..=20).collect();
    let mut long_b = long_a.clone();
    long_b[7] = 99;
    long_a.push(21);
    let cases: Vec<(Vec<u64>, Vec<u64>)> = vec![
        (vec![], vec![]),
        (vec![], vec![1, 2]),
        (vec![1, 2], vec![]),
        (vec![1, 2, 3, 4], vec![1, 2, 3, 4]),
        (vec![1, 2, 3], vec![1, 4, 3]),
        (vec![1, 2, 3], vec![4, 5, 6]),
        (vec![1, 2, 3, 4, 5], vec![2, 3, 4]),
        (long_a, long_b),
    ];
    for (a, b) in cases {
        assert_eq!(our_opcodes(&a, &b), their_opcodes(&a, &b));
    }
}
