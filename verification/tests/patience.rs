use patience_diff::opcodes::Opcode;
use patience_diff::DiffError;
use patience_diff::Element;
use patience_diff::SequenceMatcher;
use patience_diff::recurse_matches;
use patience_diff::unique_lcs;

fn elems(keys: &[u64]) -> Vec<Element> {
    keys.iter().map(|&k| Element::Value(k)).collect()
}

fn matcher(a: &[u64], b: &[u64]) -> SequenceMatcher {
    SequenceMatcher::new(&elems(a), &elems(b)).unwrap()
}

#[test]
fn identical_sequences_one_equal_opcode() {
    let m = matcher(&[1, 2, 3, 4], &[1, 2, 3, 4]);
    assert_eq!(m.get_opcodes(), vec![Opcode::Equal(0, 4, 0, 4)]);
}

#[test]
fn replace_in_the_middle() {
    let m = matcher(&[1, 2, 3], &[1, 4, 3]);
    assert_eq!(m.get_matching_blocks(), vec![(0, 0, 1), (2, 2, 1), (3, 3, 0)]);
    assert_eq!(
        m.get_opcodes(),
        vec![
            Opcode::Equal(0, 1, 0, 1),
            Opcode::Replace(1, 2, 1, 2),
            Opcode::Equal(2, 3, 2, 3),
        ]
    );
}

#[test]
fn insert_into_empty() {
    let m = matcher(&[], &[1, 2]);
    assert_eq!(m.get_opcodes(), vec![Opcode::Insert(0, 0, 0, 2)]);
}

#[test]
fn delete_to_empty() {
    let m = matcher(&[1, 2], &[]);
    assert_eq!(m.get_opcodes(), vec![Opcode::Delete(0, 2, 0, 0)]);
}

#[test]
fn unhashable_element_fails_construction() {
    let mut a = elems(&[1, 2]);
    a.push(Element::Unhashable);
    let b = elems(&[1, 2]);
    assert_eq!(
        SequenceMatcher::new(&a, &b).err(),
        Some(DiffError::UnhashableElement)
    );
    let a2 = elems(&[1, 2]);
    let mut b2 = elems(&[3]);
    b2.insert(0, Element::Unhashable);
    assert_eq!(
        SequenceMatcher::new(&a2, &b2).err(),
        Some(DiffError::UnhashableElement)
    );
}

#[test]
fn matching_blocks_end_with_sentinel() {
    for (a, b) in [
        (vec![], vec![]),
        (vec![1, 2, 3], vec![4, 5]),
        (vec![1, 2, 3], vec![1, 2, 3]),
        (vec![1, 1, 1], vec![1, 1]),
    ] {
        let m = matcher(&a, &b);
        let blocks = m.get_matching_blocks();
        assert_eq!(*blocks.last().unwrap(), (a.len(), b.len(), 0));
        for blk in &blocks[..blocks.len() - 1] {
            assert!(blk.2 > 0);
        }
    }
}

#[test]
fn opcodes_partition_and_apply() {
    let cases = [
        (vec![], vec![]),
        (vec![1u64, 2, 3, 4, 5], vec![1u64, 9, 3, 5, 6]),
        (vec![7, 7, 7, 7], vec![7, 7]),
        (vec![1, 2, 3], vec![4, 5, 6]),
        (vec![5, 4, 3, 2, 1], vec![1, 2, 3, 4, 5]),
    ];
    for (a, b) in cases {
        let m = matcher(&a, &b);
        let ops = m.get_opcodes();
        if a.is_empty() && b.is_empty() {
            assert!(ops.is_empty());
            continue;
        }
        // Contiguous partition of both sequences.
        let mut i: usize = 0;
        let mut j: usize = 0;
        let mut applied: Vec<u64> = Vec::new();
        for op in &ops {
            let (i1, i2, j1, j2) = match *op {
                Opcode::Equal(i1, i2, j1, j2)
                | Opcode::Replace(i1, i2, j1, j2)
                | Opcode::Delete(i1, i2, j1, j2)
                | Opcode::Insert(i1, i2, j1, j2) => (i1, i2, j1, j2),
            };
            assert_eq!((i1, j1), (i, j));
            match *op {
                Opcode::Equal(..) => {
                    assert_eq!(&a[i1..i2], &b[j1..j2]);
                    applied.extend_from_slice(&a[i1..i2]);
                }
                Opcode::Replace(..) | Opcode::Insert(..) => {
                    applied.extend_from_slice(&b[j1..j2]);
                }
                Opcode::Delete(..) => {}
            }
            i = i2;
            j = j2;
        }
        assert_eq!((i, j), (a.len(), b.len()));
        // Applying the opcodes to a yields exactly b.
        assert_eq!(applied, b);
    }
}

#[test]
fn queries_are_idempotent() {
    let m = matcher(&[1, 2, 3, 4, 5, 6, 2], &[2, 3, 9, 5, 6]);
    assert_eq!(m.get_matching_blocks(), m.get_matching_blocks());
    assert_eq!(m.get_opcodes(), m.get_opcodes());
    assert_eq!(m.get_grouped_opcodes(3), m.get_grouped_opcodes(3));
    assert_eq!(m.get_grouped_opcodes(0), m.get_grouped_opcodes(0));
}

#[test]
fn unique_lcs_simple() {
    let r = unique_lcs(&vec![1, 2, 3, 1], &vec![2, 3]);
    assert_eq!(r, vec![(1, 0), (2, 1)]);
}

#[test]
fn unique_lcs_is_strictly_increasing() {
    let a: Vec<u64> = vec![10, 5, 1, 2, 3, 4, 9, 5, 6, 7, 8];
    let b: Vec<u64> = vec![1, 2, 3, 4, 5, 6, 7, 8, 9];
    let r = unique_lcs(&a, &b);
    // The longest ascending unique-aligned list here is 1,2,3,4,6,7,8.
    assert_eq!(r.len(), 7);
    for w in r.windows(2) {
        assert!(w[0].0 < w[1].0);
        assert!(w[0].1 < w[1].1);
    }
    for &(i, j) in &r {
        assert_eq!(a[i], b[j]);
    }
}

#[test]
fn unique_lcs_no_unique_elements() {
    let r = unique_lcs(&vec![1, 1, 2, 2], &vec![1, 2, 1, 2]);
    assert_eq!(r, vec![]);
}

#[test]
fn unique_lcs_crossing_is_resolved() {
    // 3 before 2 on one side, 2 before 3 on the other: no crossing pairs
    // may both survive.
    let r = unique_lcs(&vec![3, 2], &vec![2, 3]);
    assert_eq!(r.len(), 1);
}

#[test]
fn recurse_matches_fills_accumulator() {
    let a: Vec<u64> = vec![1, 2, 3, 4, 5];
    let b: Vec<u64> = vec![1, 2, 9, 4, 5];
    let mut answer: Vec<(usize, usize)> = Vec::new();
    recurse_matches(&a, &b, 0, 0, 5, 5, &mut answer, 10);
    assert_eq!(answer, vec![(0, 0), (1, 1), (3, 3), (4, 4)]);
}

#[test]
fn recurse_matches_respects_exhausted_budget() {
    let a: Vec<u64> = vec![1, 2, 3];
    let b: Vec<u64> = vec![1, 2, 3];
    let mut answer: Vec<(usize, usize)> = vec![(7, 7)];
    recurse_matches(&a, &b, 0, 0, 3, 3, &mut answer, -1);
    assert_eq!(answer, vec![(7, 7)]);
}

#[test]
fn recurse_matches_equal_ranges_without_anchors() {
    // No element is unique, but the ranges are element-wise equal.
    let a: Vec<u64> = vec![4, 4, 4];
    let b: Vec<u64> = vec![4, 4, 4];
    let mut answer: Vec<(usize, usize)> = Vec::new();
    recurse_matches(&a, &b, 0, 0, 3, 3, &mut answer, 10);
    assert_eq!(answer, vec![(0, 0), (1, 1), (2, 2)]);
}

#[test]
fn grouped_opcodes_single_change_default_context() {
    let a: Vec<u64> = (1..=12).collect();
    let mut b = a.clone();
    b[4] = 99;
    let m = matcher(&a, &b);
    let groups = m.get_grouped_opcodes(3);
    assert_eq!(
        groups,
        vec![vec![
            Opcode::Equal(1, 4, 1, 4),
            Opcode::Replace(4, 5, 4, 5),
            Opcode::Equal(5, 8, 5, 8),
        ]]
    );
}

#[test]
fn grouped_opcodes_split_on_long_equal_run() {
    let a: Vec<u64> = (1..=30).collect();
    let mut b = a.clone();
    b[0] = 91;
    b[29] = 92;
    let m = matcher(&a, &b);
    let groups = m.get_grouped_opcodes(3);
    assert_eq!(
        groups,
        vec![
            vec![Opcode::Replace(0, 1, 0, 1), Opcode::Equal(1, 4, 1, 4)],
            vec![Opcode::Equal(26, 29, 26, 29), Opcode::Replace(29, 30, 29, 30)],
        ]
    );
}

#[test]
fn grouped_opcodes_zero_context_keeps_bare_boundaries() {
    let a: Vec<u64> = vec![1, 2, 3, 4, 5, 6, 7, 8, 9];
    let b: Vec<u64> = vec![10, 2, 3, 4, 5, 6, 7, 8, 11];
    let m = matcher(&a, &b);
    let groups = m.get_grouped_opcodes(0);
    assert_eq!(
        groups,
        vec![
            vec![Opcode::Replace(0, 1, 0, 1), Opcode::Equal(1, 1, 1, 1)],
            vec![Opcode::Equal(8, 8, 8, 8), Opcode::Replace(8, 9, 8, 9)],
        ]
    );
}

#[test]
fn grouped_opcodes_identical_sequences_yield_no_groups() {
    let m = matcher(&[1, 2, 3, 4, 5], &[1, 2, 3, 4, 5]);
    assert_eq!(m.get_grouped_opcodes(3), Vec::<Vec<Opcode>>::new());
}

#[test]
fn grouped_opcodes_empty_inputs_yield_no_groups() {
    let m = matcher(&[], &[]);
    assert_eq!(m.get_grouped_opcodes(3), Vec::<Vec<Opcode>>::new());
}

#[test]
fn matcher_prefers_unique_anchors() {
    // Patience alignment anchors on the unique elements even among noise.
    let a: Vec<u64> = vec![20, 1, 2, 3, 20, 4];
    let b: Vec<u64> = vec![30, 1, 2, 3, 30, 4];
    let m = matcher(&a, &b);
    let blocks = m.get_matching_blocks();
    assert_eq!(blocks, vec![(1, 1, 3), (5, 5, 1), (6, 6, 0)]);
}
