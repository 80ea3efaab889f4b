use dir_schema::indent::normalize_indentation;
use dir_schema::line::IndentMeasuredString;
use std::collections::BTreeSet;

fn lines_of(indents: &[usize]) -> Vec<IndentMeasuredString> {
    indents
        .iter()
        .enumerate()
        .map(|(i, w)| IndentMeasuredString {
            indent: *w,
            name: format!("n{}", i),
            source_line: 10 + i,
        })
        .collect()
}

fn depths_after(indents: &[usize]) -> Vec<usize> {
    let mut lines = lines_of(indents);
    normalize_indentation(&mut lines);
    lines.iter().map(|l| l.indent).collect()
}

#[test]
fn normalize_nothing() {
    assert_eq!(depths_after(&[]), Vec::<usize>::new());
}

#[test]
fn normalize_example_widths() {
    assert_eq!(depths_after(&[0, 4, 8, 4]), vec![0, 1, 2, 1]);
}

#[test]
fn normalize_single_width_becomes_zero() {
    assert_eq!(depths_after(&[7]), vec![0]);
    assert_eq!(depths_after(&[3, 3, 3]), vec![0, 0, 0]);
}

#[test]
fn normalize_mixed_widths() {
    assert_eq!(depths_after(&[0, 2, 4, 2, 0, 3, 8]), vec![0, 1, 3, 1, 0, 2, 4]);
}

#[test]
fn normalize_is_global_not_relative() {
    // Two branches that mean the same depth with different widths get different depths.
    assert_eq!(depths_after(&[0, 2, 0, 4]), vec![0, 1, 0, 2]);
}

#[test]
fn normalize_first_line_need_not_be_shallowest() {
    assert_eq!(depths_after(&[4, 0]), vec![1, 0]);
}

#[test]
fn normalize_large_widths() {
    assert_eq!(depths_after(&[usize::MAX, 0, usize::MAX - 1]), vec![2, 0, 1]);
}

#[test]
fn normalize_keeps_names_and_line_numbers() {
    let mut lines = lines_of(&[8, 0, 4]);
    normalize_indentation(&mut lines);
    assert_eq!(
        lines,
        vec![
            IndentMeasuredString { indent: 2, name: "n0".to_string(), source_line: 10 },
            IndentMeasuredString { indent: 0, name: "n1".to_string(), source_line: 11 },
            IndentMeasuredString { indent: 1, name: "n2".to_string(), source_line: 12 },
        ]
    );
}

#[test]
fn normalize_leaves_canonical_depths_unchanged() {
    for indents in [vec![0], vec![0, 1, 2, 1, 0], vec![0, 1, 1, 2, 3, 0, 1], vec![2, 1, 0]] {
        assert_eq!(depths_after(&indents), indents);
    }
}

#[test]
fn normalize_twice_is_normalize_once() {
    let mut lines = lines_of(&[5, 1, 9, 1, 30, 5]);
    normalize_indentation(&mut lines);
    let once = lines.clone();
    normalize_indentation(&mut lines);
    assert_eq!(lines, once);
}

#[test]
fn normalize_gives_the_rank_among_distinct_widths() {
    let mut state: u64 = 88172645463325252;
    for round in 0..500usize {
        let mut indents = Vec::new();
        for _ in 0..(round % 12) {
            state ^= state << 13;
            state ^= state >> 7;
            state ^= state << 17;
            indents.push((state % 10) as usize);
        }
        let distinct: BTreeSet<usize> = indents.iter().copied().collect();
        let want: Vec<usize> =
            indents.iter().map(|w| distinct.iter().filter(|x| *x < w).count()).collect();
        assert_eq!(depths_after(&indents), want);
    }
}
