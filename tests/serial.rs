use funcdigraphs::comp::cycle;
use funcdigraphs::digraph6::{digraph6, successors};
use funcdigraphs::rotation::is_min_rotation;
use funcdigraphs::walk::Walk;

#[test]
fn single_self_loop_line() {
    let succ = successors(&cycle(1));
    assert_eq!(succ, vec![0]);
    assert_eq!(digraph6(&succ, false), b"&@_".to_vec());
    assert_eq!(digraph6(&succ, true), b"&@?".to_vec());
}

#[test]
fn successors_follow_parents_and_cycle() {
    assert_eq!(successors(&cycle(3)), vec![1, 2, 0]);
    assert_eq!(successors(&vec![vec![2, 1]]), vec![0, 0]);
    assert_eq!(successors(&vec![vec![1], vec![3, 1, 1]]), vec![1, 0, 1, 1]);
    assert_eq!(successors(&vec![vec![4, 2, 1, 1]]), vec![0, 0, 1, 0]);
}

#[test]
fn two_cycle_line() {
    // rows 01 and 10: bits 0110 00 -> 24
    assert_eq!(digraph6(&vec![1, 0], false), vec![b'&', 2 + 63, 24 + 63]);
}

#[test]
fn larger_size_field() {
    let succ: Vec<usize> = (0..63).map(|v| (v + 1) % 63).collect();
    let line = digraph6(&succ, false);
    assert_eq!(&line[..5], &[b'&', 126, 63, 63, 63 + 63]);
    assert_eq!(line.len(), 5 + (63 * 63 + 5) / 6);
    // row 0 has its entry at column 1
    assert_eq!(line[5], 16 + 63);
}

#[test]
fn empty_digraph_line() {
    assert_eq!(digraph6(&vec![], false), b"&?".to_vec());
}

#[test]
fn walk_lines_for_two_vertices() {
    let mut w = Walk::new(2);
    let mut lines: Vec<Vec<u8>> = Vec::new();
    while let Some(c) = w.next() {
        lines.push(digraph6(&successors(&c), false));
    }
    assert_eq!(lines, vec![vec![b'&', 65, 24 + 63], vec![b'&', 65, 40 + 63]]);
}

#[test]
fn one_rotation_per_class_is_accepted() {
    let a = vec![1u8];
    let b = vec![2u8, 1];
    let c = vec![3u8, 1, 1];
    let s = vec![a.clone(), a.clone(), b.clone(), a.clone(), c.clone()];
    let n = s.len();
    let mut accepted = 0;
    for k in 0..n {
        let r: Vec<Vec<u8>> = (0..n).map(|i| s[(i + k) % n].clone()).collect();
        if is_min_rotation(&r) {
            accepted += 1;
        }
    }
    assert_eq!(accepted, 1);
    let p = vec![a.clone(), b.clone(), a.clone(), b.clone()];
    let mut minimal: Vec<Vec<Vec<u8>>> = Vec::new();
    for k in 0..4 {
        let r: Vec<Vec<u8>> = (0..4).map(|i| p[(i + k) % 4].clone()).collect();
        if is_min_rotation(&r) {
            minimal.push(r);
        }
    }
    assert!(minimal.iter().all(|r| *r == p));
}
