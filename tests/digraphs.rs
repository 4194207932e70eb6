use std::cell::RefCell;

use funcdigraphs::comp::{is_valid, Comp};
use funcdigraphs::digraph::generate_digraphs;
use funcdigraphs::digraph6::{digraph6, digraph_successors};

fn count(n: usize) -> u128 {
    generate_digraphs(n, &|_g: &Vec<Comp>| {})
}

#[test]
fn digraph_counts() {
    assert_eq!(count(0), 1);
    assert_eq!(count(1), 1);
    assert_eq!(count(2), 3);
    assert_eq!(count(3), 7);
    assert_eq!(count(4), 19);
    assert_eq!(count(5), 47);
    assert_eq!(count(6), 130);
    assert_eq!(count(7), 343);
}

#[test]
fn two_vertex_digraphs() {
    let seen: RefCell<Vec<Vec<Comp>>> = RefCell::new(Vec::new());
    let n = generate_digraphs(2, &|g: &Vec<Comp>| seen.borrow_mut().push(g.clone()));
    assert_eq!(n, 3);
    let seen = seen.into_inner();
    assert!(seen.contains(&vec![vec![vec![1]], vec![vec![1]]]));
    assert!(seen.contains(&vec![vec![vec![1], vec![1]]]));
    assert!(seen.contains(&vec![vec![vec![2, 1]]]));
}

#[test]
fn digraphs_are_distinct_and_sorted() {
    for n in 1..7usize {
        let seen: RefCell<Vec<Vec<Comp>>> = RefCell::new(Vec::new());
        let total = generate_digraphs(n, &|g: &Vec<Comp>| seen.borrow_mut().push(g.clone()));
        let seen = seen.into_inner();
        assert_eq!(seen.len() as u128, total);
        for (a, g) in seen.iter().enumerate() {
            let sizes: Vec<usize> = g.iter().map(|c| c.iter().map(|t| t.len()).sum()).collect();
            assert_eq!(sizes.iter().sum::<usize>(), n);
            assert!(sizes.windows(2).all(|w| w[0] <= w[1]));
            assert!(g.iter().all(|c| is_valid(c)));
            assert!(!seen[..a].contains(g));
        }
    }
}

#[test]
fn digraph_lines_are_distinct() {
    let lines: RefCell<Vec<Vec<u8>>> = RefCell::new(Vec::new());
    generate_digraphs(4, &|g: &Vec<Comp>| {
        lines.borrow_mut().push(digraph6(&digraph_successors(g), false))
    });
    let lines = lines.into_inner();
    assert_eq!(lines.len(), 19);
    for (a, l) in lines.iter().enumerate() {
        assert!(!lines[..a].contains(l));
    }
}

#[test]
fn single_self_loop_digraph() {
    let lines: RefCell<Vec<Vec<u8>>> = RefCell::new(Vec::new());
    generate_digraphs(1, &|g: &Vec<Comp>| {
        lines.borrow_mut().push(digraph6(&digraph_successors(g), false))
    });
    assert_eq!(lines.into_inner(), vec![b"&@_".to_vec()]);
}

#[test]
fn successors_of_two_components() {
    let g: Vec<Comp> = vec![vec![vec![1]], vec![vec![1], vec![2, 1]]];
    assert_eq!(digraph_successors(&g), vec![0, 2, 1, 2]);
}
