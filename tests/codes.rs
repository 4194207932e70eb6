use funcdigraphs::comp::{_depth, backtrack, candidate, cycle, is_valid, n_candidates, parent};
use funcdigraphs::rotation::{is_min_rotation, is_min_rotation_linear};
use funcdigraphs::tree;
use funcdigraphs::comp::generate;
use funcdigraphs::rotation::RotationTest;
use funcdigraphs::walk::{generate_by, Walk};

#[test]
fn tree_is_valid_checks_child_order() {
    assert!(tree::is_valid(&vec![1]));
    assert!(tree::is_valid(&vec![3, 1, 1]));
    assert!(tree::is_valid(&vec![4, 1, 2, 1]));
    assert!(!tree::is_valid(&vec![4, 2, 1, 1]));
}

#[test]
fn tree_merge_appends_last_child() {
    assert_eq!(tree::merge(&vec![1], &vec![1]), vec![2, 1]);
    assert_eq!(tree::merge(&vec![2, 1], &vec![1]), vec![3, 1, 1]);
    assert_eq!(tree::merge(&vec![1], &vec![2, 1]), vec![3, 2, 1]);
}

#[test]
fn tree_unmerge_splits_last_child() {
    assert_eq!(tree::unmerge(&vec![3, 1, 1]), (vec![2, 1], vec![1]));
    assert_eq!(tree::unmerge(&vec![4, 1, 2, 1]), (vec![2, 1], vec![2, 1]));
    assert_eq!(tree::unmerge(&vec![2, 1]), (vec![1], vec![1]));
}

#[test]
fn tree_round_trips() {
    let t = vec![5, 1, 3, 1, 1];
    let (a, b) = tree::unmerge(&t);
    assert_eq!(tree::merge(&a, &b), t);
    let (a, b) = (vec![2, 1], vec![3, 1, 1]);
    assert_eq!(tree::unmerge(&tree::merge(&a, &b)), (a, b));
}

#[test]
fn cycle_has_single_vertex_trees() {
    assert_eq!(cycle(3), vec![vec![1], vec![1], vec![1]]);
    assert!(cycle(0).is_empty());
}

#[test]
fn component_validity() {
    assert!(is_valid(&vec![vec![1], vec![2, 1]]));
    assert!(!is_valid(&vec![vec![2, 1], vec![1]]));
    assert!(!is_valid(&vec![vec![1], vec![4, 2, 1, 1]]));
    assert!(is_valid(&cycle(4)));
}

#[test]
fn min_rotation_naive() {
    let a = vec![1u8];
    let b = vec![2u8, 1];
    assert!(is_min_rotation(&[]));
    assert!(is_min_rotation(&[b.clone()]));
    assert!(is_min_rotation(&[a.clone(), a.clone(), b.clone()]));
    assert!(!is_min_rotation(&[a.clone(), b.clone(), a.clone()]));
    assert!(!is_min_rotation(&[b.clone(), a.clone(), a.clone()]));
    assert!(is_min_rotation(&[a.clone(), b.clone(), a.clone(), b.clone()]));
}

#[test]
fn candidates_of_cycles() {
    assert_eq!(n_candidates(&cycle(3)), 4);
    assert_eq!(n_candidates(&cycle(1)), 0);
    assert_eq!(candidate(&cycle(2), 0), Some(vec![vec![2, 1]]));
    assert_eq!(candidate(&cycle(2), 1), None);
    assert_eq!(candidate(&cycle(2), 2), None);
    assert_eq!(candidate(&cycle(3), 1), Some(vec![vec![1], vec![2, 1]]));
    assert_eq!(candidate(&cycle(3), 0), None);
}

#[test]
fn reversed_candidate() {
    let c = vec![vec![1], vec![2, 1]];
    assert_eq!(candidate(&c, 1), Some(vec![vec![3, 1, 1]]));
    assert_eq!(candidate(&c, 0), Some(vec![vec![3, 2, 1]]));
}

#[test]
fn parent_and_backtrack() {
    assert_eq!(parent(&vec![vec![2, 1]]), Some(cycle(2)));
    assert_eq!(parent(&cycle(2)), None);
    assert_eq!(backtrack(&vec![vec![2, 1]]), Some(0));
    assert_eq!(backtrack(&cycle(3)), None);
    assert_eq!(parent(&vec![vec![3, 1, 1]]), Some(vec![vec![1], vec![2, 1]]));
    assert_eq!(backtrack(&vec![vec![3, 1, 1]]), Some(1));
    assert_eq!(backtrack(&vec![vec![3, 2, 1]]), Some(0));
}

#[test]
fn depth_parity() {
    assert_eq!(_depth(&cycle(3)), 0);
    assert_eq!(_depth(&vec![vec![2, 1]]), 1);
    assert_eq!(_depth(&vec![vec![3, 1, 1]]), 0);
}

#[test]
fn generate_small_counts() {
    assert_eq!(generate(0), 0);
    assert_eq!(generate(1), 1);
    assert_eq!(generate(2), 2);
    assert_eq!(generate(3), 4);
    assert_eq!(generate(4), 9);
    assert_eq!(generate(5), 20);
    assert_eq!(generate(6), 51);
    assert_eq!(generate(7), 125);
}

#[test]
fn walk_emits_distinct_canonical_codes() {
    for n in 1..8usize {
        let mut w = Walk::new(n);
        let mut seen: Vec<Vec<Vec<u8>>> = Vec::new();
        while let Some(c) = w.next() {
            assert!(is_valid(&c));
            assert_eq!(c.iter().map(|t| t.len()).sum::<usize>(), n);
            assert!(!seen.contains(&c));
            seen.push(c);
        }
        assert_eq!(seen.len() as u128, generate(n));
        assert!(w.next().is_none());
    }
}

#[test]
fn walk_starts_with_the_cycle() {
    let mut w = Walk::new(3);
    assert_eq!(w.next(), Some(cycle(3)));
    let mut w = Walk::new(2);
    assert_eq!(w.next(), Some(cycle(2)));
    assert_eq!(w.next(), Some(vec![vec![2, 1]]));
    assert_eq!(w.next(), None);
    let mut w = Walk::new(0);
    assert_eq!(w.next(), None);
}

#[test]
fn rotation_testers_agree() {
    let alphabet: Vec<Vec<u8>> = vec![vec![1], vec![2, 1], vec![3, 1, 1]];
    for len in 0..9usize {
        let total = 3usize.pow(len as u32);
        for code in 0..total {
            let mut x = code;
            let mut s: Vec<Vec<u8>> = Vec::new();
            for _ in 0..len {
                s.push(alphabet[x % 3].clone());
                x /= 3;
            }
            assert_eq!(is_min_rotation(&s), is_min_rotation_linear(&s), "{s:?}");
        }
    }
}

#[test]
fn rotation_testers_agree_binary_long() {
    let a = vec![1u8];
    let b = vec![2u8, 1];
    for len in [12usize, 16, 20] {
        for code in (0..(1u32 << len)).step_by(97) {
            let s: Vec<Vec<u8>> = (0..len)
                .map(|i| if (code >> i) & 1 == 1 { b.clone() } else { a.clone() })
                .collect();
            assert_eq!(is_min_rotation(&s), is_min_rotation_linear(&s), "{s:?}");
        }
    }
}

#[test]
fn linear_rotation_tester_cases() {
    let a = vec![1u8];
    let b = vec![2u8, 1];
    assert!(is_min_rotation_linear(&[]));
    assert!(is_min_rotation_linear(&[b.clone()]));
    assert!(is_min_rotation_linear(&[a.clone(), a.clone(), b.clone()]));
    assert!(!is_min_rotation_linear(&[a.clone(), b.clone(), a.clone()]));
    assert!(is_min_rotation_linear(&[a.clone(), b.clone(), a.clone(), b.clone()]));
    assert!(!is_min_rotation_linear(&[b.clone(), a.clone(), b.clone(), a.clone()]));
}

#[test]
fn tree_is_valid_checks_every_level() {
    assert!(!tree::is_valid(&vec![5, 4, 2, 1, 1]));
    assert!(tree::is_valid(&vec![5, 4, 1, 2, 1]));
    assert!(!tree::is_valid(&vec![6, 1, 4, 2, 1, 1]));
    assert!(tree::is_valid(&vec![6, 1, 4, 1, 2, 1]));
    assert!(!is_valid(&vec![vec![1], vec![5, 4, 2, 1, 1]]));
}

#[test]
fn generate_with_either_rotation_test() {
    for n in 0..8usize {
        assert_eq!(generate_by(n, RotationTest::Linear), generate(n));
        assert_eq!(generate_by(n, RotationTest::Naive), generate(n));
    }
    let mut a = Walk::with_test(4, RotationTest::Linear);
    let mut b = Walk::new(4);
    loop {
        let (x, y) = (a.next(), b.next());
        assert_eq!(x, y);
        if x.is_none() {
            break;
        }
    }
}

#[test]
fn candidate_of_parent_gives_component_back() {
    for n in 2..7usize {
        let mut w = Walk::new(n);
        while let Some(c) = w.next() {
            if c.iter().any(|t| t.len() > 1) {
                let p = parent(&c).unwrap();
                let i = backtrack(&c).unwrap();
                assert_eq!(candidate(&p, i), Some(c));
            }
        }
    }
}
