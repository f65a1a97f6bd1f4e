use marshians_fn::combinatorics::{Combination, Permutation};

fn all_permutations(n: usize) -> Vec<Vec<usize>> {
    let mut pp = Vec::new();
    let mut perm = Permutation::new(n);
    while let Some(p) = perm.next() {
        pp.push(p);
    }
    pp
}

fn all_combinations(n: usize, k: usize) -> Vec<Vec<usize>> {
    let mut cc = Vec::new();
    let mut comb = Combination::new(n, k);
    while let Some(c) = comb.next() {
        cc.push(c);
    }
    cc
}

#[test]
fn permutation_3() {
    let pp = all_permutations(3);
    assert_eq!(
        pp,
        vec![
            vec![0, 1, 2],
            vec![1, 0, 2],
            vec![2, 0, 1],
            vec![0, 2, 1],
            vec![1, 2, 0],
            vec![2, 1, 0]
        ]
    );
}

#[test]
fn combination_3_2() {
    let cc = all_combinations(3, 2);
    assert_eq!(cc, vec![vec![0, 1], vec![1, 2], vec![0, 2]]);
}

#[test]
fn permutation_counts_are_factorials() {
    let mut fact = 1usize;
    for n in 0..7usize {
        if n > 0 {
            fact *= n;
        }
        let pp = all_permutations(n);
        assert_eq!(pp.len(), fact);
        let identity: Vec<usize> = (0..n).collect();
        assert_eq!(pp[0], identity);
        for p in pp.iter() {
            let mut sorted = p.clone();
            sorted.sort();
            assert_eq!(sorted, identity);
        }
        let mut distinct = pp.clone();
        distinct.sort();
        distinct.dedup();
        assert_eq!(distinct.len(), fact);
    }
}

#[test]
fn permutation_of_nothing_is_one_empty_ordering() {
    assert_eq!(all_permutations(0), vec![Vec::<usize>::new()]);
}

#[test]
fn permutation_stays_exhausted() {
    let mut perm = Permutation::new(2);
    assert_eq!(perm.next(), Some(vec![0, 1]));
    assert_eq!(perm.next(), Some(vec![1, 0]));
    assert_eq!(perm.next(), None);
    assert_eq!(perm.next(), None);
}

#[test]
fn combination_counts_are_binomials() {
    for n in 0..8usize {
        for k in 0..=n {
            let cc = all_combinations(n, k);
            let mut binom = 1usize;
            for j in 0..k {
                binom = binom * (n - j) / (j + 1);
            }
            assert_eq!(cc.len(), binom);
            for c in cc.iter() {
                assert_eq!(c.len(), k);
                for j in 1..c.len() {
                    assert!(c[j - 1] < c[j]);
                }
                for x in c.iter() {
                    assert!(*x < n);
                }
            }
            let mut distinct = cc.clone();
            distinct.sort();
            distinct.dedup();
            assert_eq!(distinct.len(), binom);
        }
    }
}

#[test]
fn combination_more_than_available_is_empty() {
    assert!(all_combinations(2, 3).is_empty());
    assert!(all_combinations(0, 1).is_empty());
}

#[test]
fn combination_zero_of_zero_is_one_empty_subset() {
    assert_eq!(all_combinations(0, 0), vec![Vec::<usize>::new()]);
}

#[test]
fn combination_order_follows_gray_codes() {
    assert_eq!(
        all_combinations(4, 2),
        vec![vec![0, 1], vec![1, 2], vec![0, 2], vec![2, 3], vec![1, 3], vec![0, 3]]
    );
}
