use lisa::minimize::{coverage_order, extract_3gram_triples, extract_api_pairs, minimize, minimize_by_api_pairs, select_covering};
use std::collections::HashSet;

fn strs(v: &[&str]) -> Vec<String> {
    v.iter().map(|s| s.to_string()).collect()
}

#[test]
fn branch_minimisation_keeps_covering_subset() {
    let cov = vec![vec![1, 2], vec![1, 2, 3, 4], vec![5], vec![3], vec![]];
    let kept = minimize(&cov);
    assert_eq!(kept, vec![1, 2]);
    let all: HashSet<usize> = cov.iter().flatten().copied().collect();
    let got: HashSet<usize> = kept.iter().flat_map(|&i| cov[i].iter().copied()).collect();
    assert_eq!(all, got);
}

#[test]
fn order_puts_widest_first_and_keeps_ties() {
    let cov = vec![vec![1], vec![1, 2], vec![3], vec![4, 5]];
    assert_eq!(coverage_order(&cov), vec![1, 3, 0, 2]);
    assert_eq!(select_covering(&cov, &vec![0, 1, 2, 3]), vec![0, 1, 2, 3]);
    assert_eq!(select_covering(&cov, &vec![1, 0]), vec![1]);
}

#[test]
fn empty_corpus_minimises_to_nothing() {
    assert!(minimize(&Vec::new()).is_empty());
    assert!(minimize_by_api_pairs(&Vec::new()).is_empty());
}

#[test]
fn consecutive_call_pairs_are_distinct() {
    let pairs = extract_api_pairs(&strs(&["a", "b", "a", "b", "c"]));
    assert_eq!(
        pairs,
        vec![
            ("a".to_string(), "b".to_string()),
            ("b".to_string(), "a".to_string()),
            ("b".to_string(), "c".to_string()),
        ]
    );
    assert!(extract_api_pairs(&strs(&["a"])).is_empty());
}

#[test]
fn call_triples_in_order() {
    let t = extract_3gram_triples(&strs(&["a", "b", "c", "d"]));
    assert_eq!(
        t,
        vec![
            ("a".to_string(), "b".to_string(), "c".to_string()),
            ("b".to_string(), "c".to_string(), "d".to_string()),
        ]
    );
    assert!(extract_3gram_triples(&strs(&["a", "b"])).is_empty());
}

#[test]
fn pair_minimisation_keeps_every_pair() {
    let programs = vec![
        strs(&["init", "use"]),
        strs(&["init", "use", "free"]),
        strs(&["solo"]),
        strs(&["use", "free", "init"]),
    ];
    let kept = minimize_by_api_pairs(&programs);
    assert_eq!(kept, vec![1, 3]);
    let pairs = |i: usize| -> HashSet<(String, String)> {
        programs[i].windows(2).map(|w| (w[0].clone(), w[1].clone())).collect()
    };
    let all: HashSet<_> = (0..programs.len()).flat_map(|i| pairs(i)).collect();
    let got: HashSet<_> = kept.iter().flat_map(|&i| pairs(i)).collect();
    assert_eq!(all, got);
    assert!(kept.len() <= programs.len());
}
