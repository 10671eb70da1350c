use lisa::request::prompt::FuncGadget;
use lisa::schedule::{rand_choose_combination, ApiStats, Schedule, Seed};

fn stats(name: &str, cov_num: u32, cov_den: u32, exec_count: u32, prompt_count: u32) -> ApiStats {
    ApiStats { name: name.to_string(), cov_num, cov_den, exec_count, prompt_count }
}

fn weight(s: &Seed) -> f64 {
    s.weight_num as f64 / s.weight_den as f64
}

fn energy(s: &Seed) -> f64 {
    s.energy_num as f64 / s.energy_den as f64
}

#[test]
fn energies_and_weights_of_three_seeds() {
    let mut sched = Schedule::new();
    sched.update_energies(&vec![stats("f0", 0, 2, 3, 3), stats("f1", 1, 2, 3, 3), stats("f2", 2, 2, 3, 3)]);
    // (1 - coverage) / ((1 + 3) * (1 + 3))
    let e: Vec<f64> = sched.seeds.iter().map(|s| energy(s) * 16.0).collect();
    assert_eq!(e, vec![1.0, 0.5, 0.0]);
    sched.energy_normalization(0, 1);
    let w: Vec<f64> = sched.seeds.iter().map(weight).collect();
    assert_eq!(w, vec![1.0, 0.5, 0.0]);
}

#[test]
fn energy_with_no_attempts_is_uncovered_fraction() {
    let s = Seed::new("f", 1, 4, 0, 0, 1);
    assert_eq!((s.energy_num, s.energy_den), (3, 4));
    let t = Seed::new("f", 1, 4, 1, 2, 2);
    // (3/4) / (2 * 3)^2
    assert_eq!((t.energy_num, t.energy_den), (3, 144));
    let u = Seed::new("f", 1, 4, 5, 5, 0);
    assert_eq!((u.energy_num, u.energy_den), (3, 4));
}

#[test]
fn energy_falls_as_coverage_rises() {
    let mut last = f64::INFINITY;
    for c in 0..=10u32 {
        let s = Seed::new("f", c, 10, 2, 1, 1);
        let e = energy(&s);
        assert!(e < last);
        last = e;
    }
}

#[test]
fn normalised_weights_stay_above_the_floor() {
    let mut sched = Schedule::new();
    sched.update_energies(&vec![stats("a", 0, 3, 0, 1), stats("b", 2, 7, 4, 0), stats("c", 5, 5, 1, 1), stats("d", 1, 9, 2, 2)]);
    sched.energy_normalization(1, 100);
    for s in &sched.seeds {
        let w = weight(s);
        assert!(w >= 0.01 - 1e-12 && w <= 1.0);
    }
    // the seed of highest energy ("a", energy 1/2) gets weight 1
    assert_eq!(sched.seeds[0].weight_num, sched.seeds[0].weight_den);
}

#[test]
fn equal_energies_all_get_weight_one() {
    let mut sched = Schedule::new();
    sched.initialize_energies_for_api_mode(&vec!["a".to_string(), "b".to_string()]);
    sched.energy_normalization(1, 100);
    for s in &sched.seeds {
        assert_eq!(s.weight_num, s.weight_den);
    }
}

#[test]
fn triples_reward_their_apis() {
    let mut sched = Schedule::new();
    sched.initialize_energies_for_api_mode(&vec!["a".to_string(), "b".to_string(), "c".to_string(), "d".to_string()]);
    let triples = vec![
        ("a".to_string(), "b".to_string(), "c".to_string()),
        ("a".to_string(), "a".to_string(), "x".to_string()),
    ];
    sched.update_energies_from_api_pairs(&triples);
    let e: Vec<u32> = sched.seeds.iter().map(|s| s.energy_num).collect();
    assert_eq!(e, vec![4, 2, 2, 1]);
    // weights 0.01 + 0.99 * (e - 1) / 3
    let a = &sched.seeds[0];
    assert_eq!(a.weight_num, a.weight_den);
    let d = weight(&sched.seeds[3]);
    assert!((d - 0.01).abs() < 1e-12);
    let b = weight(&sched.seeds[1]);
    assert!((b - (0.01 + 0.99 / 3.0)).abs() < 1e-12);
}

#[test]
fn no_triples_change_nothing() {
    let mut sched = Schedule::new();
    sched.initialize_energies_for_api_mode(&vec!["a".to_string()]);
    sched.update_energies_from_api_pairs(&Vec::new());
    assert_eq!((sched.seeds[0].energy_num, sched.seeds[0].weight_num), (1, 1));
}

#[test]
fn shuffle_when_unproductive() {
    let sched = Schedule::new();
    assert!(sched.should_shuffle(0, 10));
    assert!(!sched.should_shuffle(0, 9));
    assert!(sched.should_shuffle(1, 11));
    assert!(!sched.should_shuffle(1, 10));
    assert!(!sched.should_shuffle(3, 20));
}

#[test]
fn seeds_are_found_by_name() {
    let mut sched = Schedule::new();
    sched.initialize_energies_for_api_mode(&vec!["x".to_string(), "y".to_string()]);
    assert_eq!(sched.get_seed_by_name("y").map(|s| s.name.clone()), Some("y".to_string()));
    assert!(sched.get_seed_by_name("z").is_none());
    sched.increment_loop();
    assert_eq!(sched.loop_count, 1);
}

#[test]
fn loop_converges_after_quiet_rounds() {
    let mut f = lisa::fuzzer::Fuzzer::new(4, true);
    assert!(!f.is_converge());
    f.end_round(false);
    assert!(!f.should_recheck());
    f.end_round(false);
    assert!(f.should_recheck());
    f.end_round(true);
    assert_eq!(f.quiet_round, 0);
    for _ in 0..3 {
        f.end_round(false);
    }
    assert!(!f.is_converge());
    f.end_round(false);
    assert!(f.is_converge());
    assert!(f.is_stuck(0));
    assert!(!f.is_stuck(2));
}

#[test]
fn random_combinations_have_distinct_apis() {
    let g = |n: &str| FuncGadget { name: n.to_string(), signature: format!("int {n}(void)") };
    let gadgets = vec![g("a"), g("b"), g("c"), g("a"), g("d")];
    for _ in 0..20 {
        let comb = rand_choose_combination(&gadgets, 3);
        assert_eq!(comb.len(), 3);
        let mut names: Vec<&str> = comb.iter().map(|x| x.name.as_str()).collect();
        names.sort();
        names.dedup();
        assert_eq!(names.len(), 3);
    }
    let all = rand_choose_combination(&gadgets, 10);
    assert_eq!(all.len(), 4);
    assert!(rand_choose_combination(&Vec::new(), 2).is_empty());
}

#[test]
fn new_triples_are_counted_once() {
    let t = |a: &str, b: &str, c: &str| (a.to_string(), b.to_string(), c.to_string());
    let mut seen = lisa::fuzzer::DiscoveredTriples::new();
    let first = seen.record(&vec![t("a", "b", "c"), t("a", "b", "c"), t("b", "c", "d")]);
    assert_eq!(first, vec![t("a", "b", "c"), t("b", "c", "d")]);
    let second = seen.record(&vec![t("b", "c", "d"), t("x", "y", "z")]);
    assert_eq!(second, vec![t("x", "y", "z")]);
    assert_eq!(seen.triples.len(), 3);
    let mut f = lisa::fuzzer::Fuzzer::new(10, false);
    assert!(!f.end_discovery_round(second.len(), 3, false));
    assert_eq!(f.quiet_round, 1);
    assert!(!f.end_discovery_round(0, 3, true));
    assert_eq!(f.quiet_round, 1);
    assert!(f.end_discovery_round(3, 3, false));
    assert_eq!(f.quiet_round, 0);
}

#[test]
fn seed_names_stay_distinct() {
    let mut sched = Schedule::new();
    sched.update_energies(&vec![stats("f", 0, 2, 0, 0), stats("g", 1, 2, 0, 0), stats("f", 1, 2, 0, 0)]);
    assert_eq!(sched.seeds.len(), 2);
    let f = sched.get_seed_by_name("f").unwrap();
    assert_eq!((f.energy_num, f.energy_den), (1, 2));
    sched.initialize_energies_for_api_mode(&vec!["a".to_string(), "b".to_string(), "a".to_string()]);
    assert_eq!(sched.seeds.len(), 2);
}

#[test]
fn drawn_candidate_is_appended() {
    use_candidates();
}

fn use_candidates() {
    let g = |n: &str| FuncGadget { name: n.to_string(), signature: format!("int {n}(void)") };
    let gadgets = vec![g("a"), g("b"), g("c")];
    let mut comb = vec![g("b")];
    let avail = lisa::schedule::available_gadgets(&comb, &gadgets);
    assert_eq!(avail, vec![0, 2]);
    lisa::schedule::take_drawn(&mut comb, &gadgets, &avail, 1);
    assert_eq!(comb.iter().map(|x| x.name.as_str()).collect::<Vec<_>>(), vec!["b", "c"]);
}
