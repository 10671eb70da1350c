use lisa::seed_metas::{MetaError, SeedMetas};

#[test]
fn records_are_sorted_and_batched() {
    let mut metas = SeedMetas::new(1000);
    metas.add("c.cc", 1300, None).unwrap();
    metas.add("a.cc", 1100, None).unwrap();
    metas.add("b.cc", 1300, None).unwrap();
    metas.add("early.cc", 900, None).unwrap();
    metas.add("d.cc", 1200, None).unwrap();
    assert_eq!(metas.len(), 5);
    metas.sort_chronologically();
    let order: Vec<&str> = metas.seed_metas.iter().map(|m| m.seed_path.as_str()).collect();
    assert_eq!(order, vec!["early.cc", "a.cc", "d.cc", "c.cc", "b.cc"]);
    assert_eq!(metas.seed_metas[0].duration_since_start_ms, 0);
    let ranges = metas.batch_ranges(2);
    assert_eq!(ranges, vec![(0, 2), (2, 4), (4, 5)]);
    metas.record_batch_coverage(2, 4, 1250);
    let cov: Vec<Option<u32>> = metas.seed_metas.iter().map(|m| m.cumulative_branch_coverage).collect();
    assert_eq!(cov, vec![None, None, Some(1250), Some(1250), None]);
}

#[test]
fn loaded_table_takes_no_new_records() {
    let mut metas = SeedMetas { start_time_ms: None, seed_metas: Vec::new() };
    assert_eq!(metas.add("x.cc", 5, None), Err(MetaError::NoStartTime));
    assert_eq!(metas.len(), 0);
}
