use block_executor::ids::gen_id_start_value;

#[test]
fn start_values_of_modes_never_overlap() {
    let mut max_sequential = 0u32;
    let mut min_parallel = u32::MAX;
    let mut seen = std::collections::HashSet::new();
    for _ in 0..1000 {
        let s = gen_id_start_value(true);
        let p = gen_id_start_value(false);
        assert_eq!(s % 1_000_000, 0);
        assert_eq!(p % 1_000_000, 0);
        assert!((1_000_000..1_000_000_000).contains(&s));
        assert!((1_001_000_000..2_000_000_000).contains(&p));
        seen.insert(s);
        max_sequential = max_sequential.max(s);
        min_parallel = min_parallel.min(p);
    }
    assert!(max_sequential + 1_000_000 <= min_parallel);
    assert!(seen.len() > 1);
}
