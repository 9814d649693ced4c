use hopper::shard::shard;

#[test]
fn scaffold_builds() {
    assert_eq!(2 + 2, 4);
}

#[test]
fn lib_scaffold_builds() {
    assert_eq!(2 + 2, 4);
    let cfg = hopper::config::ModelConfig::default();
    assert_eq!(shard(&cfg, 1), vec![(0, 8)]);
}
