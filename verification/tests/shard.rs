use dbake::builder::shard::{classify_shard, shard_name, stale_shards, ShardKind};

#[test]
fn shard_names_are_unique_per_run() {
    assert_eq!(shard_name("zot", "node0", 42), "zot-shard-node0--run42");
    assert_ne!(
        shard_name("zot", "node0", 42),
        shard_name("zot", "node0", 43)
    );
}

#[test]
fn classifies_names() {
    assert_eq!(
        classify_shard("zot-shard-node0--run42", "zot"),
        ShardKind::Owned(42)
    );
    assert_eq!(classify_shard("zot-shard-node0", "zot"), ShardKind::Legacy);
    assert_eq!(classify_shard("zot", "zot"), ShardKind::Foreign);
    assert_eq!(
        classify_shard("other-shard-n--run1", "zot"),
        ShardKind::Foreign
    );
}

#[test]
fn node_names_containing_dashes_still_parse() {
    assert_eq!(
        classify_shard("zot-lb-shard-zot-m3-pro0--run991", "zot-lb"),
        ShardKind::Owned(991)
    );
}

#[test]
fn a_legacy_shard_for_a_numeric_node_name_is_not_mistaken_for_a_pid() {
    assert_eq!(
        classify_shard("zot-shard-worker-2", "zot"),
        ShardKind::Legacy
    );
    assert_eq!(
        stale_shards("zot-shard-worker-2  remote\n", "zot", |_| true),
        vec!["zot-shard-worker-2".to_string()]
    );
}

#[test]
fn a_live_runs_shards_are_never_removed() {
    let ls = "NAME/NODE                 DRIVER/ENDPOINT\n\
                  zot-shard-node0--run100  remote\n\
                  zot-shard-node1--run200  remote\n\
                  zot                      remote\n";
    let stale = stale_shards(ls, "zot", |pid| pid == 100);
    assert_eq!(stale, vec!["zot-shard-node1--run200".to_string()]);
}

#[test]
fn legacy_shards_without_a_run_id_are_removed() {
    let ls = "zot-shard-node0  remote\n";
    assert_eq!(
        stale_shards(ls, "zot", |_| true),
        vec!["zot-shard-node0".to_string()]
    );
}

#[test]
fn other_builders_are_left_alone() {
    let ls = "default *  docker\nmy-cluster  remote\n";
    assert!(stale_shards(ls, "zot", |_| false).is_empty());
}
