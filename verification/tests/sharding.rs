use pilar_core::sharding::{shard_id, RouteDecision, ShardCatalog};

#[test]
fn shard_ids_render_the_number_in_decimal() {
    assert_eq!(shard_id(0), "shard-0");
    assert_eq!(shard_id(7), "shard-7");
    assert_eq!(shard_id(10), "shard-10");
    assert_eq!(shard_id(1203), "shard-1203");
}

#[test]
fn new_catalog_has_shard_zero_and_counts_from_one() {
    let catalog = ShardCatalog::new();
    assert_eq!(catalog.len(), 1);
    assert_eq!(catalog.id(0), "shard-0");
    assert_eq!(catalog.next_id(), 1);
}

#[test]
fn joining_does_not_grow_the_catalog() {
    let mut catalog = ShardCatalog::new();
    match catalog.route(Some(0)) {
        RouteDecision::Joined(id) => assert_eq!(id, "shard-0"),
        RouteDecision::NewShard(_) => panic!("expected to join shard-0"),
    }
    assert_eq!(catalog.len(), 1);
    assert_eq!(catalog.next_id(), 1);
}

#[test]
fn new_shards_are_numbered_in_sequence() {
    let mut catalog = ShardCatalog::new();
    let a = catalog.route(None);
    let b = catalog.route(None);
    match (a, b) {
        (RouteDecision::NewShard(a), RouteDecision::NewShard(b)) => {
            assert_eq!(a, "shard-1");
            assert_eq!(b, "shard-2");
        }
        _ => panic!("expected two new shards"),
    }
    assert_eq!(catalog.all_ids(), vec!["shard-0", "shard-1", "shard-2"]);
}

#[test]
fn loaded_catalog_continues_id_sequence_without_collision() {
    let ids = vec!["shard-0".to_string(), "shard-1".to_string(), "shard-2".to_string()];
    let mut catalog = ShardCatalog::load(ids, 3);
    match catalog.route(None) {
        RouteDecision::NewShard(id) => assert_eq!(id, "shard-3"),
        RouteDecision::Joined(_) => panic!("expected a new shard"),
    }
    assert_eq!(catalog.next_id(), 4);
}
