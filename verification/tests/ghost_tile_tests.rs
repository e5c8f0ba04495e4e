use plato_afterlife::fraction::{ONE, UNIT};
use plato_afterlife::ghost_tile::GhostTile;

#[test]
fn new_tile_is_fresh() {
    let t = GhostTile::new(9, "lesson", 4, "Scout", 3);
    assert_eq!(t.id, 9);
    assert_eq!(t.content, "lesson");
    assert_eq!(t.source_vessel, 4);
    assert_eq!(t.source_name, "Scout");
    assert_eq!(t.weight, 100_000_000);
    assert_eq!(t.access_count, 0);
    assert_eq!(t.last_access_period, 3);
    assert_eq!(t.created_period, 3);
    assert!(t.tags.is_empty());
    assert!(!t.forgotten);
    assert!(!t.is_strong());
}

#[test]
fn decay_only_after_last_access() {
    let mut t = GhostTile::new(1, "x", 1, "v", 5);
    t.decay(5, 500_000_000);
    assert_eq!(t.weight, 100_000_000);
    t.decay(6, 500_000_000);
    assert_eq!(t.weight, 50_000_000);
    assert!(!t.forgotten);
    t.decay(7, 500_000_000);
    assert_eq!(t.weight, 25_000_000);
    assert!(t.forgotten);
}

#[test]
fn boost_resurrects_and_counts() {
    let mut t = GhostTile::new(1, "x", 1, "v", 0);
    t.weight = 10_000_000;
    t.forgotten = true;
    t.boost(300_000_000, 8);
    assert_eq!(t.weight, 70_000_000);
    assert_eq!(t.access_count, 1);
    assert_eq!(t.last_access_period, 8);
    assert!(!t.forgotten);
    t.weight = 990_000_000;
    t.boost(UNIT, 9);
    assert_eq!(t.weight, ONE);
    assert!(t.is_strong());
}

#[test]
fn clone_copies_every_field() {
    let mut t = GhostTile::new(2, "c", 3, "n", 4);
    t.tags.push("from:n".to_string());
    let c = t.clone();
    assert_eq!(c.id, 2);
    assert_eq!(c.content, "c");
    assert_eq!(c.tags, vec!["from:n".to_string()]);
}

#[test]
fn decay_follows_any_rate() {
    let mut t = GhostTile::new(1, "x", 1, "v", 0);
    t.decay(1, 2_000_000_000);
    assert_eq!(t.weight, -100_000_000);
    assert!(t.forgotten);
    let mut u = GhostTile::new(2, "x", 1, "v", 0);
    u.decay(1, -1_000_000_000);
    assert_eq!(u.weight, 200_000_000);
    assert!(!u.forgotten);
    u.decay_below(2, 0, 300_000_000);
    assert!(u.forgotten);
    assert_eq!(u.weight, 200_000_000);
    assert!(ONE > u.weight);
}
