use plato_afterlife::afterlife::Afterlife;
use plato_afterlife::fraction::{ONE, UNIT};
use plato_afterlife::tombstone::Tombstone;

/// A relevance or trust level in parts per billion.
fn ppb(x: f64) -> u64 {
    (x * 1e9).round() as u64
}

/// A weight, threshold or rate in parts per billion.
fn w(x: f64) -> i64 {
    (x * 1e9).round() as i64
}

/// A weight in parts per billion as a float.
fn frac(w: i64) -> f32 {
    w as f32 / 1e9
}

fn sample_tombstone() -> Tombstone {
    Tombstone::new(42, "JC1", "edge specialist")
        .with_cause("Jetson OOM")
        .with_trust(ppb(0.85))
        .with_tiles(2501)
}

#[test]
fn test_harvest_creates_ghosts() {
    let mut afterlife = Afterlife::new();
    let tomb = sample_tombstone();
    let lessons = vec![
        "Always check VRAM before CUDA alloc".to_string(),
        "Jetson shared memory = proximity".to_string(),
    ];
    let ids = afterlife.harvest(&tomb, &lessons);
    assert_eq!(ids.len(), 2);
    assert_eq!(afterlife.ghost_count(), 2);
    assert_eq!(afterlife.active_ghost_count(), 2);
}

#[test]
fn test_ghost_initial_weight() {
    let mut afterlife = Afterlife::new();
    let tomb = sample_tombstone();
    let lessons = vec!["test lesson".to_string()];
    afterlife.harvest(&tomb, &lessons);
    let ghost = afterlife.get(1).unwrap();
    assert_eq!(ghost.weight, w(0.1));
}

#[test]
fn test_ghost_decay() {
    let mut afterlife = Afterlife::new();
    let tomb = sample_tombstone();
    let lessons = vec!["test lesson".to_string()];
    afterlife.harvest(&tomb, &lessons);

    let (decayed, forgotten) = afterlife.tick();
    assert_eq!(decayed, 1);
    assert_eq!(forgotten, 0);

    let ghost = afterlife.get(1).unwrap();
    assert!((frac(ghost.weight) - 0.09).abs() < 0.001);
}

#[test]
fn test_ghost_forgotten_after_decay() {
    let mut afterlife = Afterlife::with_config(w(0.1), w(0.5), w(0.05));
    let tomb = sample_tombstone();
    let lessons = vec!["test lesson".to_string()];
    afterlife.harvest(&tomb, &lessons);

    for _ in 0..10 {
        afterlife.tick();
    }

    let ghost = afterlife.get(1).unwrap();
    assert!(ghost.forgotten);
}

#[test]
fn test_query_relevance() {
    let mut afterlife = Afterlife::new();
    let tomb = sample_tombstone();
    let lessons = vec![
        "Always check VRAM before CUDA alloc".to_string(),
        "Never run PyTorch on shared memory".to_string(),
    ];
    afterlife.harvest(&tomb, &lessons);

    let matches = afterlife.query("CUDA alloc failed", ppb(0.1));
    assert!(!matches.is_empty());
    assert!(matches[0].relevance > ppb(0.1));
}

#[test]
fn test_query_boosts_weight() {
    let mut afterlife = Afterlife::new();
    let tomb = sample_tombstone();
    let lessons = vec!["CUDA alloc".to_string()];
    afterlife.harvest(&tomb, &lessons);

    let before_weight = afterlife.get(1).unwrap().weight;
    afterlife.query("CUDA alloc failed", 0);
    let after_weight = afterlife.get(1).unwrap().weight;
    assert!(after_weight > before_weight);
}

#[test]
fn test_resurrection() {
    let mut afterlife = Afterlife::with_config(w(0.1), w(0.3), w(0.01));
    let tomb = sample_tombstone();
    let lessons = vec!["CUDA alloc VRAM check".to_string()];
    afterlife.harvest(&tomb, &lessons);

    for _ in 0..20 {
        afterlife.tick();
    }
    assert!(afterlife.get(1).unwrap().forgotten);
    assert_eq!(afterlife.total_resurrections(), 0);

    afterlife.query("CUDA alloc VRAM", 0);
    assert!(!afterlife.get(1).unwrap().forgotten);
    assert_eq!(afterlife.total_resurrections(), 1);
}

#[test]
fn test_prune_forgotten() {
    let mut afterlife = Afterlife::with_config(w(0.1), w(0.5), w(0.05));
    let tomb = sample_tombstone();
    let lessons = vec!["test".to_string(), "test2".to_string()];
    afterlife.harvest(&tomb, &lessons);

    for _ in 0..10 {
        afterlife.tick();
    }

    let pruned = afterlife.prune_forgotten();
    assert!(pruned >= 2);
    assert_eq!(afterlife.ghost_count(), 0);
}

#[test]
fn test_tombstone_retrieval() {
    let mut afterlife = Afterlife::new();
    let tomb = sample_tombstone();
    afterlife.harvest(&tomb, &[]);

    let retrieved = afterlife.tombstone(42).unwrap();
    assert_eq!(retrieved.name, "JC1");
    assert_eq!(retrieved.cause_of_death, "Jetson OOM");
}

#[test]
fn test_add_ghost() {
    let mut afterlife = Afterlife::new();
    let id = afterlife.add_ghost("direct ghost tile", 0, "system");
    assert_eq!(id, 1);
    assert_eq!(afterlife.ghost_count(), 1);
    assert_eq!(afterlife.get(1).unwrap().source_name, "system");
}

#[test]
fn test_most_accessed() {
    let mut afterlife = Afterlife::new();
    let tomb = sample_tombstone();
    let lessons = vec![
        "CUDA alloc".to_string(),
        "VRAM memory".to_string(),
        "something else".to_string(),
    ];
    afterlife.harvest(&tomb, &lessons);

    for _ in 0..5 {
        afterlife.query("CUDA alloc", 0);
    }

    let top = afterlife.most_accessed(1);
    assert!(top[0].access_count >= 5);
}

#[test]
fn test_average_weight() {
    let mut afterlife = Afterlife::new();
    assert_eq!(afterlife.average_weight(), 0);

    let tomb = sample_tombstone();
    let lessons = vec!["test".to_string()];
    afterlife.harvest(&tomb, &lessons);
    assert!((frac(afterlife.average_weight()) - 0.1).abs() < 0.001);
}

#[test]
fn test_strong_ghost() {
    let mut afterlife = Afterlife::new();
    let tomb = sample_tombstone();
    let lessons = vec!["CUDA VRAM alloc".to_string()];
    afterlife.harvest(&tomb, &lessons);

    for _ in 0..50 {
        afterlife.query("CUDA VRAM alloc", 0);
    }

    let ghost = afterlife.get(1).unwrap();
    assert!(ghost.is_strong());
}

#[test]
fn test_period_advancement() {
    let mut afterlife = Afterlife::new();
    assert_eq!(afterlife.current_period(), 0);
    afterlife.tick();
    assert_eq!(afterlife.current_period(), 1);
    afterlife.tick();
    assert_eq!(afterlife.current_period(), 2);
}

#[test]
fn test_ghost_tags() {
    let mut afterlife = Afterlife::new();
    let tomb = sample_tombstone();
    let lessons = vec!["test".to_string()];
    afterlife.harvest(&tomb, &lessons);

    let ghost = afterlife.get(1).unwrap();
    assert!(ghost.tags.contains(&"from:JC1".to_string()));
    assert!(ghost.tags.contains(&"role:edge specialist".to_string()));
}

#[test]
fn test_no_match_below_threshold() {
    let mut afterlife = Afterlife::new();
    let tomb = sample_tombstone();
    let lessons = vec!["CUDA VRAM alloc".to_string()];
    afterlife.harvest(&tomb, &lessons);

    let matches = afterlife.query("completely unrelated query", ppb(0.9));
    assert!(matches.is_empty());
}

#[test]
fn test_custom_config() {
    let afterlife = Afterlife::with_config(w(0.05), w(0.2), w(0.01));
    assert_eq!(afterlife.ghost_weight(), w(0.05));
    assert_eq!(afterlife.decay_rate(), w(0.2));
    assert_eq!(afterlife.forget_threshold(), w(0.01));
}

#[test]
fn test_stats() {
    let mut afterlife = Afterlife::new();
    let tomb = sample_tombstone();
    let lessons = vec!["a".to_string(), "b".to_string()];
    afterlife.harvest(&tomb, &lessons);
    assert_eq!(afterlife.total_harvested(), 2);
    assert_eq!(afterlife.tombstone_count(), 1);
    assert_eq!(afterlife.active_ghost_count(), 2);
    assert_eq!(afterlife.strong_ghost_count(), 0);
}

#[test]
fn harvest_ids_count_up_and_tags_name_vessel() {
    let mut afterlife = Afterlife::new();
    let tomb = Tombstone::new(7, "Scout-7", "scout");
    let ids = afterlife.harvest(&tomb, &["one".to_string(), "two".to_string()]);
    assert_eq!(ids, vec![1, 2]);
    let more = afterlife.harvest(&tomb, &["three".to_string()]);
    assert_eq!(more, vec![3]);
    let t = afterlife.get(3).unwrap();
    assert_eq!(t.content, "three");
    assert_eq!(t.source_vessel, 7);
    assert_eq!(t.source_name, "Scout-7");
    assert_eq!(t.tags, vec!["from:Scout-7".to_string(), "role:scout".to_string()]);
    assert_eq!(t.access_count, 0);
    assert!(!t.forgotten);
    assert!(afterlife.get(4).is_none());
    assert_eq!(afterlife.total_harvested(), 3);
}

#[test]
fn harvest_replaces_tombstone_of_same_vessel() {
    let mut afterlife = Afterlife::new();
    afterlife.harvest(&Tombstone::new(5, "Old", "a"), &[]);
    afterlife.harvest(&Tombstone::new(6, "Other", "b"), &[]);
    afterlife.harvest(&Tombstone::new(5, "New", "c").with_cause("funding cut"), &[]);
    assert_eq!(afterlife.tombstone_count(), 2);
    let t = afterlife.tombstone(5).unwrap();
    assert_eq!(t.name, "New");
    assert_eq!(t.cause_of_death, "funding cut");
    assert_eq!(afterlife.tombstone(6).unwrap().name, "Other");
    assert!(afterlife.tombstone(9).is_none());
}

#[test]
fn tombstone_builders_set_fields() {
    let t = Tombstone::new(42, "Scout-7", "scout");
    assert_eq!(t.vessel_id, 42);
    assert_eq!(t.cause_of_death, "");
    assert_eq!(t.peak_trust, 0);
    assert_eq!(t.tiles_generated, 0);
    assert_eq!(t.lessons_harvested, 0);
    let t = t.with_trust(ppb(1.5));
    assert_eq!(t.peak_trust, UNIT);
    let t = t.with_trust(ppb(0.25)).with_tiles(9);
    assert_eq!(t.peak_trust, 250_000_000);
    assert_eq!(t.tiles_generated, 9);
}

#[test]
fn decay_is_exact() {
    let mut afterlife = Afterlife::new();
    afterlife.add_ghost("x", 1, "v");
    afterlife.tick();
    assert_eq!(afterlife.get(1).unwrap().weight, 90_000_000);
    afterlife.tick();
    assert_eq!(afterlife.get(1).unwrap().weight, 81_000_000);
}

#[test]
fn tick_counts_decayed_and_forgotten() {
    let mut afterlife = Afterlife::with_config(w(0.1), w(0.5), w(0.05));
    afterlife.add_ghost("a", 1, "v");
    let (d, f) = afterlife.tick();
    assert_eq!((d, f), (1, 0));
    assert_eq!(afterlife.get(1).unwrap().weight, 50_000_000);
    let (d, f) = afterlife.tick();
    assert_eq!((d, f), (1, 1));
    let (d, f) = afterlife.tick();
    assert_eq!((d, f), (0, 0));
    assert_eq!(afterlife.get(1).unwrap().weight, 25_000_000);
    assert_eq!(afterlife.active_ghost_count(), 0);
}

#[test]
fn decay_rate_above_one_turns_weight_negative() {
    let mut afterlife = Afterlife::with_config(w(0.1), w(2.0), w(0.05));
    afterlife.add_ghost("a", 1, "v");
    afterlife.tick();
    let t = afterlife.get(1).unwrap();
    assert_eq!(t.weight, w(-0.1));
    assert!(t.forgotten);
    // a query of relevance 0.2 boosts by 0.06, not enough to resurrect
    let matches = afterlife.query("a b c d e", 0);
    assert_eq!(matches.len(), 1);
    let t = afterlife.get(1).unwrap();
    assert_eq!(t.weight, w(-0.04));
    assert!(t.forgotten);
    assert_eq!(afterlife.total_resurrections(), 0);
}

#[test]
fn negative_decay_rate_raises_weight() {
    let mut afterlife = Afterlife::with_config(w(0.1), w(-0.5), w(0.05));
    afterlife.add_ghost("a", 1, "v");
    afterlife.tick();
    assert_eq!(afterlife.get(1).unwrap().weight, w(0.15));
}

#[test]
fn configured_forget_threshold_decides_forgetting() {
    let mut afterlife = Afterlife::with_config(w(0.1), w(0.5), w(0.01));
    afterlife.harvest(&sample_tombstone(), &["test lesson".to_string()]);
    assert_eq!(afterlife.tick(), (1, 0));
    assert_eq!(afterlife.tick(), (1, 0));
    let t = afterlife.get(1).unwrap();
    assert!(!t.forgotten);
    assert!((frac(t.weight) - 0.025).abs() < 1e-6);
    assert_eq!(afterlife.tick(), (1, 0));
    assert_eq!(afterlife.tick(), (1, 1));
    assert!(afterlife.get(1).unwrap().forgotten);
}

#[test]
fn high_forget_threshold_blocks_resurrection() {
    let mut afterlife = Afterlife::with_config(w(0.1), w(0.9), w(0.2));
    afterlife.add_ghost("alpha", 1, "v");
    assert_eq!(afterlife.tick(), (1, 1));
    let matches = afterlife.query("alpha", 0);
    assert_eq!(matches.len(), 1);
    let t = afterlife.get(1).unwrap();
    assert_eq!(t.weight, w(0.11));
    assert!(t.forgotten);
    assert_eq!(t.access_count, 1);
    assert_eq!(afterlife.total_resurrections(), 0);
}

#[test]
fn higher_minimum_reports_a_subset() {
    let mut a1 = Afterlife::new();
    let mut a2 = Afterlife::new();
    for a in [&mut a1, &mut a2] {
        a.add_ghost("alpha beta", 1, "v");
        a.add_ghost("alpha", 1, "v");
        a.add_ghost("gamma", 1, "v");
    }
    let low = a1.query("alpha beta", ppb(0.4));
    let high = a2.query("alpha beta", ppb(0.8));
    assert_eq!(low.len(), 2);
    assert_eq!(high.len(), 1);
    for m in &high {
        assert!(low.iter().any(|l| l.tile.id == m.tile.id && l.relevance == m.relevance));
    }
}

#[test]
fn relevance_is_share_of_words_found() {
    let mut afterlife = Afterlife::new();
    afterlife.add_ghost("Always check VRAM before CUDA alloc", 1, "v");
    let matches = afterlife.query("CUDA alloc failed", 0);
    assert_eq!(matches.len(), 1);
    assert_eq!(matches[0].relevance, 666_666_666);
    assert_eq!(matches[0].tile.weight, w(0.1));
    assert_eq!(matches[0].tile.access_count, 0);
    let t = afterlife.get(1).unwrap();
    assert_eq!(t.weight, 100_000_000 + 66_666_666);
    assert_eq!(t.access_count, 1);
}

#[test]
fn query_lowercases_query_and_content() {
    let mut afterlife = Afterlife::new();
    afterlife.add_ghost("cuda Alloc", 1, "v");
    let matches = afterlife.query("CUDA ALLOC", ppb(0.9));
    assert_eq!(matches.len(), 1);
    assert_eq!(matches[0].relevance, UNIT);
}

#[test]
fn query_splits_at_any_whitespace() {
    let mut afterlife = Afterlife::new();
    afterlife.add_ghost("alpha", 1, "v");
    let matches = afterlife.query("  alpha \t\n beta  ", 0);
    assert_eq!(matches.len(), 1);
    assert_eq!(matches[0].relevance, 500_000_000);
}

#[test]
fn query_without_words_scores_zero() {
    let mut afterlife = Afterlife::new();
    afterlife.add_ghost("alpha", 1, "v");
    let matches = afterlife.query("   ", 0);
    assert_eq!(matches.len(), 1);
    assert_eq!(matches[0].relevance, 0);
    let none = afterlife.query("   ", 1);
    assert!(none.is_empty());
}

#[test]
fn matching_tags_add_to_relevance() {
    let mut afterlife = Afterlife::new();
    let tomb = Tombstone::new(3, "jc1", "edge");
    afterlife.harvest(&tomb, &["nothing here".to_string()]);
    // no word occurs in the content, one tag occurs in the lower-cased query
    let matches = afterlife.query("ASK from:jc1 NOW", 0);
    assert_eq!(matches.len(), 1);
    assert_eq!(matches[0].relevance, 200_000_000);
    // the query as given occurs in a tag
    let matches = afterlife.query("edge", 0);
    assert_eq!(matches[0].relevance, 200_000_000);
    // a tag in upper case is not found in the lower-cased query
    let mut upper = Afterlife::new();
    upper.harvest(&Tombstone::new(4, "JC1", "x"), &["nothing".to_string()]);
    let matches = upper.query("FROM:JC1", 0);
    assert_eq!(matches[0].relevance, 0);
}

#[test]
fn results_ranked_by_relevance_then_age() {
    let mut afterlife = Afterlife::new();
    afterlife.add_ghost("alpha beta", 1, "v");
    afterlife.add_ghost("alpha", 1, "v");
    afterlife.add_ghost("alpha beta gamma", 1, "v");
    afterlife.add_ghost("delta", 1, "v");
    let matches = afterlife.query("alpha beta", ppb(0.5));
    let ids: Vec<u64> = matches.iter().map(|m| m.tile.id).collect();
    assert_eq!(ids, vec![1, 3, 2]);
    assert_eq!(matches[0].relevance, UNIT);
    assert_eq!(matches[2].relevance, 500_000_000);
    assert_eq!(afterlife.get(4).unwrap().access_count, 0);
}

#[test]
fn forgotten_tiles_count_at_half_relevance() {
    let mut afterlife = Afterlife::with_config(w(0.1), w(0.9), w(0.05));
    afterlife.add_ghost("alpha", 1, "v");
    afterlife.tick();
    assert!(afterlife.get(1).unwrap().forgotten);
    assert!(afterlife.query("alpha", ppb(0.6)).is_empty());
    assert!(afterlife.get(1).unwrap().forgotten);
    let matches = afterlife.query("alpha", ppb(0.5));
    assert_eq!(matches.len(), 1);
    assert!(matches[0].tile.forgotten);
    assert!(!afterlife.get(1).unwrap().forgotten);
    assert_eq!(afterlife.total_resurrections(), 1);
}

#[test]
fn boost_is_a_tenth_with_floor_and_cap() {
    let mut afterlife = Afterlife::with_config(w(0.98), w(0.1), w(0.05));
    afterlife.add_ghost("alpha", 1, "v");
    afterlife.add_ghost("alpha beta gamma delta", 1, "v");
    afterlife.query("alpha", 0);
    assert_eq!(afterlife.get(1).unwrap().weight, ONE);
    let mut low = Afterlife::new();
    low.add_ghost("alpha", 1, "v");
    low.query("alpha beta gamma delta", 0);
    assert_eq!(low.get(1).unwrap().weight, w(0.16));
}

#[test]
fn prune_keeps_active_tiles_in_order() {
    let mut afterlife = Afterlife::with_config(w(0.1), w(0.5), w(0.05));
    afterlife.add_ghost("a", 1, "v");
    afterlife.add_ghost("b", 1, "v");
    afterlife.add_ghost("c", 1, "v");
    afterlife.tick();
    afterlife.tick();
    afterlife.query("b", ppb(0.5));
    assert!(!afterlife.get(2).unwrap().forgotten);
    assert_eq!(afterlife.prune_forgotten(), 2);
    assert_eq!(afterlife.ghost_count(), 1);
    assert!(afterlife.get(1).is_none());
    assert_eq!(afterlife.get(2).unwrap().content, "b");
    assert_eq!(afterlife.prune_forgotten(), 0);
}

#[test]
fn most_accessed_ranks_and_truncates() {
    let mut afterlife = Afterlife::new();
    afterlife.add_ghost("alpha", 1, "v");
    afterlife.add_ghost("beta", 1, "v");
    afterlife.add_ghost("gamma", 1, "v");
    afterlife.query("beta", ppb(0.5));
    afterlife.query("beta", ppb(0.5));
    afterlife.query("gamma", ppb(0.5));
    let top: Vec<u64> = afterlife.most_accessed(2).iter().map(|t| t.id).collect();
    assert_eq!(top, vec![2, 3]);
    let all: Vec<u64> = afterlife.most_accessed(10).iter().map(|t| t.id).collect();
    assert_eq!(all, vec![2, 3, 1]);
    assert!(afterlife.most_accessed(0).is_empty());
}

#[test]
fn strong_and_average_over_active_tiles() {
    let mut afterlife = Afterlife::with_config(w(0.6), w(0.5), w(0.05));
    afterlife.add_ghost("a", 1, "v");
    afterlife.add_ghost("b", 1, "v");
    assert_eq!(afterlife.strong_ghost_count(), 2);
    assert_eq!(afterlife.average_weight(), w(0.6));
    afterlife.tick();
    assert_eq!(afterlife.strong_ghost_count(), 0);
    assert_eq!(afterlife.average_weight(), w(0.3));
}

#[test]
fn try_query_runs_when_counters_have_room() {
    let mut afterlife = Afterlife::new();
    afterlife.add_ghost("alpha", 1, "v");
    let res = afterlife.try_query("alpha", 0).unwrap();
    assert_eq!(res.len(), 1);
    assert_eq!(afterlife.get(1).unwrap().access_count, 1);
}

#[test]
fn default_is_new() {
    let a = Afterlife::default();
    assert_eq!(a.ghost_weight(), w(0.1));
    assert_eq!(a.decay_rate(), w(0.1));
    assert_eq!(a.forget_threshold(), w(0.05));
    assert_eq!(a.ghost_count(), 0);
    assert_eq!(a.current_period(), 0);
}

#[test]
fn tick_report_matches_drop_in_active_count() {
    let mut afterlife = Afterlife::with_config(w(0.06), w(0.2), w(0.05));
    afterlife.add_ghost("a", 1, "v");
    afterlife.harvest(&Tombstone::new(2, "w", "r"), &["b".to_string(), "c".to_string()]);
    afterlife.query("b", ppb(0.5));
    let before = afterlife.active_ghost_count();
    let (decayed, forgotten) = afterlife.tick();
    assert_eq!(decayed as usize, before);
    assert_eq!(forgotten, 2);
    assert_eq!(afterlife.active_ghost_count(), before - forgotten as usize);
}

#[test]
fn prune_then_every_tile_active() {
    let mut afterlife = Afterlife::with_config(w(0.1), w(0.6), w(0.05));
    afterlife.add_ghost("a", 1, "v");
    afterlife.add_ghost("b", 1, "v");
    afterlife.tick();
    afterlife.add_ghost("c", 1, "v");
    afterlife.prune_forgotten();
    assert_eq!(afterlife.ghost_count(), afterlife.active_ghost_count());
    assert_eq!(afterlife.ghost_count(), 1);
    assert!(afterlife.get(3).is_some());
    assert!(afterlife.strong_ghost_count() <= afterlife.active_ghost_count());
}
