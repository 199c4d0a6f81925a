use mnemos::entry::{entry_matches_options, KnowledgeEntry, SearchOptions};
use mnemos::error::Error;
use mnemos::knowledge_base::{KnowledgeBase, KnowledgeBaseConfig};

fn small_config() -> KnowledgeBaseConfig {
    KnowledgeBaseConfig::default()
        .with_path("kb.db")
        .with_dimensions(32)
}

#[test]
fn config_builder_sets_fields() {
    let cfg = KnowledgeBaseConfig::default()
        .with_path("/tmp/x.db")
        .with_dimensions(64)
        .without_learning();
    assert_eq!(cfg.storage_path, "/tmp/x.db");
    assert_eq!(cfg.dimensions, 64);
    assert!(!cfg.learning_enabled);
}

#[test]
fn default_config_values() {
    let cfg = KnowledgeBaseConfig::default();
    assert_eq!(cfg.dimensions, 384);
    assert_eq!(cfg.storage_path, "./knowledge.db");
    assert!(cfg.learning_enabled);
    assert_eq!(cfg.hnsw_m, 16);
    assert_eq!(cfg.hnsw_ef_construction, 200);
    assert_eq!(cfg.hnsw_ef_search, 100);
    assert_eq!(cfg.batch_size, 1000);
}

#[test]
fn open_creates_empty_kb() {
    let kb = KnowledgeBase::open("/tmp/x/kb.db");
    assert_eq!(kb.len(), 0);
    assert!(kb.is_empty());
    assert_eq!(kb.config().dimensions, 384);
    assert_eq!(kb.config().storage_path, "/tmp/x/kb.db");
    assert_eq!(kb.config().batch_size, 1000);
}

#[test]
fn new_knowledge_base_is_empty() {
    let kb = KnowledgeBase::with_config(KnowledgeBaseConfig::default());
    assert_eq!(kb.len(), 0);
    assert!(kb.is_empty());
    assert_eq!(kb.config().dimensions, 384);
}

#[test]
fn add_get_update_delete_roundtrip() {
    let mut kb = KnowledgeBase::with_config(small_config());

    let entry = KnowledgeEntry::new("Title", "body text").with_category("docs");
    let id = kb.add_entry(entry.clone());
    assert_eq!(kb.len(), 1);
    assert!(!kb.is_empty());

    let fetched = kb.get(id).expect("entry should exist");
    assert_eq!(fetched.title, "Title");

    let mut updated = fetched;
    updated.content = "new body".into();
    kb.update_entry(updated.clone()).unwrap();
    assert_eq!(kb.get(id).unwrap().content, "new body");

    kb.delete_entry(id).unwrap();
    assert_eq!(kb.len(), 0);
    assert!(kb.get(id).is_none());
}

#[test]
fn update_missing_entry_errors() {
    let mut kb = KnowledgeBase::with_config(small_config());
    let stranger = KnowledgeEntry::new("ghost", "body");
    let err = kb.update_entry(stranger).unwrap_err();
    assert!(matches!(err, Error::NotFound(_)));
}

#[test]
fn delete_missing_entry_errors() {
    let mut kb = KnowledgeBase::with_config(small_config());
    let err = kb.delete_entry(0x1234).unwrap_err();
    assert!(matches!(err, Error::NotFound(_)));
}

#[test]
fn not_found_carries_hyphenated_uuid() {
    let mut kb = KnowledgeBase::with_config(small_config());
    let err = kb
        .delete_entry(0x123e4567_e89b_12d3_a456_426614174000)
        .unwrap_err();
    assert_eq!(
        err.to_string(),
        "Entry not found: 123e4567-e89b-12d3-a456-426614174000"
    );
}

#[test]
fn re_adding_an_id_replaces_without_counting_twice() {
    let mut kb = KnowledgeBase::with_config(small_config());
    let first = KnowledgeEntry::with_id(7, "a", "one");
    let second = KnowledgeEntry::with_id(7, "a", "two");
    kb.add_entry(first);
    kb.add_entry(second);
    assert_eq!(kb.len(), 1);
    assert_eq!(kb.all_entries().len(), 1);
    assert_eq!(kb.get(7).unwrap().content, "two");
}

#[test]
fn batch_with_a_repeated_id_counts_each_id_once() {
    let mut kb = KnowledgeBase::with_config(small_config());
    kb.add_entry(KnowledgeEntry::with_id(1, "old", "x"));
    let batch = vec![
        KnowledgeEntry::with_id(1, "new", "x"),
        KnowledgeEntry::with_id(2, "b", "y"),
        KnowledgeEntry::with_id(2, "c", "z"),
    ];
    let ids = kb.add_entries(batch);
    assert_eq!(ids, vec![1, 2, 2]);
    assert_eq!(kb.len(), 2);
    assert_eq!(kb.all_entries().len(), 2);
    assert_eq!(kb.get(1).unwrap().title, "new");
    assert_eq!(kb.get(2).unwrap().title, "c");
}

#[test]
fn add_then_delete_restores_the_table() {
    let mut kb = KnowledgeBase::with_config(small_config());
    kb.add_entry(KnowledgeEntry::with_id(1, "kept", "x"));
    let n = kb.len();
    let id = kb.add_entry(KnowledgeEntry::with_id(9, "gone", "y"));
    assert_eq!(kb.len(), n + 1);
    assert!(kb.delete_entry(id).is_ok());
    assert_eq!(kb.len(), n);
    assert!(kb.get(id).is_none());
    let all = kb.all_entries();
    assert_eq!(all.len(), 1);
    assert_eq!(all[0].id, 1);
}

#[test]
fn add_entries_batch_persists() {
    let mut kb = KnowledgeBase::with_config(small_config());
    let batch: Vec<_> = (0..5)
        .map(|i| KnowledgeEntry::new(&format!("t{i}"), &format!("body {i}")))
        .collect();
    let ids = kb.add_entries(batch);
    assert_eq!(ids.len(), 5);
    assert_eq!(kb.len(), 5);
}

#[test]
fn add_entries_in_small_batches_keeps_order() {
    let cfg = KnowledgeBaseConfig { batch_size: 2, ..small_config() };
    let mut kb = KnowledgeBase::with_config(cfg);
    let batch: Vec<_> = (0..5u128)
        .map(|i| KnowledgeEntry::with_id(i + 10, "t", "b"))
        .collect();
    assert_eq!(kb.add_entries(batch), vec![10, 11, 12, 13, 14]);
    assert_eq!(kb.all_entries().len(), 5);
}

#[test]
fn load_entries_sets_count_to_entries() {
    let mut kb = KnowledgeBase::with_config(small_config());
    let stored = vec![
        KnowledgeEntry::with_id(1, "persist", "me"),
        KnowledgeEntry::with_id(1, "persist", "again"),
        KnowledgeEntry::with_id(2, "other", "x"),
    ];
    kb.load_entries(&stored);
    assert_eq!(kb.len(), 2);
    assert_eq!(kb.get(1).unwrap().content, "again");
}

#[test]
fn record_feedback_and_stats() {
    let mut kb = KnowledgeBase::with_config(small_config());
    let id = kb.add_entry(
        KnowledgeEntry::new("a", "alpha")
            .with_category("c")
            .with_tags(vec!["t".to_string()]),
    );
    assert!(kb.record_feedback(id, true).is_some());
    assert!(kb.record_feedback(id, false).is_some());
    assert!(kb.record_feedback(0xdead, true).is_none()); // unknown id is ok

    let stats = kb.stats();
    assert_eq!(stats.total_entries, 1);
    assert_eq!(stats.unique_categories, 1);
    assert_eq!(stats.unique_tags, 1);
    assert!(stats.learning_enabled);
    assert_eq!(stats.dimensions, 32);
    assert_eq!(stats.total_access_count, 2);
}

#[test]
fn stats_count_distinct_categories_and_tags() {
    let mut kb = KnowledgeBase::with_config(small_config().without_learning());
    kb.add_entry(
        KnowledgeEntry::with_id(1, "a", "x")
            .with_category("rust")
            .with_tags(vec!["x".to_string(), "y".to_string()]),
    );
    kb.add_entry(
        KnowledgeEntry::with_id(2, "b", "y")
            .with_category("rust")
            .with_tags(vec!["y".to_string(), "z".to_string()]),
    );
    kb.add_entry(KnowledgeEntry::with_id(3, "c", "z"));
    let stats = kb.stats();
    assert_eq!(stats.total_entries, 3);
    assert_eq!(stats.unique_categories, 1);
    assert_eq!(stats.unique_tags, 3);
    assert_eq!(stats.total_access_count, 0);
    assert!(!stats.learning_enabled);
}

#[test]
fn linking_and_related() {
    let mut kb = KnowledgeBase::with_config(small_config());
    let a = kb.add_entry(KnowledgeEntry::new("a", "x"));
    let b = kb.add_entry(KnowledgeEntry::new("b", "y"));

    kb.link_entries(a, b).unwrap();
    // idempotent
    kb.link_entries(a, b).unwrap();

    let related = kb.get_related(a, 5);
    assert_eq!(related.len(), 1);
    assert_eq!(related[0].id, b);
    assert_eq!(kb.get_related(b, 5)[0].id, a);

    // Unknown source id errors.
    let err = kb.link_entries(a ^ b ^ 1, b).unwrap_err();
    assert!(matches!(err, Error::NotFound(_)));

    // get_related on unknown id returns empty.
    assert!(kb.get_related(a ^ b ^ 1, 5).is_empty());

    // all_entries surfaces every entry.
    assert_eq!(kb.all_entries().len(), 2);
}

#[test]
fn related_respects_limit_and_skips_missing() {
    let mut kb = KnowledgeBase::with_config(small_config());
    kb.add_entry(KnowledgeEntry::with_id(1, "a", "x"));
    kb.add_entry(KnowledgeEntry::with_id(2, "b", "x"));
    kb.add_entry(KnowledgeEntry::with_id(3, "c", "x"));
    kb.link_entries(1, 99).unwrap();
    kb.link_entries(1, 2).unwrap();
    kb.link_entries(1, 3).unwrap();
    let ids: Vec<u128> = kb.get_related(1, 2).iter().map(|e| e.id).collect();
    assert_eq!(ids, vec![2]);
    let ids: Vec<u128> = kb.get_related(1, 10).iter().map(|e| e.id).collect();
    assert_eq!(ids, vec![2, 3]);
    assert!(kb.get(99).is_none());
}

#[test]
fn filtered_entries_respect_scope() {
    let mut kb = KnowledgeBase::with_config(small_config());
    kb.add_entry(
        KnowledgeEntry::with_id(1, "rust ownership", "borrow checker introduction")
            .with_category("rust")
            .with_tags(vec!["ownership".to_string()]),
    );
    kb.add_entry(
        KnowledgeEntry::with_id(2, "python decorators", "functions wrapping functions")
            .with_category("python")
            .with_tags(vec!["meta".to_string()]),
    );
    let rust = kb.filtered_entries(&SearchOptions::new(10).with_category("rust"));
    assert_eq!(rust.len(), 1);
    assert_eq!(rust[0].0, 1);
    let meta = kb.filtered_entries(&SearchOptions::new(10).with_tags(vec!["meta".to_string()]));
    assert_eq!(meta.len(), 1);
    assert_eq!(meta[0].0, 2);
    assert_eq!(kb.filtered_entries(&SearchOptions::new(10)).len(), 2);
    let none = kb.filtered_entries(
        &SearchOptions::new(10)
            .with_category("rust")
            .with_tags(vec!["meta".to_string()]),
    );
    assert!(none.is_empty());
}

#[test]
fn entry_scope_matching() {
    let e = KnowledgeEntry::with_id(1, "t", "c")
        .with_category("docs")
        .with_tags(vec!["a".to_string(), "b".to_string()]);
    assert!(entry_matches_options(&e, &SearchOptions::new(1)));
    assert!(entry_matches_options(&e, &SearchOptions::new(1).with_category("docs")));
    assert!(!entry_matches_options(&e, &SearchOptions::new(1).with_category("other")));
    assert!(entry_matches_options(
        &e,
        &SearchOptions::new(1).with_tags(vec!["z".to_string(), "b".to_string()])
    ));
    assert!(!entry_matches_options(
        &e,
        &SearchOptions::new(1).with_tags(vec!["z".to_string()])
    ));
    let bare = KnowledgeEntry::with_id(2, "t", "c");
    assert!(!entry_matches_options(&bare, &SearchOptions::new(1).with_category("docs")));
}

#[test]
fn select_ranked_skips_refused_and_missing_then_stops_at_limit() {
    let mut kb = KnowledgeBase::with_config(small_config());
    for id in [1u128, 2, 3, 4] {
        kb.add_entry(KnowledgeEntry::with_id(id, "t", "c"));
    }
    let any = SearchOptions::new(10);
    let ranked = vec![(1u128, false), (9, true), (2, true), (3, true), (4, true)];
    let kept: Vec<(usize, u128)> = kb
        .select_ranked(&ranked, &any, 2)
        .iter()
        .map(|(pos, e)| (*pos, e.id))
        .collect();
    assert_eq!(kept, vec![(2, 2), (3, 3)]);
    let all: Vec<usize> = kb.select_ranked(&ranked, &any, 10).iter().map(|p| p.0).collect();
    assert_eq!(all, vec![2, 3, 4]);
}

#[test]
fn select_ranked_never_leaves_the_search_scope() {
    let mut kb = KnowledgeBase::with_config(small_config());
    kb.add_entry(KnowledgeEntry::with_id(1, "a", "x").with_category("rust"));
    kb.add_entry(KnowledgeEntry::with_id(2, "b", "y").with_category("go"));
    kb.add_entry(KnowledgeEntry::with_id(3, "c", "z").with_category("rust"));
    let rust_only = SearchOptions::new(10).with_category("rust");
    let ranked = vec![(2u128, true), (1, true), (3, true)];
    let kept: Vec<(usize, u128)> = kb
        .select_ranked(&ranked, &rust_only, 10)
        .iter()
        .map(|(pos, e)| (*pos, e.id))
        .collect();
    assert_eq!(kept, vec![(1, 1), (2, 3)]);
    let one: Vec<u128> = kb
        .select_ranked(&ranked, &rust_only, 1)
        .iter()
        .map(|(_, e)| e.id)
        .collect();
    assert_eq!(one, vec![1]);
}

#[test]
fn entry_builders_and_embedding_text() {
    let e = KnowledgeEntry::with_id(5, "Title", "Body").with_category("c");
    assert_eq!(e.id, 5);
    assert_eq!(e.category.as_deref(), Some("c"));
    assert_eq!(e.embedding_text(), "Title\n\nBody");
    let mut f = e.clone();
    f.record_access();
    assert_eq!(f.access_count, 1);
    assert_eq!(e.access_count, 0);
}

#[test]
fn new_entries_get_version_4_ids() {
    for _ in 0..32 {
        let e = KnowledgeEntry::new("t", "c");
        assert_eq!((e.id >> 76) & 0xf, 4);
        assert_eq!((e.id >> 62) & 0x3, 0b10);
        assert!(e.tags.is_empty() && e.related_entries.is_empty());
        assert_eq!(e.access_count, 0);
    }
}

#[test]
fn select_ranked_with_zero_limit_stays_in_scope() {
    let mut kb = KnowledgeBase::with_config(small_config());
    kb.add_entry(KnowledgeEntry::with_id(1, "a", "x").with_category("go"));
    kb.add_entry(KnowledgeEntry::with_id(2, "b", "y").with_category("rust"));
    let rust_only = SearchOptions::new(0).with_category("rust");
    let in_scope_first = vec![(2u128, true), (1, true)];
    let kept: Vec<(usize, u128)> = kb
        .select_ranked(&in_scope_first, &rust_only, 0)
        .iter()
        .map(|(pos, e)| (*pos, e.id))
        .collect();
    assert_eq!(kept, vec![(0, 2)]);
    let out_of_scope_first = vec![(1u128, true), (2, true)];
    assert!(kb.select_ranked(&out_of_scope_first, &rust_only, 0).is_empty());
}
