use mnemos::suggestor::{
    content_for_store, retrieval_accepts, retrieval_fact_id, starts_with, store_accepts,
    stored_entry,
    stored_fact_id, stored_fact_text,
};

#[test]
fn retrieval_runs_on_seeds_without_hypotheses() {
    assert!(retrieval_accepts(true, false));
    assert!(!retrieval_accepts(true, true));
    assert!(!retrieval_accepts(false, false));
}

#[test]
fn store_runs_until_a_result_is_marked_stored() {
    assert!(store_accepts(true, &vec!["seed-1".to_string()]));
    assert!(!store_accepts(true, &vec!["seed-1".to_string(), "stored-e1".to_string()]));
    assert!(!store_accepts(false, &vec![]));
    assert!(store_accepts(true, &vec!["restored-e1".to_string()]));
}

#[test]
fn prefix_test() {
    assert!(starts_with("stored-x", "stored-"));
    assert!(!starts_with("store", "stored-"));
    assert!(starts_with("abc", ""));
}

#[test]
fn fact_ids_and_texts() {
    assert_eq!(retrieval_fact_id("seed-7", 12), "kb-seed-7-12");
    assert_eq!(retrieval_fact_id("s", 0), "kb-s-0");
    assert_eq!(stored_fact_id("eval-1"), "stored-eval-1");
    assert_eq!(
        stored_fact_text("eval-1"),
        "stored evaluation eval-1 in knowledge base"
    );
}

#[test]
fn stored_entry_shape() {
    let e = stored_entry("eval-1", "result text");
    assert_eq!(e.title, "eval-1");
    assert_eq!(e.content, "result text");
    assert_eq!(e.category.as_deref(), Some("convergence-result"));
    assert_eq!(e.tags, vec!["auto-stored", "formation-output"]);
    assert!(e.related_entries.is_empty());
}

#[test]
fn store_content_prefers_text_then_wire_payload() {
    assert_eq!(
        content_for_store(Some("text body"), Some("{\"x\":1}".to_string())),
        Some("text body".to_string())
    );
    assert_eq!(
        content_for_store(None, Some("{\"x\":1}".to_string())),
        Some("{\"x\":1}".to_string())
    );
    assert_eq!(content_for_store(None, None), None);
}

#[test]
fn stored_entries_get_version_4_ids() {
    let e = stored_entry("eval-1", "result");
    assert_eq!((e.id >> 76) & 0xf, 4);
    assert_eq!((e.id >> 62) & 0x3, 0b10);
}
