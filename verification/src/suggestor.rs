//! The decisions of the knowledge suggestors: when they run, how the facts
//! they propose are named, and what a stored convergence result looks like.

use vstd::prelude::*;
use crate::entry::{EntryView, KnowledgeEntry};
use crate::lexical::string_views;
use crate::text::{chars_of, decimal_digits, has_prefix, usize_decimal};
use crate::table::is_v4;

verus! {

/// The retrieval suggestor runs when seeds exist and no hypotheses do yet.
pub fn retrieval_accepts(has_seeds: bool, has_hypotheses: bool) -> (run: bool)
    ensures
        run == (has_seeds && !has_hypotheses),
{
    has_seeds && !has_hypotheses
}

/// Whether `s` begins with `prefix`.
pub fn starts_with(s: &str, prefix: &str) -> (b: bool)
    ensures
        b == has_prefix(s@, prefix@),
{
    let sc = chars_of(s);
    let pc = chars_of(prefix);
    if pc.len() > sc.len() {
        return false;
    }
    let mut i: usize = 0;
    while i < pc.len()
        invariant
            i <= pc.len() <= sc.len(),
            sc@ == s@,
            pc@ == prefix@,
            forall|k: int| 0 <= k < i ==> sc@[k] == pc@[k],
        decreases pc.len() - i,
    {
        if sc[i] != pc[i] {
            assert(s@.subrange(0, prefix@.len() as int)[i as int] != prefix@[i as int]);
            return false;
        }
        i = i + 1;
    }
    assert(s@.subrange(0, prefix@.len() as int) =~= prefix@);
    true
}

/// Whether some seed id marks an evaluation as already stored.
pub open spec fn some_stored_marker(seed_ids: Seq<Seq<char>>) -> bool {
    exists|i: int| 0 <= i < seed_ids.len() && has_prefix(#[trigger] seed_ids[i], "stored-"@)
}

/// The store suggestor runs when evaluations exist and no seed marks a
/// stored result yet.
pub fn store_accepts(has_evaluations: bool, seed_ids: &Vec<String>) -> (run: bool)
    ensures
        run == (has_evaluations && !some_stored_marker(string_views(seed_ids@))),
{
    if !has_evaluations {
        return false;
    }
    let mut i: usize = 0;
    while i < seed_ids.len()
        invariant
            i <= seed_ids.len(),
            forall|k: int| 0 <= k < i ==> !has_prefix(#[trigger] string_views(seed_ids@)[k], "stored-"@),
        decreases seed_ids.len() - i,
    {
        if starts_with(seed_ids[i].as_str(), "stored-") {
            assert(has_prefix(string_views(seed_ids@)[i as int], "stored-"@));
            return false;
        }
        i = i + 1;
    }
    true
}

/// The id of the `index`-th knowledge hit proposed for a seed.
pub fn retrieval_fact_id(seed_id: &str, index: usize) -> (id: String)
    ensures
        id@ == "kb-"@ + seed_id@ + "-"@ + decimal_digits(index as nat),
{
    let id = String::from_str("kb-").concat(seed_id);
    let id = id.concat("-");
    let n = usize_decimal(index);
    id.concat(n.as_str())
}

/// The id of the seed that marks an evaluation as stored.
pub fn stored_fact_id(eval_id: &str) -> (id: String)
    ensures
        id@ == "stored-"@ + eval_id@,
{
    String::from_str("stored-").concat(eval_id)
}

/// The text of the seed that marks an evaluation as stored.
pub fn stored_fact_text(eval_id: &str) -> (text: String)
    ensures
        text@ == "stored evaluation "@ + eval_id@ + " in knowledge base"@,
{
    String::from_str("stored evaluation ").concat(eval_id).concat(" in knowledge base")
}

/// The content stored for an evaluation: its text when it has one, else
/// its payload as written on the wire, else nothing (the evaluation is then
/// skipped).
pub fn content_for_store(text: Option<&str>, wire_payload: Option<String>) -> (content: Option<
    String,
>)
    ensures
        text is Some ==> (content matches Some(c) && c@ == text->0@),
        text is None ==> content == wire_payload,
{
    match text {
        Some(t) => Some(String::from_str(t)),
        None => wire_payload,
    }
}

/// The category given to stored convergence results.
pub open spec fn stored_category() -> Seq<char> {
    "convergence-result"@
}

/// The tags given to stored convergence results.
pub open spec fn stored_tags() -> Seq<Seq<char>> {
    seq!["auto-stored"@, "formation-output"@]
}

/// The knowledge entry that stores one evaluation: titled by the
/// evaluation's id, holding its content, under the convergence-result
/// category with the auto-stored tags.
pub fn stored_entry(eval_id: &str, content: &str) -> (e: KnowledgeEntry)
    ensures
        is_v4(e.id),
        e@ == (EntryView {
            id: e.id,
            title: eval_id@,
            content: content@,
            category: Some(stored_category()),
            tags: stored_tags(),
            related_entries: Seq::empty(),
            access_count: 0,
        }),
{
    let mut tags: Vec<String> = Vec::new();
    tags.push(String::from_str("auto-stored"));
    tags.push(String::from_str("formation-output"));
    let e = KnowledgeEntry::new(eval_id, content).with_category("convergence-result").with_tags(
        tags,
    );
    assert(e@.tags =~= stored_tags());
    e
}

} // verus!
