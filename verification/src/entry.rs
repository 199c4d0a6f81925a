//! Knowledge entries and the scope filters of a search.

use vstd::prelude::*;
use crate::table::{fresh_id, is_v4};
use crate::lexical::string_views;

verus! {

/// A unit of knowledge: a titled text with its scope (category, tags), its
/// links to related entries and how often it has been accessed.
#[derive(Debug)]
pub struct KnowledgeEntry {
    /// Identity of the entry (the 128 bits of its UUID).
    pub id: u128,
    /// Short title.
    pub title: String,
    /// Body text.
    pub content: String,
    /// Optional category used as a search scope.
    pub category: Option<String>,
    /// Tags used as a search scope.
    pub tags: Vec<String>,
    /// Ids of entries linked to this one, in linking order.
    pub related_entries: Vec<u128>,
    /// How many times the entry has been accessed.
    pub access_count: u64,
}

/// The content of an entry, as the contracts speak of it.
pub struct EntryView {
    pub id: u128,
    pub title: Seq<char>,
    pub content: Seq<char>,
    pub category: Option<Seq<char>>,
    pub tags: Seq<Seq<char>>,
    pub related_entries: Seq<u128>,
    pub access_count: u64,
}

/// The characters of an optional string.
pub open spec fn optional_text(s: Option<String>) -> Option<Seq<char>> {
    match s {
        Some(t) => Some(t@),
        None => None,
    }
}

impl View for KnowledgeEntry {
    type V = EntryView;

    open spec fn view(&self) -> EntryView {
        EntryView {
            id: self.id,
            title: self.title@,
            content: self.content@,
            category: optional_text(self.category),
            tags: string_views(self.tags@),
            related_entries: self.related_entries@,
            access_count: self.access_count,
        }
    }
}

/// Copies a list of ids element by element.
fn copy_ids(ids: &Vec<u128>) -> (out: Vec<u128>)
    ensures
        out@ == ids@,
{
    let mut out: Vec<u128> = Vec::new();
    let mut i: usize = 0;
    while i < ids.len()
        invariant
            i <= ids.len(),
            out@ == ids@.take(i as int),
        decreases ids.len() - i,
    {
        out.push(ids[i]);
        assert(ids@.take(i + 1) =~= ids@.take(i as int).push(ids@[i as int]));
        i = i + 1;
    }
    assert(ids@.take(ids.len() as int) =~= ids@);
    out
}

/// Copies a list of strings element by element.
pub(crate) fn copy_strings(v: &Vec<String>) -> (out: Vec<String>)
    ensures
        out@ == v@,
{
    let mut out: Vec<String> = Vec::new();
    let mut i: usize = 0;
    while i < v.len()
        invariant
            i <= v.len(),
            out@ == v@.take(i as int),
        decreases v.len() - i,
    {
        out.push(v[i].clone());
        assert(v@.take(i + 1) =~= v@.take(i as int).push(v@[i as int]));
        i = i + 1;
    }
    assert(v@.take(v.len() as int) =~= v@);
    out
}

impl Clone for KnowledgeEntry {
    fn clone(&self) -> (copy: Self)
        ensures
            copy@ == self@,
    {
        let category = match &self.category {
            Some(c) => Some(c.clone()),
            None => None,
        };
        KnowledgeEntry {
            id: self.id,
            title: self.title.clone(),
            content: self.content.clone(),
            category,
            tags: copy_strings(&self.tags),
            related_entries: copy_ids(&self.related_entries),
            access_count: self.access_count,
        }
    }
}

impl KnowledgeEntry {
    /// An entry with the given id, title and content, no scope, no links and
    /// no recorded access.
    pub fn with_id(id: u128, title: &str, content: &str) -> (e: Self)
        ensures
            e@ == (EntryView {
                id,
                title: title@,
                content: content@,
                category: None,
                tags: Seq::empty(),
                related_entries: Seq::empty(),
                access_count: 0,
            }),
    {
        let e = KnowledgeEntry {
            id,
            title: String::from_str(title),
            content: String::from_str(content),
            category: None,
            tags: Vec::new(),
            related_entries: Vec::new(),
            access_count: 0,
        };
        assert(e@.tags =~= Seq::empty());
        e
    }

    /// A new entry under a fresh random version 4 UUID.
    pub fn new(title: &str, content: &str) -> (e: Self)
        ensures
            is_v4(e.id),
            e@ == (EntryView {
                id: e.id,
                title: title@,
                content: content@,
                category: None,
                tags: Seq::empty(),
                related_entries: Seq::empty(),
                access_count: 0,
            }),
    {
        let e = Self::with_id(fresh_id(), title, content);
        assert(e@.tags =~= Seq::empty());
        e
    }

    /// Sets the category.
    pub fn with_category(self, category: &str) -> (e: Self)
        ensures
            e@ == (EntryView { category: Some(category@), ..self@ }),
    {
        KnowledgeEntry { category: Some(String::from_str(category)), ..self }
    }

    /// Sets the tags.
    pub fn with_tags(self, tags: Vec<String>) -> (e: Self)
        ensures
            e@ == (EntryView { tags: string_views(tags@), ..self@ }),
    {
        KnowledgeEntry { tags, ..self }
    }

    /// The text that stands for the entry in embeddings and lexical
    /// retrieval: the title, a blank line, then the content.
    pub fn embedding_text(&self) -> (text: String)
        ensures
            text@ == self.title@ + "\n\n"@ + self.content@,
    {
        let text = self.title.clone();
        let text = text.concat("\n\n");
        text.concat(self.content.as_str())
    }

    /// Counts one more access.
    pub fn record_access(&mut self)
        requires
            old(self).access_count < u64::MAX,
        ensures
            final(self)@ == (EntryView { access_count: (old(self).access_count + 1) as u64, ..old(self)@ }),
    {
        self.access_count = self.access_count + 1;
    }
}

/// The scope and size of a search.
#[derive(Debug, Clone)]
pub struct SearchOptions {
    /// Maximum number of results.
    pub limit: usize,
    /// When set, only entries of this category are searched.
    pub category: Option<String>,
    /// When not empty, only entries carrying at least one of these tags are
    /// searched.
    pub tags: Vec<String>,
    /// Whether learned re-ranking may be applied.
    pub use_learning: bool,
    /// Whether lexical (BM25) and vector ranks are fused.
    pub hybrid: bool,
}

impl SearchOptions {
    /// Options for at most `limit` results, unscoped, with learning and
    /// without hybrid fusion.
    pub fn new(limit: usize) -> (o: Self)
        ensures
            o.limit == limit,
            o.category is None,
            o.tags@.len() == 0,
            o.use_learning,
            !o.hybrid,
    {
        SearchOptions { limit, category: None, tags: Vec::new(), use_learning: true, hybrid: false }
    }

    /// Restricts the search to one category.
    pub fn with_category(self, category: &str) -> (o: Self)
        ensures
            o == (SearchOptions { category: o.category, ..self }),
            o.category matches Some(c) && c@ == category@,
    {
        SearchOptions { category: Some(String::from_str(category)), ..self }
    }

    /// Restricts the search to entries carrying one of `tags`.
    pub fn with_tags(self, tags: Vec<String>) -> (o: Self)
        ensures
            o == (SearchOptions { tags, ..self }),
    {
        SearchOptions { tags, ..self }
    }

    /// Disables learned re-ranking.
    pub fn without_learning(self) -> (o: Self)
        ensures
            o == (SearchOptions { use_learning: false, ..self }),
    {
        SearchOptions { use_learning: false, ..self }
    }
}

/// Whether the entry's category is the one the options ask for, when they ask
/// for one.
pub open spec fn category_matches(entry: EntryView, options: SearchOptions) -> bool {
    match options.category {
        Some(c) => entry.category == Some(c@),
        None => true,
    }
}

/// Whether the entry carries one of the tags the options ask for, when they
/// ask for any.
pub open spec fn tags_match(entry: EntryView, options: SearchOptions) -> bool {
    options.tags@.len() == 0 || exists|i: int, k: int|
        0 <= i < options.tags@.len() && 0 <= k < entry.tags.len() && #[trigger] entry.tags[k]
            == #[trigger] options.tags@[i]@
}

/// Whether an entry lies within the scope of a search.
pub open spec fn in_scope(entry: EntryView, options: SearchOptions) -> bool {
    category_matches(entry, options) && tags_match(entry, options)
}

/// What the scope of a search is, in terms of the entry and the options
/// themselves: an entry is in scope exactly when its category is the one
/// asked for (if any) and it carries at least one of the requested tags (if
/// any). Any requested tag suffices, wherever it stands among them.
pub proof fn lemma_scope_is_category_and_any_tag(entry: EntryView, options: SearchOptions)
    ensures
        in_scope(entry, options) <==> ((options.category is None || entry.category == Some(
            options.category->0@,
        )) && (options.tags@.len() == 0 || exists|i: int, k: int|
            0 <= i < options.tags@.len() && 0 <= k < entry.tags.len() && #[trigger] entry.tags[k]
                == #[trigger] options.tags@[i]@)),
{
}

/// A single shared tag is enough: an entry whose category is the one asked
/// for (or none is asked for) and which carries the `i`-th requested tag is
/// in scope, for every position `i` among the requested tags.
pub proof fn lemma_any_requested_tag_suffices(entry: EntryView, options: SearchOptions, i: int, k: int)
    requires
        options.category is None || entry.category == Some(options.category->0@),
        0 <= i < options.tags@.len(),
        0 <= k < entry.tags.len(),
        entry.tags[k] == options.tags@[i]@,
    ensures
        in_scope(entry, options),
{
}

/// Decides whether an entry lies within the category and tag scope of a
/// search.
pub fn entry_matches_options(entry: &KnowledgeEntry, options: &SearchOptions) -> (b: bool)
    ensures
        b == in_scope(entry@, *options),
{
    if let Some(category) = &options.category {
        match &entry.category {
            Some(ec) => {
                if *ec != *category {
                    return false;
                }
            },
            None => {
                return false;
            },
        }
    }
    if options.tags.len() == 0 {
        return true;
    }
    let mut i: usize = 0;
    while i < options.tags.len()
        invariant
            i <= options.tags.len(),
            category_matches(entry@, *options),
            forall|a: int, k: int|
                0 <= a < i && 0 <= k < entry.tags@.len() ==> entry.tags@[k]@ != options.tags@[a]@,
        decreases options.tags.len() - i,
    {
        let mut k: usize = 0;
        while k < entry.tags.len()
            invariant
                k <= entry.tags.len(),
                i < options.tags.len(),
                category_matches(entry@, *options),
                forall|m: int| 0 <= m < k ==> entry.tags@[m]@ != options.tags@[i as int]@,
            decreases entry.tags.len() - k,
        {
            if entry.tags[k] == options.tags[i] {
                assert(entry@.tags[k as int] == options.tags@[i as int]@);
                return true;
            }
            k = k + 1;
        }
        i = i + 1;
    }
    false
}

} // verus!
