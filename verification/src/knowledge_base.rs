//! The in-memory knowledge base: configuration, the entry table, and the
//! operations that read and change it.

use vstd::prelude::*;
use dashmap::DashMap;
use crate::entry::{EntryView, KnowledgeEntry, SearchOptions, entry_matches_options, in_scope};
use crate::lexical::string_views;
use crate::error::Error;
use crate::table::{
    is_listing, no_entries, table_contains, table_entries, table_get, table_insert, table_len,
    table_new, table_pairs, table_remove, uuid_hyphenated, uuid_text,
};

verus! {

/// Configuration for the knowledge base.
#[derive(Debug, Clone)]
pub struct KnowledgeBaseConfig {
    /// Embedding dimension size.
    pub dimensions: usize,
    /// Path to storage file.
    pub storage_path: String,
    /// Enable self-learning features.
    pub learning_enabled: bool,
    /// Number of HNSW neighbors (M parameter).
    pub hnsw_m: usize,
    /// HNSW ef_construction parameter.
    pub hnsw_ef_construction: usize,
    /// HNSW ef_search parameter.
    pub hnsw_ef_search: usize,
    /// Batch size for bulk operations.
    pub batch_size: usize,
}

/// The default settings, with storage at `path`.
pub open spec fn default_config_at(c: KnowledgeBaseConfig, path: Seq<char>) -> bool {
    &&& c.dimensions == 384
    &&& c.storage_path@ == path
    &&& c.learning_enabled
    &&& c.hnsw_m == 16
    &&& c.hnsw_ef_construction == 200
    &&& c.hnsw_ef_search == 100
    &&& c.batch_size == 1000
}

impl Default for KnowledgeBaseConfig {
    fn default() -> (c: Self)
        ensures
            default_config_at(c, "./knowledge.db"@),
    {
        KnowledgeBaseConfig {
            dimensions: 384,
            storage_path: String::from_str("./knowledge.db"),
            learning_enabled: true,
            hnsw_m: 16,
            hnsw_ef_construction: 200,
            hnsw_ef_search: 100,
            batch_size: 1000,
        }
    }
}

impl KnowledgeBaseConfig {
    /// Create config with custom storage path.
    pub fn with_path(self, path: &str) -> (c: Self)
        ensures
            c == (KnowledgeBaseConfig { storage_path: c.storage_path, ..self }),
            c.storage_path@ == path@,
    {
        KnowledgeBaseConfig { storage_path: String::from_str(path), ..self }
    }

    /// Set embedding dimensions.
    pub fn with_dimensions(self, dims: usize) -> (c: Self)
        ensures
            c == (KnowledgeBaseConfig { dimensions: dims, ..self }),
    {
        KnowledgeBaseConfig { dimensions: dims, ..self }
    }

    /// Disable learning features.
    pub fn without_learning(self) -> (c: Self)
        ensures
            c == (KnowledgeBaseConfig { learning_enabled: false, ..self }),
    {
        KnowledgeBaseConfig { learning_enabled: false, ..self }
    }
}

/// Statistics about the knowledge base.
#[derive(Debug, Clone)]
pub struct KnowledgeBaseStats {
    pub total_entries: usize,
    pub unique_categories: usize,
    pub unique_tags: usize,
    pub total_access_count: u64,
    pub dimensions: usize,
    pub learning_enabled: bool,
}

/// The in-memory state of a knowledge base: its configuration and its
/// entries by id.
pub struct KnowledgeBase {
    config: KnowledgeBaseConfig,
    entries: DashMap<u128, KnowledgeEntry>,
}

/// What a knowledge base holds, as its contracts speak of it.
pub struct KnowledgeBaseView {
    /// Entries by id.
    pub entries: Map<u128, EntryView>,
    /// The configuration it was made with.
    pub config: KnowledgeBaseConfig,
}

impl View for KnowledgeBase {
    type V = KnowledgeBaseView;

    closed spec fn view(&self) -> KnowledgeBaseView {
        KnowledgeBaseView { entries: table_entries(self.entries), config: self.config }
    }
}

/// Every entry is stored under its own id.
pub open spec fn keyed_by_id(m: Map<u128, EntryView>) -> bool {
    forall|k: u128| m.contains_key(k) ==> #[trigger] m[k].id == k
}

/// `e` with `other` appended to its related entries, unless already there.
pub open spec fn link_once(e: EntryView, other: u128) -> EntryView {
    if e.related_entries.contains(other) {
        e
    } else {
        EntryView { related_entries: e.related_entries.push(other), ..e }
    }
}

/// The table after linking `id1` (present) and `id2` both ways.
pub open spec fn linked(m: Map<u128, EntryView>, id1: u128, id2: u128) -> Map<u128, EntryView> {
    let m1 = m.insert(id1, link_once(m[id1], id2));
    if m1.contains_key(id2) {
        m1.insert(id2, link_once(m1[id2], id1))
    } else {
        m1
    }
}

/// `m` after storing each entry of `s` under its id, in order.
pub open spec fn insert_all(m: Map<u128, EntryView>, s: Seq<EntryView>) -> Map<u128, EntryView>
    decreases s.len(),
{
    if s.len() == 0 {
        m
    } else {
        insert_all(m, s.drop_last()).insert(s.last().id, s.last())
    }
}

/// The views of a sequence of entries.
pub open spec fn entry_views(s: Seq<KnowledgeEntry>) -> Seq<EntryView> {
    s.map_values(|e: KnowledgeEntry| e@)
}

/// The entry stored under `id`, if any.
pub open spec fn lookup(m: Map<u128, EntryView>, id: u128) -> Option<EntryView> {
    if m.contains_key(id) {
        Some(m[id])
    } else {
        None
    }
}

/// The entries linked from `id`: among its first `limit` links, those that
/// are stored, in link order.
pub open spec fn related_of(m: Map<u128, EntryView>, id: u128, limit: nat) -> Seq<EntryView> {
    if m.contains_key(id) {
        let links = m[id].related_entries;
        let n = if limit < links.len() { limit } else { links.len() };
        links.take(n as int).filter_map(|r: u128| lookup(m, r))
    } else {
        Seq::empty()
    }
}

/// The distinct categories carried by the entries.
pub open spec fn category_set(m: Map<u128, EntryView>) -> Set<Seq<char>> {
    Set::new(|c: Seq<char>| exists|k: u128| m.contains_key(k) && #[trigger] m[k].category == Some(c))
}

/// The distinct tags carried by the entries.
pub open spec fn tag_set(m: Map<u128, EntryView>) -> Set<Seq<char>> {
    Set::new(|t: Seq<char>| exists|k: u128| m.contains_key(k) && #[trigger] m[k].tags.contains(t))
}

/// Adds the access count of the entry under `k` to `acc`.
pub open spec fn add_access(m: Map<u128, EntryView>) -> spec_fn(nat, u128) -> nat {
    |acc: nat, k: u128| acc + (m[k].access_count as nat)
}

/// The access counts of the entries, summed.
pub open spec fn access_total(m: Map<u128, EntryView>) -> nat {
    m.dom().fold(0nat, add_access(m))
}

/// The ids among the first `n` pairs of a listing.
pub open spec fn listed_keys(pairs: Seq<(u128, KnowledgeEntry)>, n: int) -> Set<u128> {
    Set::new(|k: u128| exists|j: int| 0 <= j < n && #[trigger] pairs[j].0 == k)
}

/// `r` lists the entries of `m`, each id once, in some order.
pub open spec fn lists_entries(r: Seq<EntryView>, m: Map<u128, EntryView>) -> bool {
    &&& r.len() == m.len()
    &&& forall|i: int, j: int| 0 <= i < j < r.len() ==> #[trigger] r[i].id != #[trigger] r[j].id
    &&& forall|i: int| 0 <= i < r.len() ==> m.contains_key(#[trigger] r[i].id) && m[r[i].id] == r[i]
    &&& forall|k: u128| m.contains_key(k) ==> exists|i: int| 0 <= i < r.len() && #[trigger] r[i].id == k
}

/// `r` lists, each id once and in some order, the entries of `m` within the
/// scope of `options`.
pub open spec fn lists_scoped(
    r: Seq<(u128, KnowledgeEntry)>,
    m: Map<u128, EntryView>,
    options: SearchOptions,
) -> bool {
    &&& forall|i: int, j: int| 0 <= i < j < r.len() ==> #[trigger] r[i].0 != #[trigger] r[j].0
    &&& forall|i: int|
        0 <= i < r.len() ==> m.contains_key(#[trigger] r[i].0) && m[r[i].0] == r[i].1@ && in_scope(
            r[i].1@,
            options,
        )
    &&& forall|k: u128|
        m.contains_key(k) && in_scope(m[k], options) ==> exists|i: int|
            0 <= i < r.len() && #[trigger] r[i].0 == k
}

proof fn lemma_access_commutative(m: Map<u128, EntryView>)
    ensures
        vstd::set::fold::is_fun_commutative(add_access(m)),
{
}

proof fn lemma_fold_agree(s: Set<u128>, m1: Map<u128, EntryView>, m2: Map<u128, EntryView>)
    requires
        s.finite(),
        forall|k: u128| s.contains(k) ==> #[trigger] m1[k].access_count == m2[k].access_count,
    ensures
        s.fold(0nat, add_access(m1)) == s.fold(0nat, add_access(m2)),
    decreases s.len(),
{
    lemma_access_commutative(m1);
    lemma_access_commutative(m2);
    if s.len() == 0 {
        assert(s =~= Set::empty());
        vstd::set::fold::lemma_fold_empty(0nat, add_access(m1));
        vstd::set::fold::lemma_fold_empty(0nat, add_access(m2));
    } else {
        let x = s.choose();
        let t = s.remove(x);
        lemma_fold_agree(t, m1, m2);
        assert(t.insert(x) =~= s);
        vstd::set::fold::lemma_fold_insert(t, 0nat, add_access(m1), x);
        vstd::set::fold::lemma_fold_insert(t, 0nat, add_access(m2), x);
    }
}

/// The total access count sums every entry's count once: no entries total
/// zero, and storing an entry under an id that was not stored adds exactly
/// that entry's access count.
pub proof fn lemma_access_total_adds(m: Map<u128, EntryView>, k: u128, e: EntryView)
    requires
        m.dom().finite(),
        !m.contains_key(k),
    ensures
        access_total(Map::empty()) == 0,
        access_total(m.insert(k, e)) == access_total(m) + e.access_count,
{
    let m2 = m.insert(k, e);
    lemma_access_commutative(m2);
    assert(Map::<u128, EntryView>::empty().dom() =~= Set::empty());
    vstd::set::fold::lemma_fold_empty(0nat, add_access(Map::<u128, EntryView>::empty()));
    assert(m2.dom() =~= m.dom().insert(k));
    vstd::set::fold::lemma_fold_insert(m.dom(), 0nat, add_access(m2), k);
    lemma_fold_agree(m.dom(), m2, m);
}

proof fn lemma_listed_keys_step(pairs: Seq<(u128, KnowledgeEntry)>, m: Map<u128, EntryView>, i: int)
    requires
        is_listing(pairs, m),
        0 <= i < pairs.len(),
    ensures
        listed_keys(pairs, i + 1) == listed_keys(pairs, i).insert(pairs[i].0),
        !listed_keys(pairs, i).contains(pairs[i].0),
{
    assert(listed_keys(pairs, i + 1) =~= listed_keys(pairs, i).insert(pairs[i].0));
    if listed_keys(pairs, i).contains(pairs[i].0) {
        let j = choose|j: int| 0 <= j < i && #[trigger] pairs[j].0 == pairs[i].0;
        assert(pairs[j].0 != pairs[i].0);
    }
}

proof fn lemma_listed_keys_finite(pairs: Seq<(u128, KnowledgeEntry)>, m: Map<u128, EntryView>, i: int)
    requires
        is_listing(pairs, m),
        0 <= i <= pairs.len(),
    ensures
        listed_keys(pairs, i).finite(),
    decreases i,
{
    if i == 0 {
        assert(listed_keys(pairs, 0) =~= Set::empty());
    } else {
        lemma_listed_keys_finite(pairs, m, i - 1);
        lemma_listed_keys_step(pairs, m, i - 1);
    }
}

proof fn lemma_listed_keys_all(pairs: Seq<(u128, KnowledgeEntry)>, m: Map<u128, EntryView>)
    requires
        is_listing(pairs, m),
    ensures
        listed_keys(pairs, pairs.len() as int) == m.dom(),
{
    assert(listed_keys(pairs, pairs.len() as int) =~= m.dom());
}

/// Adds `s` to `v` unless an equal string is already there.
fn push_distinct(v: &mut Vec<String>, s: &String)
    requires
        string_views(old(v)@).no_duplicates(),
    ensures
        string_views(final(v)@).no_duplicates(),
        string_views(final(v)@).to_set() == string_views(old(v)@).to_set().insert(s@),
        final(v)@.len() <= old(v)@.len() + 1,
{
    let mut i: usize = 0;
    while i < v.len()
        invariant
            i <= v.len(),
            v@ == old(v)@,
            string_views(v@).no_duplicates(),
            forall|k: int| 0 <= k < i ==> v@[k]@ != s@,
        decreases v.len() - i,
    {
        if v[i] == *s {
            assert(string_views(v@)[i as int] == s@);
            assert(string_views(v@).to_set() =~= string_views(v@).to_set().insert(s@));
            return;
        }
        i = i + 1;
    }
    let ghost before = string_views(v@);
    v.push(s.clone());
    assert(string_views(v@) =~= before.push(s@));
    assert(!before.contains(s@));
    proof {
        assert(before.push(s@) =~= before + seq![s@]);
        Seq::lemma_to_set_insert_commutes(before, s@);
    }
}

/// The categories carried by the first `n` listed entries.
pub open spec fn listed_categories(pairs: Seq<(u128, KnowledgeEntry)>, n: int) -> Set<Seq<char>> {
    Set::new(|c: Seq<char>| exists|j: int| 0 <= j < n && #[trigger] pairs[j].1@.category == Some(c))
}

/// The tags carried by the first `n` listed entries.
pub open spec fn listed_tags(pairs: Seq<(u128, KnowledgeEntry)>, n: int) -> Set<Seq<char>> {
    Set::new(|t: Seq<char>| exists|j: int| 0 <= j < n && #[trigger] pairs[j].1@.tags.contains(t))
}

proof fn lemma_listed_categories_step(pairs: Seq<(u128, KnowledgeEntry)>, n: int)
    requires
        0 <= n < pairs.len(),
    ensures
        listed_categories(pairs, n + 1) == (match pairs[n].1@.category {
            Some(c) => listed_categories(pairs, n).insert(c),
            None => listed_categories(pairs, n),
        }),
{
    let next = match pairs[n].1@.category {
        Some(c) => listed_categories(pairs, n).insert(c),
        None => listed_categories(pairs, n),
    };
    assert forall|c: Seq<char>| listed_categories(pairs, n + 1).contains(c) implies next.contains(c) by {
        let j = choose|j: int| 0 <= j < n + 1 && #[trigger] pairs[j].1@.category == Some(c);
        if j < n {
            assert(listed_categories(pairs, n).contains(c));
        }
    }
    assert forall|c: Seq<char>| next.contains(c) implies listed_categories(pairs, n + 1).contains(c) by {
        if listed_categories(pairs, n).contains(c) {
            let j = choose|j: int| 0 <= j < n && #[trigger] pairs[j].1@.category == Some(c);
            assert(pairs[j].1@.category == Some(c));
        } else {
            assert(pairs[n].1@.category == Some(c));
        }
    }
    assert(listed_categories(pairs, n + 1) =~= next);
}

proof fn lemma_listed_tags_step(pairs: Seq<(u128, KnowledgeEntry)>, n: int)
    requires
        0 <= n < pairs.len(),
    ensures
        listed_tags(pairs, n + 1) == listed_tags(pairs, n).union(pairs[n].1@.tags.to_set()),
{
    let next = listed_tags(pairs, n).union(pairs[n].1@.tags.to_set());
    assert forall|t: Seq<char>| listed_tags(pairs, n + 1).contains(t) implies next.contains(t) by {
        let j = choose|j: int| 0 <= j < n + 1 && #[trigger] pairs[j].1@.tags.contains(t);
        if j < n {
            assert(listed_tags(pairs, n).contains(t));
        }
    }
    assert forall|t: Seq<char>| next.contains(t) implies listed_tags(pairs, n + 1).contains(t) by {
        if listed_tags(pairs, n).contains(t) {
            let j = choose|j: int| 0 <= j < n && #[trigger] pairs[j].1@.tags.contains(t);
            assert(pairs[j].1@.tags.contains(t));
        } else {
            assert(pairs[n].1@.tags.contains(t));
        }
    }
    assert(listed_tags(pairs, n + 1) =~= next);
}

proof fn lemma_take_to_set_step(s: Seq<Seq<char>>, k: int)
    requires
        0 <= k < s.len(),
    ensures
        s.take(k + 1).to_set() == s.take(k).to_set().insert(s[k]),
{
    assert(s.take(k + 1) =~= s.take(k) + seq![s[k]]);
    Seq::lemma_to_set_insert_commutes(s.take(k), s[k]);
}

proof fn lemma_listing_categories_tags(pairs: Seq<(u128, KnowledgeEntry)>, m: Map<u128, EntryView>)
    requires
        is_listing(pairs, m),
    ensures
        listed_categories(pairs, pairs.len() as int) == category_set(m),
        listed_tags(pairs, pairs.len() as int) == tag_set(m),
{
    let n = pairs.len() as int;
    assert forall|c: Seq<char>| category_set(m).contains(c) implies listed_categories(pairs, n).contains(c) by {
        let k = choose|k: u128| m.contains_key(k) && #[trigger] m[k].category == Some(c);
        let j = choose|j: int| 0 <= j < n && #[trigger] pairs[j].0 == k;
        assert(pairs[j].1@.category == Some(c));
    }
    assert forall|c: Seq<char>| listed_categories(pairs, n).contains(c) implies category_set(m).contains(c) by {
        let j = choose|j: int| 0 <= j < n && #[trigger] pairs[j].1@.category == Some(c);
        assert(m[pairs[j].0].category == Some(c));
    }
    assert(listed_categories(pairs, n) =~= category_set(m));
    assert forall|t: Seq<char>| tag_set(m).contains(t) implies listed_tags(pairs, n).contains(t) by {
        let k = choose|k: u128| m.contains_key(k) && #[trigger] m[k].tags.contains(t);
        let j = choose|j: int| 0 <= j < n && #[trigger] pairs[j].0 == k;
        assert(pairs[j].1@.tags.contains(t));
    }
    assert forall|t: Seq<char>| listed_tags(pairs, n).contains(t) implies tag_set(m).contains(t) by {
        let j = choose|j: int| 0 <= j < n && #[trigger] pairs[j].1@.tags.contains(t);
        assert(m[pairs[j].0].tags.contains(t));
    }
    assert(listed_tags(pairs, n) =~= tag_set(m));
}

impl KnowledgeBase {
    /// The table is finite and every entry is stored under its own id.
    pub open spec fn wf(&self) -> bool {
        &&& self@.entries.dom().finite()
        &&& keyed_by_id(self@.entries)
    }

    /// An empty knowledge base with the given configuration; stored entries
    /// are brought in by `load_entries`.
    pub fn with_config(config: KnowledgeBaseConfig) -> (kb: Self)
        ensures
            kb.wf(),
            kb@.entries == no_entries(),
            kb@.config == config,
    {
        KnowledgeBase { config, entries: table_new() }
    }

    /// Open a knowledge base at `path` with the default settings otherwise;
    /// stored entries are brought in by `load_entries`.
    pub fn open(path: &str) -> (kb: Self)
        ensures
            kb.wf(),
            kb@.entries == no_entries(),
            default_config_at(kb@.config, path@),
    {
        Self::with_config(KnowledgeBaseConfig::default().with_path(path))
    }

    /// Get the number of entries.
    pub fn len(&self) -> (n: usize)
        ensures
            n == self@.entries.len(),
    {
        table_len(&self.entries)
    }

    /// Check if the knowledge base is empty.
    pub fn is_empty(&self) -> (b: bool)
        ensures
            b == (self@.entries.len() == 0),
    {
        self.len() == 0
    }

    /// Get configuration.
    pub fn config(&self) -> (c: &KnowledgeBaseConfig)
        ensures
            *c == self@.config,
    {
        &self.config
    }

    /// Add a new knowledge entry under its id; an entry already stored under
    /// that id is replaced. The number of entries grows by one exactly when
    /// the id was not stored.
    pub fn add_entry(&mut self, entry: KnowledgeEntry) -> (id: u128)
        requires
            old(self).wf(),
        ensures
            final(self).wf(),
            id == entry.id,
            final(self)@.entries == old(self)@.entries.insert(entry.id, entry@),
            final(self)@.entries.len() == old(self)@.entries.len() + (if old(self)@.entries.contains_key(entry.id) { 0int } else { 1int }),
            final(self)@.config == old(self)@.config,
    {
        let id = entry.id;
        proof {
            lemma_insert_len(self@.entries, id, entry@);
        }
        let _ = table_insert(&mut self.entries, id, entry);
        id
    }

    /// Load stored entries into the table, each under its id in order.
    pub fn load_entries(&mut self, stored: &Vec<KnowledgeEntry>)
        requires
            old(self).wf(),
        ensures
            final(self).wf(),
            final(self)@.entries == insert_all(old(self)@.entries, entry_views(stored@)),
            final(self)@.config == old(self)@.config,
    {
        let ghost all = entry_views(stored@);
        let mut i: usize = 0;
        while i < stored.len()
            invariant
                i <= stored.len(),
                all == entry_views(stored@),
                self@.entries.dom().finite(),
                keyed_by_id(self@.entries),
                self@.entries == insert_all(old(self)@.entries, all.take(i as int)),
                self.config == old(self).config,
            decreases stored.len() - i,
        {
            let e = stored[i].clone();
            proof {
                assert(all.take(i + 1).drop_last() =~= all.take(i as int));
                lemma_insert_len(self@.entries, e.id, e@);
            }
            let _ = table_insert(&mut self.entries, e.id, e);
            i = i + 1;
        }
        assert(all.take(stored.len() as int) =~= all);
    }

    /// Add entries in batches of `batch_size`, each under its id in order;
    /// gives back their ids in order.
    pub fn add_entries(&mut self, entries: Vec<KnowledgeEntry>) -> (ids: Vec<u128>)
        requires
            old(self).wf(),
            old(self)@.config.batch_size > 0,
        ensures
            final(self).wf(),
            ids@ == entries@.map_values(|e: KnowledgeEntry| e.id),
            final(self)@.entries == insert_all(old(self)@.entries, entry_views(entries@)),
            final(self)@.entries.len() <= old(self)@.entries.len() + entries@.len(),
            final(self)@.config == old(self)@.config,
    {
        let ghost all = entry_views(entries@);
        let batch = self.config.batch_size;
        let mut ids: Vec<u128> = Vec::new();
        let mut start: usize = 0;
        while start < entries.len()
            invariant
                start <= entries.len(),
                batch == self.config.batch_size,
                batch > 0,
                all == entry_views(entries@),
                self@.entries.dom().finite(),
                self@.entries.len() <= old(self)@.entries.len() + start,
                keyed_by_id(self@.entries),
                self@.entries == insert_all(old(self)@.entries, all.take(start as int)),
                ids@ == entries@.take(start as int).map_values(|e: KnowledgeEntry| e.id),
                self.config == old(self).config,
                old(self).wf(),
            decreases entries.len() - start,
        {
            let end = if entries.len() - start < batch { entries.len() } else { start + batch };
            let mut i = start;
            while i < end
                invariant
                    start <= i <= end <= entries.len(),
                    all == entry_views(entries@),
                    self@.entries.dom().finite(),
                        self@.entries.len() <= old(self)@.entries.len() + i,
                    keyed_by_id(self@.entries),
                    self@.entries == insert_all(old(self)@.entries, all.take(i as int)),
                    ids@ == entries@.take(i as int).map_values(|e: KnowledgeEntry| e.id),
                    self.config == old(self).config,
                    old(self).wf(),
                    decreases end - i,
            {
                let e = entries[i].clone();
                proof {
                    assert(all.take(i + 1).drop_last() =~= all.take(i as int));
                    lemma_insert_len(self@.entries, e.id, e@);
                    assert(entries@.take(i + 1).map_values(|e: KnowledgeEntry| e.id) =~= entries@.take(
                        i as int,
                    ).map_values(|e: KnowledgeEntry| e.id).push(e.id));
                }
                ids.push(e.id);
                let _ = table_insert(&mut self.entries, e.id, e);
                i = i + 1;
            }
            start = end;
        }
        assert(all.take(entries.len() as int) =~= all);
        assert(entries@.take(entries.len() as int) =~= entries@);
        ids
    }

    /// Record feedback on an entry: a stored entry counts one more access
    /// and is given back as updated; an unknown id changes nothing. Whether
    /// the feedback is positive only weighs the entry's learned relevance,
    /// which the in-memory table does not hold.
    pub fn record_feedback(&mut self, entry_id: u128, positive: bool) -> (updated: Option<
        KnowledgeEntry,
    >)
        requires
            old(self).wf(),
            old(self)@.entries.contains_key(entry_id) ==> old(self)@.entries[entry_id].access_count
                < u64::MAX,
        ensures
            final(self).wf(),
            updated is Some <==> old(self)@.entries.contains_key(entry_id),
            updated matches Some(e) ==> e@ == (EntryView {
                access_count: (old(self)@.entries[entry_id].access_count + 1) as u64,
                ..old(self)@.entries[entry_id]
            }) && final(self)@.entries == old(self)@.entries.insert(entry_id, e@),
            updated is None ==> final(self)@ == old(self)@,
            final(self)@.config == old(self)@.config,
    {
        match table_get(&self.entries, entry_id) {
            Some(mut e) => {
                e.record_access();
                let copy = e.clone();
                proof {
                    lemma_insert_len(self@.entries, entry_id, e@);
                }
                let _ = table_insert(&mut self.entries, entry_id, e);
                Some(copy)
            },
            None => None,
        }
    }

    /// Get entries related to a given entry: among its first `limit` links,
    /// the entries that are stored, in link order.
    pub fn get_related(&self, id: u128, limit: usize) -> (related: Vec<KnowledgeEntry>)
        ensures
            entry_views(related@) == related_of(self@.entries, id, limit as nat),
    {
        let mut related: Vec<KnowledgeEntry> = Vec::new();
        match table_get(&self.entries, id) {
            None => {
                assert(entry_views(related@) =~= Seq::<EntryView>::empty());
                related
            },
            Some(entry) => {
                let links = &entry.related_entries;
                let n = if limit < links.len() { limit } else { links.len() };
                let ghost m = self@.entries;
                let ghost f = |r: u128| lookup(m, r);
                let mut i: usize = 0;
                while i < n
                    invariant
                        i <= n <= links.len(),
                        m == table_entries(self.entries),
                        f == (|r: u128| lookup(m, r)),
                        entry_views(related@) == links@.take(i as int).filter_map(f),
                    decreases n - i,
                {
                    proof {
                        links@.lemma_filter_map_take_succ(f, i as int);
                    }
                    match table_get(&self.entries, links[i]) {
                        Some(r) => {
                            related.push(r);
                            assert(entry_views(related@) =~= links@.take(i as int).filter_map(f)
                                + seq![m[links@[i as int]]]);
                        },
                        None => {},
                    }
                    i = i + 1;
                }
                related
            },
        }
    }

    /// Link two entries as related. The first must be stored, else
    /// `NotFound` carrying its id and nothing changes; each gains the other
    /// among its links unless already there, the second only when stored.
    pub fn link_entries(&mut self, id1: u128, id2: u128) -> (r: Result<(), Error>)
        requires
            old(self).wf(),
        ensures
            final(self).wf(),
            r is Ok <==> old(self)@.entries.contains_key(id1),
            r matches Err(e) ==> e matches Error::NotFound(m) && m@ == uuid_hyphenated(id1),
            r is Ok ==> final(self)@.entries == linked(old(self)@.entries, id1, id2),
            r is Err ==> final(self)@ == old(self)@,
            final(self)@.config == old(self)@.config,
    {
        let e1 = match table_get(&self.entries, id1) {
            Some(e) => e,
            None => {
                return Err(Error::NotFound(uuid_text(id1)));
            },
        };
        let e1 = link_entry_once(e1, id2);
        proof {
            lemma_insert_len(self@.entries, id1, e1@);
        }
        let _ = table_insert(&mut self.entries, id1, e1);
        match table_get(&self.entries, id2) {
            Some(e2) => {
                let e2 = link_entry_once(e2, id1);
                proof {
                    lemma_insert_len(self@.entries, id2, e2@);
                }
                let _ = table_insert(&mut self.entries, id2, e2);
            },
            None => {},
        }
        Ok(())
    }

    /// Get all entries (for export or backup), each once, in the table's
    /// iteration order.
    pub fn all_entries(&self) -> (all: Vec<KnowledgeEntry>)
        requires
            self.wf(),
        ensures
            lists_entries(entry_views(all@), self@.entries),
    {
        let pairs = table_pairs(&self.entries);
        let ghost m = self@.entries;
        let mut all: Vec<KnowledgeEntry> = Vec::new();
        let mut i: usize = 0;
        while i < pairs.len()
            invariant
                i <= pairs.len(),
                is_listing(pairs@, m),
                keyed_by_id(m),
                all@.len() == i,
                forall|j: int| 0 <= j < i ==> #[trigger] all@[j]@ == pairs@[j].1@,
            decreases pairs.len() - i,
        {
            let e = pairs[i].1.clone();
            all.push(e);
            i = i + 1;
        }
        let ghost r = entry_views(all@);
        assert forall|i: int| 0 <= i < r.len() implies r[i].id == pairs@[i].0 by {
            assert(m.contains_key(pairs@[i].0));
        }
        assert forall|k: u128| m.contains_key(k) implies exists|i: int| 0 <= i < r.len() && #[trigger] r[i].id == k by {
            let i = choose|i: int| 0 <= i < pairs@.len() && #[trigger] pairs@[i].0 == k;
            assert(r[i].id == k);
        }
        all
    }

    /// The entries within the category and tag scope of `options`, each with
    /// its id, in the table's iteration order.
    pub fn filtered_entries(&self, options: &SearchOptions) -> (scoped: Vec<(u128, KnowledgeEntry)>)
        ensures
            lists_scoped(scoped@, self@.entries, *options),
    {
        let pairs = table_pairs(&self.entries);
        let ghost m = self@.entries;
        let mut scoped: Vec<(u128, KnowledgeEntry)> = Vec::new();
        let mut i: usize = 0;
        while i < pairs.len()
            invariant
                i <= pairs.len(),
                is_listing(pairs@, m),
                forall|a: int, b: int| 0 <= a < b < scoped@.len() ==> #[trigger] scoped@[a].0 != #[trigger] scoped@[b].0,
                forall|a: int| 0 <= a < scoped@.len() ==> m.contains_key(#[trigger] scoped@[a].0)
                    && m[scoped@[a].0] == scoped@[a].1@ && in_scope(scoped@[a].1@, *options)
                    && exists|j: int| 0 <= j < i && #[trigger] pairs@[j].0 == scoped@[a].0,
                forall|j: int| 0 <= j < i && in_scope(#[trigger] pairs@[j].1@, *options) ==> exists|a: int|
                    0 <= a < scoped@.len() && #[trigger] scoped@[a].0 == pairs@[j].0,
            decreases pairs.len() - i,
        {
            if entry_matches_options(&pairs[i].1, options) {
                let e = pairs[i].1.clone();
                let ghost before = scoped@;
                scoped.push((pairs[i].0, e));
                proof {
                    assert forall|a: int| 0 <= a < before.len() implies scoped@[a].0 != pairs@[i as int].0 by {
                        let j = choose|j: int| 0 <= j < i && #[trigger] pairs@[j].0 == before[a].0;
                        assert(pairs@[j].0 != pairs@[i as int].0);
                    }
                    assert(scoped@[before.len() as int].0 == pairs@[i as int].0);
                    assert forall|j: int| 0 <= j < i && in_scope(#[trigger] pairs@[j].1@, *options) implies exists|a: int|
                        0 <= a < scoped@.len() && #[trigger] scoped@[a].0 == pairs@[j].0 by {
                        let a = choose|a: int| 0 <= a < before.len() && #[trigger] before[a].0 == pairs@[j].0;
                        assert(scoped@[a].0 == before[a].0);
                    }
                }
            }
            i = i + 1;
        }
        proof {
            assert forall|k: u128| m.contains_key(k) && in_scope(m[k], *options) implies exists|a: int|
                0 <= a < scoped@.len() && #[trigger] scoped@[a].0 == k by {
                let j = choose|j: int| 0 <= j < pairs@.len() && #[trigger] pairs@[j].0 == k;
                assert(in_scope(pairs@[j].1@, *options));
            }
        }
        scoped
    }

    /// Get statistics about the knowledge base.
    pub fn stats(&self) -> (st: KnowledgeBaseStats)
        requires
            access_total(self@.entries) <= u64::MAX,
        ensures
            st.total_entries == self@.entries.len(),
            st.unique_categories == category_set(self@.entries).len(),
            st.unique_categories <= self@.entries.len(),
            st.unique_tags == tag_set(self@.entries).len(),
            st.total_access_count == access_total(self@.entries),
            st.dimensions == self@.config.dimensions,
            st.learning_enabled == self@.config.learning_enabled,
    {
        let pairs = table_pairs(&self.entries);
        let ghost m = self@.entries;
        let mut categories: Vec<String> = Vec::new();
        let mut tags: Vec<String> = Vec::new();
        let mut total: u128 = 0;
        let mut i: usize = 0;
        proof {
            lemma_access_commutative(m);
            assert(listed_keys(pairs@, 0) =~= Set::empty());
            vstd::set::fold::lemma_fold_empty(0nat, add_access(m));
            assert(string_views(categories@).to_set() =~= listed_categories(pairs@, 0));
            assert(string_views(tags@).to_set() =~= listed_tags(pairs@, 0));
        }
        while i < pairs.len()
            invariant
                i <= pairs.len(),
                is_listing(pairs@, m),
                vstd::set::fold::is_fun_commutative(add_access(m)),
                total <= i * 0x1_0000_0000_0000_0000,
                total == listed_keys(pairs@, i as int).fold(0nat, add_access(m)),
                string_views(categories@).no_duplicates(),
                categories@.len() <= i,
                string_views(categories@).to_set() == listed_categories(pairs@, i as int),
                string_views(tags@).no_duplicates(),
                string_views(tags@).to_set() == listed_tags(pairs@, i as int),
            decreases pairs.len() - i,
        {
            let e = &pairs[i].1;
            proof {
                lemma_listed_keys_step(pairs@, m, i as int);
                lemma_listed_keys_finite(pairs@, m, i as int);
                vstd::set::fold::lemma_fold_insert(
                    listed_keys(pairs@, i as int),
                    0nat,
                    add_access(m),
                    pairs@[i as int].0,
                );
                lemma_listed_categories_step(pairs@, i as int);
                lemma_listed_tags_step(pairs@, i as int);
            }
            total = total + e.access_count as u128;
            match &e.category {
                Some(c) => {
                    push_distinct(&mut categories, c);
                },
                None => {},
            }
            let ghost tags_before = string_views(tags@).to_set();
            let ghost etags = e@.tags;
            let mut k: usize = 0;
            proof {
                assert(etags.take(0).to_set() =~= Set::empty());
                assert(tags_before.union(Set::empty()) =~= tags_before);
            }
            while k < e.tags.len()
                invariant
                    k <= e.tags.len(),
                    etags == e@.tags,
                    string_views(tags@).no_duplicates(),
                    string_views(tags@).to_set() == tags_before.union(etags.take(k as int).to_set()),
                decreases e.tags.len() - k,
            {
                proof {
                    lemma_take_to_set_step(etags, k as int);
                }
                push_distinct(&mut tags, &e.tags[k]);
                assert(string_views(tags@).to_set() =~= tags_before.union(etags.take(k + 1).to_set()));
                k = k + 1;
            }
            assert(etags.take(etags.len() as int) =~= etags);
            i = i + 1;
        }
        proof {
            lemma_listed_keys_all(pairs@, m);
            lemma_listing_categories_tags(pairs@, m);
            string_views(categories@).unique_seq_to_set();
            string_views(tags@).unique_seq_to_set();
        }
        KnowledgeBaseStats {
            total_entries: table_len(&self.entries),
            unique_categories: categories.len(),
            unique_tags: tags.len(),
            total_access_count: total as u64,
            dimensions: self.config.dimensions,
            learning_enabled: self.config.learning_enabled,
        }
    }

    /// Get an entry by ID.
    pub fn get(&self, id: u128) -> (found: Option<KnowledgeEntry>)
        ensures
            found is Some <==> self@.entries.contains_key(id),
            found matches Some(e) ==> e@ == self@.entries[id],
    {
        table_get(&self.entries, id)
    }

    /// Replace an existing entry; an entry that is not stored is refused with
    /// `NotFound` carrying its id, and nothing changes.
    pub fn update_entry(&mut self, entry: KnowledgeEntry) -> (r: Result<(), Error>)
        requires
            old(self).wf(),
        ensures
            final(self).wf(),
            r is Ok <==> old(self)@.entries.contains_key(entry.id),
            r matches Err(e) ==> e matches Error::NotFound(m) && m@ == uuid_hyphenated(entry.id),
            r is Ok ==> final(self)@.entries == old(self)@.entries.insert(entry.id, entry@),
            r is Err ==> final(self)@ == old(self)@,
            final(self)@.config == old(self)@.config,
    {
        let id = entry.id;
        if !table_contains(&self.entries, id) {
            return Err(Error::NotFound(uuid_text(id)));
        }
        proof {
            lemma_insert_len(self@.entries, id, entry@);
        }
        let _ = table_insert(&mut self.entries, id, entry);
        Ok(())
    }

    /// Delete an entry; an id that is not stored is refused with `NotFound`
    /// carrying the id, and nothing changes.
    pub fn delete_entry(&mut self, id: u128) -> (r: Result<(), Error>)
        requires
            old(self).wf(),
        ensures
            final(self).wf(),
            r is Ok <==> old(self)@.entries.contains_key(id),
            r matches Err(e) ==> e matches Error::NotFound(m) && m@ == uuid_hyphenated(id),
            r is Ok ==> final(self)@.entries == old(self)@.entries.remove(id),
            r is Err ==> final(self)@ == old(self)@,
            final(self)@.config == old(self)@.config,
    {
        let removed = table_remove(&mut self.entries, id);
        if removed.is_none() {
            assert(self@.entries =~= old(self)@.entries);
            return Err(Error::NotFound(uuid_text(id)));
        }
        proof {
            lemma_remove_len(old(self)@.entries, id);
        }
        Ok(())
    }
}

/// A read gives back what a write wrote: after an entry is stored under its
/// id (by `add_entry`, `update_entry` or `load_entries`), looking the id up
/// finds exactly that entry.
pub proof fn lemma_read_after_write(before: Map<u128, EntryView>, e: EntryView)
    ensures
        lookup(before.insert(e.id, e), e.id) == Some(e),
{
}

/// Adding an entry under an id that is not stored and then deleting that id
/// gives back the table as it was: the delete is accepted, the id is no
/// longer found, and the number of entries is what it was before.
pub proof fn lemma_delete_undoes_add(before: Map<u128, EntryView>, e: EntryView)
    requires
        before.dom().finite(),
        !before.contains_key(e.id),
    ensures
        before.insert(e.id, e).contains_key(e.id),
        before.insert(e.id, e).len() == before.len() + 1,
        before.insert(e.id, e).remove(e.id) == before,
        before.insert(e.id, e).remove(e.id).len() == before.len(),
        lookup(before.insert(e.id, e).remove(e.id), e.id) is None,
{
    assert(before.insert(e.id, e).remove(e.id) =~= before);
}

/// What a listing of all entries holds: every stored entry exactly once,
/// each as stored, and nothing else.
pub proof fn lemma_listing_is_exact(r: Seq<EntryView>, m: Map<u128, EntryView>)
    requires
        lists_entries(r, m),
    ensures
        r.len() == m.len(),
        forall|i: int| 0 <= i < r.len() ==> m.contains_key(#[trigger] r[i].id) && m[r[i].id] == r[i],
        forall|i: int, j: int| 0 <= i < r.len() && 0 <= j < r.len() && i != j ==> #[trigger] r[i].id
            != #[trigger] r[j].id,
        forall|k: u128| #[trigger] m.contains_key(k) ==> exists|i: int| 0 <= i < r.len() && #[trigger] r[i].id == k,
{
    assert forall|i: int, j: int| 0 <= i < r.len() && 0 <= j < r.len() && i != j implies #[trigger] r[i].id
        != #[trigger] r[j].id by {
        if j < i {
            assert(r[j].id != r[i].id);
        }
    }
}

/// What a scoped listing holds: every stored entry within the search's
/// scope appears exactly once with its id, as stored, and no entry outside
/// the scope appears (what the scope is, in terms of categories and tags, is
/// `lemma_scope_is_category_and_any_tag`).
pub proof fn lemma_scoped_listing_is_exact(r: Seq<(u128, KnowledgeEntry)>, m: Map<u128, EntryView>, options: SearchOptions)
    requires
        lists_scoped(r, m, options),
    ensures
        forall|i: int|
            0 <= i < r.len() ==> m.contains_key(#[trigger] r[i].0) && m[r[i].0] == r[i].1@ && in_scope(
                r[i].1@,
                options,
            ),
        forall|i: int, j: int| 0 <= i < r.len() && 0 <= j < r.len() && i != j ==> #[trigger] r[i].0
            != #[trigger] r[j].0,
        forall|k: u128|
            #[trigger] m.contains_key(k) && in_scope(m[k], options) ==> exists|i: int|
                0 <= i < r.len() && #[trigger] r[i].0 == k,
        forall|k: u128|
            #[trigger] m.contains_key(k) && !in_scope(m[k], options) ==> forall|i: int|
                0 <= i < r.len() ==> #[trigger] r[i].0 != k,
{
    assert forall|i: int, j: int| 0 <= i < r.len() && 0 <= j < r.len() && i != j implies #[trigger] r[i].0
        != #[trigger] r[j].0 by {
        if j < i {
            assert(r[j].0 != r[i].0);
        }
    }
}

/// The number of entries a knowledge base reports is the number of entries
/// a listing of it holds, so it is empty exactly when a listing is.
pub proof fn lemma_len_counts_listing(r: Seq<EntryView>, m: Map<u128, EntryView>)
    requires
        lists_entries(r, m),
    ensures
        r.len() == m.len(),
        (r.len() == 0) == (m.len() == 0),
{
}

/// Linking records the relation both ways: the first entry then lists the
/// second, and the second, when stored, lists the first.
pub proof fn lemma_link_both_ways(m: Map<u128, EntryView>, id1: u128, id2: u128)
    requires
        m.contains_key(id1),
    ensures
        linked(m, id1, id2).contains_key(id1),
        linked(m, id1, id2)[id1].related_entries.contains(id2),
        m.contains_key(id2) ==> linked(m, id1, id2)[id2].related_entries.contains(id1),
        linked(m, id1, id2).dom() == m.dom(),
{
    let e1 = link_once(m[id1], id2);
    if !m[id1].related_entries.contains(id2) {
        assert(e1.related_entries[e1.related_entries.len() - 1] == id2);
    }
    let m1 = m.insert(id1, e1);
    if m1.contains_key(id2) {
        let e2 = link_once(m1[id2], id1);
        if !m1[id2].related_entries.contains(id1) {
            assert(e2.related_entries[e2.related_entries.len() - 1] == id1);
        }
        if id1 == id2 {
            assert(m1[id2].related_entries.contains(id2));
        }
    }
    assert(linked(m, id1, id2).dom() =~= m.dom());
}

/// Linking only appends: the first entry keeps all its links in order and
/// gains the second at the end unless it already had it; the second entry,
/// when stored and distinct, does the same with the first; every other
/// entry, and every other field, is unchanged. No link is ever dropped, so
/// the oldest links stay first for `get_related`.
pub proof fn lemma_link_appends(m: Map<u128, EntryView>, id1: u128, id2: u128)
    requires
        m.contains_key(id1),
    ensures
        ({
            let before = m[id1].related_entries;
            let after = linked(m, id1, id2)[id1].related_entries;
            &&& before.len() <= after.len() <= before.len() + 1
            &&& after.take(before.len() as int) == before
            &&& after == (if before.contains(id2) { before } else { before.push(id2) })
            &&& linked(m, id1, id2)[id1] == EntryView { related_entries: after, ..m[id1] }
        }),
        (m.contains_key(id2) && id2 != id1) ==> ({
            let before = m[id2].related_entries;
            let after = linked(m, id1, id2)[id2].related_entries;
            &&& before.len() <= after.len() <= before.len() + 1
            &&& after.take(before.len() as int) == before
            &&& after == (if before.contains(id1) { before } else { before.push(id1) })
            &&& linked(m, id1, id2)[id2] == EntryView { related_entries: after, ..m[id2] }
        }),
        id1 == id2 ==> linked(m, id1, id2)[id1].related_entries == (if m[id1].related_entries.contains(
            id1,
        ) {
            m[id1].related_entries
        } else {
            m[id1].related_entries.push(id1)
        }),
        forall|k: u128| k != id1 && k != id2 && m.contains_key(k) ==> #[trigger] linked(m, id1, id2)[k] == m[k],
        linked(m, id1, id2).dom() == m.dom(),
{
    let b1 = m[id1].related_entries;
    assert(b1.push(id2).take(b1.len() as int) =~= b1);
    assert(b1.take(b1.len() as int) =~= b1);
    if m.contains_key(id2) && id2 != id1 {
        let b2 = m[id2].related_entries;
        assert(b2.push(id1).take(b2.len() as int) =~= b2);
        assert(b2.take(b2.len() as int) =~= b2);
    }
    if id1 == id2 {
        let e1 = link_once(m[id1], id2);
        assert(e1.related_entries.contains(id1)) by {
            if !b1.contains(id1) {
                assert(e1.related_entries[b1.len() as int] == id1);
            }
        }
    }
    assert(linked(m, id1, id2).dom() =~= m.dom());
}

/// Linking is idempotent: linking the same pair again changes nothing.
pub proof fn lemma_link_idempotent(m: Map<u128, EntryView>, id1: u128, id2: u128)
    requires
        m.contains_key(id1),
    ensures
        linked(linked(m, id1, id2), id1, id2) == linked(m, id1, id2),
{
    lemma_link_both_ways(m, id1, id2);
    let l = linked(m, id1, id2);
    assert(link_once(l[id1], id2) == l[id1]);
    let l1 = l.insert(id1, l[id1]);
    assert(l1 =~= l);
    if l.contains_key(id2) {
        assert(l[id2].related_entries.contains(id1)) by {
            if !m.contains_key(id2) {
                assert(id1 == id2 || !l.contains_key(id2));
            }
        }
        assert(link_once(l1[id2], id1) == l[id2]);
        assert(l1.insert(id2, l[id2]) =~= l);
    }
}

proof fn lemma_filter_map_len<A, B>(s: Seq<A>, f: spec_fn(A) -> Option<B>)
    ensures
        s.filter_map(f).len() <= s.len(),
    decreases s.len(),
{
    if s.len() > 0 {
        lemma_filter_map_len(s.drop_last(), f);
    }
}

/// The related entries of an entry never number more than the limit asked
/// for.
pub proof fn lemma_related_bounded(m: Map<u128, EntryView>, id: u128, limit: nat)
    ensures
        related_of(m, id, limit).len() <= limit,
{
    if m.contains_key(id) {
        let links = m[id].related_entries;
        let n = if limit < links.len() { limit } else { links.len() };
        lemma_filter_map_len(links.take(n as int), |r: u128| lookup(m, r));
    }
}

/// Loading or adding a sequence of entries stores, under each id, the last
/// entry given with that id; an id given by no entry keeps what it had (or
/// stays absent).
pub proof fn lemma_insert_all_last_wins(m: Map<u128, EntryView>, s: Seq<EntryView>, k: u128)
    ensures
        (forall|i: int| 0 <= i < s.len() ==> #[trigger] s[i].id != k) ==> (insert_all(m, s).contains_key(k)
            == m.contains_key(k) && (m.contains_key(k) ==> insert_all(m, s)[k] == m[k])),
        forall|j: int|
            0 <= j < s.len() && #[trigger] s[j].id == k && (forall|i: int| j < i < s.len() ==> #[trigger] s[i].id != k)
                ==> insert_all(m, s).contains_key(k) && insert_all(m, s)[k] == s[j],
    decreases s.len(),
{
    if s.len() > 0 {
        let t = s.drop_last();
        let e = s.last();
        lemma_insert_all_last_wins(m, t, k);
        if (forall|i: int| 0 <= i < s.len() ==> #[trigger] s[i].id != k) {
            assert forall|i: int| 0 <= i < t.len() implies #[trigger] t[i].id != k by {
                assert(t[i] == s[i]);
            }
        }
        assert forall|j: int|
            0 <= j < s.len() && #[trigger] s[j].id == k && (forall|i: int| j < i < s.len() ==> #[trigger] s[i].id != k)
                implies insert_all(m, s).contains_key(k) && insert_all(m, s)[k] == s[j] by {
            if j < s.len() - 1 {
                assert(s[s.len() - 1].id != k);
                assert(t[j] == s[j]);
                assert forall|i: int| j < i < t.len() implies #[trigger] t[i].id != k by {
                    assert(t[i] == s[i]);
                }
            }
        }
    }
}

/// What the related entries are, link by link: an id that is not stored,
/// or a limit of zero, gives none; raising the limit past one more link adds
/// that link's entry at the end when it is stored and nothing when it is
/// not; and a limit beyond the number of links gives what all links give.
pub proof fn lemma_related_link_by_link(m: Map<u128, EntryView>, id: u128, n: nat)
    ensures
        !m.contains_key(id) ==> related_of(m, id, n).len() == 0,
        related_of(m, id, 0).len() == 0,
        m.contains_key(id) && n < m[id].related_entries.len() ==> related_of(m, id, n + 1) == related_of(
            m,
            id,
            n,
        ) + (if m.contains_key(m[id].related_entries[n as int]) {
            seq![m[m[id].related_entries[n as int]]]
        } else {
            Seq::<EntryView>::empty()
        }),
        m.contains_key(id) && n >= m[id].related_entries.len() ==> related_of(m, id, n) == related_of(
            m,
            id,
            m[id].related_entries.len(),
        ),
{
    if m.contains_key(id) {
        let links = m[id].related_entries;
        let f = |r: u128| lookup(m, r);
        assert(links.take(0) =~= Seq::<u128>::empty());
        assert(links.take(0).filter_map(f) =~= Seq::<EntryView>::empty());
        if n < links.len() {
            links.lemma_filter_map_take_succ(f, n as int);
        }
    }
}

/// Appends `other` to the links of `e` unless it is already there.
fn link_entry_once(e: KnowledgeEntry, other: u128) -> (linked_e: KnowledgeEntry)
    ensures
        linked_e@ == link_once(e@, other),
{
    let mut i: usize = 0;
    while i < e.related_entries.len()
        invariant
            i <= e.related_entries.len(),
            forall|k: int| 0 <= k < i ==> e.related_entries@[k] != other,
        decreases e.related_entries.len() - i,
    {
        if e.related_entries[i] == other {
            assert(e@.related_entries[i as int] == other);
            return e;
        }
        i = i + 1;
    }
    let ghost before = e@;
    let mut e = e;
    e.related_entries.push(other);
    assert(e@ == EntryView { related_entries: before.related_entries.push(other), ..before });
    e
}

proof fn lemma_insert_len(m: Map<u128, EntryView>, k: u128, v: EntryView)
    requires
        m.dom().finite(),
    ensures
        m.insert(k, v).dom().finite(),
        m.insert(k, v).len() <= m.len() + 1,
        m.contains_key(k) ==> m.insert(k, v).len() == m.len(),
        !m.contains_key(k) ==> m.insert(k, v).len() == m.len() + 1,
{
    if m.contains_key(k) {
        assert(m.insert(k, v).dom() =~= m.dom());
    }
}

proof fn lemma_remove_len(m: Map<u128, EntryView>, k: u128)
    requires
        m.dom().finite(),
        m.contains_key(k),
    ensures
        m.remove(k).dom().finite(),
        m.remove(k).len() == m.len() - 1,
{
}

} // verus!
