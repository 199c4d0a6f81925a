//! The entry table, a `DashMap` from entry id to entry, and the `uuid` calls
//! that give entries their identity and their printed form.

use vstd::prelude::*;
use dashmap::DashMap;
use crate::entry::{EntryView, KnowledgeEntry};

verus! {

#[verifier::external_type_specification]
#[verifier::external_body]
#[verifier::reject_recursive_types(K)]
#[verifier::reject_recursive_types(V)]
#[verifier::reject_recursive_types(S)]
pub struct ExDashMap<K, V, S>(DashMap<K, V, S>);

/// The id-to-entry map that a table holds.
pub uninterp spec fn table_entries(t: DashMap<u128, KnowledgeEntry>) -> Map<u128, EntryView>;

/// The map with no entries.
pub open spec fn no_entries() -> Map<u128, EntryView> {
    Map::empty()
}

/// `m` is finite and `s` lists its pairs, each key once, in some order.
pub open spec fn is_listing(s: Seq<(u128, KnowledgeEntry)>, m: Map<u128, EntryView>) -> bool {
    &&& m.dom().finite()
    &&& s.len() == m.len()
    &&& forall|i: int, j: int| 0 <= i < j < s.len() ==> #[trigger] s[i].0 != #[trigger] s[j].0
    &&& forall|i: int| 0 <= i < s.len() ==> m.contains_key(#[trigger] s[i].0) && m[s[i].0] == s[i].1@
    &&& forall|k: u128| m.contains_key(k) ==> exists|i: int| 0 <= i < s.len() && #[trigger] s[i].0 == k
}

/// `DashMap::new`: an empty table.
#[verifier::external_body]
pub(crate) fn table_new() -> (fresh: DashMap<u128, KnowledgeEntry>)
    ensures
        table_entries(fresh) == no_entries(),
{
    DashMap::new()
}

/// `DashMap::insert`: maps `id` to `entry`, giving back the value it replaced.
#[verifier::external_body]
pub(crate) fn table_insert(t: &mut DashMap<u128, KnowledgeEntry>, id: u128, entry: KnowledgeEntry) -> (replaced: Option<KnowledgeEntry>)
    ensures
        table_entries(*final(t)) == table_entries(*old(t)).insert(id, entry@),
        replaced is Some <==> table_entries(*old(t)).contains_key(id),
        replaced matches Some(r) ==> r@ == table_entries(*old(t))[id],
{
    t.insert(id, entry)
}

/// `DashMap::get`, with the entry copied out by `KnowledgeEntry::clone`.
#[verifier::external_body]
pub(crate) fn table_get(t: &DashMap<u128, KnowledgeEntry>, id: u128) -> (found: Option<KnowledgeEntry>)
    ensures
        found is Some <==> table_entries(*t).contains_key(id),
        found matches Some(e) ==> e@ == table_entries(*t)[id],
{
    t.get(&id).map(|r| r.value().clone())
}

/// `DashMap::contains_key`.
#[verifier::external_body]
pub(crate) fn table_contains(t: &DashMap<u128, KnowledgeEntry>, id: u128) -> (present: bool)
    ensures
        present == table_entries(*t).contains_key(id),
{
    t.contains_key(&id)
}

/// `DashMap::remove`: drops the pair of `id`, giving it back when it was there.
#[verifier::external_body]
pub(crate) fn table_remove(t: &mut DashMap<u128, KnowledgeEntry>, id: u128) -> (removed: Option<(u128, KnowledgeEntry)>)
    ensures
        table_entries(*final(t)) == table_entries(*old(t)).remove(id),
        removed is Some <==> table_entries(*old(t)).contains_key(id),
        removed matches Some(p) ==> p.0 == id && p.1@ == table_entries(*old(t))[id],
{
    t.remove(&id)
}

/// `DashMap::len`: the number of pairs.
#[verifier::external_body]
pub(crate) fn table_len(t: &DashMap<u128, KnowledgeEntry>) -> (n: usize)
    ensures
        n == table_entries(*t).len(),
{
    t.len()
}

/// `DashMap::iter`, each pair copied out. The order is that of the shards
/// and their hash tables, which depends on the per-process hash seed, so
/// only the listing property is stated.
#[verifier::external_body]
pub(crate) fn table_pairs(t: &DashMap<u128, KnowledgeEntry>) -> (pairs: Vec<(u128, KnowledgeEntry)>)
    ensures
        is_listing(pairs@, table_entries(*t)),
{
    t.iter().map(|r| (*r.key(), r.value().clone())).collect()
}

/// The nibble `d` (0 = most significant) of a 128-bit value.
pub open spec fn nibble(id: u128, d: nat) -> nat {
    ((id as nat) / vstd::arithmetic::power2::pow2((4 * (31 - d)) as nat)) % 16
}

/// The lowercase hexadecimal digit of `n < 16`.
pub open spec fn hex_digit(n: nat) -> char {
    if n < 10 { (48 + n) as char } else { (87 + n) as char }
}

/// The hyphenated lowercase form of a UUID: 32 hex digits, most significant
/// first, grouped 8-4-4-4-12.
pub open spec fn uuid_hyphenated(id: u128) -> Seq<char> {
    Seq::new(36, |j: int|
        if j == 8 || j == 13 || j == 18 || j == 23 {
            '-'
        } else {
            let d = if j < 8 { j } else if j < 13 { j - 1 } else if j < 18 { j - 2 } else if j < 23 { j - 3 } else { j - 4 };
            hex_digit(nibble(id, d as nat))
        })
}

/// `Uuid::from_u128(id).to_string()`: uuid's `Display` writes the
/// hyphenated lowercase form.
#[verifier::external_body]
pub(crate) fn uuid_text(id: u128) -> (text: String)
    ensures
        text@ == uuid_hyphenated(id),
{
    uuid::Uuid::from_u128(id).to_string()
}

/// A version 4 UUID: the version nibble (the thirteenth hex digit) is 4 and
/// the two variant bits that follow the third group are `10`, so the
/// seventeenth hex digit is one of 8, 9, a, b.
pub open spec fn is_v4(id: u128) -> bool {
    &&& nibble(id, 12) == 4
    &&& 8 <= nibble(id, 16) < 12
}

/// `Uuid::new_v4().as_u128()`: a random id. `new_v4` masks random bits with
/// `0xFFFFFFFFFFFF4FFFBFFFFFFFFFFFFFFF` and sets `0x40008000000000000000`, so
/// the version and variant bits are fixed; the other 122 bits come from the
/// system's random source and nothing is stated of them.
#[verifier::external_body]
pub(crate) fn fresh_id() -> (id: u128)
    ensures
        is_v4(id),
{
    uuid::Uuid::new_v4().as_u128()
}

} // verus!
