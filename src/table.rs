//! Frequency tables: a concurrent map from word to count, and what it holds.
use dashmap::DashMap;
use vstd::prelude::*;

verus! {

#[verifier::external_type_specification]
#[verifier::external_body]
#[verifier::reject_recursive_types(K)]
#[verifier::reject_recursive_types(V)]
#[verifier::reject_recursive_types(S)]
pub struct ExDashMap<K, V, S>(DashMap<K, V, S>);

/// The counts that a frequency table holds, keyed by the word's characters.
pub uninterp spec fn table_contents(m: DashMap<String, u64>) -> Map<Seq<char>, u64>;

/// Relies on `DashMap::new`: a map with no entries.
#[verifier::external_body]
pub(crate) fn new_table() -> (r: DashMap<String, u64>)
    ensures
        table_contents(r).dom().is_empty(),
{
    DashMap::new()
}

/// Relies on `DashMap::get`: the value stored under `key`, if any.
#[verifier::external_body]
pub(crate) fn table_get(m: &DashMap<String, u64>, key: &String) -> (r: Option<u64>)
    ensures
        table_contents(*m).contains_key(key@) ==> r == Some(table_contents(*m)[key@]),
        !table_contents(*m).contains_key(key@) ==> r.is_none(),
{
    m.get(key).map(|e| *e.value())
}

/// Relies on `DashMap::insert`: stores `v` under `key`, replacing what was there.
#[verifier::external_body]
pub(crate) fn table_insert(m: &mut DashMap<String, u64>, key: String, v: u64)
    ensures
        table_contents(*final(m)) == table_contents(*old(m)).insert(key@, v),
{
    m.insert(key, v);
}

/// Relies on `DashMap::into_iter`: every entry of the map exactly once, in no
/// particular order.
#[verifier::external_body]
pub(crate) fn table_entries(m: DashMap<String, u64>) -> (r: Vec<(String, u64)>)
    ensures
        lists_map(entry_views(r@), table_contents(m)),
{
    m.into_iter().collect()
}

/// Occurrences of `w` in `ts`.
pub open spec fn count(ts: Seq<Seq<char>>, w: Seq<char>) -> nat
    decreases ts.len(),
{
    if ts.len() == 0 {
        0
    } else {
        count(ts.drop_last(), w) + if ts.last() == w {
            1nat
        } else {
            0nat
        }
    }
}

/// The count stored under `w`, zero where there is none.
pub open spec fn get_or_zero(m: Map<Seq<char>, u64>, w: Seq<char>) -> nat {
    if m.contains_key(w) {
        m[w] as nat
    } else {
        0
    }
}

/// `m` counts the words of `ts`: each word that occurs, with its number of
/// occurrences, and no other key.
pub open spec fn counts_match(m: Map<Seq<char>, u64>, ts: Seq<Seq<char>>) -> bool {
    &&& forall|w: Seq<char>| #[trigger] get_or_zero(m, w) == count(ts, w)
    &&& forall|w: Seq<char>| #[trigger] m.contains_key(w) ==> m[w] > 0
}

/// A list of (word, count) pairs seen as character sequences.
pub open spec fn entry_views(es: Seq<(String, u64)>) -> Seq<(Seq<char>, u64)> {
    es.map_values(|e: (String, u64)| (e.0@, e.1))
}

/// `es` lists the entries of `m`: each exactly once, in some order.
pub open spec fn lists_map(es: Seq<(Seq<char>, u64)>, m: Map<Seq<char>, u64>) -> bool {
    &&& forall|i: int, j: int|
        0 <= i < j < es.len() ==> #[trigger] es[i].0 != #[trigger] es[j].0
    &&& forall|i: int| 0 <= i < es.len() ==> m.contains_key(#[trigger] es[i].0) && m[es[i].0] == es[i].1
    &&& forall|w: Seq<char>| #[trigger] m.contains_key(w) ==> exists|i: int| 0 <= i < es.len() && es[i].0 == w
}

/// Counting a concatenation adds the counts of its parts.
pub proof fn lemma_count_concat(a: Seq<Seq<char>>, b: Seq<Seq<char>>, w: Seq<char>)
    ensures
        count(a + b, w) == count(a, w) + count(b, w),
    decreases b.len(),
{
    if b.len() > 0 {
        lemma_count_concat(a, b.drop_last(), w);
        assert((a + b).drop_last() =~= a + b.drop_last());
    } else {
        assert(a + b =~= a);
    }
}

/// No word occurs more often than the sequence is long.
pub proof fn lemma_count_le_len(ts: Seq<Seq<char>>, w: Seq<char>)
    ensures
        count(ts, w) <= ts.len(),
    decreases ts.len(),
{
    if ts.len() > 0 {
        lemma_count_le_len(ts.drop_last(), w);
    }
}

} // verus!
