//! The ordered key index of a table: a concurrent skip list from keys to
//! value pointers, and the one sorted listing that such an index has.
use crate::entry::{entry_views, Entry, EntryView};
use crate::keys::{key_le, key_lt, lemma_key_lt_irreflexive, lemma_key_lt_total};
use crossbeam_skiplist::SkipMap;
use vstd::prelude::*;

verus! {

/// What the index keeps for a key: value offset, creation time, tombstone flag.
pub type IndexValue = (u32, u64, bool);

#[verifier::external_type_specification]
#[verifier::external_body]
#[verifier::reject_recursive_types(K)]
#[verifier::reject_recursive_types(V)]
pub struct ExSkipMap<K, V>(SkipMap<K, V>);

/// The key–value pairs that a skip map holds.
pub uninterp spec fn skipmap_contents(m: SkipMap<Vec<u8>, IndexValue>) -> Map<Seq<u8>, IndexValue>;

/// The keys of `s` ascend strictly.
pub open spec fn is_sorted(s: Seq<EntryView>) -> bool {
    forall|i: int, j: int| 0 <= i < j < s.len() ==> key_lt(#[trigger] s[i].key, #[trigger] s[j].key)
}

/// `s` lists the pairs of `m`, each once, by ascending key.
pub open spec fn lists(s: Seq<EntryView>, m: Map<Seq<u8>, IndexValue>) -> bool {
    &&& is_sorted(s)
    &&& forall|i: int| 0 <= i < s.len() ==> m.contains_pair(#[trigger] s[i].key, s[i].value())
    &&& forall|k: Seq<u8>| m.dom().contains(k) ==> exists|i: int| 0 <= i < s.len() && #[trigger] s[i].key == k
}

/// The pairs of `m` by ascending key.
pub open spec fn ordered_entries(m: Map<Seq<u8>, IndexValue>) -> Seq<EntryView> {
    choose|s: Seq<EntryView>| lists(s, m)
}

/// `SkipMap::new`: a fresh map holds nothing.
#[verifier::external_body]
pub(crate) fn skipmap_new() -> (m: SkipMap<Vec<u8>, IndexValue>)
    ensures
        skipmap_contents(m) == (Map::<Seq<u8>, IndexValue>::empty()),
{
    SkipMap::new()
}

/// `SkipMap::insert`: binds `key` to `value`, replacing an earlier binding of
/// the same key and leaving every other key as it was.
#[verifier::external_body]
pub(crate) fn skipmap_insert(m: &mut SkipMap<Vec<u8>, IndexValue>, key: Vec<u8>, value: IndexValue)
    ensures
        skipmap_contents(*final(m)) == skipmap_contents(*old(m)).insert(key@, value),
{
    m.insert(key, value);
}

/// `SkipMap::get`: the value bound to `key`, if any.
#[verifier::external_body]
pub(crate) fn skipmap_get(m: &SkipMap<Vec<u8>, IndexValue>, key: &[u8]) -> (r: Option<IndexValue>)
    ensures
        r == (if skipmap_contents(*m).dom().contains(key@) {
            Some(skipmap_contents(*m)[key@])
        } else {
            None
        }),
{
    m.get(key).map(|e| *e.value())
}

/// `SkipMap::iter`: every pair of the map once, sorted by key; keys are
/// byte vectors, which std orders lexicographically.
#[verifier::external_body]
pub(crate) fn skipmap_entries(m: &SkipMap<Vec<u8>, IndexValue>) -> (r: Vec<Entry>)
    ensures
        lists(entry_views(r@), skipmap_contents(*m)),
{
    m.iter().map(|e| Entry::new(e.key().clone(), e.value().0, e.value().1, e.value().2)).collect()
}

/// `SkipMap::front`: the smallest key, or nothing where the map is empty.
#[verifier::external_body]
pub(crate) fn skipmap_front(m: &SkipMap<Vec<u8>, IndexValue>) -> (r: Option<Vec<u8>>)
    ensures
        r is None <==> skipmap_contents(*m).dom() =~= Set::empty(),
        r matches Some(k) ==> skipmap_contents(*m).dom().contains(k@) && forall|o: Seq<u8>| skipmap_contents(*m).dom().contains(o) ==> key_le(k@, o),
{
    m.front().map(|e| e.key().clone())
}

/// `SkipMap::back`: the largest key, or nothing where the map is empty.
#[verifier::external_body]
pub(crate) fn skipmap_back(m: &SkipMap<Vec<u8>, IndexValue>) -> (r: Option<Vec<u8>>)
    ensures
        r is None <==> skipmap_contents(*m).dom() =~= Set::empty(),
        r matches Some(k) ==> skipmap_contents(*m).dom().contains(k@) && forall|o: Seq<u8>| skipmap_contents(*m).dom().contains(o) ==> key_le(o, k@),
{
    m.back().map(|e| e.key().clone())
}

/// A sorted listing of a map is empty exactly when the map is.
pub proof fn lemma_listing_empty(s: Seq<EntryView>, m: Map<Seq<u8>, IndexValue>)
    requires
        lists(s, m),
    ensures
        s.len() == 0 <==> m.dom() =~= Set::empty(),
{
    if s.len() > 0 {
        assert(m.dom().contains(s[0].key));
    }
}

/// A map has at most one sorted listing.
pub proof fn lemma_listing_unique(s1: Seq<EntryView>, s2: Seq<EntryView>, m: Map<Seq<u8>, IndexValue>)
    requires
        lists(s1, m),
        lists(s2, m),
    ensures
        s1 == s2,
    decreases s1.len(),
{
    lemma_listing_empty(s1, m);
    lemma_listing_empty(s2, m);
    if s1.len() == 0 {
        assert(s1 =~= s2);
    } else {
        let a = s1.last();
        let b = s2.last();
        assert(m.contains_pair(s1[s1.len() - 1].key, s1[s1.len() - 1].value()));
        assert(m.contains_pair(s2[s2.len() - 1].key, s2[s2.len() - 1].value()));
        let j = choose|j: int| 0 <= j < s2.len() && #[trigger] s2[j].key == a.key;
        let i = choose|i: int| 0 <= i < s1.len() && #[trigger] s1[i].key == b.key;
        lemma_key_lt_total(a.key, b.key);
        lemma_key_lt_irreflexive(a.key);
        if j < s2.len() - 1 {
            assert(key_lt(s2[j].key, s2[s2.len() - 1].key));
        }
        if i < s1.len() - 1 {
            assert(key_lt(s1[i].key, s1[s1.len() - 1].key));
        }
        assert(a.key == b.key);
        assert(a.value() == b.value());
        assert(a == b);
        let t1 = s1.drop_last();
        let t2 = s2.drop_last();
        let rest = m.remove(a.key);
        lemma_listing_drop_last(s1, m);
        lemma_listing_drop_last(s2, m);
        lemma_listing_unique(t1, t2, rest);
        assert(s1 =~= t1.push(a));
        assert(s2 =~= t2.push(b));
    }
}

/// Dropping the last pair of a listing lists the map without that key.
pub proof fn lemma_listing_drop_last(s: Seq<EntryView>, m: Map<Seq<u8>, IndexValue>)
    requires
        lists(s, m),
        s.len() > 0,
    ensures
        lists(s.drop_last(), m.remove(s.last().key)),
{
    let t = s.drop_last();
    let last = s.last();
    let rest = m.remove(last.key);
    assert forall|i: int, j: int| 0 <= i < j < t.len() implies key_lt(
        #[trigger] t[i].key,
        #[trigger] t[j].key,
    ) by {
        assert(key_lt(s[i].key, s[j].key));
    }
    assert forall|i: int| 0 <= i < t.len() implies rest.contains_pair(
        #[trigger] t[i].key,
        t[i].value(),
    ) by {
        assert(m.contains_pair(s[i].key, s[i].value()));
        assert(key_lt(s[i].key, s[s.len() - 1].key));
        lemma_key_lt_irreflexive(last.key);
    }
    assert forall|k: Seq<u8>| rest.dom().contains(k) implies exists|i: int|
        0 <= i < t.len() && #[trigger] t[i].key == k by {
        assert(m.dom().contains(k));
        let i = choose|i: int| 0 <= i < s.len() && #[trigger] s[i].key == k;
        assert(i < s.len() - 1);
        assert(t[i].key == k);
    }
}

/// Any sorted listing of a map is its [`ordered_entries`].
pub proof fn lemma_listing_is_ordered(s: Seq<EntryView>, m: Map<Seq<u8>, IndexValue>)
    requires
        lists(s, m),
    ensures
        s == ordered_entries(m),
        lists(ordered_entries(m), m),
{
    lemma_listing_unique(s, ordered_entries(m), m);
}

} // verus!
