//! Case-insensitive username alias table: maps any casing of a known
//! username to its canonical display name, without allocating a folded
//! copy of the query on the lookup path.

use vstd::prelude::*;
use std::hash::{BuildHasher, Hash, Hasher};

verus! {

/// The case folding that unicase applies to a string: a canonical form
/// under which two strings compare equal exactly when they are
/// case-insensitively equal. Its value on given characters is left
/// unspecified; it depends on the characters alone.
pub uninterp spec fn fold_of(s: Seq<char>) -> Seq<char>;

/// What an [`AliasMap`] holds: canonical names keyed by the case fold of
/// the username they were stored under.
pub uninterp spec fn alias_contents(m: AliasMap) -> Map<Seq<char>, Seq<char>>;

/// Hash map from case-insensitive usernames to canonical display names.
/// Holds hashbrown's table keyed by unicase's fold-aware wrapper; Verus
/// sees it only through [`alias_contents`].
#[verifier::external_body]
pub struct AliasMap {
    map: hashbrown::HashMap<unicase::UniCase<String>, String>,
}

/// The contents of a table with no entries.
pub open spec fn empty_aliases() -> Map<Seq<char>, Seq<char>> {
    Map::empty()
}

/// Relies on hashbrown::HashMap::new: a newly created map is empty.
#[verifier::external_body]
fn alias_map_new() -> (r: AliasMap)
    ensures
        alias_contents(r) == empty_aliases(),
{
    AliasMap { map: hashbrown::HashMap::new() }
}

/// Relies on hashbrown::HashMap::insert together with unicase::UniCase's
/// Eq and Hash: UniCase keys hash and compare by their case-folded
/// characters, so the entry is stored at the key's fold, replacing any
/// entry whose key folds the same.
#[verifier::external_body]
fn alias_map_insert(m: &mut AliasMap, key: String, value: String)
    ensures
        alias_contents(*final(m)) == alias_contents(*old(m)).insert(fold_of(key@), value@),
{
    m.map.insert(unicase::UniCase::new(key), value);
}

/// Relies on hashbrown's raw-entry probe (RawEntryBuilder::from_hash)
/// together with unicase::UniCase's Hash and PartialEq: hashing the
/// borrowed query with the map's hasher and probing with a fold-aware
/// equality predicate finds exactly the entry stored at the query's
/// fold, if one is present, without allocating a folded copy.
#[verifier::external_body]
fn alias_map_get<'a>(m: &'a AliasMap, key: &str) -> (r: Option<&'a String>)
    ensures
        match r {
            Some(v) => alias_contents(*m).contains_key(fold_of(key@))
                && v@ == alias_contents(*m)[fold_of(key@)],
            None => !alias_contents(*m).contains_key(fold_of(key@)),
        },
{
    let unicase_key = unicase::UniCase::new(key);
    let mut hasher = m.map.hasher().build_hasher();
    unicase_key.hash(&mut hasher);
    m.map
        .raw_entry()
        .from_hash(hasher.finish(), |k| *k == unicase_key)
        .map(|(_, v)| v)
}

/// Case-insensitive mapping from raw usernames to canonical display
/// names; the last insert for a given case fold wins.
pub struct UsernameAliases {
    map: AliasMap,
}

impl View for UsernameAliases {
    type V = Map<Seq<char>, Seq<char>>;

    closed spec fn view(&self) -> Map<Seq<char>, Seq<char>> {
        alias_contents(self.map)
    }
}

/// What a lookup yields: the canonical name stored under the query's
/// case fold, or the query itself when no such entry exists.
pub open spec fn alias_lookup(m: Map<Seq<char>, Seq<char>>, key: Seq<char>) -> Seq<char> {
    if m.contains_key(fold_of(key)) {
        m[fold_of(key)]
    } else {
        key
    }
}

impl UsernameAliases {
    /// Looks `key` up case-insensitively; unknown names come back
    /// unchanged, with their original casing.
    pub fn get<'a>(&'a self, key: &'a str) -> (r: &'a str)
        ensures
            r@ == alias_lookup(self@, key@),
    {
        match alias_map_get(&self.map, key) {
            Some(v) => v.as_str(),
            None => key,
        }
    }

    /// Stores `value` under the case fold of `key`, overwriting the
    /// entry of any earlier key that folds the same.
    pub fn insert(&mut self, key: String, value: String)
        ensures
            final(self)@ == old(self)@.insert(fold_of(key@), value@),
    {
        alias_map_insert(&mut self.map, key, value);
    }
}

impl Default for UsernameAliases {
    /// An empty table: every lookup returns its query unchanged.
    fn default() -> (r: Self)
        ensures
            r@ == empty_aliases(),
    {
        UsernameAliases { map: alias_map_new() }
    }
}

/// A value stored under a key is returned for every query whose case
/// fold equals that key's fold, whatever the table held before.
pub proof fn lemma_insert_then_get(
    m: Map<Seq<char>, Seq<char>>,
    key: Seq<char>,
    value: Seq<char>,
    query: Seq<char>,
)
    ensures
        fold_of(query) == fold_of(key) ==> alias_lookup(m.insert(fold_of(key), value), query)
            == value,
{
}

/// A query whose case fold was never inserted comes back unchanged.
pub proof fn lemma_get_unknown(m: Map<Seq<char>, Seq<char>>, query: Seq<char>)
    ensures
        !m.contains_key(fold_of(query)) ==> alias_lookup(m, query) == query,
{
}

/// Inserting a key whose fold collides with an earlier key overwrites
/// the stored value: exactly one entry per fold persists.
pub proof fn lemma_insert_overwrites(
    m: Map<Seq<char>, Seq<char>>,
    first_key: Seq<char>,
    first_value: Seq<char>,
    second_key: Seq<char>,
    second_value: Seq<char>,
)
    ensures
        fold_of(second_key) == fold_of(first_key) ==> m.insert(fold_of(first_key), first_value)
            .insert(fold_of(second_key), second_value) =~= m.insert(
            fold_of(first_key),
            second_value,
        ),
{
}

} // verus!
