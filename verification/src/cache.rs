use vstd::prelude::*;

use std::collections::BTreeMap;

verus! {

/// The JSON text that serializing a string-to-string mapping produces: a
/// single JSON object whose members are the mapping's pairs.  The text is
/// a function of the mapping alone.
pub uninterp spec fn json_of(m: Map<Seq<char>, Seq<char>>) -> Seq<char>;

/// The mapping that a list of key/value pairs holds, a later pair
/// overriding an earlier one with the same key.
pub open spec fn entries_map(s: Seq<(Seq<char>, Seq<char>)>) -> Map<Seq<char>, Seq<char>>
    decreases s.len(),
{
    if s.len() == 0 {
        Map::empty()
    } else {
        entries_map(s.drop_last()).insert(s.last().0, s.last().1)
    }
}

/// What parsing a text as a JSON object of string members yields: the
/// object's key/value pairs, or nothing when the text does not parse as
/// such an object.  The outcome is a function of the text alone.
pub uninterp spec fn json_parse(s: Seq<char>) -> Option<Seq<(Seq<char>, Seq<char>)>>;

/// The pairs of a parse outcome, seen at the specification level.
pub open spec fn parsed_pairs(r: Option<Vec<(String, String)>>) -> Option<
    Seq<(Seq<char>, Seq<char>)>,
> {
    match r {
        Some(v) => Some(v.deep_view()),
        None => None,
    }
}

/// Relies on serde_json::to_string_pretty applied to a string-keyed
/// ordered map: the serialized JSON object depends only on which
/// key/value pairs the map holds (building the map from the pairs keeps
/// the last value given for a key), and parsing the serialized text back
/// restores exactly those pairs.
#[verifier::external_body]
fn entries_to_json(entries: &Vec<(String, String)>) -> (r: String)
    ensures
        r@ == json_of(entries_map(entries.deep_view())),
        (r@ == json_of(entries_map(entries.deep_view()))) && (match json_parse(r@) {
            Some(back) => entries_map(back) == entries_map(entries.deep_view()),
            None => false,
        }),
{
    let m: BTreeMap<&str, &str> = entries.iter().map(|p| (p.0.as_str(), p.1.as_str())).collect();
    serde_json::to_string_pretty(&m).expect("maps with string keys serialize")
}

/// Relies on serde_json::from_str deserializing a string-to-string map:
/// the outcome is a function of the text alone — the object's pairs when
/// the text is a JSON object of string members, nothing otherwise.
#[verifier::external_body]
fn json_to_entries(s: &str) -> (r: Option<Vec<(String, String)>>)
    ensures
        parsed_pairs(r) == json_parse(s@),
{
    match serde_json::from_str::<BTreeMap<String, String>>(s) {
        Ok(m) => Some(m.into_iter().collect()),
        Err(_) => None,
    }
}

/// The in-memory translation cache: a mapping from the fingerprint of a
/// (chunk text, target language) pair to the translation obtained for it.
/// Entries live in insertion order; a later entry for a key overrides an
/// earlier one.
pub struct TranslationCache {
    entries: Vec<(String, String)>,
}

impl View for TranslationCache {
    type V = Map<Seq<char>, Seq<char>>;

    closed spec fn view(&self) -> Map<Seq<char>, Seq<char>> {
        entries_map(self.entries.deep_view())
    }
}

proof fn lemma_entries_map_last_match(s: Seq<(Seq<char>, Seq<char>)>, i: int, k: Seq<char>)
    requires
        0 <= i < s.len(),
        s[i].0 == k,
        forall|j: int| i < j < s.len() ==> #[trigger] s[j].0 != k,
    ensures
        entries_map(s).contains_key(k),
        entries_map(s)[k] == s[i].1,
    decreases s.len(),
{
    if i == s.len() - 1 {
    } else {
        lemma_entries_map_last_match(s.drop_last(), i, k);
    }
}

proof fn lemma_entries_map_no_match(s: Seq<(Seq<char>, Seq<char>)>, k: Seq<char>)
    requires
        forall|j: int| 0 <= j < s.len() ==> #[trigger] s[j].0 != k,
    ensures
        !entries_map(s).contains_key(k),
    decreases s.len(),
{
    if s.len() > 0 {
        lemma_entries_map_no_match(s.drop_last(), k);
    }
}

proof fn lemma_entries_map_push(s: Seq<(Seq<char>, Seq<char>)>, k: Seq<char>, v: Seq<char>)
    ensures
        entries_map(s.push((k, v))) == entries_map(s).insert(k, v),
{
    assert(s.push((k, v)).drop_last() =~= s);
    assert(s.push((k, v)).last() == (k, v));
}

impl TranslationCache {
    /// An empty cache.
    pub fn new() -> (r: TranslationCache)
        ensures
            r@ == Map::<Seq<char>, Seq<char>>::empty(),
    {
        TranslationCache { entries: Vec::new() }
    }

    /// Looks a fingerprint up; the result is the translation stored for
    /// it, or nothing when the cache holds no entry for it.
    pub fn get(&self, key: &String) -> (r: Option<&String>)
        ensures
            match r {
                Some(v) => self@.contains_key(key@) && v@ == self@[key@],
                None => !self@.contains_key(key@),
            },
    {
        let ghost s = self.entries.deep_view();
        let mut i: usize = self.entries.len();
        while i > 0
            invariant
                i <= self.entries@.len(),
                s == self.entries.deep_view(),
                forall|j: int| i <= j < s.len() ==> #[trigger] s[j].0 != key@,
            decreases i,
        {
            i = i - 1;
            if self.entries[i].0.eq(key) {
                proof {
                    assert(s[i as int].0 == key@);
                    lemma_entries_map_last_match(s, i as int, key@);
                }
                return Some(&self.entries[i].1);
            }
            proof {
                assert(s[i as int].0 != key@);
            }
        }
        proof {
            lemma_entries_map_no_match(s, key@);
        }
        None
    }

    /// Stores a translation for a fingerprint, unless the translation is
    /// empty: an empty translation marks a failed attempt and is never
    /// cached, so a later run retries it.
    pub fn put(&mut self, key: String, text: String)
        ensures
            final(self)@ == if text@.len() == 0 {
                old(self)@
            } else {
                old(self)@.insert(key@, text@)
            },
    {
        if text.as_str().is_empty() {
            return;
        }
        let ghost s = self.entries.deep_view();
        let ghost kv = (key@, text@);
        self.entries.push((key, text));
        proof {
            assert(self.entries.deep_view() =~= s.push(kv)) by {
                assert forall|j: int| 0 <= j < self.entries.deep_view().len() implies self.entries.deep_view()[j]
                    == s.push(kv)[j] by {
                    assert(self.entries.deep_view()[j] == self.entries@[j].deep_view());
                }
            }
            lemma_entries_map_push(s, kv.0, kv.1);
        }
    }

    /// Serializes the cache as a JSON object mapping each fingerprint to
    /// its translation.  Restoring the result with `from_json` yields a
    /// cache with exactly this mapping, so a save/load round trip loses
    /// nothing.
    pub fn to_json(&self) -> (r: String)
        ensures
            r@ == json_of(self@),
            json_parse(r@) matches Some(back) && entries_map(back) == self@,
    {
        entries_to_json(&self.entries)
    }

    /// Restores a cache from serialized form: the mapping held by the
    /// JSON object the text spells, or the empty cache when the text does
    /// not parse — a missing or corrupt cache file is a cold start, never
    /// fatal.
    pub fn from_json(s: &str) -> (r: TranslationCache)
        ensures
            r@ == match json_parse(s@) {
                Some(back) => entries_map(back),
                None => Map::<Seq<char>, Seq<char>>::empty(),
            },
    {
        match json_to_entries(s) {
            Some(v) => TranslationCache { entries: v },
            None => TranslationCache { entries: Vec::new() },
        }
    }
}

} // verus!
