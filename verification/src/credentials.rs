//! The credential map: string keys to string values, as the keyring keeps
//! them in one JSON object. Its model is a `Map` over the texts; where a key
//! occurs twice in the underlying list, the later entry wins.

use vstd::prelude::*;
use std::collections::HashMap;
use crate::text::same_text;

verus! {

broadcast use vstd::string::group_string_axioms;

/// Texts of a list of key-value pairs.
pub open spec fn pair_views(es: Seq<(String, String)>) -> Seq<(Seq<char>, Seq<char>)> {
    es.map_values(|e: (String, String)| (e.0@, e.1@))
}

/// The map that a list of key-value pairs denotes, later pairs winning.
pub open spec fn pairs_map(s: Seq<(Seq<char>, Seq<char>)>) -> Map<Seq<char>, Seq<char>>
    decreases s.len(),
{
    if s.len() == 0 {
        Map::empty()
    } else {
        pairs_map(s.drop_last()).insert(s.last().0, s.last().1)
    }
}

/// No key occurs in two pairs.
pub open spec fn keys_distinct(s: Seq<(Seq<char>, Seq<char>)>) -> bool {
    forall|i: int, j: int| 0 <= i < j < s.len() ==> #[trigger] s[i].0 != #[trigger] s[j].0
}

/// Some pair has key `k`.
pub open spec fn has_key(s: Seq<(Seq<char>, Seq<char>)>, k: Seq<char>) -> bool {
    exists|j: int| 0 <= j < s.len() && #[trigger] s[j].0 == k
}

/// A map of credentials, from key to value, kept as a list of pairs in
/// which each key occurs once.
pub struct CredentialMap {
    entries: Vec<(String, String)>,
}

impl View for CredentialMap {
    type V = Map<Seq<char>, Seq<char>>;

    closed spec fn view(&self) -> Map<Seq<char>, Seq<char>> {
        pairs_map(pair_views(self.entries@))
    }
}

/// Without the pairs for key `k`.
spec fn without_key(s: Seq<(Seq<char>, Seq<char>)>, k: Seq<char>) -> Seq<(Seq<char>, Seq<char>)>
    decreases s.len(),
{
    if s.len() == 0 {
        s
    } else if s.last().0 == k {
        without_key(s.drop_last(), k)
    } else {
        without_key(s.drop_last(), k).push(s.last())
    }
}

proof fn lemma_without_key_distinct(s: Seq<(Seq<char>, Seq<char>)>, k: Seq<char>)
    requires
        keys_distinct(s),
    ensures
        keys_distinct(without_key(s, k)),
        !has_key(without_key(s, k), k),
        forall|x: Seq<char>| has_key(without_key(s, k), x) ==> has_key(s, x),
    decreases s.len(),
{
    if s.len() > 0 {
        let t = s.drop_last();
        assert(keys_distinct(t)) by {
            assert forall|i: int, j: int| 0 <= i < j < t.len() implies #[trigger] t[i].0
                != #[trigger] t[j].0 by {
                assert(t[i] == s[i] && t[j] == s[j]);
            }
        }
        lemma_without_key_distinct(t, k);
        let w = without_key(t, k);
        assert forall|x: Seq<char>| has_key(t, x) implies has_key(s, x) by {
            let j = choose|j: int| 0 <= j < t.len() && #[trigger] t[j].0 == x;
            assert(s[j].0 == x);
        }
        if s.last().0 != k {
            let e = w.push(s.last());
            assert(!has_key(t, s.last().0)) by {
                if has_key(t, s.last().0) {
                    let j = choose|j: int| 0 <= j < t.len() && #[trigger] t[j].0 == s.last().0;
                    assert(s[j].0 == s[s.len() - 1].0);
                }
            }
            assert forall|i: int, j: int| 0 <= i < j < e.len() implies #[trigger] e[i].0
                != #[trigger] e[j].0 by {
                if j == e.len() - 1 {
                    assert(e[i] == w[i]);
                    if e[i].0 == e[j].0 {
                        assert(has_key(w, s.last().0));
                    }
                } else {
                    assert(e[i] == w[i] && e[j] == w[j]);
                }
            }
            assert forall|x: Seq<char>| has_key(e, x) implies has_key(s, x) by {
                let j = choose|j: int| 0 <= j < e.len() && #[trigger] e[j].0 == x;
                if j < w.len() {
                    assert(w[j].0 == x);
                } else {
                    assert(s[s.len() - 1].0 == x);
                }
            }
            assert(!has_key(e, k)) by {
                if has_key(e, k) {
                    let j = choose|j: int| 0 <= j < e.len() && #[trigger] e[j].0 == k;
                    if j < w.len() {
                        assert(w[j].0 == k);
                    }
                }
            }
        }
    }
}

proof fn lemma_without_key(s: Seq<(Seq<char>, Seq<char>)>, k: Seq<char>)
    ensures
        pairs_map(without_key(s, k)) =~= pairs_map(s).remove(k),
    decreases s.len(),
{
    if s.len() > 0 {
        lemma_without_key(s.drop_last(), k);
        let w = without_key(s.drop_last(), k);
        if s.last().0 != k {
            assert(w.push(s.last()).drop_last() =~= w);
        }
    }
}

/// Whether pairs at and after position `i` all have keys other than `k`.
spec fn key_absent_from(s: Seq<(Seq<char>, Seq<char>)>, k: Seq<char>, i: int) -> bool {
    forall|j: int| i <= j < s.len() ==> s[j].0 != k
}

proof fn lemma_prefix_decides(s: Seq<(Seq<char>, Seq<char>)>, k: Seq<char>, i: int)
    requires
        0 <= i <= s.len(),
        key_absent_from(s, k, i),
    ensures
        pairs_map(s).dom().contains(k) == pairs_map(s.take(i)).dom().contains(k),
        pairs_map(s).dom().contains(k) ==> pairs_map(s)[k] == pairs_map(s.take(i))[k],
    decreases s.len() - i,
{
    if i < s.len() {
        assert(s.take(i + 1).drop_last() =~= s.take(i));
        assert(s.take(i + 1).last() == s[i]);
        lemma_prefix_decides(s, k, i + 1);
    } else {
        assert(s.take(i) =~= s);
    }
}

proof fn lemma_empty_pairs(s: Seq<(Seq<char>, Seq<char>)>)
    ensures
        (pairs_map(s) == Map::<Seq<char>, Seq<char>>::empty()) == (s.len() == 0),
{
    if s.len() > 0 {
        assert(pairs_map(s).dom().contains(s.last().0));
        assert(!Map::<Seq<char>, Seq<char>>::empty().dom().contains(s.last().0));
    }
}

impl CredentialMap {
    #[verifier::type_invariant]
    spec fn wf(self) -> bool {
        keys_distinct(pair_views(self.entries@))
    }

    /// An empty map.
    pub fn new() -> (m: CredentialMap)
        ensures
            m@ == Map::<Seq<char>, Seq<char>>::empty(),
    {
        CredentialMap { entries: Vec::new() }
    }

    /// The map of a list of key-value pairs, later pairs winning.
    fn from_pairs(entries: Vec<(String, String)>) -> (m: CredentialMap)
        requires
            keys_distinct(pair_views(entries@)),
        ensures
            m@ == pairs_map(pair_views(entries@)),
    {
        CredentialMap { entries }
    }

    /// The key-value pairs behind the map.
    fn pairs(&self) -> (r: &[(String, String)])
        ensures
            pairs_map(pair_views(r@)) == self@,
    {
        self.entries.as_slice()
    }

    /// Whether the map holds no key.
    pub fn is_empty(&self) -> (r: bool)
        ensures
            r == (self@ == Map::<Seq<char>, Seq<char>>::empty()),
    {
        proof {
            lemma_empty_pairs(pair_views(self.entries@));
        }
        self.entries.len() == 0
    }

    /// The value of `key`, if the map holds it.
    pub fn lookup(&self, key: &str) -> (r: Option<String>)
        ensures
            self@.dom().contains(key@) ==> (r matches Some(v) && v@ == self@[key@]),
            !self@.dom().contains(key@) ==> r is None,
    {
        let ghost s = pair_views(self.entries@);
        let mut i = self.entries.len();
        while i > 0
            invariant
                i <= self.entries.len(),
                s == pair_views(self.entries@),
                key_absent_from(s, key@, i as int),
            decreases i,
        {
            if same_text(self.entries[i - 1].0.as_str(), key) {
                proof {
                    lemma_prefix_decides(s, key@, i as int);
                    assert(s.take(i as int).drop_last() =~= s.take(i - 1));
                }
                return Some(self.entries[i - 1].1.clone());
            }
            i = i - 1;
        }
        proof {
            lemma_prefix_decides(s, key@, 0);
        }
        None
    }

    /// The pairs without those for `key`.
    fn entries_without(&self, key: &str) -> (kept: Vec<(String, String)>)
        ensures
            pair_views(kept@) == without_key(pair_views(self.entries@), key@),
    {
        let ghost s = pair_views(self.entries@);
        let mut kept: Vec<(String, String)> = Vec::new();
        let mut i: usize = 0;
        while i < self.entries.len()
            invariant
                i <= self.entries.len(),
                s == pair_views(self.entries@),
                pair_views(kept@) == without_key(s.take(i as int), key@),
            decreases self.entries.len() - i,
        {
            assert(s.take(i + 1).drop_last() =~= s.take(i as int));
            assert(s.take(i + 1).last() == s[i as int]);
            if !same_text(self.entries[i].0.as_str(), key) {
                let k = self.entries[i].0.clone();
                let v = self.entries[i].1.clone();
                kept.push((k, v));
                assert(pair_views(kept@) =~= without_key(s.take(i as int), key@).push(s[i as int]));
            }
            i = i + 1;
        }
        assert(s.take(self.entries.len() as int) =~= s);
        kept
    }

    /// Removes `key`.
    pub fn remove(&mut self, key: &str)
        ensures
            final(self)@ == old(self)@.remove(key@),
    {
        proof {
            use_type_invariant(&*self);
            lemma_without_key(pair_views(self.entries@), key@);
            lemma_without_key_distinct(pair_views(self.entries@), key@);
        }
        let kept = self.entries_without(key);
        self.entries = kept;
    }

    /// Sets `key` to `value`.
    pub fn insert(&mut self, key: &str, value: &str)
        ensures
            final(self)@ == old(self)@.insert(key@, value@),
    {
        proof {
            use_type_invariant(&*self);
            lemma_without_key(pair_views(self.entries@), key@);
            lemma_without_key_distinct(pair_views(self.entries@), key@);
        }
        let mut kept = self.entries_without(key);
        let ghost before = pair_views(kept@);
        kept.push((key.to_owned(), value.to_owned()));
        let ghost after = pair_views(kept@);
        assert(after.drop_last() =~= before);
        assert(after =~= before.push((key@, value@)));
        assert(keys_distinct(after)) by {
            assert forall|i: int, j: int| 0 <= i < j < after.len() implies #[trigger] after[i].0
                != #[trigger] after[j].0 by {
                assert(after[i] == before[i]) by {
                    if i < before.len() {
                    }
                }
                if j < before.len() {
                    assert(after[j] == before[j]);
                } else if after[i].0 == after[j].0 {
                    assert(has_key(before, key@));
                }
            }
        }
        self.entries = kept;
        assert(self@ =~= old(self)@.remove(key@).insert(key@, value@));
        assert(old(self)@.remove(key@).insert(key@, value@) =~= old(self)@.insert(key@, value@));
    }
}

// ---------------------------------------------------------------- JSON

/// The map that the JSON text `text` denotes, read as an object of strings
/// (`serde_json::from_str::<HashMap<String, String>>`); `None` when it is
/// not such an object.
pub uninterp spec fn json_text_credentials(text: Seq<char>) -> Option<Map<Seq<char>, Seq<char>>>;

/// The map that the JSON bytes `bytes` denote, read as an object of
/// strings (`serde_json::from_slice::<HashMap<String, String>>`).
pub uninterp spec fn json_bytes_credentials(bytes: Seq<u8>) -> Option<Map<Seq<char>, Seq<char>>>;

/// The length in bytes of the JSON that `serde_json::to_vec` writes for a
/// map of string pairs. The key order in that text varies, its length does
/// not: each pair adds its two quoted, escaped strings, a `:` and a `,`
/// between pairs, inside one `{}`.
pub uninterp spec fn json_credentials_len(m: Map<Seq<char>, Seq<char>>) -> nat;

/// Calls `serde_json::from_str` into a `HashMap<String, String>` and lists
/// its pairs. The claim is that the pairs, each key once (as a `HashMap`
/// holds them), denote the map that the name `json_text_credentials` gives
/// for the text; their order, which the hash map decides, is left unsaid.
#[verifier::external_body]
fn parse_credentials_text(text: &str) -> (r: Option<Vec<(String, String)>>)
    ensures
        r is Some <==> json_text_credentials(text@) is Some,
        r matches Some(es) ==> pairs_map(pair_views(es@)) == json_text_credentials(text@)->0,
        r matches Some(es) ==> keys_distinct(pair_views(es@)),
{
    serde_json::from_str::<HashMap<String, String>>(text).ok().map(|m| m.into_iter().collect())
}

/// Calls `serde_json::from_slice` into a `HashMap<String, String>` and
/// lists its pairs; as `parse_credentials_text`, for bytes.
#[verifier::external_body]
fn parse_credentials_bytes(bytes: &[u8]) -> (r: Option<Vec<(String, String)>>)
    ensures
        r is Some <==> json_bytes_credentials(bytes@) is Some,
        r matches Some(es) ==> pairs_map(pair_views(es@)) == json_bytes_credentials(bytes@)->0,
        r matches Some(es) ==> keys_distinct(pair_views(es@)),
{
    serde_json::from_slice::<HashMap<String, String>>(bytes).ok().map(|m| m.into_iter().collect())
}

/// Calls `serde_json::to_string` on the pairs collected into a `HashMap`.
/// The claim is that reading the text back gives the same map; the order
/// of the keys in the text, which the hash map decides, is left unsaid.
/// serde_json documents that serializing fails only when a `Serialize` impl
/// fails or a map has keys that are not strings; neither holds for a map of
/// string pairs, so the empty fallback is never taken.
#[verifier::external_body]
fn pairs_to_json_text(pairs: &[(String, String)]) -> (r: String)
    ensures
        json_text_credentials(r@) == Some(pairs_map(pair_views(pairs@))),
{
    let m: HashMap<&str, &str> = pairs.iter().map(|(k, v)| (k.as_str(), v.as_str())).collect();
    serde_json::to_string(&m).unwrap_or_default()
}

/// Calls `serde_json::to_vec` on the pairs collected into a `HashMap`; as
/// `pairs_to_json_text`, for bytes. The length of the bytes is the named
/// `json_credentials_len` of the map.
#[verifier::external_body]
fn pairs_to_json_bytes(pairs: &[(String, String)]) -> (r: Vec<u8>)
    ensures
        json_bytes_credentials(r@) == Some(pairs_map(pair_views(pairs@))),
        r@.len() == json_credentials_len(pairs_map(pair_views(pairs@))),
{
    let m: HashMap<&str, &str> = pairs.iter().map(|(k, v)| (k.as_str(), v.as_str())).collect();
    serde_json::to_vec(&m).unwrap_or_default()
}

/// Reads a credential map from JSON text.
pub fn credentials_from_json(text: &str) -> (r: Option<CredentialMap>)
    ensures
        match json_text_credentials(text@) {
            Some(m) => r matches Some(c) && c@ == m,
            None => r is None,
        },
{
    match parse_credentials_text(text) {
        Some(es) => Some(CredentialMap::from_pairs(es)),
        None => None,
    }
}

/// Reads a credential map from JSON bytes.
pub fn credentials_from_json_bytes(bytes: &[u8]) -> (r: Option<CredentialMap>)
    ensures
        match json_bytes_credentials(bytes@) {
            Some(m) => r matches Some(c) && c@ == m,
            None => r is None,
        },
{
    match parse_credentials_bytes(bytes) {
        Some(es) => Some(CredentialMap::from_pairs(es)),
        None => None,
    }
}

/// Writes a credential map as JSON text; reading it back gives the map.
pub fn credentials_to_json(map: &CredentialMap) -> (r: String)
    ensures
        json_text_credentials(r@) == Some(map@),
{
    pairs_to_json_text(map.pairs())
}

/// Writes a credential map as JSON bytes; reading them back gives the map.
pub fn credentials_to_json_bytes(map: &CredentialMap) -> (r: Vec<u8>)
    ensures
        json_bytes_credentials(r@) == Some(map@),
        r@.len() == json_credentials_len(map@),
{
    pairs_to_json_bytes(map.pairs())
}

} // verus!
