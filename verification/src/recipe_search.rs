//! The recipe book's search — `updateCollections`' second stage.
//!
//! A collection survives when the (lowercased) query occurs anywhere in one
//! of its indexed strings. The tree keeps a **name** index and an **id**
//! index, and the first `:` in the query picks between them: no colon
//! searches names only; a colon means `namespace ∩ (path ∪ name)`, with both
//! halves trimmed. An empty query skips the stage altogether.

use vstd::prelude::*;
use crate::text::{chars_of, seq_contains, contains_seq, trim, trim_range, lowercase, to_lowercase};

verus! {

/// One collection's searchable text.
#[derive(Debug, Clone, PartialEq, Eq)]
pub struct SearchEntry {
    /// The display name of each result item, lowercased.
    pub names: Vec<String>,
    /// `(namespace, path)` per result item, lowercased.
    pub ids: Vec<(String, String)>,
}

impl Default for SearchEntry {
    /// An entry with nothing to search.
    fn default() -> (r: Self)
        ensures
            r.names@.len() == 0,
            r.ids@.len() == 0,
    {
        SearchEntry { names: Vec::new(), ids: Vec::new() }
    }
}

/// Some name holds `q`.
pub open spec fn name_matches(e: SearchEntry, q: Seq<char>) -> bool {
    exists|i: int| 0 <= i < e.names@.len() && contains_seq((#[trigger] e.names@[i])@, q)
}

/// Some id's path holds `q`.
pub open spec fn path_matches(e: SearchEntry, q: Seq<char>) -> bool {
    exists|i: int| 0 <= i < e.ids@.len() && contains_seq((#[trigger] e.ids@[i]).1@, q)
}

/// Some id's namespace holds `q`.
pub open spec fn namespace_matches(e: SearchEntry, q: Seq<char>) -> bool {
    exists|i: int| 0 <= i < e.ids@.len() && contains_seq((#[trigger] e.ids@[i]).0@, q)
}

/// The position of the first `:` in `q`, if any.
pub open spec fn first_colon(q: Seq<char>) -> Option<int> {
    if exists|i: int| 0 <= i < q.len() && q[i] == ':' {
        Some(choose|i: int| 0 <= i < q.len() && q[i] == ':' && forall|j: int| 0 <= j < i ==> q[j] != ':')
    } else {
        None
    }
}

/// Whether a collection survives the search stage for `query`.
pub open spec fn matches_spec(e: SearchEntry, query: Seq<char>) -> bool {
    if query.len() == 0 {
        true
    } else {
        match first_colon(query) {
            None => name_matches(e, query),
            Some(c) => {
                let ns = trim(query.subrange(0, c));
                let path = trim(query.subrange(c + 1, query.len() as int));
                namespace_matches(e, ns) && (path_matches(e, path) || name_matches(e, path))
            },
        }
    }
}

/// What the search answers, in terms of the entry's strings: an empty
/// query keeps everything; a query without a colon keeps an entry when some
/// display name holds it; a query with a colon keeps an entry when some
/// id's namespace holds the trimmed part before the first colon and the
/// trimmed part after it is held by some id's path or by some display
/// name.
pub proof fn lemma_search_reads_names_and_ids(e: SearchEntry, query: Seq<char>)
    ensures
        query.len() == 0 ==> matches_spec(e, query),
        query.len() > 0 && (forall|k: int| 0 <= k < query.len() ==> query[k] != ':') ==> (matches_spec(e, query)
            <==> exists|j: int| 0 <= j < e.names@.len() && contains_seq((#[trigger] e.names@[j])@, query)),
        forall|c: int| #![trigger query[c]] 0 <= c < query.len() && query[c] == ':' && (forall|k: int| 0 <= k < c ==> query[k] != ':') ==> {
            let ns = trim(query.subrange(0, c));
            let path = trim(query.subrange(c + 1, query.len() as int));
            matches_spec(e, query) <==> (
                (exists|i: int| 0 <= i < e.ids@.len() && contains_seq((#[trigger] e.ids@[i]).0@, ns))
                && ((exists|i: int| 0 <= i < e.ids@.len() && contains_seq((#[trigger] e.ids@[i]).1@, path))
                    || (exists|j: int| 0 <= j < e.names@.len() && contains_seq((#[trigger] e.names@[j])@, path)))
            )
        },
{
    assert forall|c: int| #![trigger query[c]] 0 <= c < query.len() && query[c] == ':' && (forall|k: int| 0 <= k < c ==> query[k] != ':')
        implies first_colon(query) == Some(c) by {
        let k = choose|i: int| 0 <= i < query.len() && query[i] == ':' && forall|j: int| 0 <= j < i ==> query[j] != ':';
        if k < c {
            assert(query[k] != ':');
        }
        if c < k {
            assert(query[c] != ':');
        }
    }
}

/// A query with a colon finds an entry through its display names too: when
/// some id's namespace holds the part before the colon, a display name
/// holding the part after it is enough, whatever the id paths hold.
pub proof fn lemma_colon_query_finds_names(e: SearchEntry, query: Seq<char>, c: int, i: int, j: int)
    requires
        0 <= c < query.len(),
        query[c] == ':',
        forall|k: int| 0 <= k < c ==> query[k] != ':',
        0 <= i < e.ids@.len(),
        contains_seq(e.ids@[i].0@, trim(query.subrange(0, c))),
        0 <= j < e.names@.len(),
        contains_seq(e.names@[j]@, trim(query.subrange(c + 1, query.len() as int))),
    ensures
        matches_spec(e, query),
{
    lemma_search_reads_names_and_ids(e, query);
    assert(query[c] == ':');
}

fn any_name(e: &SearchEntry, q: &Vec<char>) -> (r: bool)
    ensures
        r == name_matches(*e, q@),
{
    let n = e.names.len();
    let mut i: usize = 0;
    while i < n
        invariant
            n == e.names@.len(),
            i <= n,
            forall|j: int| 0 <= j < i ==> !contains_seq((#[trigger] e.names@[j])@, q@),
        decreases n - i,
    {
        let cs = chars_of(e.names[i].as_str());
        if seq_contains(&cs, q) {
            return true;
        }
        i = i + 1;
    }
    false
}

fn any_id_part(e: &SearchEntry, q: &Vec<char>, namespace: bool) -> (r: bool)
    ensures
        namespace ==> r == namespace_matches(*e, q@),
        !namespace ==> r == path_matches(*e, q@),
{
    let n = e.ids.len();
    let mut i: usize = 0;
    while i < n
        invariant
            n == e.ids@.len(),
            i <= n,
            namespace ==> forall|j: int| 0 <= j < i ==> !contains_seq((#[trigger] e.ids@[j]).0@, q@),
            !namespace ==> forall|j: int| 0 <= j < i ==> !contains_seq((#[trigger] e.ids@[j]).1@, q@),
        decreases n - i,
    {
        let part = if namespace { e.ids[i].0.as_str() } else { e.ids[i].1.as_str() };
        let cs = chars_of(part);
        if seq_contains(&cs, q) {
            return true;
        }
        i = i + 1;
    }
    false
}

/// Whether a collection survives the search stage. An empty query is not a
/// match-everything query: the stage is skipped, so an entry with nothing
/// to search is kept.
pub fn matches(entry: &SearchEntry, query: &str) -> (r: bool)
    ensures
        r == matches_spec(*entry, query@),
{
    let q = chars_of(query);
    let n = q.len();
    if n == 0 {
        return true;
    }
    let mut c: usize = 0;
    while c < n && q[c] != ':'
        invariant
            n == q@.len(),
            c <= n,
            forall|j: int| 0 <= j < c ==> q@[j] != ':',
        decreases n - c,
    {
        c = c + 1;
    }
    if c == n {
        proof {
            assert(first_colon(query@) is None);
        }
        return any_name(entry, &q);
    }
    proof {
        assert(q@[c as int] == ':');
        let k = choose|i: int| 0 <= i < q@.len() && q@[i] == ':' && forall|j: int| 0 <= j < i ==> q@[j] != ':';
        assert(0 <= c < q@.len() && q@[c as int] == ':' && forall|j: int| 0 <= j < c ==> q@[j] != ':');
        if k < c {
            assert(q@[k] != ':');
        }
        if c < k {
            assert(q@[c as int] != ':');
        }
        assert(first_colon(query@) == Some(c as int));
    }
    let namespace = trim_range(&q, 0, c);
    let path = trim_range(&q, c + 1, n);
    any_id_part(entry, &namespace, true) && (any_id_part(entry, &path, false) || any_name(entry, &path))
}

/// `searchBox.getValue().toLowerCase(Locale.ROOT)`.
pub fn normalize(raw: &str) -> (r: String)
    ensures
        r@ == lowercase(raw@),
{
    to_lowercase(raw)
}

} // verus!
