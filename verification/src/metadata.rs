//! The list of image files that comes at the head of an image, as a JSON object from file name
//! to file size.

use std::collections::HashMap;
use vstd::prelude::*;

verus! {

/// The files and sizes that a JSON text lists, or what the parser says where the text is not an
/// object from names to numbers that fit 64 bits.
pub uninterp spec fn json_sizes(text: Seq<u8>) -> Result<Map<Seq<char>, u64>, Seq<char>>;

/// The map that a list of entries stands for.
pub open spec fn entry_map(entries: Seq<(String, u64)>) -> Map<Seq<char>, u64>
    decreases entries.len(),
{
    if entries.len() == 0 {
        Map::empty()
    } else {
        entry_map(entries.drop_last()).insert(entries.last().0@, entries.last().1)
    }
}

/// Whether no name occurs twice.
pub open spec fn distinct_names(entries: Seq<(String, u64)>) -> bool {
    forall|i: int, j: int|
        0 <= i < j < entries.len() ==> (#[trigger] entries[i]).0@ != (#[trigger] entries[j]).0@
}

/// Calls `serde_json::from_slice` for a map from names to sizes, and hands out the entries in
/// whatever order the hash map walks them, or the text of the error. Trusted: the outcome is that
/// of `json_sizes`, the entries make up its map, and no name comes twice; what comes out, the text
/// of the error too, depends on the bytes alone. Nothing is claimed of the order.
#[verifier::external_body]
fn parse_sizes(text: &[u8]) -> (r: Result<Vec<(String, u64)>, String>)
    ensures
        match r {
            Ok(entries) => distinct_names(entries@) && json_sizes(text@) == Ok::<
                Map<Seq<char>, u64>,
                Seq<char>,
            >(entry_map(entries@)),
            Err(message) => json_sizes(text@) == Err::<Map<Seq<char>, u64>, Seq<char>>(message@),
        },
{
    let sizes: Result<HashMap<String, u64>, serde_json::Error> = serde_json::from_slice(text);
    match sizes {
        Ok(sizes) => Ok(sizes.into_iter().collect()),
        Err(e) => Err(e.to_string()),
    }
}

/// The image files that an image announces, with their sizes.
#[derive(Debug)]
pub struct Metadata {
    entries: Vec<(String, u64)>,
}

impl View for Metadata {
    type V = Map<Seq<char>, u64>;

    closed spec fn view(&self) -> Map<Seq<char>, u64> {
        entry_map(self.entries@)
    }
}

/// A name is listed exactly where some entry carries it.
proof fn lemma_entry_map_dom(entries: Seq<(String, u64)>, name: Seq<char>)
    ensures
        entry_map(entries).dom().contains(name) <==> exists|i: int|
            0 <= i < entries.len() && (#[trigger] entries[i]).0@ == name,
    decreases entries.len(),
{
    if entries.len() > 0 {
        let rest = entries.drop_last();
        lemma_entry_map_dom(rest, name);
        if exists|i: int| 0 <= i < entries.len() && (#[trigger] entries[i]).0@ == name {
            let i = choose|i: int| 0 <= i < entries.len() && (#[trigger] entries[i]).0@ == name;
            if i < rest.len() {
                assert(rest[i].0@ == name);
            }
        }
        if exists|i: int| 0 <= i < rest.len() && (#[trigger] rest[i]).0@ == name {
            let i = choose|i: int| 0 <= i < rest.len() && (#[trigger] rest[i]).0@ == name;
            assert(entries[i].0@ == name);
        }
        if entries.last().0@ == name {
            assert(entries[entries.len() - 1].0@ == name);
        }
    }
}

/// The names of a file list, as plain values.
pub open spec fn name_views(names: Seq<String>) -> Seq<Seq<char>> {
    Seq::new(names.len(), |i: int| names[i]@)
}

impl Metadata {
    /// Whether no file is listed twice.
    #[verifier::type_invariant]
    spec fn listed_once(self) -> bool {
        distinct_names(self.entries@)
    }

    /// The file list that the given entries make up.
    pub fn from_entries(entries: Vec<(String, u64)>) -> (metadata: Metadata)
        requires
            distinct_names(entries@),
        ensures
            metadata@ == entry_map(entries@),
    {
        Metadata { entries }
    }

    /// Reads the file list from its JSON text, or says in words why that is none.
    pub fn parse(text: &[u8]) -> (r: Result<Metadata, String>)
        ensures
            match r {
                Ok(metadata) => json_sizes(text@) == Ok::<Map<Seq<char>, u64>, Seq<char>>(
                    metadata@,
                ),
                Err(message) => json_sizes(text@) == Err::<Map<Seq<char>, u64>, Seq<char>>(
                    message@,
                ),
            },
    {
        match parse_sizes(text) {
            Ok(entries) => Ok(Metadata::from_entries(entries)),
            Err(message) => Err(message),
        }
    }

    /// The names of all files, each once, in no particular order.
    pub fn file_names(&self) -> (names: Vec<String>)
        ensures
            name_views(names@).no_duplicates(),
            name_views(names@).to_set() == self@.dom(),
    {
        proof {
            use_type_invariant(self);
        }
        let mut names: Vec<String> = Vec::new();
        let mut i: usize = 0;
        while i < self.entries.len()
            invariant
                i <= self.entries@.len(),
                names@.len() == i,
                forall|j: int| 0 <= j < i ==> (#[trigger] names@[j])@ == self.entries@[j].0@,
            decreases self.entries@.len() - i,
        {
            names.push(self.entries[i].0.clone());
            i = i + 1;
        }
        proof {
            let views = name_views(names@);
            assert forall|name: Seq<char>|
                views.to_set().contains(name) <==> self@.dom().contains(name) by {
                lemma_entry_map_dom(self.entries@, name);
                if views.contains(name) {
                    let j = choose|j: int| 0 <= j < views.len() && views[j] == name;
                    assert(names@[j]@ == name);
                    assert(self.entries@[j].0@ == name);
                }
                if self@.dom().contains(name) {
                    let j = choose|j: int|
                        0 <= j < self.entries@.len() && (#[trigger] self.entries@[j]).0@ == name;
                    assert(names@[j]@ == name);
                    assert(views[j] == name);
                }
            }
            assert(views.to_set() =~= self@.dom());
            assert forall|a: int, b: int|
                0 <= a < views.len() && 0 <= b < views.len() && a != b implies views[a]
                != views[b] by {
                assert(names@[a]@ == self.entries@[a].0@);
                assert(names@[b]@ == self.entries@[b].0@);
                if a < b {
                    assert(self.entries@[a].0@ != self.entries@[b].0@);
                } else {
                    assert(self.entries@[b].0@ != self.entries@[a].0@);
                }
            }
        }
        names
    }
}

/// A list of files says of every name what its entry says, and lists no other name.
pub proof fn law_every_entry_is_listed(entries: Seq<(String, u64)>, i: int, name: Seq<char>)
    requires
        distinct_names(entries),
    ensures
        0 <= i < entries.len() ==> entry_map(entries).dom().contains(entries[i].0@) && entry_map(
            entries,
        )[entries[i].0@] == entries[i].1,
        (forall|j: int| 0 <= j < entries.len() ==> (#[trigger] entries[j]).0@ != name)
            ==> !entry_map(entries).dom().contains(name),
    decreases entries.len(),
{
    lemma_entry_map_dom(entries, name);
    if 0 <= i < entries.len() {
        let rest = entries.drop_last();
        assert forall|a: int, b: int| 0 <= a < b < rest.len() implies (#[trigger] rest[a]).0@ != (
        #[trigger] rest[b]).0@ by {
            assert(entries[a].0@ != entries[b].0@);
        }
        if i < rest.len() {
            law_every_entry_is_listed(rest, i, name);
            assert(rest[i] == entries[i]);
            assert(entries[i].0@ != entries[entries.len() - 1].0@);
        }
    }
}

/// Names are taken for what they are, in their order.
pub proof fn law_names_are_seen_as_they_are(names: Seq<String>, i: int)
    ensures
        name_views(names).len() == names.len(),
        0 <= i < names.len() ==> name_views(names)[i] == names[i]@,
{
}

} // verus!
