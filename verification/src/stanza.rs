//! The ordered map that holds one stanza, and what is assumed of it.
//!
//! A stanza is an `IndexMap` from field names to values. Its mathematical value is
//! the sequence of its fields in the order of the map, which [`entries`] names.
//! What this module states of `IndexMap` is taken from its documentation and is
//! not proved.

use vstd::prelude::*;
use indexmap::IndexMap;
use crate::scan::{
    first_index, last_index, lemma_first_index, lemma_first_index_push, lemma_last_index,
};
use crate::{Item, ItemView};

verus! {

/// `indexmap::IndexMap`, known to the verifier as a type whose inside it does not
/// see.
#[verifier::external_type_specification]
#[verifier::external_body]
#[verifier::reject_recursive_types(K)]
#[verifier::reject_recursive_types(V)]
#[verifier::reject_recursive_types(S)]
pub struct ExIndexMap<K, V, S>(IndexMap<K, V, S>);

/// The mathematical value of a stanza: its fields, each a name and a value, in order.
pub type Stanza = Seq<(Seq<char>, ItemView)>;

/// The fields that the map holds, in the order in which it holds them. This is a
/// name for what is inside an `IndexMap`: what is known of it is what [`new_map`],
/// [`insert_entry`] and [`list_entries`] state.
pub uninterp spec fn entries(m: IndexMap<String, Item>) -> Seq<(Seq<char>, ItemView)>;

/// The stanzas that a list of maps stands for.
pub open spec fn document(maps: Seq<IndexMap<String, Item>>) -> Seq<Stanza> {
    maps.map_values(|m: IndexMap<String, Item>| entries(m))
}

/// The names of the fields, in order.
pub open spec fn keys(m: Stanza) -> Seq<Seq<char>> {
    m.map_values(|e: (Seq<char>, ItemView)| e.0)
}

/// No name occurs twice.
pub open spec fn distinct_keys(m: Stanza) -> bool {
    forall|i: int, j: int| 0 <= i < j < m.len() ==> (#[trigger] m[i]).0 != (#[trigger] m[j]).0
}

/// The stanza with the field `key` set to `value`: where a field of that name
/// exists, it keeps its place and gets the value; where none exists, the field is
/// added at the end.
pub open spec fn insert(m: Stanza, key: Seq<char>, value: ItemView) -> Stanza {
    let i = first_index(keys(m), key);
    if 0 <= i < m.len() {
        m.update(i, (key, value))
    } else {
        m.push((key, value))
    }
}

/// What a stanza is after the fields are inserted into the empty stanza, one after
/// the other.
pub open spec fn collected(fields: Stanza) -> Stanza
    decreases fields.len(),
{
    if fields.len() == 0 {
        Seq::empty()
    } else {
        insert(collected(fields.drop_last()), fields.last().0, fields.last().1)
    }
}

/// Inserting keeps the names distinct.
pub proof fn lemma_insert_distinct(m: Stanza, key: Seq<char>, value: ItemView)
    requires
        distinct_keys(m),
    ensures
        distinct_keys(insert(m, key, value)),
{
    lemma_first_index(keys(m), key);
    let i = first_index(keys(m), key);
    let after = insert(m, key, value);
    if 0 <= i < m.len() {
        assert(keys(m)[i] == m[i].0);
        assert forall|a: int, b: int| 0 <= a < b < after.len() implies (#[trigger] after[a]).0 != (
        #[trigger] after[b]).0 by {
            assert(after[a].0 == m[a].0);
            assert(after[b].0 == m[b].0);
        }
    } else {
        assert forall|a: int, b: int| 0 <= a < b < after.len() implies (#[trigger] after[a]).0 != (
        #[trigger] after[b]).0 by {
            if b == m.len() {
                assert(keys(m)[a] == m[a].0);
            } else {
                assert(after[a] == m[a]);
                assert(after[b] == m[b]);
            }
        }
    }
}

/// The order of a stanza. The stanza that the fields give when they are inserted
/// one after the other holds each of their names once, in the order in which the
/// names first occur, and with each name the value of its last occurrence.
pub proof fn law_insertion_order(fields: Stanza)
    ensures
        distinct_keys(collected(fields)),
        forall|i: int|
            0 <= i < collected(fields).len() ==> {
                let name = (#[trigger] collected(fields)[i]).0;
                &&& 0 <= last_index(keys(fields), name) < fields.len()
                &&& collected(fields)[i].1 == fields[last_index(keys(fields), name)].1
            },
        forall|j: int|
            0 <= j < fields.len() ==> keys(collected(fields)).contains((#[trigger] fields[j]).0),
        forall|a: int, b: int|
            0 <= a < b < collected(fields).len() ==> first_index(
                keys(fields),
                (#[trigger] collected(fields)[a]).0,
            ) < first_index(keys(fields), (#[trigger] collected(fields)[b]).0),
    decreases fields.len(),
{
    if fields.len() > 0 {
        let front = fields.drop_last();
        let key = fields.last().0;
        let value = fields.last().1;
        let before = collected(front);
        let m = collected(fields);
        let names = keys(fields);
        let earlier = keys(front);
        law_insertion_order(front);
        lemma_insert_distinct(before, key, value);
        lemma_first_index(keys(before), key);
        let at = first_index(keys(before), key);
        assert(names =~= earlier.push(key));
        assert(names.drop_last() =~= earlier);
        // whether the name stood among the earlier fields
        if earlier.contains(key) {
            let j = choose|j: int| 0 <= j < earlier.len() && earlier[j] == key;
            assert(front[j].0 == key);
            assert(keys(before).contains(key));
        }
        if at < before.len() {
            assert(keys(before)[at] == before[at].0);
            lemma_last_index(earlier, key);
            assert(0 <= last_index(earlier, before[at].0));
        }
        assert(at < before.len() <==> earlier.contains(key));
        assert forall|i: int| 0 <= i < m.len() implies {
            let name = (#[trigger] m[i]).0;
            &&& 0 <= last_index(names, name) < fields.len()
            &&& m[i].1 == fields[last_index(names, name)].1
        } by {
            let name = m[i].0;
            if name == key {
                assert(m[i] == (key, value)) by {
                    if at < before.len() {
                        if i < at {
                            assert(before[i].0 != before[at].0);
                        } else if at < i {
                            assert(before[at].0 != before[i].0);
                        }
                    } else if i < before.len() {
                        assert(keys(before)[i] == before[i].0);
                    }
                }
            } else {
                assert(m[i] == before[i]);
                assert(fields[last_index(earlier, name)] == front[last_index(earlier, name)]);
            }
        }
        assert forall|j: int| 0 <= j < fields.len() implies keys(m).contains(
            (#[trigger] fields[j]).0,
        ) by {
            let name = fields[j].0;
            if name == key {
                let p = if at < before.len() {
                    at
                } else {
                    before.len() as int
                };
                assert(keys(m)[p] == m[p].0);
            } else {
                assert(fields[j] == front[j]);
                let p = choose|p: int| 0 <= p < keys(before).len() && keys(before)[p] == name;
                assert(m[p] == before[p]);
                assert(keys(m)[p] == m[p].0);
            }
        }
        assert forall|a: int, b: int| 0 <= a < b < m.len() implies first_index(
            names,
            (#[trigger] m[a]).0,
        ) < first_index(names, (#[trigger] m[b]).0) by {
            lemma_first_index_push(earlier, key, m[a].0);
            lemma_first_index_push(earlier, key, m[b].0);
            lemma_first_index(earlier, m[a].0);
            lemma_first_index(earlier, m[b].0);
            assert(m[a].0 == before[a].0);
            lemma_last_index(earlier, before[a].0);
            if b < before.len() {
                assert(m[b].0 == before[b].0);
                lemma_last_index(earlier, before[b].0);
            }
        }
    }
}

/// `IndexMap::new`: a map that holds nothing.
#[verifier::external_body]
pub(crate) fn new_map() -> (m: IndexMap<String, Item>)
    ensures
        entries(m) == Seq::<(Seq<char>, ItemView)>::empty(),
{
    IndexMap::new()
}

/// `IndexMap::insert`: where the map holds the key, the entry keeps its place and
/// gets the new value; where it does not, the entry is added last in order.
#[verifier::external_body]
pub(crate) fn insert_entry(m: &mut IndexMap<String, Item>, key: String, value: Item)
    ensures
        entries(*final(m)) == insert(entries(*old(m)), key@, value@),
{
    m.insert(key, value);
}

/// `IndexMap::iter`: the entries of the map, in its order.
#[verifier::external_body]
pub(crate) fn list_entries(m: &IndexMap<String, Item>) -> (r: Vec<(&String, &Item)>)
    ensures
        r@.len() == entries(*m).len(),
        forall|i: int|
            0 <= i < r@.len() ==> (#[trigger] r@[i]).0@ == entries(*m)[i].0 && r@[i].1@ == entries(
                *m,
            )[i].1,
{
    m.iter().collect()
}

} // verus!
