//! The trusted boundary around indexmap's `IndexMap`, which keeps the
//! states and the signature table in insertion order. The entry
//! sequences of the two maps are given names, and each method the
//! library calls gets a wrapper whose contract states what indexmap's
//! source shows over those names.

use vstd::prelude::*;

use crate::signatures::{StateSigView, StateSignature};
use crate::state::{State, StateView};

verus! {

#[verifier::external_type_specification]
#[verifier::external_body]
#[verifier::reject_recursive_types(K)]
#[verifier::reject_recursive_types(V)]
#[verifier::reject_recursive_types(S)]
pub struct ExIndexMap<K, V, S>(indexmap::IndexMap<K, V, S>);

/// The key-value pairs a state map holds, in insertion order.
pub uninterp spec fn state_entries(m: indexmap::IndexMap<String, State>) -> Seq<
    (Seq<char>, StateView),
>;

/// The key-value pairs a signature map holds, in insertion order.
pub uninterp spec fn sig_entries(m: indexmap::IndexMap<String, StateSignature>) -> Seq<
    (Seq<char>, StateSigView),
>;

/// The value of the first entry with the given key, if any.
pub open spec fn find_entry<V>(e: Seq<(Seq<char>, V)>, k: Seq<char>) -> Option<V>
    decreases e.len(),
{
    if e.len() == 0 {
        None
    } else if e[0].0 == k {
        Some(e[0].1)
    } else {
        find_entry(e.skip(1), k)
    }
}

/// Every entry with the given key replaced by the given value.
pub open spec fn map_update<V>(e: Seq<(Seq<char>, V)>, k: Seq<char>, v: V) -> Seq<
    (Seq<char>, V),
> {
    Seq::new(e.len(), |i: int| if e[i].0 == k { (k, v) } else { e[i] })
}

pub proof fn lemma_find_entry_some<V>(e: Seq<(Seq<char>, V)>, k: Seq<char>)
    ensures
        find_entry(e, k).is_some() == exists|i: int| 0 <= i < e.len() && (#[trigger] e[i]).0 == k,
    decreases e.len(),
{
    if e.len() > 0 {
        lemma_find_entry_some(e.skip(1), k);
        if e[0].0 == k {
        } else {
            assert(forall|i: int| 0 <= i < e.skip(1).len() ==> e.skip(1)[i] == #[trigger] e[i + 1]);
            if exists|i: int| 0 <= i < e.len() && (#[trigger] e[i]).0 == k {
                let i = choose|i: int| 0 <= i < e.len() && (#[trigger] e[i]).0 == k;
                assert(i > 0);
                assert(e.skip(1)[i - 1].0 == k);
            }
            if exists|i: int| 0 <= i < e.skip(1).len() && (#[trigger] e.skip(1)[i]).0 == k {
                let i = choose|i: int| 0 <= i < e.skip(1).len() && (#[trigger] e.skip(1)[i]).0 == k;
                assert(e[i + 1].0 == k);
            }
        }
    }
}

/// Relies on indexmap's `IndexMap::new`: the new map is empty.
#[verifier::external_body]
pub fn states_new() -> (r: indexmap::IndexMap<String, State>)
    ensures
        state_entries(r) == Seq::<(Seq<char>, StateView)>::empty(),
{
    indexmap::IndexMap::new()
}

/// Relies on indexmap's `IndexMap::insert`: an existing key keeps its
/// place and has its value replaced; a new key is appended last.
#[verifier::external_body]
pub fn states_insert(m: &mut indexmap::IndexMap<String, State>, k: String, v: State)
    ensures
        state_entries(*final(m)) == (match find_entry(state_entries(*old(m)), k@) {
            Some(_) => map_update(state_entries(*old(m)), k@, v@),
            None => state_entries(*old(m)).push((k@, v@)),
        }),
{
    m.insert(k, v);
}

/// Relies on indexmap's `IndexMap::get`: the value stored for the key,
/// if present.
#[verifier::external_body]
pub fn states_get<'a>(m: &'a indexmap::IndexMap<String, State>, k: &str) -> (r: Option<&'a State>)
    ensures
        match r {
            Some(v) => find_entry(state_entries(*m), k@) == Some(v@),
            None => find_entry(state_entries(*m), k@).is_none(),
        },
{
    m.get(k)
}

/// Relies on indexmap's `IndexMap::len`.
#[verifier::external_body]
pub fn states_len(m: &indexmap::IndexMap<String, State>) -> (r: usize)
    ensures
        r == state_entries(*m).len(),
{
    m.len()
}

/// Relies on indexmap's `IndexMap::contains_key`.
#[verifier::external_body]
pub fn states_contains_key(m: &indexmap::IndexMap<String, State>, k: &str) -> (r: bool)
    ensures
        r == find_entry(state_entries(*m), k@).is_some(),
{
    m.contains_key(k)
}

/// Relies on indexmap's `Keys` iterator: the keys in insertion order.
#[verifier::external_body]
pub fn states_keys(m: &indexmap::IndexMap<String, State>) -> (r: Vec<String>)
    ensures
        r@.len() == state_entries(*m).len(),
        forall|i: int|
            0 <= i < r@.len() ==> r@[i]@ == (#[trigger] state_entries(*m)[i]).0,
{
    m.keys().cloned().collect()
}

/// Relies on indexmap's `Values` iterator: the values in insertion order.
#[verifier::external_body]
pub fn states_values(m: &indexmap::IndexMap<String, State>) -> (r: Vec<State>)
    ensures
        r@.len() == state_entries(*m).len(),
        forall|i: int|
            0 <= i < r@.len() ==> r@[i]@ == (#[trigger] state_entries(*m)[i]).1,
{
    m.values().cloned().collect()
}

/// Relies on indexmap's `IndexMap::new`: the new map is empty.
#[verifier::external_body]
pub fn sigs_new() -> (r: indexmap::IndexMap<String, StateSignature>)
    ensures
        sig_entries(r) == Seq::<(Seq<char>, StateSigView)>::empty(),
{
    indexmap::IndexMap::new()
}

/// Relies on indexmap's `IndexMap::insert`: an existing key keeps its
/// place and has its value replaced; a new key is appended last.
#[verifier::external_body]
pub fn sigs_insert(m: &mut indexmap::IndexMap<String, StateSignature>, k: String, v: StateSignature)
    ensures
        sig_entries(*final(m)) == (match find_entry(sig_entries(*old(m)), k@) {
            Some(_) => map_update(sig_entries(*old(m)), k@, v@),
            None => sig_entries(*old(m)).push((k@, v@)),
        }),
{
    m.insert(k, v);
}

/// Relies on indexmap's `IndexMap::get`.
#[verifier::external_body]
pub fn sigs_get<'a>(
    m: &'a indexmap::IndexMap<String, StateSignature>,
    k: &str,
) -> (r: Option<&'a StateSignature>)
    ensures
        match r {
            Some(v) => find_entry(sig_entries(*m), k@) == Some(v@),
            None => find_entry(sig_entries(*m), k@).is_none(),
        },
{
    m.get(k)
}

/// Relies on indexmap's `IndexMap::len`.
#[verifier::external_body]
pub fn sigs_len(m: &indexmap::IndexMap<String, StateSignature>) -> (r: usize)
    ensures
        r == sig_entries(*m).len(),
{
    m.len()
}

/// Relies on indexmap's `Keys` iterator: the keys in insertion order.
#[verifier::external_body]
pub fn sigs_keys(m: &indexmap::IndexMap<String, StateSignature>) -> (r: Vec<String>)
    ensures
        r@.len() == sig_entries(*m).len(),
        forall|i: int| 0 <= i < r@.len() ==> r@[i]@ == (#[trigger] sig_entries(*m)[i]).0,
{
    m.keys().cloned().collect()
}

} // verus!
