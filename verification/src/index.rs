//! The dedup index: a prefix-sharing set of byte keys.
//!
//! The set itself is `patricia_tree`'s patricia tree keyed by byte strings,
//! which stores keys with common prefixes in shared nodes and answers
//! membership in time proportional to the key's length. This module models
//! its contents as a `Set<Seq<u8>>` and verifies everything around the three
//! calls it makes into that crate.

use vstd::prelude::*;

verus! {

/// The set of byte keys a patricia set holds.
pub uninterp spec fn patricia_contents(s: patricia_tree::PatriciaSet) -> Set<Seq<u8>>;

#[verifier::external_type_specification]
#[verifier::external_body]
#[verifier::reject_recursive_types(T)]
pub struct ExGenericPatriciaSet<T>(patricia_tree::GenericPatriciaSet<T>);

/// Relies on patricia_tree::GenericPatriciaSet::new: makes an empty set.
#[verifier::external_body]
fn patricia_new() -> (s: patricia_tree::PatriciaSet)
    ensures
        patricia_contents(s) == Set::<Seq<u8>>::empty(),
{
    patricia_tree::PatriciaSet::new()
}

/// Relies on patricia_tree::GenericPatriciaSet::contains: true exactly when
/// an equal byte string was inserted earlier.
#[verifier::external_body]
fn patricia_contains(s: &patricia_tree::PatriciaSet, key: &Vec<u8>) -> (r: bool)
    ensures
        r == patricia_contents(*s).contains(key@),
{
    s.contains(key)
}

/// Relies on patricia_tree::GenericPatriciaSet::insert: adds the byte string
/// to the set and reports whether it was new.
#[verifier::external_body]
fn patricia_insert(s: &mut patricia_tree::PatriciaSet, key: &Vec<u8>) -> (r: bool)
    ensures
        patricia_contents(*final(s)) == patricia_contents(*old(s)).insert(key@),
        r == !patricia_contents(*old(s)).contains(key@),
{
    s.insert(key)
}

/// The set of encoded keys seen so far in a run. Membership and insertion
/// cost time proportional to the key's length, not to the number of keys
/// stored; keys sharing a prefix share storage. Keys are never removed.
pub struct DedupIndex {
    set: patricia_tree::PatriciaSet,
}

impl View for DedupIndex {
    type V = Set<Seq<u8>>;

    closed spec fn view(&self) -> Set<Seq<u8>> {
        patricia_contents(self.set)
    }
}

impl DedupIndex {
    /// An empty index: no key has been seen.
    pub fn new() -> (r: Self)
        ensures
            r@ == Set::<Seq<u8>>::empty(),
    {
        DedupIndex { set: patricia_new() }
    }

    /// Whether a logically equal key was previously inserted.
    pub fn contains(&self, key: &Vec<u8>) -> (r: bool)
        ensures
            r == self@.contains(key@),
    {
        patricia_contains(&self.set, key)
    }

    /// Records the key as seen; inserting an existing key changes nothing.
    /// Returns whether the key was new.
    pub fn insert(&mut self, key: &Vec<u8>) -> (r: bool)
        ensures
            final(self)@ == old(self)@.insert(key@),
            r == !old(self)@.contains(key@),
    {
        patricia_insert(&mut self.set, key)
    }
}

} // verus!
