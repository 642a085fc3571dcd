//! A set of integers backed by `rustc_hash::FxHashSet`.

use rustc_hash::{FxBuildHasher, FxHashSet};
use vstd::prelude::*;

verus! {

/// The hasher of `FxHashSet` (`rustc_hash::FxBuildHasher`), carried opaquely.
#[verifier::external_type_specification]
#[verifier::external_body]
pub struct ExFxBuildHasher(FxBuildHasher);

/// A set of `u64` values held in an `FxHashSet`.
pub struct FxSet {
    set: FxHashSet<u64>,
}

/// The values held by an `FxSet`.
pub closed spec fn fx_set_contents(s: FxSet) -> Set<u64> {
    s.set@
}

/// Adds `value` to `set` (`HashSet::insert`), returning true if it was not already
/// present.
#[verifier::external_body]
fn hash_set_insert(set: &mut FxHashSet<u64>, value: u64) -> (r: bool)
    ensures
        final(set)@ == old(set)@.insert(value),
        r == !old(set)@.contains(value),
{
    set.insert(value)
}

/// Removes `value` from `set` (`HashSet::remove`), returning true if it was present.
#[verifier::external_body]
fn hash_set_remove(set: &mut FxHashSet<u64>, value: u64) -> (r: bool)
    ensures
        final(set)@ == old(set)@.remove(value),
        r == old(set)@.contains(value),
{
    set.remove(&value)
}

/// True if `value` is in `set` (`HashSet::contains`).
#[verifier::external_body]
fn hash_set_contains(set: &FxHashSet<u64>, value: u64) -> (r: bool)
    ensures
        r == set@.contains(value),
{
    set.contains(&value)
}

/// A set with the same values (`HashSet::clone`).
#[verifier::external_body]
fn hash_set_clone(set: &FxHashSet<u64>) -> (r: FxHashSet<u64>)
    ensures
        r@ == set@,
{
    set.clone()
}

impl FxSet {
    /// An empty set.
    pub fn new() -> (r: FxSet)
        ensures
            fx_set_contents(r) == Set::<u64>::empty(),
    {
        FxSet { set: FxHashSet::default() }
    }

    /// Adds `value`, returning true if it was not already present.
    pub fn insert(&mut self, value: u64) -> (r: bool)
        ensures
            fx_set_contents(*final(self)) == fx_set_contents(*old(self)).insert(value),
            r == !fx_set_contents(*old(self)).contains(value),
    {
        hash_set_insert(&mut self.set, value)
    }

    /// Removes `value` if present, returning true if it was.
    pub fn remove(&mut self, value: u64) -> (r: bool)
        ensures
            fx_set_contents(*final(self)) == fx_set_contents(*old(self)).remove(value),
            r == fx_set_contents(*old(self)).contains(value),
    {
        hash_set_remove(&mut self.set, value)
    }

    /// True if `value` is present.
    pub fn contains(&self, value: u64) -> (r: bool)
        ensures
            r == fx_set_contents(*self).contains(value),
    {
        hash_set_contains(&self.set, value)
    }

    /// A set with the same values.
    pub fn duplicate(&self) -> (r: FxSet)
        ensures
            fx_set_contents(r) == fx_set_contents(*self),
    {
        FxSet { set: hash_set_clone(&self.set) }
    }
}

} // verus!
