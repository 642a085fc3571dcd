//! The loaded chunks, kept in a `generational_arena::Arena` under the index each was
//! given when it was stored.

use crate::terrain::chunk::Chunk;
use generational_arena::{Arena, Index};
use vstd::prelude::*;

verus! {

/// `generational_arena::Arena`, carried opaquely.
#[verifier::external_type_specification]
#[verifier::external_body]
#[verifier::reject_recursive_types(T)]
pub struct ExArena<T>(Arena<T>);

/// Where an arena keeps a chunk: its slot, and the generation of the arena when the
/// chunk was stored there (the raw parts of a `generational_arena::Index`).
#[derive(Clone, Copy, Debug, PartialEq, Eq, Hash, Structural)]
pub struct ChunkIndex {
    pub slot: usize,
    pub generation: u64,
}

/// The chunks an arena holds, by the index each is stored under.
pub uninterp spec fn arena_chunks(arena: Arena<Chunk>) -> Map<ChunkIndex, Chunk>;

/// An empty arena (`Arena::new`).
#[verifier::external_body]
pub(crate) fn arena_new() -> (r: Arena<Chunk>)
    ensures
        arena_chunks(r).dom().is_empty(),
{
    Arena::new()
}

/// Stores `chunk` in `arena` (`Arena::insert`, then `Index::into_raw_parts`) and returns
/// its index: a free slot, tagged with the arena's current generation, so no chunk the
/// arena holds is stored under it. Nothing is stated of which slot is taken; the call
/// panics only where the arena's slot vector cannot grow.
#[verifier::external_body]
pub(crate) fn arena_insert(arena: &mut Arena<Chunk>, chunk: Chunk) -> (r: ChunkIndex)
    ensures
        !arena_chunks(*old(arena)).contains_key(r),
        arena_chunks(*final(arena)) == arena_chunks(*old(arena)).insert(r, chunk),
{
    let (slot, generation) = arena.insert(chunk).into_raw_parts();
    ChunkIndex { slot, generation }
}

/// The chunk stored under `i` (`Arena::get`), if any.
#[verifier::external_body]
pub(crate) fn arena_get(arena: &Arena<Chunk>, i: ChunkIndex) -> (r: Option<&Chunk>)
    ensures
        match r {
            Some(c) => arena_chunks(*arena).contains_key(i) && *c == arena_chunks(*arena)[i],
            None => !arena_chunks(*arena).contains_key(i),
        },
{
    arena.get(Index::from_raw_parts(i.slot, i.generation))
}

/// True if a chunk is stored under `i` (`Arena::contains`).
#[verifier::external_body]
pub(crate) fn arena_contains(arena: &Arena<Chunk>, i: ChunkIndex) -> (r: bool)
    ensures
        r == arena_chunks(*arena).contains_key(i),
{
    arena.contains(Index::from_raw_parts(i.slot, i.generation))
}

/// The chunk stored under `i`, to be changed in place (`IndexMut` of `Arena`, which
/// panics where no chunk is stored under `i`).
#[verifier::external_body]
pub(crate) fn arena_get_mut(arena: &mut Arena<Chunk>, i: ChunkIndex) -> (r: &mut Chunk)
    requires
        arena_chunks(*old(arena)).contains_key(i),
    ensures
        *r == arena_chunks(*old(arena))[i],
        arena_chunks(*final(arena)) == arena_chunks(*old(arena)).insert(i, *final(r)),
{
    &mut arena[Index::from_raw_parts(i.slot, i.generation)]
}

/// Takes the chunk stored under `i` out of `arena` (`Arena::remove`), if any. Removing
/// moves the arena on to its next generation, an addition that overflows only after
/// 2^64 removals; that bound is not stated.
#[verifier::external_body]
pub(crate) fn arena_remove(arena: &mut Arena<Chunk>, i: ChunkIndex) -> (r: Option<Chunk>)
    ensures
        match r {
            Some(c) => arena_chunks(*old(arena)).contains_key(i) && c == arena_chunks(*old(arena))[i],
            None => !arena_chunks(*old(arena)).contains_key(i),
        },
        arena_chunks(*final(arena)) == arena_chunks(*old(arena)).remove(i),
{
    arena.remove(Index::from_raw_parts(i.slot, i.generation))
}

} // verus!
