//! Breaking and placing blocks where the player looks.

use crate::terrain::block::{BlockId, BLOCK_AIR_ID, BLOCK_DIRT_ID, BLOCK_GRASS_ID, BLOCK_LAMP_ORANGE_ID, BLOCK_WOOD_ID};
use crate::terrain::position_types::GlobalBlockPosition;
use crate::util::vector::IVec3;
use vstd::prelude::*;

verus! {

/// What the player asked for this frame: to break the block looked at, and to place
/// dirt, grass, wood or a lamp against it.
#[derive(Clone, Copy, Debug, PartialEq, Eq, Structural)]
pub struct EditRequest {
    pub destroy: bool,
    pub place_dirt: bool,
    pub place_grass: bool,
    pub place_wood: bool,
    pub place_lamp: bool,
}

/// The block next to `pos` across the face with normal `normal`.
pub open spec fn beside(pos: GlobalBlockPosition, normal: IVec3) -> GlobalBlockPosition {
    GlobalBlockPosition(
        IVec3 { x: (pos.0.x + normal.x) as i32, y: (pos.0.y + normal.y) as i32, z: (pos.0.z + normal.z) as i32 },
    )
}

/// The placement of `id` next to the hit block, if asked for and the hit face is known.
pub open spec fn placement(asked: bool, hit_pos: GlobalBlockPosition, hit_normal: Option<IVec3>, id: u16) -> Seq<
    (GlobalBlockPosition, BlockId),
> {
    if asked && hit_normal is Some {
        seq![(beside(hit_pos, hit_normal->0), BlockId(id))]
    } else {
        Seq::empty()
    }
}

/// The block changes asked for, in the order they are made: breaking the hit block,
/// then placing dirt, grass, wood and a lamp against the hit face.
pub open spec fn edits_spec(request: EditRequest, hit_pos: GlobalBlockPosition, hit_normal: Option<IVec3>) -> Seq<
    (GlobalBlockPosition, BlockId),
> {
    (if request.destroy {
        seq![(hit_pos, BlockId(BLOCK_AIR_ID))]
    } else {
        Seq::empty()
    }) + placement(request.place_dirt, hit_pos, hit_normal, BLOCK_DIRT_ID) + placement(
        request.place_grass,
        hit_pos,
        hit_normal,
        BLOCK_GRASS_ID,
    ) + placement(request.place_wood, hit_pos, hit_normal, BLOCK_WOOD_ID) + placement(
        request.place_lamp,
        hit_pos,
        hit_normal,
        BLOCK_LAMP_ORANGE_ID,
    )
}

/// The block next to the hit block fits in the world's coordinates.
pub open spec fn beside_fits(hit_pos: GlobalBlockPosition, hit_normal: Option<IVec3>) -> bool {
    match hit_normal {
        Some(n) => {
            &&& i32::MIN <= hit_pos.0.x + n.x <= i32::MAX
            &&& i32::MIN <= hit_pos.0.y + n.y <= i32::MAX
            &&& i32::MIN <= hit_pos.0.z + n.z <= i32::MAX
        },
        None => true,
    }
}

/// The block changes to make for `request`, given the block hit by the player's view
/// ray and the normal of the face hit, if known: air at the hit block if breaking, then
/// each block asked for placed against the hit face
pub fn block_edits(request: EditRequest, hit_pos: GlobalBlockPosition, hit_normal: Option<IVec3>) -> (r: Vec<
    (GlobalBlockPosition, BlockId),
>)
    requires
        beside_fits(hit_pos, hit_normal),
    ensures
        r@ == edits_spec(request, hit_pos, hit_normal),
{
    let mut edits: Vec<(GlobalBlockPosition, BlockId)> = Vec::new();
    if request.destroy {
        edits.push((hit_pos, BlockId(BLOCK_AIR_ID)));
    }
    let ghost after_destroy = edits@;
    let places = [
        (request.place_dirt, BLOCK_DIRT_ID),
        (request.place_grass, BLOCK_GRASS_ID),
        (request.place_wood, BLOCK_WOOD_ID),
        (request.place_lamp, BLOCK_LAMP_ORANGE_ID),
    ];
    let mut k: usize = 0;
    while k < 4
        invariant
            k <= 4,
            beside_fits(hit_pos, hit_normal),
            places@ == seq![
                (request.place_dirt, BLOCK_DIRT_ID),
                (request.place_grass, BLOCK_GRASS_ID),
                (request.place_wood, BLOCK_WOOD_ID),
                (request.place_lamp, BLOCK_LAMP_ORANGE_ID),
            ],
            edits@ == after_destroy + placements_prefix(places@, hit_pos, hit_normal, k as int),
        decreases 4 - k,
    {
        let (asked, id) = places[k];
        if asked {
            match hit_normal {
                Some(n) => {
                    let pos = GlobalBlockPosition(
                        IVec3 { x: hit_pos.0.x + n.x, y: hit_pos.0.y + n.y, z: hit_pos.0.z + n.z },
                    );
                    edits.push((pos, BlockId(id)));
                },
                None => {},
            }
        }
        proof {
            assert(placements_prefix(places@, hit_pos, hit_normal, k as int + 1) == placements_prefix(
                places@,
                hit_pos,
                hit_normal,
                k as int,
            ) + placement(places@[k as int].0, hit_pos, hit_normal, places@[k as int].1));
        }
        k = k + 1;
    }
    proof {
        reveal_with_fuel(placements_prefix, 5);
        assert(placements_prefix(places@, hit_pos, hit_normal, 4) == placement(request.place_dirt, hit_pos, hit_normal, BLOCK_DIRT_ID)
            + placement(request.place_grass, hit_pos, hit_normal, BLOCK_GRASS_ID) + placement(
            request.place_wood,
            hit_pos,
            hit_normal,
            BLOCK_WOOD_ID,
        ) + placement(request.place_lamp, hit_pos, hit_normal, BLOCK_LAMP_ORANGE_ID));
    }
    edits
}

/// The placements for the first `k` entries of `places`.
pub open spec fn placements_prefix(
    places: Seq<(bool, u16)>,
    hit_pos: GlobalBlockPosition,
    hit_normal: Option<IVec3>,
    k: int,
) -> Seq<(GlobalBlockPosition, BlockId)>
    decreases k,
{
    if k <= 0 {
        Seq::empty()
    } else {
        placements_prefix(places, hit_pos, hit_normal, k - 1) + placement(places[k - 1].0, hit_pos, hit_normal, places[k - 1].1)
    }
}

} // verus!
