//! Objects on the map (buildings and abilities), the tiles each one affects,
//! and the index from a tile to the objects that affect it.

use vstd::prelude::*;
use crate::grid::{in_bounds, TileGrid, TilePos, TileState};
use crate::tile_lists::{without, TileLists};
use crate::pathfinding::{line_listing, line_reach, simple_reach, is_reach_listing};

verus! {

broadcast use vstd::seq_lib::group_seq_properties;

/// The identity of an object placed on the map.
#[derive(Clone, Copy, PartialEq, Eq, Structural, Debug, Hash)]
pub struct ObjectId {
    pub id: usize,
}

/// The tiles an object affects, nearest first.
pub struct ObjectCachedMap {
    pub cache: Vec<TilePos>,
}

/// The tiles of a reach listing, in the listing's order.
pub open spec fn listing_tiles(listing: Seq<(TilePos, u32)>) -> Seq<TilePos> {
    listing.map_values(|e: (TilePos, u32)| e.0)
}

impl ObjectCachedMap {
    /// The cache of an object whose reach is `listing` (nearest first).
    pub fn from_listing(listing: &Vec<(TilePos, u32)>) -> (m: ObjectCachedMap)
        ensures
            m.cache@ == listing_tiles(listing@),
    {
        let mut cache: Vec<TilePos> = Vec::new();
        let mut i: usize = 0;
        while i < listing.len()
            invariant
                i <= listing@.len(),
                cache@ == listing_tiles(listing@.subrange(0, i as int)),
            decreases listing@.len() - i,
        {
            cache.push(listing[i].0);
            i = i + 1;
            assert(listing_tiles(listing@.subrange(0, i as int)) =~= listing_tiles(
                listing@.subrange(0, i - 1),
            ).push(listing@[i - 1].0));
        }
        assert(listing@.subrange(0, i as int) =~= listing@);
        ObjectCachedMap { cache }
    }
}

/// For each tile, the objects that can affect it, in the order they were
/// added.
pub type TileToObjectIndex = TileLists<ObjectId>;

/// How many times tile `q` occurs in `s`.
pub open spec fn occurrences(s: Seq<TilePos>, q: TilePos) -> nat
    decreases s.len(),
{
    if s.len() == 0 {
        0
    } else {
        occurrences(s.drop_last(), q) + if s.last() == q { 1nat } else { 0nat }
    }
}

/// `id` repeated `n` times.
pub open spec fn repeated(id: ObjectId, n: nat) -> Seq<ObjectId> {
    Seq::new(n, |_i: int| id)
}

/// `s` without any occurrence of `id` when `present`, else `s` itself.
pub open spec fn without_if(s: Seq<ObjectId>, id: ObjectId, present: bool) -> Seq<ObjectId> {
    if present {
        without(s, id)
    } else {
        s
    }
}

/// Removing an object twice is removing it once, and no occurrence is left.
pub proof fn lemma_without_idempotent(s: Seq<ObjectId>, id: ObjectId)
    ensures
        without(without(s, id), id) == without(s, id),
        !without(s, id).contains(id),
    decreases s.len(),
{
    if s.len() > 0 {
        lemma_without_idempotent(s.drop_last(), id);
        let rest = without(s.drop_last(), id);
        if s.last() != id {
            assert(rest.push(s.last()).drop_last() =~= rest);
            assert(!rest.push(s.last()).contains(id)) by {
                assert forall|i: int| 0 <= i < rest.push(s.last()).len() implies rest.push(s.last())[i] != id by {
                    if i < rest.len() {
                        assert(rest.push(s.last())[i] == rest[i]);
                    }
                }
            }
        }
    }
}

/// Removing `id` from a list that holds no `id` followed by `n` copies of
/// `id` gives back the list.
proof fn lemma_without_appended(s: Seq<ObjectId>, id: ObjectId, n: nat)
    requires
        !s.contains(id),
    ensures
        without(s + repeated(id, n), id) == s,
    decreases s.len() + n,
{
    if n > 0 {
        let t = s + repeated(id, n);
        assert(t.drop_last() =~= s + repeated(id, (n - 1) as nat));
        lemma_without_appended(s, id, (n - 1) as nat);
    } else {
        assert(s + repeated(id, 0) =~= s);
        if s.len() > 0 {
            assert(!s.drop_last().contains(id)) by {
                if s.drop_last().contains(id) {
                    let k = choose|k: int| 0 <= k < s.drop_last().len() && s.drop_last()[k] == id;
                    assert(s[k] == id);
                }
            }
            assert(s.last() != id) by {
                assert(s[s.len() - 1] == s.last());
            }
            lemma_without_appended(s.drop_last(), id, 0);
            assert(s.drop_last() + repeated(id, 0) =~= s.drop_last());
            assert(s.drop_last().push(s.last()) =~= s);
        }
    }
}

/// A tile occurs in a list exactly when it occurs at least once.
proof fn lemma_occurrences_contains(s: Seq<TilePos>, q: TilePos)
    ensures
        (occurrences(s, q) > 0) == s.contains(q),
    decreases s.len(),
{
    if s.len() > 0 {
        lemma_occurrences_contains(s.drop_last(), q);
        if s.drop_last().contains(q) {
            let k = choose|k: int| 0 <= k < s.drop_last().len() && s.drop_last()[k] == q;
            assert(s[k] == q);
        }
        if s.contains(q) && s.last() != q {
            let k = choose|k: int| 0 <= k < s.len() && s[k] == q;
            assert(k != s.len() - 1);
            assert(s.drop_last()[k] == q);
        }
        if s.last() == q {
            assert(s[s.len() - 1] == q);
        }
    }
}

/// Removing an object from the index undoes adding it with the same reach:
/// on every tile where the object was not yet recorded, the list after
/// `add_to_index` and then `remove_from_index` is the list before.
pub proof fn lemma_index_add_remove(index: TileToObjectIndex, id: ObjectId, listing: Seq<(TilePos, u32)>, q: TilePos)
    requires
        !index.spec_at(q).contains(id),
    ensures
        without_if(
            index.spec_at(q) + repeated(id, occurrences(listing_tiles(listing), q)),
            id,
            listing_tiles(listing).contains(q),
        ) == index.spec_at(q),
{
    lemma_occurrences_contains(listing_tiles(listing), q);
    if listing_tiles(listing).contains(q) {
        lemma_without_appended(index.spec_at(q), id, occurrences(listing_tiles(listing), q));
    } else {
        assert(index.spec_at(q) + repeated(id, 0) =~= index.spec_at(q));
    }
}

/// The shape of what a building reaches.
#[derive(Clone, Copy, PartialEq, Eq, Structural, Debug, Hash)]
pub enum ReachShape {
    /// Every tile within the strength, walking through colourable tiles.
    Spread,
    /// Four straight arms of colourable tiles.
    Line,
}

/// The reach listing of an object of the given shape standing on `start`.
pub open spec fn shape_listing_ok(
    g: TileGrid,
    start: TilePos,
    strength: u32,
    shape: ReachShape,
    listing: Seq<(TilePos, u32)>,
) -> bool {
    match shape {
        ReachShape::Spread => is_reach_listing(g, start, strength as nat, listing) && listing.len() > 0
            && listing[0] == (start, 0u32),
        ReachShape::Line => listing == line_listing(g, start, strength as nat),
    }
}

/// The tiles an object of the given shape and strength standing on `start`
/// reaches, each with its distance, nearest first.
pub fn object_reach(grid: &TileGrid, start: TilePos, strength: u32, shape: ReachShape) -> (listing: Vec<(TilePos, u32)>)
    requires
        grid.wf(),
        in_bounds(start, grid.spec_size()),
    ensures
        shape_listing_ok(*grid, start, strength, shape, listing@),
{
    match shape {
        ReachShape::Spread => simple_reach(grid, start, strength),
        ReachShape::Line => line_reach(grid, start, strength),
    }
}

/// Records that object `id` affects every tile of `listing`, once per listing
/// entry.
pub fn add_to_index(index: &mut TileToObjectIndex, id: ObjectId, listing: &Vec<(TilePos, u32)>)
    requires
        old(index).wf(),
    ensures
        final(index).wf(),
        forall|q: TilePos| #[trigger] final(index).spec_at(q) == old(index).spec_at(q) + repeated(
            id,
            occurrences(listing_tiles(listing@), q),
        ),
{
    let mut i: usize = 0;
    while i < listing.len()
        invariant
            index.wf(),
            i <= listing@.len(),
            forall|q: TilePos| #[trigger] index.spec_at(q) == old(index).spec_at(q) + repeated(
                id,
                occurrences(listing_tiles(listing@.subrange(0, i as int)), q),
            ),
        decreases listing@.len() - i,
    {
        let p = listing[i].0;
        let ghost before = *index;
        index.add(p, id);
        proof {
            let pre = listing_tiles(listing@.subrange(0, i as int));
            let post = listing_tiles(listing@.subrange(0, i + 1));
            assert(post.drop_last() =~= pre);
            assert(post.last() == p);
            assert forall|q: TilePos| #[trigger] index.spec_at(q) == old(index).spec_at(q) + repeated(
                id,
                occurrences(post, q),
            ) by {
                if q == p {
                    assert(old(index).spec_at(q) + repeated(id, occurrences(post, q)) =~= (old(index).spec_at(q)
                        + repeated(id, occurrences(pre, q))).push(id));
                } else {
                    assert(before.spec_at(q) == index.spec_at(q));
                }
            }
        }
        i = i + 1;
    }
    assert(listing@.subrange(0, i as int) =~= listing@);
}

/// Forgets object `id` on every tile of `listing`.
pub fn remove_from_index(index: &mut TileToObjectIndex, id: ObjectId, listing: &Vec<(TilePos, u32)>)
    requires
        old(index).wf(),
    ensures
        final(index).wf(),
        forall|q: TilePos| #[trigger] final(index).spec_at(q) == without_if(
            old(index).spec_at(q),
            id,
            listing_tiles(listing@).contains(q),
        ),
{
    let mut i: usize = 0;
    while i < listing.len()
        invariant
            index.wf(),
            i <= listing@.len(),
            forall|q: TilePos| #[trigger] index.spec_at(q) == without_if(
                old(index).spec_at(q),
                id,
                listing_tiles(listing@.subrange(0, i as int)).contains(q),
            ),
        decreases listing@.len() - i,
    {
        let p = listing[i].0;
        let ghost before = *index;
        index.remove(p, id);
        proof {
            let pre = listing_tiles(listing@.subrange(0, i as int));
            let post = listing_tiles(listing@.subrange(0, i + 1));
            assert(post =~= pre.push(p));
            assert forall|q: TilePos| #[trigger] index.spec_at(q) == without_if(
                old(index).spec_at(q),
                id,
                post.contains(q),
            ) by {
                if q == p {
                    assert(post.contains(q)) by {
                        assert(post[post.len() - 1] == q);
                    }
                    lemma_without_idempotent(old(index).spec_at(q), id);
                } else {
                    assert(post.contains(q) == pre.contains(q)) by {
                        if post.contains(q) {
                            let k = choose|k: int| 0 <= k < post.len() && post[k] == q;
                            assert(pre[k] == q);
                        }
                        if pre.contains(q) {
                            let k = choose|k: int| 0 <= k < pre.len() && pre[k] == q;
                            assert(post[k] == q);
                        }
                    }
                }
            }
        }
        i = i + 1;
    }
    assert(listing@.subrange(0, i as int) =~= listing@);
}

/// Works out what a newly placed object reaches, records it in the index, and
/// returns the cache the object keeps.
pub fn cache_object(
    grid: &TileGrid,
    index: &mut TileToObjectIndex,
    id: ObjectId,
    start: TilePos,
    strength: u32,
    shape: ReachShape,
) -> (cache: ObjectCachedMap)
    requires
        grid.wf(),
        old(index).wf(),
        in_bounds(start, grid.spec_size()),
    ensures
        final(index).wf(),
        exists|listing: Seq<(TilePos, u32)>|
            shape_listing_ok(*grid, start, strength, shape, listing) && cache.cache@ == listing_tiles(listing)
                && forall|q: TilePos| #[trigger] final(index).spec_at(q) == old(index).spec_at(q)
                    + repeated(id, occurrences(listing_tiles(listing), q)),
{
    let listing = object_reach(grid, start, strength, shape);
    add_to_index(index, id, &listing);
    ObjectCachedMap::from_listing(&listing)
}

/// Forgets a removed object in the index, on every tile it reaches.
pub fn uncache_object(
    grid: &TileGrid,
    index: &mut TileToObjectIndex,
    id: ObjectId,
    start: TilePos,
    strength: u32,
    shape: ReachShape,
)
    requires
        grid.wf(),
        old(index).wf(),
        in_bounds(start, grid.spec_size()),
    ensures
        final(index).wf(),
        exists|listing: Seq<(TilePos, u32)>|
            shape_listing_ok(*grid, start, strength, shape, listing) && forall|q: TilePos|
                #[trigger] final(index).spec_at(q) == without_if(
                    old(index).spec_at(q),
                    id,
                    listing_tiles(listing).contains(q),
                ),
{
    let listing = object_reach(grid, start, strength, shape);
    remove_from_index(index, id, &listing);
}

/// An object standing on the map: its identity, its player and its tile.
#[derive(Clone, Copy, PartialEq, Eq, Structural, Debug, Hash)]
pub struct PlacedObject {
    pub id: ObjectId,
    pub player: usize,
    pub tile_pos: TilePos,
}

/// A building is lost when another player holds the tile it stands on.
pub open spec fn building_lost(g: TileGrid, b: PlacedObject) -> bool {
    match g.spec_tile(b.tile_pos) {
        Some(t) => match t.claim {
            Some(c) => c.player != b.player,
            None => false,
        },
        None => false,
    }
}

/// The identities of the lost buildings among `buildings`, in order.
pub open spec fn lost_buildings(g: TileGrid, buildings: Seq<PlacedObject>) -> Seq<ObjectId>
    decreases buildings.len(),
{
    if buildings.len() == 0 {
        Seq::empty()
    } else {
        let prev = lost_buildings(g, buildings.drop_last());
        if building_lost(g, buildings.last()) {
            prev.push(buildings.last().id)
        } else {
            prev
        }
    }
}

/// The buildings to remove: those standing on a tile another player holds.
/// A building on a tile nobody holds stays.
pub fn destroy_buildings(grid: &TileGrid, buildings: &Vec<PlacedObject>) -> (out: Vec<ObjectId>)
    requires
        grid.wf(),
        forall|i: int| 0 <= i < buildings@.len() ==> #[trigger] grid.spec_tile(buildings@[i].tile_pos) is Some,
    ensures
        out@ == lost_buildings(*grid, buildings@),
{
    let mut out: Vec<ObjectId> = Vec::new();
    let mut i: usize = 0;
    while i < buildings.len()
        invariant
            grid.wf(),
            i <= buildings@.len(),
            out@ == lost_buildings(*grid, buildings@.take(i as int)),
        decreases buildings@.len() - i,
    {
        let b = buildings[i];
        proof {
            let s = buildings@.take(i + 1);
            assert(s.drop_last() =~= buildings@.take(i as int));
            assert(s.last() == b);
        }
        match grid.get(b.tile_pos) {
            Some(t) => match t.claim {
                Some(c) => {
                    if c.player != b.player {
                        out.push(b.id);
                    }
                },
                None => {},
            },
            None => {},
        }
        i = i + 1;
    }
    assert(buildings@.take(buildings@.len() as int) =~= buildings@);
    out
}

/// Removes the abilities that have run out: each frees its tile for another
/// ability. Returns their identities, in order.
pub fn destroy_abilities(grid: &mut TileGrid, abilities: &Vec<PlacedObject>) -> (out: Vec<ObjectId>)
    requires
        old(grid).wf(),
        forall|i: int| 0 <= i < abilities@.len() ==> #[trigger] old(grid).spec_tile(abilities@[i].tile_pos) is Some,
    ensures
        final(grid).wf(),
        final(grid).spec_size() == old(grid).spec_size(),
        out@ == abilities@.map_values(|a: PlacedObject| a.id),
        forall|p: TilePos| #[trigger] final(grid).spec_tile(p) == if exists|i: int|
            0 <= i < abilities@.len() && #[trigger] abilities@[i].tile_pos == p {
            match old(grid).spec_tile(p) {
                Some(t) => Some(TileState { has_ability: false, ..t }),
                None => None::<TileState>,
            }
        } else {
            old(grid).spec_tile(p)
        },
{
    let ghost start = *grid;
    let mut out: Vec<ObjectId> = Vec::new();
    let mut i: usize = 0;
    while i < abilities.len()
        invariant
            grid.wf(),
            grid.spec_size() == start.spec_size(),
            i <= abilities@.len(),
            forall|k: int| 0 <= k < abilities@.len() ==> #[trigger] start.spec_tile(abilities@[k].tile_pos) is Some,
            out@ == abilities@.take(i as int).map_values(|a: PlacedObject| a.id),
            forall|p: TilePos| #[trigger] grid.spec_tile(p) == if exists|k: int|
                0 <= k < i && #[trigger] abilities@[k].tile_pos == p {
                match start.spec_tile(p) {
                    Some(t) => Some(TileState { has_ability: false, ..t }),
                    None => None::<TileState>,
                }
            } else {
                start.spec_tile(p)
            },
        decreases abilities@.len() - i,
    {
        let a = abilities[i];
        proof {
            grid.lemma_grid_facts();
            assert(start.spec_tile(abilities@[i as int].tile_pos) is Some);
        }
        match grid.get(a.tile_pos) {
            Some(t) => {
                proof {
                    assert(grid.spec_tile(a.tile_pos) is Some);
                }
                grid.set_tile(a.tile_pos, Some(TileState { has_ability: false, ..t }));
            },
            None => {},
        }
        out.push(a.id);
        proof {
            assert(abilities@.take(i + 1).map_values(|a: PlacedObject| a.id) =~= abilities@.take(i as int).map_values(
                |a: PlacedObject| a.id,
            ).push(a.id));
            assert forall|p: TilePos| #[trigger] grid.spec_tile(p) == if exists|k: int|
                0 <= k < i + 1 && #[trigger] abilities@[k].tile_pos == p {
                match start.spec_tile(p) {
                    Some(t) => Some(TileState { has_ability: false, ..t }),
                    None => None::<TileState>,
                }
            } else {
                start.spec_tile(p)
            } by {
                if p == a.tile_pos {
                    assert(abilities@[i as int].tile_pos == p);
                } else {
                    if exists|k: int| 0 <= k < i + 1 && #[trigger] abilities@[k].tile_pos == p {
                        let k = choose|k: int| 0 <= k < i + 1 && #[trigger] abilities@[k].tile_pos == p;
                        assert(k < i);
                    }
                }
            }
        }
        i = i + 1;
    }
    assert(abilities@.take(abilities@.len() as int) =~= abilities@);
    out
}

} // verus!
