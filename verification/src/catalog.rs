//! The immutable tile catalog: tile records keyed by their id, with
//! the per-direction socket lookup that the solver's compatibility
//! test is built on.
//!
//! A well-formed catalog holds tiles with exactly four sockets, a
//! rotation of at most three quarter turns, and an id equal to the
//! tile's position, which is how the loader numbers them.

use crate::direction::{direction_index, Direction};
use crate::tile::{socket_at, Tile, TileView};
use crate::WfcError;
use vstd::arithmetic::div_mod::lemma_fundamental_div_mod_converse;
use vstd::prelude::*;

verus! {

pub struct TileCatalog {
    tiles: Vec<Tile>,
}

/// Well-formedness of a catalog's records: four sockets each, a
/// rotation below four, and ids that equal positions.
pub open spec fn catalog_wf(cat: Seq<TileView>) -> bool {
    forall|i: int|
        0 <= i < cat.len() ==> {
            &&& (#[trigger] cat[i]).sockets.len() == 4
            &&& cat[i].rotation < 4
            &&& cat[i].id == i
        }
}

/// The effective socket that tile `t` of the catalog presents toward
/// the direction of index `d`.
pub open spec fn spec_socket(cat: Seq<TileView>, t: int, d: int) -> usize
    recommends
        0 <= t < cat.len(),
        catalog_wf(cat),
        0 <= d,
{
    socket_at(cat[t].sockets, cat[t].rotation as int, d)
}

impl View for TileCatalog {
    type V = Seq<TileView>;

    closed spec fn view(&self) -> Seq<TileView> {
        self.tiles@.map_values(|t: Tile| t@)
    }
}

impl TileCatalog {
    pub open spec fn wf(self) -> bool {
        catalog_wf(self@)
    }

    /// Builds a catalog from loader-supplied records, rejecting a
    /// malformed list: one with a record of the wrong socket arity, a
    /// rotation of four or more quarter turns, or an id that does not
    /// equal the record's position.
    pub fn new(tiles: Vec<Tile>) -> (r: Result<TileCatalog, WfcError>)
        ensures
            match r {
                Ok(c) => c@ == tiles@.map_values(|t: Tile| t@) && c.wf(),
                Err(e) => e == WfcError::MalformedCatalog && !catalog_wf(
                    tiles@.map_values(|t: Tile| t@),
                ),
            },
    {
        let ghost views = tiles@.map_values(|t: Tile| t@);
        let mut i: usize = 0;
        while i < tiles.len()
            invariant
                i <= tiles.len(),
                views == tiles@.map_values(|t: Tile| t@),
                forall|j: int|
                    0 <= j < i ==> {
                        &&& (#[trigger] views[j]).sockets.len() == 4
                        &&& views[j].rotation < 4
                        &&& views[j].id == j
                    },
            decreases tiles.len() - i,
        {
            let t = &tiles[i];
            proof {
                assert(views[i as int] == tiles@[i as int]@);
            }
            if t.socket_count() != 4 || t.get_rotation() >= 4 || t.get_id() != i {
                assert(!catalog_wf(views));
                return Err(WfcError::MalformedCatalog);
            }
            i = i + 1;
        }
        Ok(TileCatalog { tiles })
    }

    /// The number of tiles in the catalog.
    pub fn size(&self) -> (n: usize)
        ensures
            n == self@.len(),
    {
        self.tiles.len()
    }

    /// The tile record of id `tile_id`; `UnknownTile` exactly when
    /// the catalog has no tile of that id.
    pub fn get_tile(&self, tile_id: usize) -> (r: Result<&Tile, WfcError>)
        ensures
            match r {
                Ok(t) => tile_id < self@.len() && t@ == self@[tile_id as int],
                Err(e) => e == WfcError::UnknownTile && tile_id >= self@.len(),
            },
    {
        if tile_id < self.tiles.len() {
            proof {
                assert(self@[tile_id as int] == self.tiles@[tile_id as int]@);
            }
            Ok(&self.tiles[tile_id])
        } else {
            Err(WfcError::UnknownTile)
        }
    }

    /// The effective socket of tile `tile_id` toward `direction`,
    /// accounting for the tile's rotation; `UnknownTile` exactly when
    /// the catalog has no tile of that id.
    pub fn get_socket(&self, tile_id: usize, direction: Direction) -> (r: Result<usize, WfcError>)
        requires
            self.wf(),
        ensures
            match r {
                Ok(s) => tile_id < self@.len() && s == spec_socket(
                    self@,
                    tile_id as int,
                    direction_index(direction),
                ),
                Err(e) => e == WfcError::UnknownTile && tile_id >= self@.len(),
            },
    {
        if tile_id < self.tiles.len() {
            proof {
                assert(self@[tile_id as int] == self.tiles@[tile_id as int]@);
                assert(self@[tile_id as int].sockets.len() == 4);
            }
            Ok(self.tiles[tile_id].get_socket(direction.to_num()))
        } else {
            Err(WfcError::UnknownTile)
        }
    }
}

/// Expands each base record into four tile records, one per quarter
/// turn, all sharing the base's socket array and asset path, numbered
/// consecutively so that the result is a well-formed catalog input.
pub fn expand_rotations(bases: Vec<Tile>) -> (r: Vec<Tile>)
    requires
        4 * bases@.len() <= usize::MAX,
    ensures
        r@.len() == 4 * bases@.len(),
        forall|j: int|
            0 <= j < r@.len() ==> {
                &&& (#[trigger] r@[j])@.id == j
                &&& r@[j]@.rotation == j % 4
                &&& r@[j]@.sockets == bases@[j / 4]@.sockets
                &&& r@[j]@.src == bases@[j / 4]@.src
            },
{
    let mut out: Vec<Tile> = Vec::new();
    let mut i: usize = 0;
    while i < bases.len()
        invariant
            i <= bases.len(),
            4 * bases@.len() <= usize::MAX,
            out@.len() == 4 * i,
            forall|j: int|
                0 <= j < out@.len() ==> {
                    &&& (#[trigger] out@[j])@.id == j
                    &&& out@[j]@.rotation == j % 4
                    &&& out@[j]@.sockets == bases@[j / 4]@.sockets
                    &&& out@[j]@.src == bases@[j / 4]@.src
                },
        decreases bases.len() - i,
    {
        let base = &bases[i];
        let mut k: usize = 0;
        while k < 4
            invariant
                k <= 4,
                i < bases.len(),
                4 * bases@.len() <= usize::MAX,
                out@.len() == 4 * i + k,
                forall|j: int|
                    0 <= j < out@.len() ==> {
                        &&& (#[trigger] out@[j])@.id == j
                        &&& out@[j]@.rotation == j % 4
                        &&& out@[j]@.sockets == bases@[j / 4]@.sockets
                        &&& out@[j]@.src == bases@[j / 4]@.src
                    },
                base == &bases[i as int],
            decreases 4 - k,
        {
            let id = out.len();
            let tile = Tile::new(id, base.get_src(), base.get_sockets(), k);
            out.push(tile);
            proof {
                lemma_fundamental_div_mod_converse(id as int, 4, i as int, k as int);
            }
            k = k + 1;
        }
        i = i + 1;
    }
    out
}

} // verus!
