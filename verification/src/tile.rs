//! Tile records: an id, a display asset path, four socket labels (one
//! per cardinal direction, pre-rotation) and a rotation in quarter
//! turns.
//!
//! The effective socket that a tile presents toward direction `d` is
//! the unrotated socket array read at index `(d + rotation) mod 4`:
//! the rotation is a cyclic shift of which entry each direction reads.

use vstd::arithmetic::div_mod::{lemma_add_mod_noop, lemma_mod_multiples_vanish};
use vstd::prelude::*;

verus! {

pub struct Tile {
    id: usize,
    src: String,
    sockets: Vec<usize>,
    rotation: usize,
}

/// The mathematical content of a tile record.
pub struct TileView {
    pub id: usize,
    pub src: Seq<char>,
    pub sockets: Seq<usize>,
    pub rotation: usize,
}

impl View for Tile {
    type V = TileView;

    closed spec fn view(&self) -> TileView {
        TileView {
            id: self.id,
            src: self.src@,
            sockets: self.sockets@,
            rotation: self.rotation,
        }
    }
}

/// The socket that a socket array rotated by `rotation` quarter turns
/// presents toward the direction of index `d`.
pub open spec fn socket_at(sockets: Seq<usize>, rotation: int, d: int) -> usize
    recommends
        sockets.len() > 0,
        0 <= rotation,
        0 <= d,
{
    sockets[(d + rotation) % (sockets.len() as int)]
}

impl Tile {
    pub fn new(id: usize, src: String, sockets: Vec<usize>, rotation: usize) -> (t: Tile)
        ensures
            t@.id == id,
            t@.src == src@,
            t@.sockets == sockets@,
            t@.rotation == rotation,
    {
        Tile { id, src, sockets, rotation }
    }

    /// The effective socket toward the direction of index `index`,
    /// accounting for this tile's rotation.
    pub fn get_socket(&self, index: usize) -> (s: usize)
        requires
            self@.sockets.len() > 0,
            index + self@.rotation <= usize::MAX,
        ensures
            s == socket_at(self@.sockets, self@.rotation as int, index as int),
    {
        self.sockets[(index + self.rotation) % self.sockets.len()]
    }

    pub fn get_id(&self) -> (id: usize)
        ensures
            id == self@.id,
    {
        self.id
    }

    pub fn get_src(&self) -> (src: String)
        ensures
            src@ == self@.src,
    {
        self.src.clone()
    }

    /// The number of entries of the socket array.
    pub fn socket_count(&self) -> (n: usize)
        ensures
            n == self@.sockets.len(),
    {
        self.sockets.len()
    }

    /// The rotation in quarter turns.
    pub fn get_rotation(&self) -> (r: usize)
        ensures
            r == self@.rotation,
    {
        self.rotation
    }

    /// A copy of the unrotated socket array.
    pub fn get_sockets(&self) -> (s: Vec<usize>)
        ensures
            s@ == self@.sockets,
    {
        let mut s: Vec<usize> = Vec::new();
        let mut i: usize = 0;
        while i < self.sockets.len()
            invariant
                i <= self.sockets.len(),
                s@ == self@.sockets.subrange(0, i as int),
            decreases self.sockets.len() - i,
        {
            s.push(self.sockets[i]);
            i = i + 1;
        }
        proof {
            assert(s@ =~= self@.sockets);
        }
        s
    }

    pub fn set_current_rotation(&mut self, rotation: usize)
        ensures
            final(self)@.id == old(self)@.id,
            final(self)@.src == old(self)@.src,
            final(self)@.sockets == old(self)@.sockets,
            final(self)@.rotation == rotation,
    {
        self.rotation = rotation;
    }
}

/// Rotating four more quarter turns reads the same socket for every
/// direction, and rotating one more quarter turn shifts the array
/// index that a direction reads by exactly one position, cyclically.
pub proof fn lemma_rotation_round_trip(sockets: Seq<usize>, rotation: int, d: int)
    requires
        sockets.len() == 4,
        0 <= rotation,
        0 <= d < 4,
    ensures
        socket_at(sockets, rotation + 4, d) == socket_at(sockets, rotation, d),
        socket_at(sockets, rotation + 1, d) == sockets[(((d + rotation) % 4) + 1) % 4],
{
    lemma_mod_multiples_vanish(1, d + rotation, 4);
    lemma_add_mod_noop(d + rotation, 1, 4);
    assert((d + rotation) % 4 == ((d + rotation) % 4) % 4) by {
        vstd::arithmetic::div_mod::lemma_mod_twice(d + rotation, 4);
    }
}

} // verus!
