//! Socket label assignment for tile edges.
//!
//! A tile edge is summarized as the sequence of its pixels' combined
//! color keys. The interner hands equal edge sequences equal small
//! integer labels: a fresh label the first time a sequence is seen,
//! and the old label again afterwards.

use vstd::prelude::*;

verus! {

/// The combined key of one pixel: its red, green and blue channels
/// packed into one number in base 1000.
pub open spec fn spec_pixel_key(r: u8, g: u8, b: u8) -> u32 {
    (r + g * 1000 + b * 1000000) as u32
}

/// Packs one pixel's color channels into its combined key.
pub fn pixel_key(r: u8, g: u8, b: u8) -> (key: u32)
    ensures
        key == spec_pixel_key(r, g, b),
{
    r as u32 + g as u32 * 1000 + b as u32 * 1000000
}

/// The key sequence of a whole edge, from its pixels' channels.
pub fn edge_key(reds: &Vec<u8>, greens: &Vec<u8>, blues: &Vec<u8>) -> (keys: Vec<u32>)
    requires
        reds@.len() == greens@.len(),
        reds@.len() == blues@.len(),
    ensures
        keys@.len() == reds@.len(),
        forall|i: int|
            0 <= i < keys@.len() ==> #[trigger] keys@[i] == spec_pixel_key(
                reds@[i],
                greens@[i],
                blues@[i],
            ),
{
    let mut keys: Vec<u32> = Vec::new();
    let mut i: usize = 0;
    while i < reds.len()
        invariant
            reds@.len() == greens@.len(),
            reds@.len() == blues@.len(),
            i <= reds@.len(),
            keys@.len() == i,
            forall|j: int|
                0 <= j < i ==> #[trigger] keys@[j] == spec_pixel_key(
                    reds@[j],
                    greens@[j],
                    blues@[j],
                ),
        decreases reds@.len() - i,
    {
        keys.push(pixel_key(reds[i], greens[i], blues[i]));
        i = i + 1;
    }
    keys
}

/// Assigns socket labels to edge key sequences, equal labels to equal
/// sequences and fresh labels to new ones.
pub struct SocketInterner {
    seen: Vec<Vec<u32>>,
}

impl View for SocketInterner {
    type V = Seq<Seq<u32>>;

    closed spec fn view(&self) -> Seq<Seq<u32>> {
        self.seen@.map_values(|v: Vec<u32>| v@)
    }
}

/// `true` exactly when the two vectors hold the same numbers in the
/// same order.
fn keys_equal(a: &Vec<u32>, b: &Vec<u32>) -> (r: bool)
    ensures
        r == (a@ == b@),
{
    if a.len() != b.len() {
        return false;
    }
    let mut i: usize = 0;
    while i < a.len()
        invariant
            a@.len() == b@.len(),
            i <= a@.len(),
            forall|j: int| 0 <= j < i ==> #[trigger] a@[j] == b@[j],
        decreases a@.len() - i,
    {
        if a[i] != b[i] {
            return false;
        }
        i = i + 1;
    }
    proof {
        assert(a@ =~= b@);
    }
    true
}

impl SocketInterner {
    /// The sequences already seen are mutually distinct.
    pub open spec fn wf(self) -> bool {
        forall|i: int, j: int| 0 <= i < j < self@.len() ==> self@[i] != self@[j]
    }

    /// An interner that has seen nothing.
    pub fn new() -> (s: SocketInterner)
        ensures
            s.wf(),
            s@.len() == 0,
    {
        SocketInterner { seen: Vec::new() }
    }

    /// How many distinct socket labels have been handed out.
    pub fn len(&self) -> (n: usize)
        ensures
            n == self@.len(),
    {
        self.seen.len()
    }

    /// The label of an edge key sequence: the position where it was
    /// first seen, recording it now if this is that first time.
    pub fn intern(&mut self, edge: Vec<u32>) -> (id: usize)
        requires
            old(self).wf(),
        ensures
            final(self).wf(),
            if (exists|i: int| 0 <= i < old(self)@.len() && old(self)@[i] == edge@) {
                &&& final(self)@ == old(self)@
                &&& id < old(self)@.len()
                &&& old(self)@[id as int] == edge@
            } else {
                &&& final(self)@ == old(self)@.push(edge@)
                &&& id == old(self)@.len()
            },
    {
        let mut i: usize = 0;
        while i < self.seen.len()
            invariant
                old(self).wf(),
                *self == *old(self),
                i <= self.seen@.len(),
                forall|j: int| 0 <= j < i ==> self@[j] != edge@,
            decreases self.seen@.len() - i,
        {
            proof {
                assert(self@[i as int] == self.seen@[i as int]@);
            }
            if keys_equal(&self.seen[i], &edge) {
                return i;
            }
            i = i + 1;
        }
        let id = self.seen.len();
        self.seen.push(edge);
        proof {
            assert(self@ =~= old(self)@.push(self.seen@[id as int]@));
        }
        id
    }
}

} // verus!
