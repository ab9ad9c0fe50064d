//! Cell coordinates: an immutable pair of signed integers identifying one
//! cell of the unbounded plane.

use vstd::prelude::*;

verus! {

/// A 2D integer point.  Pure value type: two positions are equal exactly
/// when both fields are equal.
#[derive(Clone, Copy, PartialEq, Eq, Structural, Debug, Hash)]
pub struct Position {
    pub x: i32,
    pub y: i32,
}

impl View for Position {
    type V = (int, int);

    open spec fn view(&self) -> (int, int) {
        (self.x as int, self.y as int)
    }
}

/// The packed key combining both fields: the bits of `x` in the high half,
/// the bits of `y` in the low half.
pub open spec fn pack_spec(x: i32, y: i32) -> u64 {
    (((x as u32) as u64) << 32) | ((y as u32) as u64)
}

impl Position {
    pub fn new(x: i32, y: i32) -> (r: Position)
        ensures
            r@ == (x as int, y as int),
    {
        Position { x, y }
    }

    /// A stable 64-bit key combining both fields losslessly; distinct
    /// positions never collide (see `lemma_key_injective`).
    pub fn key(&self) -> (r: u64)
        ensures
            r == pack_spec(self.x, self.y),
    {
        (((self.x as u32) as u64) << 32) | ((self.y as u32) as u64)
    }
}

/// Two positions have the same packed key exactly when they are the same
/// point: the key is a collision-free combination of both fields.
pub proof fn lemma_key_injective(a: Position, b: Position)
    ensures
        pack_spec(a.x, a.y) == pack_spec(b.x, b.y) <==> a == b,
{
    let ax = a.x;
    let ay = a.y;
    let bx = b.x;
    let by = b.y;
    assert(((((ax as u32) as u64) << 32) | ((ay as u32) as u64)) == ((((bx as u32) as u64) << 32)
        | ((by as u32) as u64)) <==> (ax == bx && ay == by)) by (bit_vector);
}

/// Whether `q` is one of the eight immediate neighbors of `p`.
pub open spec fn adjacent(q: (int, int), p: (int, int)) -> bool {
    &&& -1 <= q.0 - p.0 <= 1
    &&& -1 <= q.1 - p.1 <= 1
    &&& !(q.0 == p.0 && q.1 == p.1)
}

/// Whether a mathematical point is representable as a `Position`.
pub open spec fn in_plane(p: (int, int)) -> bool {
    &&& i32::MIN <= p.0 <= i32::MAX
    &&& i32::MIN <= p.1 <= i32::MAX
}

} // verus!
