//! Identifiers, rectangles and errors.

use vstd::prelude::*;

verus! {

/// Identifier of a node of a layout tree.
pub type NodeId = u32;

/// Identifier of an output.
pub type OutputId = u8;

/// An axis-aligned rectangle in whole units: the position of its top-left
/// corner and its extent.
#[derive(Debug, Clone, Copy, PartialEq, Eq, Structural)]
pub struct Rect {
    pub x: i32,
    pub y: i32,
    pub w: u32,
    pub h: u32,
}

impl Rect {
    /// The far corner is representable, so every point of the rectangle is.
    pub open spec fn valid(self) -> bool {
        &&& self.x + self.w <= i32::MAX
        &&& self.y + self.h <= i32::MAX
    }

    /// Whether the point `(px, py)` lies in the rectangle.
    pub open spec fn covers(self, px: int, py: int) -> bool {
        &&& self.x <= px < self.x + self.w
        &&& self.y <= py < self.y + self.h
    }

    /// The rectangle at the origin with no extent.
    pub open spec fn zero() -> Rect {
        Rect { x: 0, y: 0, w: 0, h: 0 }
    }

    /// Tests `valid`.
    pub fn is_valid(&self) -> (r: bool)
        ensures
            r == self.valid(),
    {
        let right: i64 = self.x as i64 + self.w as i64;
        let bottom: i64 = self.y as i64 + self.h as i64;
        right <= i32::MAX as i64 && bottom <= i32::MAX as i64
    }
}

impl Default for Rect {
    fn default() -> (r: Rect)
        ensures
            r == Rect::zero(),
    {
        Rect { x: 0, y: 0, w: 0, h: 0 }
    }
}

/// Why an operation was refused.
#[derive(Debug, Clone, Copy, PartialEq, Eq, Structural)]
pub enum Error {
    /// The node to remove is not a leaf.
    OnlyLeafCanBeRemoved(NodeId),
    /// No window is known under this identifier.
    NoWindow(NodeId),
}

/// Hands out the next identifier and advances the counter.
pub fn id_gen(next: &mut NodeId) -> (id: NodeId)
    requires
        *old(next) < NodeId::MAX,
    ensures
        id == *old(next),
        *final(next) == id + 1,
{
    let id: NodeId = *next;
    *next = id + 1;
    id
}

} // verus!
