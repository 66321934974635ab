use vstd::prelude::*;

verus! {

/// A two-dimensional integer vector; axis 0 is `x`, axis 1 is `y`.
#[derive(Clone, Copy, Debug, PartialEq, Eq, Structural)]
pub struct Vec2 {
    pub x: i32,
    pub y: i32,
}

impl Vec2 {
    /// The origin.
    pub fn zero() -> (r: Vec2)
        ensures
            r.x == 0 && r.y == 0,
    {
        Vec2 { x: 0, y: 0 }
    }

    /// The component along an axis, as a specification.
    pub open spec fn at(self, dim: int) -> i32 {
        if dim == 0 { self.x } else { self.y }
    }

    /// This vector with its component along an axis replaced.
    pub open spec fn with_at(self, dim: int, v: i32) -> Vec2 {
        if dim == 0 { Vec2 { x: v, ..self } } else { Vec2 { y: v, ..self } }
    }

    /// Replaces the component along an axis.
    pub fn set(&mut self, dim: usize, v: i32)
        requires
            dim < 2,
        ensures
            *final(self) == old(self).with_at(dim as int, v),
    {
        if dim == 0 { self.x = v; } else { self.y = v; }
    }

    /// The component along an axis.
    pub fn get(&self, dim: usize) -> (r: i32)
        requires
            dim < 2,
        ensures
            r == self.at(dim as int),
    {
        if dim == 0 { self.x } else { self.y }
    }
}

/// An integer rectangle: position `x`, `y` and extent `w`, `h`.
#[derive(Clone, Copy, Debug, PartialEq, Eq, Structural)]
pub struct Rect {
    pub x: i32,
    pub y: i32,
    pub w: i32,
    pub h: i32,
}

impl Rect {
    /// The empty rectangle at the origin.
    pub fn zero() -> (r: Rect)
        ensures
            r.x == 0 && r.y == 0 && r.w == 0 && r.h == 0,
    {
        Rect { x: 0, y: 0, w: 0, h: 0 }
    }

    /// The position along an axis.
    pub open spec fn pos(self, dim: int) -> i32 {
        if dim == 0 { self.x } else { self.y }
    }

    /// The extent along an axis.
    pub open spec fn size(self, dim: int) -> i32 {
        if dim == 0 { self.w } else { self.h }
    }

    /// This rectangle with its position along an axis replaced.
    pub open spec fn with_pos(self, dim: int, v: i32) -> Rect {
        if dim == 0 { Rect { x: v, ..self } } else { Rect { y: v, ..self } }
    }

    /// This rectangle with its extent along an axis replaced.
    pub open spec fn with_size(self, dim: int, v: i32) -> Rect {
        if dim == 0 { Rect { w: v, ..self } } else { Rect { h: v, ..self } }
    }

    /// The position along an axis.
    pub fn get_pos(&self, dim: usize) -> (r: i32)
        requires
            dim < 2,
        ensures
            r == self.pos(dim as int),
    {
        if dim == 0 { self.x } else { self.y }
    }

    /// The extent along an axis.
    pub fn get_size(&self, dim: usize) -> (r: i32)
        requires
            dim < 2,
        ensures
            r == self.size(dim as int),
    {
        if dim == 0 { self.w } else { self.h }
    }

    /// Replaces the position along an axis.
    pub fn set_pos(&mut self, dim: usize, v: i32)
        requires
            dim < 2,
        ensures
            *final(self) == old(self).with_pos(dim as int, v),
    {
        if dim == 0 { self.x = v; } else { self.y = v; }
    }

    /// Replaces the extent along an axis.
    pub fn set_size(&mut self, dim: usize, v: i32)
        requires
            dim < 2,
        ensures
            *final(self) == old(self).with_size(dim as int, v),
    {
        if dim == 0 { self.w = v; } else { self.h = v; }
    }
}

} // verus!
