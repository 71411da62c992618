//! Rectangles with public edges, as stored in blit parameters.
use vstd::prelude::*;

verus! {

/// A rectangle given by its edges; `right` and `bottom` are exclusive.
#[derive(Debug, Clone, Copy, PartialEq, Eq, Structural)]
pub struct Rect {
    pub left: u32,
    pub top: u32,
    pub right: u32,
    pub bottom: u32,
}

impl Rect {
    /// Whether no edge passes the one opposite to it.
    pub open spec fn ordered(self) -> bool {
        self.left <= self.right && self.top <= self.bottom
    }

    /// The rectangle at `(x, y)` of size `w` by `h`.
    pub fn from_xywh(x: u32, y: u32, w: u32, h: u32) -> (r: Self)
        requires
            x + w <= u32::MAX,
            y + h <= u32::MAX,
        ensures
            r == (Rect { left: x, top: y, right: (x + w) as u32, bottom: (y + h) as u32 }),
    {
        Self { left: x, top: y, right: x + w, bottom: y + h }
    }

    /// The rectangle with the given edges, if no edge passes the opposite one.
    pub fn from_ltrb(l: u32, t: u32, r: u32, b: u32) -> (res: Option<Self>)
        ensures
            res is Some <==> l <= r && t <= b,
            res matches Some(rect) ==> rect == (Rect { left: l, top: t, right: r, bottom: b }),
    {
        if l > r || t > b {
            return None;
        }
        Some(Self { left: l, top: t, right: r, bottom: b })
    }

    pub fn x(&self) -> (x: u32)
        ensures
            x == self.left,
    {
        self.left
    }

    pub fn y(&self) -> (y: u32)
        ensures
            y == self.top,
    {
        self.top
    }

    pub fn width(&self) -> (w: u32)
        requires
            self.left <= self.right,
        ensures
            w == self.right - self.left,
    {
        self.right - self.left
    }

    pub fn height(&self) -> (h: u32)
        requires
            self.top <= self.bottom,
        ensures
            h == self.bottom - self.top,
    {
        self.bottom - self.top
    }

    /// The smallest rectangle that holds both.
    pub open spec fn spec_union(self, other: Self) -> Self {
        Rect {
            left: if self.left <= other.left { self.left } else { other.left },
            top: if self.top <= other.top { self.top } else { other.top },
            right: if self.right >= other.right { self.right } else { other.right },
            bottom: if self.bottom >= other.bottom { self.bottom } else { other.bottom },
        }
    }

    /// Whether `other` lies inside `self`.
    pub open spec fn spec_contains(self, other: Self) -> bool {
        self.left <= other.left && self.top <= other.top && self.right >= other.right
            && self.bottom >= other.bottom
    }

    /// The smallest rectangle that holds both.
    pub fn union(&self, other: &Self) -> (r: Self)
        ensures
            r == self.spec_union(*other),
    {
        Self {
            left: if self.left <= other.left { self.left } else { other.left },
            right: if self.right >= other.right { self.right } else { other.right },
            top: if self.top <= other.top { self.top } else { other.top },
            bottom: if self.bottom >= other.bottom { self.bottom } else { other.bottom },
        }
    }

    /// Whether `other` lies inside `self`.
    pub fn contains(&self, other: Self) -> (b: bool)
        ensures
            b == self.spec_contains(other),
    {
        self.left <= other.left && self.top <= other.top && self.right >= other.right
            && self.bottom >= other.bottom
    }

    /// The size of `other`, if it is the size of `self`.
    pub fn same_size(&self, other: Self) -> (r: Option<(u32, u32)>)
        requires
            self.ordered(),
            other.ordered(),
        ensures
            r is Some <==> self.right - self.left == other.right - other.left && self.bottom
                - self.top == other.bottom - other.top,
            r matches Some(s) ==> s.0 == other.right - other.left && s.1 == other.bottom
                - other.top,
    {
        let other_size = other.size();
        let own = self.size();
        if own.0 == other_size.0 && own.1 == other_size.1 {
            Some(other_size)
        } else {
            None
        }
    }

    /// Width and height.
    pub fn size(&self) -> (s: (u32, u32))
        requires
            self.ordered(),
        ensures
            s.0 == self.right - self.left,
            s.1 == self.bottom - self.top,
    {
        (self.width(), self.height())
    }
}

/// The union of two rectangles holds both of them, is the same either way round, and any
/// rectangle that holds both holds their union.
pub proof fn lemma_union(a: Rect, b: Rect, c: Rect)
    ensures
        a.spec_union(b).spec_contains(a),
        a.spec_union(b).spec_contains(b),
        a.spec_union(b) == b.spec_union(a),
        c.spec_contains(a) && c.spec_contains(b) ==> c.spec_contains(a.spec_union(b)),
        a.ordered() ==> a.spec_union(b).ordered(),
{
}

} // verus!
