//! Axis-aligned rectangles in surface coordinates.
use vstd::prelude::*;

verus! {

/// A rectangle given by its edges; `right` and `bottom` are exclusive, and an edge never
/// passes the one opposite to it.
#[derive(Clone, Copy)]
pub struct Rect {
    pub(crate) left: u32,
    pub(crate) top: u32,
    pub(crate) right: u32,
    pub(crate) bottom: u32,
}

/// The edges of a rectangle.
pub struct RectModel {
    pub left: int,
    pub top: int,
    pub right: int,
    pub bottom: int,
}

impl RectModel {
    pub open spec fn width(self) -> int {
        self.right - self.left
    }

    pub open spec fn height(self) -> int {
        self.bottom - self.top
    }

    /// Whether `other` lies inside `self`.
    pub open spec fn contains(self, other: RectModel) -> bool {
        self.left <= other.left && self.top <= other.top && self.right >= other.right
            && self.bottom >= other.bottom
    }

    /// Whether the point `(x, y)` lies inside.
    pub open spec fn has_point(self, x: int, y: int) -> bool {
        self.left <= x < self.right && self.top <= y < self.bottom
    }
}

impl View for Rect {
    type V = RectModel;

    closed spec fn view(&self) -> RectModel {
        RectModel {
            left: self.left as int,
            top: self.top as int,
            right: self.right as int,
            bottom: self.bottom as int,
        }
    }
}

impl Rect {
    #[verifier::type_invariant]
    spec fn edges_ordered(self) -> bool {
        self.left <= self.right && self.top <= self.bottom
    }

    /// The model's edges are the fields.
    pub(crate) proof fn lemma_edges(&self)
        ensures
            self@.left == self.left as int,
            self@.top == self.top as int,
            self@.right == self.right as int,
            self@.bottom == self.bottom as int,
    {
    }

    /// The rectangle at `(x, y)` of size `w` by `h`.
    pub fn from_xywh(x: u32, y: u32, w: u32, h: u32) -> (r: Self)
        requires
            x + w <= u32::MAX,
            y + h <= u32::MAX,
        ensures
            r@ == (RectModel { left: x as int, top: y as int, right: x + w, bottom: y + h }),
    {
        Self { left: x, top: y, right: x + w, bottom: y + h }
    }

    /// The rectangle with the given edges, if no edge passes the opposite one.
    pub fn from_ltrb(l: u32, t: u32, r: u32, b: u32) -> (res: Option<Self>)
        ensures
            res is Some <==> l <= r && t <= b,
            res matches Some(rect) ==> rect@ == (RectModel {
                left: l as int,
                top: t as int,
                right: r as int,
                bottom: b as int,
            }),
    {
        if l > r || t > b {
            return None;
        }
        Some(Self { left: l, top: t, right: r, bottom: b })
    }

    /// The smallest rectangle that holds both.
    pub fn union(&self, other: &Self) -> (r: Self)
        ensures
            r@ == (RectModel {
                left: if self@.left <= other@.left { self@.left } else { other@.left },
                top: if self@.top <= other@.top { self@.top } else { other@.top },
                right: if self@.right >= other@.right { self@.right } else { other@.right },
                bottom: if self@.bottom >= other@.bottom { self@.bottom } else { other@.bottom },
            }),
    {
        proof {
            use_type_invariant(self);
            use_type_invariant(other);
        }
        Self {
            left: if self.left <= other.left { self.left } else { other.left },
            right: if self.right >= other.right { self.right } else { other.right },
            top: if self.top <= other.top { self.top } else { other.top },
            bottom: if self.bottom >= other.bottom { self.bottom } else { other.bottom },
        }
    }

    pub fn width(&self) -> (w: u32)
        ensures
            w == self@.width(),
    {
        proof { use_type_invariant(self); }
        self.right - self.left
    }

    pub fn height(&self) -> (h: u32)
        ensures
            h == self@.height(),
    {
        proof { use_type_invariant(self); }
        self.bottom - self.top
    }

    /// Whether `other` lies inside `self`.
    pub fn contains(&self, other: Self) -> (b: bool)
        ensures
            b == self@.contains(other@),
    {
        self.left <= other.left && self.top <= other.top && self.right >= other.right
            && self.bottom >= other.bottom
    }

    /// The size of `other`, if it is the size of `self`.
    pub fn same_size(&self, other: Self) -> (r: Option<(u32, u32)>)
        ensures
            r is Some <==> self@.width() == other@.width() && self@.height() == other@.height(),
            r matches Some(s) ==> s.0 == other@.width() && s.1 == other@.height(),
    {
        let other_size = other.size();
        let own = self.size();
        if own.0 == other_size.0 && own.1 == other_size.1 {
            Some(other_size)
        } else {
            None
        }
    }

    /// Width and height.
    pub fn size(&self) -> (s: (u32, u32))
        ensures
            s.0 == self@.width(),
            s.1 == self@.height(),
    {
        (self.width(), self.height())
    }
}

} // verus!
