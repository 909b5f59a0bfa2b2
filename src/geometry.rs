//! Integer rectangles in logical (scale independent) coordinates.
use vstd::prelude::*;

verus! {

/// Largest absolute coordinate that the damage engine works with; any box
/// enclosing two rectangles inside this range still has a size that fits `i32`.
pub const COORD_LIMIT: i32 = 1073741823;

#[derive(Clone, Copy, Debug, PartialEq, Eq, Structural)]
pub struct Point {
    pub x: i32,
    pub y: i32,
}

#[derive(Clone, Copy, Debug, PartialEq, Eq, Structural)]
pub struct Size {
    pub w: i32,
    pub h: i32,
}

/// An axis aligned box: `loc` is its top left corner.
#[derive(Clone, Copy, Debug, PartialEq, Eq, Structural)]
pub struct Rectangle {
    pub loc: Point,
    pub size: Size,
}

pub open spec fn in_limit(v: int) -> bool {
    -(COORD_LIMIT as int) <= v <= COORD_LIMIT as int
}

pub open spec fn min_int(a: int, b: int) -> int {
    if a <= b { a } else { b }
}

pub open spec fn max_int(a: int, b: int) -> int {
    if a >= b { a } else { b }
}

impl Rectangle {
    pub open spec fn left(self) -> int {
        self.loc.x as int
    }

    pub open spec fn top(self) -> int {
        self.loc.y as int
    }

    pub open spec fn right(self) -> int {
        self.loc.x + self.size.w
    }

    pub open spec fn bottom(self) -> int {
        self.loc.y + self.size.h
    }

    /// All four edges lie within `COORD_LIMIT` of the origin.
    pub open spec fn bounded(self) -> bool {
        in_limit(self.left()) && in_limit(self.right()) && in_limit(self.top()) && in_limit(
            self.bottom(),
        )
    }

    pub open spec fn has_area(self) -> bool {
        self.size.w > 0 && self.size.h > 0
    }

    /// The two boxes share a region of positive area.
    pub open spec fn spec_overlaps(self, o: Rectangle) -> bool {
        self.left() < o.right() && o.left() < self.right() && self.top() < o.bottom() && o.top()
            < self.bottom()
    }

    /// Every edge of `o` lies on or inside the edges of `self`.
    pub open spec fn spec_contains_rect(self, o: Rectangle) -> bool {
        self.left() <= o.left() && o.right() <= self.right() && self.top() <= o.top()
            && o.bottom() <= self.bottom()
    }

    pub open spec fn spec_contains_point(self, x: int, y: int) -> bool {
        self.left() <= x < self.right() && self.top() <= y < self.bottom()
    }

    /// Edges of the smallest box enclosing both.
    pub open spec fn merge_edges(self, o: Rectangle) -> (int, int, int, int) {
        (
            min_int(self.left(), o.left()),
            min_int(self.top(), o.top()),
            max_int(self.right(), o.right()),
            max_int(self.bottom(), o.bottom()),
        )
    }

    pub open spec fn has_edges(self, e: (int, int, int, int)) -> bool {
        self.left() == e.0 && self.top() == e.1 && self.right() == e.2 && self.bottom() == e.3
    }

    /// The box shifted by `p`.
    pub open spec fn spec_translated(self, p: Point) -> Rectangle {
        Rectangle {
            loc: Point { x: (self.loc.x + p.x) as i32, y: (self.loc.y + p.y) as i32 },
            size: self.size,
        }
    }

    pub open spec fn can_translate(self, p: Point) -> bool {
        i32::MIN <= self.loc.x + p.x <= i32::MAX && i32::MIN <= self.loc.y + p.y <= i32::MAX
    }

    pub fn from_loc_and_size(loc: Point, size: Size) -> (r: Rectangle)
        ensures
            r.loc == loc,
            r.size == size,
    {
        Rectangle { loc, size }
    }

    pub fn overlaps(&self, o: &Rectangle) -> (r: bool)
        ensures
            r == self.spec_overlaps(*o),
    {
        (self.loc.x as i64) < (o.loc.x as i64) + (o.size.w as i64) && (o.loc.x as i64) < (
        self.loc.x as i64) + (self.size.w as i64) && (self.loc.y as i64) < (o.loc.y as i64) + (
        o.size.h as i64) && (o.loc.y as i64) < (self.loc.y as i64) + (self.size.h as i64)
    }

    pub fn contains_rect(&self, o: &Rectangle) -> (r: bool)
        ensures
            r == self.spec_contains_rect(*o),
    {
        self.loc.x <= o.loc.x && (o.loc.x as i64) + (o.size.w as i64) <= (self.loc.x as i64) + (
        self.size.w as i64) && self.loc.y <= o.loc.y && (o.loc.y as i64) + (o.size.h as i64) <= (
        self.loc.y as i64) + (self.size.h as i64)
    }

    pub fn contains_point(&self, p: Point) -> (r: bool)
        ensures
            r == self.spec_contains_point(p.x as int, p.y as int),
    {
        self.loc.x <= p.x && (p.x as i64) < (self.loc.x as i64) + (self.size.w as i64)
            && self.loc.y <= p.y && (p.y as i64) < (self.loc.y as i64) + (self.size.h as i64)
    }

    pub fn translated(&self, p: Point) -> (r: Rectangle)
        requires
            self.can_translate(p),
        ensures
            r == self.spec_translated(p),
    {
        Rectangle { loc: Point { x: self.loc.x + p.x, y: self.loc.y + p.y }, size: self.size }
    }

    /// Smallest box that encloses both.
    pub fn merge(&self, o: &Rectangle) -> (r: Rectangle)
        requires
            self.bounded(),
            o.bounded(),
        ensures
            r.has_edges(self.merge_edges(*o)),
            r.bounded(),
    {
        let x = if self.loc.x <= o.loc.x { self.loc.x } else { o.loc.x };
        let y = if self.loc.y <= o.loc.y { self.loc.y } else { o.loc.y };
        let r1 = self.loc.x + self.size.w;
        let r2 = o.loc.x + o.size.w;
        let b1 = self.loc.y + self.size.h;
        let b2 = o.loc.y + o.size.h;
        let right = if r1 >= r2 { r1 } else { r2 };
        let bottom = if b1 >= b2 { b1 } else { b2 };
        Rectangle { loc: Point { x, y }, size: Size { w: right - x, h: bottom - y } }
    }

    /// The common part of both boxes, if it has positive area.
    pub fn intersection(&self, o: &Rectangle) -> (r: Option<Rectangle>)
        ensures
            r.is_some() == self.spec_overlaps(*o),
            r.is_some() ==> r.unwrap().has_edges(
                (
                    max_int(self.left(), o.left()),
                    max_int(self.top(), o.top()),
                    min_int(self.right(), o.right()),
                    min_int(self.bottom(), o.bottom()),
                ),
            ),
    {
        if !self.overlaps(o) {
            return None;
        }
        let x = if self.loc.x >= o.loc.x { self.loc.x } else { o.loc.x };
        let y = if self.loc.y >= o.loc.y { self.loc.y } else { o.loc.y };
        let r1 = (self.loc.x as i64) + (self.size.w as i64);
        let r2 = (o.loc.x as i64) + (o.size.w as i64);
        let b1 = (self.loc.y as i64) + (self.size.h as i64);
        let b2 = (o.loc.y as i64) + (o.size.h as i64);
        let right = if r1 <= r2 { r1 } else { r2 };
        let bottom = if b1 <= b2 { b1 } else { b2 };
        Some(
            Rectangle {
                loc: Point { x, y },
                size: Size { w: (right - x as i64) as i32, h: (bottom - y as i64) as i32 },
            },
        )
    }
}

/// `merge` gives the smallest enclosing box: it encloses both arguments, and
/// every box that encloses both encloses it as well.
pub proof fn lemma_merge_is_smallest_enclosing(a: Rectangle, b: Rectangle, m: Rectangle, c: Rectangle)
    requires
        m.has_edges(a.merge_edges(b)),
    ensures
        m.spec_contains_rect(a),
        m.spec_contains_rect(b),
        c.spec_contains_rect(a) && c.spec_contains_rect(b) ==> c.spec_contains_rect(m),
{
}

} // verus!
