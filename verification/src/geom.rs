//! Integer layout geometry: rectangles, their boundary rings, bounding boxes.

use vstd::prelude::*;

verus! {

/// An axis-aligned rectangle in database units, corners as given.
#[derive(Clone, Copy, Debug)]
pub struct Rect {
    pub x0: i32,
    pub y0: i32,
    pub x1: i32,
    pub y1: i32,
}

impl Rect {
    pub fn new(x0: i32, y0: i32, x1: i32, y1: i32) -> (r: Rect)
        ensures
            r == (Rect { x0, y0, x1, y1 }),
    {
        Rect { x0, y0, x1, y1 }
    }

    /// The closed boundary ring, counter-clockwise from `(x0, y0)`, with the
    /// first vertex repeated at the end as GDS boundaries are.
    pub open spec fn boundary(self) -> Seq<(i32, i32)> {
        seq![
            (self.x0, self.y0),
            (self.x1, self.y0),
            (self.x1, self.y1),
            (self.x0, self.y1),
            (self.x0, self.y0),
        ]
    }

    pub fn as_boundary(&self) -> (v: Vec<(i32, i32)>)
        ensures
            v@ == self.boundary(),
    {
        let mut v = Vec::new();
        v.push((self.x0, self.y0));
        v.push((self.x1, self.y0));
        v.push((self.x1, self.y1));
        v.push((self.x0, self.y1));
        v.push((self.x0, self.y0));
        v
    }

    /// `p` lies inside the rectangle, borders included.
    pub open spec fn holds(self, p: (i32, i32)) -> bool {
        self.x0 <= p.0 <= self.x1 && self.y0 <= p.1 <= self.y1
    }
}

/// The box grown to take in `p`.
pub open spec fn grow(b: Option<Rect>, p: (i32, i32)) -> Option<Rect> {
    match b {
        None => Some(Rect { x0: p.0, y0: p.1, x1: p.0, y1: p.1 }),
        Some(r) => Some(
            Rect {
                x0: if p.0 < r.x0 {
                    p.0
                } else {
                    r.x0
                },
                y0: if p.1 < r.y0 {
                    p.1
                } else {
                    r.y0
                },
                x1: if p.0 > r.x1 {
                    p.0
                } else {
                    r.x1
                },
                y1: if p.1 > r.y1 {
                    p.1
                } else {
                    r.y1
                },
            },
        ),
    }
}

/// The smallest rectangle holding every point, `None` for no points.
pub open spec fn bbox_of(ps: Seq<(i32, i32)>) -> Option<Rect>
    decreases ps.len(),
{
    if ps.len() == 0 {
        None
    } else {
        grow(bbox_of(ps.drop_last()), ps.last())
    }
}

pub fn grow_exec(b: Option<Rect>, p: (i32, i32)) -> (r: Option<Rect>)
    ensures
        r == grow(b, p),
{
    match b {
        None => Some(Rect { x0: p.0, y0: p.1, x1: p.0, y1: p.1 }),
        Some(r) => Some(
            Rect {
                x0: if p.0 < r.x0 {
                    p.0
                } else {
                    r.x0
                },
                y0: if p.1 < r.y0 {
                    p.1
                } else {
                    r.y0
                },
                x1: if p.0 > r.x1 {
                    p.0
                } else {
                    r.x1
                },
                y1: if p.1 > r.y1 {
                    p.1
                } else {
                    r.y1
                },
            },
        ),
    }
}

/// Appending a point grows the box by that point.
pub proof fn lemma_bbox_push(ps: Seq<(i32, i32)>, p: (i32, i32))
    ensures
        bbox_of(ps.push(p)) == grow(bbox_of(ps), p),
{
    assert(ps.push(p).drop_last() == ps);
}

/// Every point lies in the bounding box, which exists once there is a point.
pub proof fn lemma_bbox_holds(ps: Seq<(i32, i32)>, i: int)
    requires
        0 <= i < ps.len(),
    ensures
        bbox_of(ps) is Some,
        bbox_of(ps).unwrap().holds(ps[i]),
    decreases ps.len(),
{
    let q = ps.drop_last();
    if i < ps.len() - 1 {
        lemma_bbox_holds(q, i);
        assert(q[i] == ps[i]);
    }
}

} // verus!
