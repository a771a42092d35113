//! Outlines of land.

use vstd::prelude::*;

use crate::float::F64;

verus! {

/// A point by longitude and latitude.
#[derive(Debug, Clone, Copy)]
pub struct Coord {
    pub x: F64,
    pub y: F64,
}

/// An area by its outline.
#[derive(Debug)]
pub struct Polygon {
    pub exterior: Vec<Coord>,
}

/// Whether two points are the same.
pub open spec fn same_point(a: Coord, b: Coord) -> bool {
    a.x.at_most(b.x) && b.x.at_most(a.x) && a.y.at_most(b.y) && b.y.at_most(a.y)
}

/// An outline that ends where it begins.
pub open spec fn closed(points: Seq<Coord>) -> Seq<Coord> {
    if points.len() == 0 || same_point(points.first(), points.last()) {
        points
    } else {
        points.push(points.first())
    }
}

/// The lowest and the highest latitude of some points.
pub open spec fn latitudes(points: Seq<Coord>) -> (F64, F64)
    recommends
        points.len() > 0,
    decreases points.len(),
{
    let y = points.last().y;
    if points.len() <= 1 {
        (y, y)
    } else {
        let (low, high) = latitudes(points.drop_last());
        if high.below(y) {
            (low, y)
        } else if y.below(low) {
            (y, high)
        } else {
            (low, high)
        }
    }
}

impl Polygon {
    /// The area inside of an outline, which is closed if it is not.
    pub fn new(points: Vec<Coord>) -> (r: Polygon)
        ensures
            r.exterior@ == closed(points@),
    {
        let mut exterior: Vec<Coord> = points;
        if exterior.len() > 0 {
            let a: Coord = exterior[0];
            let b: Coord = exterior[exterior.len() - 1];
            if !(a.x.le(b.x) && b.x.le(a.x) && a.y.le(b.y) && b.y.le(a.y)) {
                exterior.push(a);
            }
        }
        Polygon { exterior }
    }

    /// The lowest and the highest latitude of the outline, if it has any points.
    pub fn lat_range(&self) -> (r: Option<(F64, F64)>)
        ensures
            r == if self.exterior@.len() == 0 {
                None
            } else {
                Some(latitudes(self.exterior@))
            },
    {
        let points: &Vec<Coord> = &self.exterior;
        if points.len() == 0 {
            return None;
        }
        let mut low: F64 = points[0].y;
        let mut high: F64 = low;
        let mut i: usize = 1;
        assert(points@.take(1).last() == points@[0]);
        while i < points.len()
            invariant
                1 <= i <= points.len(),
                (low, high) == latitudes(points@.take(i as int)),
            decreases points.len() - i,
        {
            let y: F64 = points[i].y;
            assert(points@.take(i + 1).drop_last() =~= points@.take(i as int));
            if high.lt(y) {
                high = y;
            } else if y.lt(low) {
                low = y;
            }
            i = i + 1;
        }
        assert(points@.take(points@.len() as int) =~= points@);
        Some((low, high))
    }
}

} // verus!
