//! World-space geometry.
//!
//! Coordinates are integers in the same fixed unit as the [`Extent`](crate::grid::Extent)
//! they are projected from.

use vstd::prelude::*;

verus! {

/// A position in world coordinates.
#[derive(Clone, Copy, Debug, PartialEq, Eq)]
pub struct Point {
    pub x: i64,
    pub y: i64,
}

/// Points in no particular relation.
#[derive(Clone, Debug, PartialEq, Eq)]
pub struct MultiPoint {
    pub points: Vec<Point>,
}

/// A line through its points in order. The rings of a polygon are lines
/// whose last point repeats the first.
#[derive(Clone, Debug, PartialEq, Eq)]
pub struct LineString {
    pub points: Vec<Point>,
}

/// Several lines.
#[derive(Clone, Debug, PartialEq, Eq)]
pub struct MultiLineString {
    pub lines: Vec<LineString>,
}

/// An ordered list of rings, the first one being the exterior.
#[derive(Clone, Debug, PartialEq, Eq)]
pub struct Polygon {
    pub rings: Vec<LineString>,
}

/// Several polygons.
#[derive(Clone, Debug, PartialEq, Eq)]
pub struct MultiPolygon {
    pub polygons: Vec<Polygon>,
}

/// Geometries of any kind, collections among them.
#[derive(Debug, PartialEq, Eq)]
pub struct GeometryCollection {
    pub geometries: Vec<GeometryType>,
}

/// Any geometry a feature may carry.
#[derive(Debug, PartialEq, Eq)]
pub enum GeometryType {
    Point(Point),
    LineString(LineString),
    Polygon(Polygon),
    MultiPoint(MultiPoint),
    MultiLineString(MultiLineString),
    MultiPolygon(MultiPolygon),
    GeometryCollection(GeometryCollection),
}

impl View for MultiPoint {
    type V = Seq<Point>;

    open spec fn view(&self) -> Seq<Point> {
        self.points@
    }
}

impl View for LineString {
    type V = Seq<Point>;

    open spec fn view(&self) -> Seq<Point> {
        self.points@
    }
}

impl View for MultiLineString {
    type V = Seq<Seq<Point>>;

    open spec fn view(&self) -> Seq<Seq<Point>> {
        self.lines@.map_values(|l: LineString| l@)
    }
}

impl View for Polygon {
    type V = Seq<Seq<Point>>;

    open spec fn view(&self) -> Seq<Seq<Point>> {
        self.rings@.map_values(|l: LineString| l@)
    }
}

impl View for MultiPolygon {
    type V = Seq<Seq<Seq<Point>>>;

    open spec fn view(&self) -> Seq<Seq<Seq<Point>>> {
        self.polygons@.map_values(|p: Polygon| p@)
    }
}

} // verus!
