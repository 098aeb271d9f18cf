//! Geometry in tile pixel coordinates, and the projection that produces it.

use vstd::prelude::*;
use vstd::arithmetic::div_mod::{lemma_fundamental_div_mod, lemma_mod_bound};
use crate::geom;
use crate::grid::Extent;

verus! {

/// A position in tile pixels.
#[derive(Clone, Copy, Debug, PartialEq, Eq)]
pub struct Point {
    pub x: i32,
    pub y: i32,
}

/// Points in no particular relation.
#[derive(Clone, Debug, PartialEq, Eq)]
pub struct MultiPoint {
    pub points: Vec<Point>,
}

/// A line through its points in order. The rings of a polygon are lines
/// whose last point repeats the first.
#[derive(Clone, Debug, PartialEq, Eq)]
pub struct LineString {
    pub points: Vec<Point>,
}

/// Several lines.
#[derive(Clone, Debug, PartialEq, Eq)]
pub struct MultiLineString {
    pub lines: Vec<LineString>,
}

/// An ordered list of rings, the first one being the exterior.
#[derive(Clone, Debug, PartialEq, Eq)]
pub struct Polygon {
    pub rings: Vec<LineString>,
}

/// Several polygons.
#[derive(Clone, Debug, PartialEq, Eq)]
pub struct MultiPolygon {
    pub polygons: Vec<Polygon>,
}

impl View for MultiPoint {
    type V = Seq<Point>;

    open spec fn view(&self) -> Seq<Point> {
        self.points@
    }
}

impl View for LineString {
    type V = Seq<Point>;

    open spec fn view(&self) -> Seq<Point> {
        self.points@
    }
}

impl View for MultiLineString {
    type V = Seq<Seq<Point>>;

    open spec fn view(&self) -> Seq<Seq<Point>> {
        self.lines@.map_values(|l: LineString| l@)
    }
}

impl View for Polygon {
    type V = Seq<Seq<Point>>;

    open spec fn view(&self) -> Seq<Seq<Point>> {
        self.rings@.map_values(|l: LineString| l@)
    }
}

impl View for MultiPolygon {
    type V = Seq<Seq<Seq<Point>>>;

    open spec fn view(&self) -> Seq<Seq<Seq<Point>>> {
        self.polygons@.map_values(|p: Polygon| p@)
    }
}

/// The integer nearest to `n / d`; a half is rounded away from zero.
pub open spec fn round_div(n: int, d: int) -> int
    recommends
        d > 0,
{
    if n >= 0 {
        (2 * n + d) / (2 * d)
    } else {
        -((2 * (-n) + d) / (2 * d))
    }
}

/// `v` limited to the range from `lo` to `hi`.
pub open spec fn clamp(v: int, lo: int, hi: int) -> int {
    if v < lo {
        lo
    } else if v > hi {
        hi
    } else {
        v
    }
}

/// The pixel that world coordinate `v` falls on, on an axis that maps the world
/// range from `min` to `max` onto `tile_size` pixels. Positions that a pixel
/// coordinate cannot hold are limited to the nearest one it can.
pub open spec fn scale_axis(v: int, min: int, max: int, tile_size: int) -> int {
    clamp(round_div((v - min) * tile_size, max - min), i32::MIN as int, i32::MAX as int)
}

/// The world coordinate that pixel `s` is mapped back to: the inverse of the
/// affine map behind [`scale_axis`], rounded to a whole world unit.
pub open spec fn unscale_axis(s: int, min: int, max: int, tile_size: int) -> int
    recommends
        tile_size > 0,
{
    min + round_div(s * (max - min), tile_size)
}

/// Pixel `s` counted from the opposite border of the tile, never below zero.
pub open spec fn flip_axis(s: int, tile_size: int) -> int {
    clamp(tile_size - s, 0, i32::MAX as int)
}

/// The image of one world point.
pub open spec fn project_point(extent: Extent, reverse_y: bool, tile_size: u32, p: geom::Point) -> Point {
    let sx = scale_axis(p.x as int, extent.minx as int, extent.maxx as int, tile_size as int);
    let sy = scale_axis(p.y as int, extent.miny as int, extent.maxy as int, tile_size as int);
    Point {
        x: sx as i32,
        y: if reverse_y {
            flip_axis(sy, tile_size as int) as i32
        } else {
            sy as i32
        },
    }
}

/// The images of a list of world points, in order.
pub open spec fn project_points(
    extent: Extent,
    reverse_y: bool,
    tile_size: u32,
    ps: Seq<geom::Point>,
) -> Seq<Point> {
    ps.map_values(|p: geom::Point| project_point(extent, reverse_y, tile_size, p))
}

/// The images of a list of lines or rings, nesting kept.
pub open spec fn project_lines(
    extent: Extent,
    reverse_y: bool,
    tile_size: u32,
    ls: Seq<Seq<geom::Point>>,
) -> Seq<Seq<Point>> {
    ls.map_values(|l: Seq<geom::Point>| project_points(extent, reverse_y, tile_size, l))
}

/// The images of a list of polygons, nesting kept.
pub open spec fn project_polygons(
    extent: Extent,
    reverse_y: bool,
    tile_size: u32,
    polys: Seq<Seq<Seq<geom::Point>>>,
) -> Seq<Seq<Seq<Point>>> {
    polys.map_values(|p: Seq<Seq<geom::Point>>| project_lines(extent, reverse_y, tile_size, p))
}

proof fn lemma_round_div_error(n: int, d: int)
    requires
        d > 0,
    ensures
        -d <= 2 * (round_div(n, d) * d - n) <= d,
        n >= 0 ==> round_div(n, d) >= 0,
        n <= 0 ==> round_div(n, d) <= 0,
{
    let m = if n >= 0 { n } else { -n };
    let q = (2 * m + d) / (2 * d);
    lemma_fundamental_div_mod(2 * m + d, 2 * d);
    lemma_mod_bound(2 * m + d, 2 * d);
    let r = (2 * m + d) % (2 * d);
    assert(2 * m + d == (2 * d) * q + r);
    assert((2 * d) * q == 2 * (q * d)) by (nonlinear_arith);
    assert(q >= 0) by (nonlinear_arith)
        requires
            2 * m + d == (2 * d) * q + r,
            0 <= r < 2 * d,
            m >= 0,
            d > 0,
    ;
    if n < 0 {
        assert((-q) * d == -(q * d)) by (nonlinear_arith);
    }
    if n == 0 {
        assert(q == 0) by (nonlinear_arith)
            requires
                d == (2 * d) * q + r,
                0 <= r < 2 * d,
                q >= 0,
                d > 0,
        ;
    }
}

proof fn lemma_round_div_monotonic(a: int, b: int, d: int)
    requires
        d > 0,
        0 <= a <= b,
    ensures
        round_div(a, d) <= round_div(b, d),
{
    vstd::arithmetic::div_mod::lemma_div_is_ordered(2 * a + d, 2 * b + d, 2 * d);
}

proof fn lemma_round_div_exact(q: int, d: int)
    requires
        d > 0,
        q >= 0,
    ensures
        round_div(q * d, d) == q,
{
    assert(q * d >= 0) by (nonlinear_arith)
        requires
            q >= 0,
            d > 0,
    ;
    assert(2 * (q * d) + d == q * (2 * d) + d) by (nonlinear_arith);
    vstd::arithmetic::div_mod::lemma_fundamental_div_mod_converse(2 * (q * d) + d, 2 * d, q, d);
}

/// Projection can be undone up to rounding. For a world coordinate `v` inside
/// the extent, on an axis of at most `i32::MAX` pixels:
/// its pixel `s` lies on the tile;
/// mapped back exactly, `s` lands within half a pixel of `v`;
/// mapped back and rounded to a world unit, it lands within half a pixel plus
/// half a world unit of `v`, which is at most one world unit wherever a pixel is
/// no wider than a world unit.
pub proof fn lemma_scale_axis_reversible(v: int, min: int, max: int, tile_size: int)
    requires
        min < max,
        min <= v <= max,
        0 < tile_size <= i32::MAX,
    ensures
        ({
            let s = scale_axis(v, min, max, tile_size);
            let back = unscale_axis(s, min, max, tile_size);
            &&& 0 <= s <= tile_size
            &&& -(max - min) <= 2 * (s * (max - min) - (v - min) * tile_size) <= max - min
            &&& -(max - min) - tile_size <= 2 * tile_size * (back - v) <= (max - min) + tile_size
            &&& max - min <= tile_size ==> -1 <= back - v <= 1
        }),
{
    let d = max - min;
    let n = (v - min) * tile_size;
    assert(0 <= n <= d * tile_size) by (nonlinear_arith)
        requires
            n == (v - min) * tile_size,
            0 <= v - min <= d,
            tile_size > 0,
    ;
    let q = round_div(n, d);
    lemma_round_div_error(n, d);
    lemma_round_div_monotonic(n, d * tile_size, d);
    assert(d * tile_size == tile_size * d) by (nonlinear_arith);
    lemma_round_div_exact(tile_size, d);
    assert(0 <= q <= tile_size);
    let s = scale_axis(v, min, max, tile_size);
    assert(s == q);
    let m = s * d;
    assert(m >= 0) by (nonlinear_arith)
        requires
            m == s * d,
            s >= 0,
            d > 0,
    ;
    let b = round_div(m, tile_size);
    lemma_round_div_error(m, tile_size);
    let back = unscale_axis(s, min, max, tile_size);
    assert(back - v == b - (v - min));
    assert(2 * tile_size * (back - v) == 2 * (b * tile_size - m) + 2 * (s * d - n)) by (nonlinear_arith)
        requires
            back - v == b - (v - min),
            m == s * d,
            n == (v - min) * tile_size,
    ;
    if d <= tile_size {
        assert(-1 <= back - v <= 1) by (nonlinear_arith)
            requires
                -d - tile_size <= 2 * tile_size * (back - v) <= d + tile_size,
                0 < d <= tile_size,
        ;
    }
}

/// A point inside the extent is projected onto the tile, and both of its pixel
/// coordinates map back to within half a pixel of the point. With `reverse_y`
/// the vertical pixel is first counted back from the opposite border.
pub proof fn lemma_project_point_reversible(extent: Extent, reverse_y: bool, tile_size: u32, p: geom::Point)
    requires
        extent.wf(),
        extent.contains(p.x as int, p.y as int),
        0 < tile_size <= i32::MAX,
    ensures
        ({
            let s = project_point(extent, reverse_y, tile_size, p);
            let w = extent.maxx - extent.minx;
            let h = extent.maxy - extent.miny;
            let sy = if reverse_y {
                tile_size - s.y
            } else {
                s.y as int
            };
            &&& 0 <= s.x <= tile_size
            &&& 0 <= s.y <= tile_size
            &&& -w <= 2 * (s.x * w - (p.x - extent.minx) * tile_size) <= w
            &&& -h <= 2 * (sy * h - (p.y - extent.miny) * tile_size) <= h
        }),
{
    lemma_scale_axis_reversible(p.x as int, extent.minx as int, extent.maxx as int, tile_size as int);
    lemma_scale_axis_reversible(p.y as int, extent.miny as int, extent.maxy as int, tile_size as int);
}

/// With `reverse_y` no vertical pixel coordinate is negative, wherever the
/// point lies.
pub proof fn lemma_reverse_y_not_negative(extent: Extent, tile_size: u32, p: geom::Point)
    ensures
        project_point(extent, true, tile_size, p).y >= 0,
{
}

fn scale(v: i64, min: i64, max: i64, tile_size: u32) -> (s: i32)
    requires
        min < max,
    ensures
        s == scale_axis(v as int, min as int, max as int, tile_size as int),
{
    let span: i128 = max as i128 - min as i128;
    let off: i128 = v as i128 - min as i128;
    assert(-0x1_0000_0000_0000_0000_0000_0000 < off * tile_size < 0x1_0000_0000_0000_0000_0000_0000)
        by (nonlinear_arith)
        requires
            -0x1_0000_0000_0000_0000 < off < 0x1_0000_0000_0000_0000,
            0 <= tile_size < 0x1_0000_0000,
    ;
    let num: i128 = off * (tile_size as i128);
    let mag: i128 = if num >= 0 {
        num
    } else {
        -num
    };
    proof {
        lemma_fundamental_div_mod(2 * mag + span, 2 * span);
        lemma_mod_bound(2 * mag + span, 2 * span);
        assert(0 <= (2 * mag + span) / (2 * span) <= 2 * mag + span) by (nonlinear_arith)
            requires
                2 * mag + span == (2 * span) * ((2 * mag + span) / (2 * span)) + (2 * mag + span) % (2 * span),
                0 <= (2 * mag + span) % (2 * span) < 2 * span,
                mag >= 0,
                span > 0,
        ;
    }
    let q: i128 = (2 * mag + span) / (2 * span);
    let r: i128 = if num >= 0 {
        q
    } else {
        -q
    };
    assert(r == round_div((v - min) * tile_size, max - min));
    if r < i32::MIN as i128 {
        i32::MIN
    } else if r > i32::MAX as i128 {
        i32::MAX
    } else {
        r as i32
    }
}

fn flip(s: i32, tile_size: u32) -> (f: i32)
    ensures
        f == flip_axis(s as int, tile_size as int),
{
    let d: i64 = tile_size as i64 - s as i64;
    if d < 0 {
        0
    } else if d > i32::MAX as i64 {
        i32::MAX
    } else {
        d as i32
    }
}

/// Screen geometry that is the projection of the world geometry `T`.
pub trait ScreenGeom<T>: Sized {
    /// Holds when `self` is the projection of `geom`: every point mapped by
    /// [`project_point`], order and nesting kept.
    spec fn is_image_of(&self, extent: &Extent, reverse_y: bool, tile_size: u32, geom: &T) -> bool;

    /// Convert geometry into screen coordinates.
    fn from_geom(extent: &Extent, reverse_y: bool, tile_size: u32, geom: &T) -> (screen_geom: Self)
        requires
            extent.wf(),
        ensures
            screen_geom.is_image_of(extent, reverse_y, tile_size, geom),
    ;
}

impl ScreenGeom<geom::Point> for Point {
    open spec fn is_image_of(&self, extent: &Extent, reverse_y: bool, tile_size: u32, geom: &geom::Point) -> bool {
        *self == project_point(*extent, reverse_y, tile_size, *geom)
    }

    fn from_geom(extent: &Extent, reverse_y: bool, tile_size: u32, point: &geom::Point) -> (screen_geom: Self) {
        let x: i32 = scale(point.x, extent.minx, extent.maxx, tile_size);
        let y: i32 = scale(point.y, extent.miny, extent.maxy, tile_size);
        if reverse_y {
            Point { x, y: flip(y, tile_size) }
        } else {
            Point { x, y }
        }
    }
}

fn project_all(extent: &Extent, reverse_y: bool, tile_size: u32, points: &Vec<geom::Point>) -> (out: Vec<Point>)
    requires
        extent.wf(),
    ensures
        out@ == project_points(*extent, reverse_y, tile_size, points@),
{
    let mut out: Vec<Point> = Vec::new();
    let n: usize = points.len();
    let mut i: usize = 0;
    while i < n
        invariant
            i <= n,
            n == points@.len(),
            extent.wf(),
            out@.len() == i,
            forall|j: int| 0 <= j < i ==> out@[j] == project_point(*extent, reverse_y, tile_size, points@[j]),
        decreases n - i,
    {
        out.push(Point::from_geom(extent, reverse_y, tile_size, &points[i]));
        i += 1;
    }
    assert(out@ =~= project_points(*extent, reverse_y, tile_size, points@));
    out
}

fn project_all_lines(extent: &Extent, reverse_y: bool, tile_size: u32, lines: &Vec<geom::LineString>) -> (out: Vec<
    LineString,
>)
    requires
        extent.wf(),
    ensures
        out@.map_values(|l: LineString| l@) == project_lines(
            *extent,
            reverse_y,
            tile_size,
            lines@.map_values(|l: geom::LineString| l@),
        ),
{
    let mut out: Vec<LineString> = Vec::new();
    let n: usize = lines.len();
    let mut i: usize = 0;
    while i < n
        invariant
            i <= n,
            n == lines@.len(),
            extent.wf(),
            out@.len() == i,
            forall|j: int| 0 <= j < i ==> out@[j]@ == project_points(*extent, reverse_y, tile_size, lines@[j]@),
        decreases n - i,
    {
        out.push(LineString::from_geom(extent, reverse_y, tile_size, &lines[i]));
        i += 1;
    }
    assert(out@.map_values(|l: LineString| l@) =~= project_lines(
        *extent,
        reverse_y,
        tile_size,
        lines@.map_values(|l: geom::LineString| l@),
    ));
    out
}

impl ScreenGeom<geom::MultiPoint> for MultiPoint {
    open spec fn is_image_of(&self, extent: &Extent, reverse_y: bool, tile_size: u32, geom: &geom::MultiPoint) -> bool {
        self@ == project_points(*extent, reverse_y, tile_size, geom@)
    }

    fn from_geom(extent: &Extent, reverse_y: bool, tile_size: u32, multipoint: &geom::MultiPoint) -> (screen_geom:
        Self) {
        MultiPoint { points: project_all(extent, reverse_y, tile_size, &multipoint.points) }
    }
}

impl ScreenGeom<geom::LineString> for LineString {
    open spec fn is_image_of(&self, extent: &Extent, reverse_y: bool, tile_size: u32, geom: &geom::LineString) -> bool {
        self@ == project_points(*extent, reverse_y, tile_size, geom@)
    }

    fn from_geom(extent: &Extent, reverse_y: bool, tile_size: u32, line: &geom::LineString) -> (screen_geom: Self) {
        LineString { points: project_all(extent, reverse_y, tile_size, &line.points) }
    }
}

impl ScreenGeom<geom::MultiLineString> for MultiLineString {
    open spec fn is_image_of(
        &self,
        extent: &Extent,
        reverse_y: bool,
        tile_size: u32,
        geom: &geom::MultiLineString,
    ) -> bool {
        self@ == project_lines(*extent, reverse_y, tile_size, geom@)
    }

    fn from_geom(extent: &Extent, reverse_y: bool, tile_size: u32, multiline: &geom::MultiLineString) -> (screen_geom:
        Self) {
        MultiLineString { lines: project_all_lines(extent, reverse_y, tile_size, &multiline.lines) }
    }
}

impl ScreenGeom<geom::Polygon> for Polygon {
    open spec fn is_image_of(&self, extent: &Extent, reverse_y: bool, tile_size: u32, geom: &geom::Polygon) -> bool {
        self@ == project_lines(*extent, reverse_y, tile_size, geom@)
    }

    fn from_geom(extent: &Extent, reverse_y: bool, tile_size: u32, polygon: &geom::Polygon) -> (screen_geom: Self) {
        Polygon { rings: project_all_lines(extent, reverse_y, tile_size, &polygon.rings) }
    }
}

impl ScreenGeom<geom::MultiPolygon> for MultiPolygon {
    open spec fn is_image_of(
        &self,
        extent: &Extent,
        reverse_y: bool,
        tile_size: u32,
        geom: &geom::MultiPolygon,
    ) -> bool {
        self@ == project_polygons(*extent, reverse_y, tile_size, geom@)
    }

    fn from_geom(extent: &Extent, reverse_y: bool, tile_size: u32, multipolygon: &geom::MultiPolygon) -> (screen_geom:
        Self) {
        let mut polygons: Vec<Polygon> = Vec::new();
        let n: usize = multipolygon.polygons.len();
        let mut i: usize = 0;
        while i < n
            invariant
                i <= n,
                n == multipolygon.polygons@.len(),
                extent.wf(),
                polygons@.len() == i,
                forall|j: int|
                    0 <= j < i ==> polygons@[j]@ == project_lines(
                        *extent,
                        reverse_y,
                        tile_size,
                        multipolygon.polygons@[j]@,
                    ),
            decreases n - i,
        {
            polygons.push(Polygon::from_geom(extent, reverse_y, tile_size, &multipolygon.polygons[i]));
            i += 1;
        }
        let screen_geom = MultiPolygon { polygons };
        assert(screen_geom@ =~= project_polygons(*extent, reverse_y, tile_size, multipolygon@));
        screen_geom
    }
}

} // verus!
