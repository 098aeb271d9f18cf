//! The geometry command stream of a vector tile feature.
//!
//! A feature's shape is a flat list of 32-bit integers: command integers, each
//! followed by the parameter integers of its run. A pen starts at the origin;
//! `MoveTo` and `LineTo` move it by the deltas in their parameters, `ClosePath`
//! closes the path under the pen without moving it.

use vstd::prelude::*;
use crate::screen::{LineString, MultiLineString, MultiPoint, MultiPolygon, Point, Polygon};

verus! {

/// The drawing commands.
#[derive(Clone, Copy, Debug, PartialEq, Eq)]
pub enum Command {
    MoveTo,
    LineTo,
    ClosePath,
}

/// The largest run length that fits beside the command id.
pub const MAX_COUNT: u32 = 0x1FFF_FFFF;

impl Command {
    /// The three-bit id of the command.
    pub open spec fn id(self) -> u32 {
        match self {
            Command::MoveTo => 1,
            Command::LineTo => 2,
            Command::ClosePath => 7,
        }
    }

    /// Runtime value of [`Command::id`].
    pub fn code(self) -> (id: u32)
        ensures
            id == self.id(),
    {
        match self {
            Command::MoveTo => 1,
            Command::LineTo => 2,
            Command::ClosePath => 7,
        }
    }
}

/// A command id packed with the length of its run: the id in the low three
/// bits, the count above them.
pub open spec fn command_integer(cmd: Command, count: u32) -> u32
    recommends
        count <= MAX_COUNT,
{
    (cmd.id() + 8 * count) as u32
}

/// A signed delta folded onto the unsigned integers: 0, -1, 1, -2, 2, ...
/// become 0, 1, 2, 3, 4, ...
pub open spec fn zigzag(n: i32) -> u32 {
    if n >= 0 {
        (2 * n) as u32
    } else {
        (-2 * n - 1) as u32
    }
}

/// The inverse of [`zigzag`].
pub open spec fn unzigzag(z: u32) -> i32 {
    if z % 2 == 0 {
        (z / 2) as i32
    } else {
        (-(z / 2) - 1) as i32
    }
}

/// `v` brought into the range of `i32` by adding or taking away 2^32 once.
pub open spec fn wrap(v: int) -> i32 {
    if v > i32::MAX {
        (v - 0x1_0000_0000) as i32
    } else if v < i32::MIN {
        (v + 0x1_0000_0000) as i32
    } else {
        v as i32
    }
}

/// The step from `from` to `to` along one axis. It is the plain difference
/// wherever that fits in an `i32`.
pub open spec fn delta(from: i32, to: i32) -> i32 {
    wrap(to - from)
}

/// The position one `delta` away from `from`.
pub open spec fn advance(from: i32, d: i32) -> i32 {
    wrap(from + d)
}

/// The two parameter integers that move the pen from `from` to `to`.
pub open spec fn param_pair(from: Point, to: Point) -> Seq<u32> {
    seq![zigzag(delta(from.x, to.x)), zigzag(delta(from.y, to.y))]
}

/// Where the pen stands after visiting `pts`, having started at `cursor`.
pub open spec fn last_or(cursor: Point, pts: Seq<Point>) -> Point {
    if pts.len() == 0 {
        cursor
    } else {
        pts.last()
    }
}

/// The parameter integers that lead the pen from `cursor` through `pts`, each
/// point given as the step from the one before it.
pub open spec fn params(cursor: Point, pts: Seq<Point>) -> Seq<u32>
    decreases pts.len(),
{
    if pts.len() == 0 {
        Seq::empty()
    } else {
        params(cursor, pts.drop_last()) + param_pair(last_or(cursor, pts.drop_last()), pts.last())
    }
}

/// Points as one `MoveTo` run. No point gives no command.
pub open spec fn encode_points(cursor: Point, pts: Seq<Point>) -> Seq<u32> {
    if pts.len() == 0 {
        Seq::empty()
    } else {
        seq![command_integer(Command::MoveTo, pts.len() as u32)] + params(cursor, pts)
    }
}

/// A line as a `MoveTo` to its first point and one `LineTo` run through the
/// others. A line of fewer than two points gives no command.
pub open spec fn encode_line(cursor: Point, pts: Seq<Point>) -> Seq<u32> {
    if pts.len() < 2 {
        Seq::empty()
    } else {
        seq![command_integer(Command::MoveTo, 1)] + param_pair(cursor, pts[0]) + seq![
            command_integer(Command::LineTo, (pts.len() - 1) as u32),
        ] + params(pts[0], pts.skip(1))
    }
}

/// Where the pen stands after [`encode_line`].
pub open spec fn cursor_after_line(cursor: Point, pts: Seq<Point>) -> Point {
    if pts.len() < 2 {
        cursor
    } else {
        pts.last()
    }
}

/// A ring without its last point, which only repeats the first: the line
/// through the others, then `ClosePath`. A ring that keeps fewer than three
/// points gives no command.
pub open spec fn encode_ring(cursor: Point, pts: Seq<Point>) -> Seq<u32> {
    if pts.len() < 4 {
        Seq::empty()
    } else {
        encode_line(cursor, pts.drop_last()) + seq![command_integer(Command::ClosePath, 1)]
    }
}

/// Where the pen stands after [`encode_ring`].
pub open spec fn cursor_after_ring(cursor: Point, pts: Seq<Point>) -> Point {
    if pts.len() < 4 {
        cursor
    } else {
        pts[pts.len() - 2]
    }
}

/// Lines one after the other, the pen carried over from each to the next.
pub open spec fn encode_lines(cursor: Point, lines: Seq<Seq<Point>>) -> Seq<u32>
    decreases lines.len(),
{
    if lines.len() == 0 {
        Seq::empty()
    } else {
        encode_lines(cursor, lines.drop_last()) + encode_line(
            cursor_after_lines(cursor, lines.drop_last()),
            lines.last(),
        )
    }
}

/// Where the pen stands after [`encode_lines`].
pub open spec fn cursor_after_lines(cursor: Point, lines: Seq<Seq<Point>>) -> Point
    decreases lines.len(),
{
    if lines.len() == 0 {
        cursor
    } else {
        cursor_after_line(cursor_after_lines(cursor, lines.drop_last()), lines.last())
    }
}

/// Rings one after the other, the pen carried over from each to the next.
pub open spec fn encode_rings(cursor: Point, rings: Seq<Seq<Point>>) -> Seq<u32>
    decreases rings.len(),
{
    if rings.len() == 0 {
        Seq::empty()
    } else {
        encode_rings(cursor, rings.drop_last()) + encode_ring(
            cursor_after_rings(cursor, rings.drop_last()),
            rings.last(),
        )
    }
}

/// Where the pen stands after [`encode_rings`].
pub open spec fn cursor_after_rings(cursor: Point, rings: Seq<Seq<Point>>) -> Point
    decreases rings.len(),
{
    if rings.len() == 0 {
        cursor
    } else {
        cursor_after_ring(cursor_after_rings(cursor, rings.drop_last()), rings.last())
    }
}

/// Polygons one after the other, the pen carried over from each to the next.
pub open spec fn encode_polygons(cursor: Point, polys: Seq<Seq<Seq<Point>>>) -> Seq<u32>
    decreases polys.len(),
{
    if polys.len() == 0 {
        Seq::empty()
    } else {
        encode_polygons(cursor, polys.drop_last()) + encode_rings(
            cursor_after_polygons(cursor, polys.drop_last()),
            polys.last(),
        )
    }
}

/// Where the pen stands after [`encode_polygons`].
pub open spec fn cursor_after_polygons(cursor: Point, polys: Seq<Seq<Seq<Point>>>) -> Point
    decreases polys.len(),
{
    if polys.len() == 0 {
        cursor
    } else {
        cursor_after_rings(cursor_after_polygons(cursor, polys.drop_last()), polys.last())
    }
}

/// No list of points is longer than a run can count.
pub open spec fn points_fit(pts: Seq<Point>) -> bool {
    pts.len() <= MAX_COUNT
}

/// Every line or ring satisfies [`points_fit`].
pub open spec fn lines_fit(lines: Seq<Seq<Point>>) -> bool {
    forall|i: int| 0 <= i < lines.len() ==> points_fit(#[trigger] lines[i])
}

/// Every polygon satisfies [`lines_fit`].
pub open spec fn polygons_fit(polys: Seq<Seq<Seq<Point>>>) -> bool {
    forall|i: int| 0 <= i < polys.len() ==> lines_fit(#[trigger] polys[i])
}

/// A command id together with the length of its run.
#[derive(Clone, Copy, Debug, PartialEq, Eq)]
pub struct CommandInteger(pub u32);

impl CommandInteger {
    /// Packs `cmd` and `count`: `(id & 0x7) | (count << 3)`.
    pub fn new(cmd: Command, count: u32) -> (ci: CommandInteger)
        requires
            count <= MAX_COUNT,
        ensures
            ci.0 == command_integer(cmd, count),
            ci.0 % 8 == cmd.id(),
            ci.0 / 8 == count,
    {
        let id: u32 = cmd.code();
        assert((id & 0x7) | (count << 3) == id + 8 * count) by (bit_vector)
            requires
                id < 8,
                count <= 0x1FFF_FFFF,
        ;
        CommandInteger((id & 0x7) | (count << 3))
    }

    /// The command id, the low three bits.
    pub fn id(&self) -> (id: u32)
        ensures
            id == self.0 % 8,
    {
        let v: u32 = self.0;
        assert(v & 0x7 == v % 8) by (bit_vector);
        v & 0x7
    }

    /// The length of the run.
    pub fn count(&self) -> (count: u32)
        ensures
            count == self.0 / 8,
    {
        let v: u32 = self.0;
        assert(v >> 3 == v / 8) by (bit_vector);
        v >> 3
    }
}

/// A zigzag-encoded delta.
#[derive(Clone, Copy, Debug, PartialEq, Eq)]
pub struct ParameterInteger(pub u32);

impl ParameterInteger {
    /// Folds a signed delta: `(n << 1) ^ (n >> 31)`.
    pub fn from(n: i32) -> (p: ParameterInteger)
        ensures
            p.0 == zigzag(n),
    {
        if n >= 0 {
            ParameterInteger((n as u32) * 2)
        } else {
            ParameterInteger(((-(n + 1)) as u32) * 2 + 1)
        }
    }

    /// Unfolds the delta.
    pub fn value(&self) -> (n: i32)
        ensures
            n == unzigzag(self.0),
    {
        let z: u32 = self.0;
        if z % 2 == 0 {
            (z / 2) as i32
        } else {
            -((z / 2) as i32) - 1
        }
    }
}

/// Folding and unfolding a delta cancel out, in both orders.
pub proof fn lemma_zigzag_inverse(n: i32, z: u32)
    ensures
        unzigzag(zigzag(n)) == n,
        zigzag(unzigzag(z)) == z,
{
}

/// The arithmetic fold of [`zigzag`] is the shift-and-xor form of the wire
/// format.
pub proof fn lemma_zigzag_is_shift_xor(n: i32)
    ensures
        zigzag(n) == ((n << 1) ^ (n >> 31)) as u32,
{
    assert(n >= 0 ==> (2 * n) as u32 == ((n << 1) ^ (n >> 31)) as u32) by (bit_vector);
    assert(n < 0 ==> (-2 * n - 1) as u32 == ((n << 1) ^ (n >> 31)) as u32) by (bit_vector);
}

/// Stepping by the delta between two positions leads from the first to the
/// second, whatever the positions.
pub proof fn lemma_advance_delta(from: i32, to: i32)
    ensures
        advance(from, delta(from, to)) == to,
{
}

/// A flat list of command and parameter integers.
#[derive(Clone, Debug, PartialEq, Eq)]
pub struct CommandSequence(pub Vec<u32>);

impl View for CommandSequence {
    type V = Seq<u32>;

    open spec fn view(&self) -> Seq<u32> {
        self.0@
    }
}

impl CommandSequence {
    /// A sequence without integers.
    pub fn new() -> (seq: CommandSequence)
        ensures
            seq@ == Seq::<u32>::empty(),
    {
        CommandSequence(Vec::new())
    }

    /// Appends one integer.
    pub fn push(&mut self, value: u32)
        ensures
            final(self)@ == old(self)@.push(value),
    {
        self.0.push(value);
    }

    /// Moves the integers of `other` to the end of `self`.
    pub fn append(&mut self, other: &mut CommandSequence)
        ensures
            final(self)@ == old(self)@ + old(other)@,
            final(other)@ == Seq::<u32>::empty(),
    {
        self.0.append(&mut other.0);
    }

    /// The number of integers.
    pub fn len(&self) -> (n: usize)
        ensures
            n == self@.len(),
    {
        self.0.len()
    }

    /// Whether there is no integer: the sequence of a geometry of which
    /// nothing is drawn.
    pub fn is_empty(&self) -> (empty: bool)
        ensures
            empty == (self@.len() == 0),
    {
        self.0.len() == 0
    }

    /// The integers themselves.
    pub fn vec(self) -> (v: Vec<u32>)
        ensures
            v@ == self@,
    {
        self.0
    }
}

/// The pen's starting position.
pub open spec fn origin() -> Point {
    Point { x: 0, y: 0 }
}

fn push_pair(out: &mut CommandSequence, from: &Point, to: &Point)
    ensures
        final(out)@ == old(out)@ + param_pair(*from, *to),
{
    let dx: i32 = to.x.wrapping_sub(from.x);
    let dy: i32 = to.y.wrapping_sub(from.y);
    out.push(ParameterInteger::from(dx).0);
    out.push(ParameterInteger::from(dy).0);
    assert(out@ =~= old(out)@ + param_pair(*from, *to));
}

/// Appends the steps from `cursor` through `pts[start..end]`.
fn push_params(out: &mut CommandSequence, cursor: &Point, pts: &Vec<Point>, start: usize, end: usize)
    requires
        start <= end <= pts@.len(),
    ensures
        final(out)@ == old(out)@ + params(*cursor, pts@.subrange(start as int, end as int)),
{
    let mut i: usize = start;
    let mut pen: Point = *cursor;
    assert(pts@.subrange(start as int, start as int) =~= Seq::<Point>::empty());
    assert(out@ =~= old(out)@ + params(*cursor, pts@.subrange(start as int, start as int)));
    while i < end
        invariant
            start <= i <= end <= pts@.len(),
            pen == last_or(*cursor, pts@.subrange(start as int, i as int)),
            out@ == old(out)@ + params(*cursor, pts@.subrange(start as int, i as int)),
        decreases end - i,
    {
        push_pair(out, &pen, &pts[i]);
        pen = pts[i];
        i += 1;
        proof {
            let s = pts@.subrange(start as int, i as int);
            assert(s.drop_last() =~= pts@.subrange(start as int, i - 1));
            assert(s.last() == pts@[i - 1]);
            assert(out@ =~= old(out)@ + params(*cursor, s));
        }
    }
}

/// Appends the line through `pts[..end]`.
fn push_line(out: &mut CommandSequence, cursor: &Point, pts: &Vec<Point>, end: usize)
    requires
        end <= pts@.len(),
        end <= MAX_COUNT,
    ensures
        final(out)@ == old(out)@ + encode_line(*cursor, pts@.take(end as int)),
{
    if end >= 2 {
        out.push(CommandInteger::new(Command::MoveTo, 1).0);
        push_pair(out, cursor, &pts[0]);
        out.push(CommandInteger::new(Command::LineTo, (end - 1) as u32).0);
        push_params(out, &pts[0], pts, 1, end);
        proof {
            let line = pts@.take(end as int);
            assert(line.skip(1) =~= pts@.subrange(1, end as int));
            assert(out@ =~= old(out)@ + encode_line(*cursor, line));
        }
    } else {
        assert(out@ =~= old(out)@ + encode_line(*cursor, pts@.take(end as int)));
    }
}

/// Appends the ring `pts`.
fn push_ring(out: &mut CommandSequence, cursor: &Point, pts: &Vec<Point>)
    requires
        pts@.len() <= MAX_COUNT,
    ensures
        final(out)@ == old(out)@ + encode_ring(*cursor, pts@),
{
    let n: usize = pts.len();
    if n >= 4 {
        push_line(out, cursor, pts, n - 1);
        out.push(CommandInteger::new(Command::ClosePath, 1).0);
        proof {
            assert(pts@.take(n - 1) =~= pts@.drop_last());
            assert(out@ =~= old(out)@ + encode_ring(*cursor, pts@));
        }
    } else {
        assert(out@ =~= old(out)@ + encode_ring(*cursor, pts@));
    }
}

fn push_lines(out: &mut CommandSequence, cursor: &Point, lines: &Vec<LineString>) -> (pen: Point)
    requires
        lines_fit(lines@.map_values(|l: LineString| l@)),
    ensures
        final(out)@ == old(out)@ + encode_lines(*cursor, lines@.map_values(|l: LineString| l@)),
        pen == cursor_after_lines(*cursor, lines@.map_values(|l: LineString| l@)),
{
    let ghost all = lines@.map_values(|l: LineString| l@);
    let mut pen: Point = *cursor;
    let n: usize = lines.len();
    let mut i: usize = 0;
    assert(all.take(0) =~= Seq::<Seq<Point>>::empty());
    assert(out@ =~= old(out)@ + encode_lines(*cursor, all.take(0)));
    while i < n
        invariant
            i <= n,
            n == lines@.len(),
            all == lines@.map_values(|l: LineString| l@),
            lines_fit(all),
            pen == cursor_after_lines(*cursor, all.take(i as int)),
            out@ == old(out)@ + encode_lines(*cursor, all.take(i as int)),
        decreases n - i,
    {
        let line = &lines[i];
        assert(line@ == all[i as int]);
        let m: usize = line.points.len();
        push_line(out, &pen, &line.points, m);
        proof {
            assert(line@.take(m as int) =~= line@);
            let s = all.take(i + 1);
            assert(s.drop_last() =~= all.take(i as int));
            assert(s.last() == line@);
            assert(out@ =~= old(out)@ + encode_lines(*cursor, s));
        }
        if m >= 2 {
            pen = line.points[m - 1];
        }
        i += 1;
    }
    assert(all.take(n as int) =~= all);
    pen
}

fn push_rings(out: &mut CommandSequence, cursor: &Point, rings: &Vec<LineString>) -> (pen: Point)
    requires
        lines_fit(rings@.map_values(|l: LineString| l@)),
    ensures
        final(out)@ == old(out)@ + encode_rings(*cursor, rings@.map_values(|l: LineString| l@)),
        pen == cursor_after_rings(*cursor, rings@.map_values(|l: LineString| l@)),
{
    let ghost all = rings@.map_values(|l: LineString| l@);
    let mut pen: Point = *cursor;
    let n: usize = rings.len();
    let mut i: usize = 0;
    assert(all.take(0) =~= Seq::<Seq<Point>>::empty());
    assert(out@ =~= old(out)@ + encode_rings(*cursor, all.take(0)));
    while i < n
        invariant
            i <= n,
            n == rings@.len(),
            all == rings@.map_values(|l: LineString| l@),
            lines_fit(all),
            pen == cursor_after_rings(*cursor, all.take(i as int)),
            out@ == old(out)@ + encode_rings(*cursor, all.take(i as int)),
        decreases n - i,
    {
        let ring = &rings[i];
        assert(ring@ == all[i as int]);
        let m: usize = ring.points.len();
        push_ring(out, &pen, &ring.points);
        proof {
            let s = all.take(i + 1);
            assert(s.drop_last() =~= all.take(i as int));
            assert(s.last() == ring@);
            assert(out@ =~= old(out)@ + encode_rings(*cursor, s));
        }
        if m >= 4 {
            pen = ring.points[m - 2];
        }
        i += 1;
    }
    assert(all.take(n as int) =~= all);
    pen
}

/// Screen geometry that can be written as a command sequence.
pub trait EncodableGeom {
    /// The command and parameter integers of `self`, drawn by a pen that
    /// starts at `startpos`.
    spec fn commands_from(&self, startpos: Point) -> Seq<u32>;

    /// No run of `self` is longer than [`MAX_COUNT`].
    spec fn fits(&self) -> bool;

    /// Runtime test of [`EncodableGeom::fits`].
    fn can_encode(&self) -> (ok: bool)
        ensures
            ok == self.fits(),
    ;

    /// Encodes `self` for a pen that stands at `startpos`.
    fn encode_from(&self, startpos: &Point) -> (seq: CommandSequence)
        requires
            self.fits(),
        ensures
            seq@ == self.commands_from(*startpos),
    ;

    /// Encodes `self` for a pen that stands at the origin.
    fn encode(&self) -> (seq: CommandSequence)
        requires
            self.fits(),
        ensures
            seq@ == self.commands_from(origin()),
    ;
}

fn points_can_encode(pts: &Vec<Point>) -> (ok: bool)
    ensures
        ok == points_fit(pts@),
{
    pts.len() <= MAX_COUNT as usize
}

fn lines_can_encode(lines: &Vec<LineString>) -> (ok: bool)
    ensures
        ok == lines_fit(lines@.map_values(|l: LineString| l@)),
{
    let ghost all = lines@.map_values(|l: LineString| l@);
    let n: usize = lines.len();
    let mut i: usize = 0;
    while i < n
        invariant
            i <= n,
            n == lines@.len(),
            all == lines@.map_values(|l: LineString| l@),
            forall|j: int| 0 <= j < i ==> points_fit(#[trigger] all[j]),
        decreases n - i,
    {
        if !points_can_encode(&lines[i].points) {
            assert(!points_fit(all[i as int]));
            return false;
        }
        i += 1;
    }
    true
}

impl EncodableGeom for Point {
    open spec fn commands_from(&self, startpos: Point) -> Seq<u32> {
        encode_points(startpos, seq![*self])
    }

    open spec fn fits(&self) -> bool {
        true
    }

    fn can_encode(&self) -> (ok: bool) {
        true
    }

    fn encode_from(&self, startpos: &Point) -> (seq: CommandSequence) {
        let mut seq = CommandSequence::new();
        seq.push(CommandInteger::new(Command::MoveTo, 1).0);
        push_pair(&mut seq, startpos, self);
        proof {
            let pts = seq![*self];
            assert(pts.drop_last() =~= Seq::<Point>::empty());
            assert(params(*startpos, pts.drop_last()) =~= Seq::<u32>::empty());
            assert(params(*startpos, pts) =~= param_pair(*startpos, *self));
            assert(seq@ =~= encode_points(*startpos, pts));
        }
        seq
    }

    fn encode(&self) -> (seq: CommandSequence) {
        self.encode_from(&Point { x: 0, y: 0 })
    }
}

impl EncodableGeom for MultiPoint {
    open spec fn commands_from(&self, startpos: Point) -> Seq<u32> {
        encode_points(startpos, self@)
    }

    open spec fn fits(&self) -> bool {
        points_fit(self@)
    }

    fn can_encode(&self) -> (ok: bool) {
        points_can_encode(&self.points)
    }

    fn encode_from(&self, startpos: &Point) -> (seq: CommandSequence) {
        let mut seq = CommandSequence::new();
        let n: usize = self.points.len();
        if n > 0 {
            seq.push(CommandInteger::new(Command::MoveTo, n as u32).0);
            push_params(&mut seq, startpos, &self.points, 0, n);
            proof {
                assert(self@.subrange(0, n as int) =~= self@);
                assert(seq@ =~= encode_points(*startpos, self@));
            }
        }
        seq
    }

    fn encode(&self) -> (seq: CommandSequence) {
        self.encode_from(&Point { x: 0, y: 0 })
    }
}

impl EncodableGeom for LineString {
    open spec fn commands_from(&self, startpos: Point) -> Seq<u32> {
        encode_line(startpos, self@)
    }

    open spec fn fits(&self) -> bool {
        points_fit(self@)
    }

    fn can_encode(&self) -> (ok: bool) {
        points_can_encode(&self.points)
    }

    fn encode_from(&self, startpos: &Point) -> (seq: CommandSequence) {
        let mut seq = CommandSequence::new();
        push_line(&mut seq, startpos, &self.points, self.points.len());
        proof {
            assert(self@.take(self@.len() as int) =~= self@);
            assert(seq@ =~= encode_line(*startpos, self@));
        }
        seq
    }

    fn encode(&self) -> (seq: CommandSequence) {
        self.encode_from(&Point { x: 0, y: 0 })
    }
}

impl EncodableGeom for MultiLineString {
    open spec fn commands_from(&self, startpos: Point) -> Seq<u32> {
        encode_lines(startpos, self@)
    }

    open spec fn fits(&self) -> bool {
        lines_fit(self@)
    }

    fn can_encode(&self) -> (ok: bool) {
        lines_can_encode(&self.lines)
    }

    fn encode_from(&self, startpos: &Point) -> (seq: CommandSequence) {
        let mut seq = CommandSequence::new();
        let _ = push_lines(&mut seq, startpos, &self.lines);
        assert(seq@ =~= encode_lines(*startpos, self@));
        seq
    }

    fn encode(&self) -> (seq: CommandSequence) {
        self.encode_from(&Point { x: 0, y: 0 })
    }
}

impl EncodableGeom for Polygon {
    open spec fn commands_from(&self, startpos: Point) -> Seq<u32> {
        encode_rings(startpos, self@)
    }

    open spec fn fits(&self) -> bool {
        lines_fit(self@)
    }

    fn can_encode(&self) -> (ok: bool) {
        lines_can_encode(&self.rings)
    }

    fn encode_from(&self, startpos: &Point) -> (seq: CommandSequence) {
        let mut seq = CommandSequence::new();
        let _ = push_rings(&mut seq, startpos, &self.rings);
        assert(seq@ =~= encode_rings(*startpos, self@));
        seq
    }

    fn encode(&self) -> (seq: CommandSequence) {
        self.encode_from(&Point { x: 0, y: 0 })
    }
}

impl EncodableGeom for MultiPolygon {
    open spec fn commands_from(&self, startpos: Point) -> Seq<u32> {
        encode_polygons(startpos, self@)
    }

    open spec fn fits(&self) -> bool {
        polygons_fit(self@)
    }

    fn can_encode(&self) -> (ok: bool) {
        let n: usize = self.polygons.len();
        let mut i: usize = 0;
        while i < n
            invariant
                i <= n,
                n == self.polygons@.len(),
                forall|j: int| 0 <= j < i ==> lines_fit(#[trigger] self@[j]),
            decreases n - i,
        {
            if !lines_can_encode(&self.polygons[i].rings) {
                assert(!lines_fit(self@[i as int]));
                return false;
            }
            i += 1;
        }
        true
    }

    fn encode_from(&self, startpos: &Point) -> (seq: CommandSequence) {
        let mut seq = CommandSequence::new();
        let mut pen: Point = *startpos;
        let n: usize = self.polygons.len();
        let mut i: usize = 0;
        assert(self@.take(0) =~= Seq::<Seq<Seq<Point>>>::empty());
        assert(seq@ =~= encode_polygons(*startpos, self@.take(0)));
        while i < n
            invariant
                i <= n,
                n == self.polygons@.len(),
                polygons_fit(self@),
                pen == cursor_after_polygons(*startpos, self@.take(i as int)),
                seq@ == encode_polygons(*startpos, self@.take(i as int)),
            decreases n - i,
        {
            let polygon = &self.polygons[i];
            assert(polygon@ == self@[i as int]);
            let next = push_rings(&mut seq, &pen, &polygon.rings);
            proof {
                let s = self@.take(i + 1);
                assert(s.drop_last() =~= self@.take(i as int));
                assert(s.last() == polygon@);
                assert(seq@ =~= encode_polygons(*startpos, s));
            }
            pen = next;
            i += 1;
        }
        assert(self@.take(n as int) =~= self@);
        seq
    }

    fn encode(&self) -> (seq: CommandSequence) {
        self.encode_from(&Point { x: 0, y: 0 })
    }
}

/// One path drawn by a command sequence: the positions the pen passed
/// through, and whether `ClosePath` ended it.
pub struct PathView {
    pub points: Seq<Point>,
    pub closed: bool,
}

/// One path drawn by a command sequence.
#[derive(Clone, Debug, PartialEq, Eq)]
pub struct Path {
    pub points: Vec<Point>,
    pub closed: bool,
}

impl View for Path {
    type V = PathView;

    open spec fn view(&self) -> PathView {
        PathView { points: self.points@, closed: self.closed }
    }
}

/// The position one parameter pair away from `from`.
pub open spec fn step(from: Point, zx: u32, zy: u32) -> Point {
    Point { x: advance(from.x, unzigzag(zx)), y: advance(from.y, unzigzag(zy)) }
}

/// The positions the pen visits from `cursor` when it follows the parameter
/// pairs in `ps`.
pub open spec fn walk(cursor: Point, ps: Seq<u32>) -> Seq<Point>
    decreases ps.len(),
{
    if ps.len() < 2 {
        Seq::empty()
    } else {
        let before = walk(cursor, ps.take(ps.len() - 2));
        before.push(step(last_or(cursor, before), ps[ps.len() - 2], ps[ps.len() - 1]))
    }
}

/// Each point as an open path of its own.
pub open spec fn single_paths(pts: Seq<Point>) -> Seq<PathView> {
    pts.map_values(|p: Point| PathView { points: seq![p], closed: false })
}

/// The paths that `seq` draws after `paths`, with the pen at `cursor`.
///
/// `MoveTo` starts one path per parameter pair, `LineTo` extends the open path
/// drawn last, `ClosePath` closes it. `None` where `seq` is no command
/// sequence: an unknown command id, a run of length zero, a `ClosePath` run
/// other than one, parameters that end early, or a `LineTo` or `ClosePath`
/// with no open path before it.
pub open spec fn replay(seq: Seq<u32>, cursor: Point, paths: Seq<PathView>) -> Option<Seq<PathView>>
    decreases seq.len(),
{
    if seq.len() == 0 {
        Some(paths)
    } else {
        let id = seq[0] % 8;
        let count = (seq[0] / 8) as int;
        if id == 1 && count > 0 && 1 + 2 * count <= seq.len() {
            let pts = walk(cursor, seq.subrange(1, 1 + 2 * count));
            replay(seq.skip(1 + 2 * count), pts.last(), paths + single_paths(pts))
        } else if id == 2 && count > 0 && 1 + 2 * count <= seq.len() && paths.len() > 0 && !paths.last().closed {
            let pts = walk(cursor, seq.subrange(1, 1 + 2 * count));
            replay(
                seq.skip(1 + 2 * count),
                pts.last(),
                paths.drop_last().push(PathView { points: paths.last().points + pts, closed: false }),
            )
        } else if id == 7 && count == 1 && paths.len() > 0 && !paths.last().closed {
            replay(
                seq.skip(1),
                cursor,
                paths.drop_last().push(PathView { points: paths.last().points, closed: true }),
            )
        } else {
            None
        }
    }
}

/// The path a line is drawn as: none if it has fewer than two points.
pub open spec fn paths_of_line(pts: Seq<Point>) -> Seq<PathView> {
    if pts.len() < 2 {
        Seq::empty()
    } else {
        seq![PathView { points: pts, closed: false }]
    }
}

/// The path a ring is drawn as: closed, without the ring's last point; none
/// if it keeps fewer than three points.
pub open spec fn paths_of_ring(pts: Seq<Point>) -> Seq<PathView> {
    if pts.len() < 4 {
        Seq::empty()
    } else {
        seq![PathView { points: pts.drop_last(), closed: true }]
    }
}

/// The paths of the lines that are drawn, in order.
pub open spec fn paths_of_lines(lines: Seq<Seq<Point>>) -> Seq<PathView>
    decreases lines.len(),
{
    if lines.len() == 0 {
        Seq::empty()
    } else {
        paths_of_lines(lines.drop_last()) + paths_of_line(lines.last())
    }
}

/// The paths of the rings that are drawn, in order.
pub open spec fn paths_of_rings(rings: Seq<Seq<Point>>) -> Seq<PathView>
    decreases rings.len(),
{
    if rings.len() == 0 {
        Seq::empty()
    } else {
        paths_of_rings(rings.drop_last()) + paths_of_ring(rings.last())
    }
}

/// The paths of the rings of all polygons, in order.
pub open spec fn paths_of_polygons(polys: Seq<Seq<Seq<Point>>>) -> Seq<PathView>
    decreases polys.len(),
{
    if polys.len() == 0 {
        Seq::empty()
    } else {
        paths_of_polygons(polys.drop_last()) + paths_of_rings(polys.last())
    }
}

proof fn lemma_params_len(cursor: Point, pts: Seq<Point>)
    ensures
        params(cursor, pts).len() == 2 * pts.len(),
    decreases pts.len(),
{
    if pts.len() > 0 {
        lemma_params_len(cursor, pts.drop_last());
    }
}

/// Following the steps through a list of points visits exactly those points.
pub proof fn lemma_walk_params(cursor: Point, pts: Seq<Point>)
    ensures
        walk(cursor, params(cursor, pts)) == pts,
    decreases pts.len(),
{
    if pts.len() == 0 {
        assert(walk(cursor, params(cursor, pts)) =~= pts);
    } else {
        let init = pts.drop_last();
        lemma_walk_params(cursor, init);
        lemma_params_len(cursor, init);
        let ps = params(cursor, pts);
        let from = last_or(cursor, init);
        assert(ps.take(ps.len() - 2) =~= params(cursor, init));
        assert(ps[ps.len() - 2] == zigzag(delta(from.x, pts.last().x)));
        assert(ps[ps.len() - 1] == zigzag(delta(from.y, pts.last().y)));
        assert(step(from, ps[ps.len() - 2], ps[ps.len() - 1]) == pts.last());
        assert(walk(cursor, ps) =~= pts);
    }
}

proof fn lemma_command_integer_parts(cmd: Command, count: u32)
    requires
        count <= MAX_COUNT,
    ensures
        command_integer(cmd, count) % 8 == cmd.id(),
        command_integer(cmd, count) / 8 == count,
{
}

proof fn lemma_replay_points_then(cursor: Point, pts: Seq<Point>, rest: Seq<u32>, acc: Seq<PathView>)
    requires
        points_fit(pts),
    ensures
        replay(encode_points(cursor, pts) + rest, cursor, acc) == replay(
            rest,
            last_or(cursor, pts),
            acc + single_paths(pts),
        ),
{
    if pts.len() == 0 {
        assert(encode_points(cursor, pts) + rest =~= rest);
        assert(acc + single_paths(pts) =~= acc);
    } else {
        let n = pts.len() as int;
        let seq = encode_points(cursor, pts) + rest;
        lemma_params_len(cursor, pts);
        lemma_walk_params(cursor, pts);
        lemma_command_integer_parts(Command::MoveTo, n as u32);
        assert(seq[0] == command_integer(Command::MoveTo, n as u32));
        assert(seq.subrange(1, 1 + 2 * n) =~= params(cursor, pts));
        assert(seq.skip(1 + 2 * n) =~= rest);
    }
}

proof fn lemma_replay_line_then(cursor: Point, pts: Seq<Point>, rest: Seq<u32>, acc: Seq<PathView>)
    requires
        points_fit(pts),
    ensures
        replay(encode_line(cursor, pts) + rest, cursor, acc) == replay(
            rest,
            cursor_after_line(cursor, pts),
            acc + paths_of_line(pts),
        ),
{
    if pts.len() < 2 {
        assert(encode_line(cursor, pts) + rest =~= rest);
        assert(acc + paths_of_line(pts) =~= acc);
    } else {
        let n = pts.len();
        let first = pts[0];
        let tail = pts.skip(1);
        let seq = encode_line(cursor, pts) + rest;
        let head = seq![first];
        lemma_command_integer_parts(Command::MoveTo, 1);
        lemma_command_integer_parts(Command::LineTo, (n - 1) as u32);
        lemma_params_len(first, tail);
        assert(head.drop_last() =~= Seq::<Point>::empty());
        assert(params(cursor, head.drop_last()) =~= Seq::<u32>::empty());
        assert(params(cursor, head) =~= param_pair(cursor, first));
        lemma_walk_params(cursor, head);
        assert(seq[0] == command_integer(Command::MoveTo, 1));
        assert(seq.subrange(1, 3) =~= param_pair(cursor, first));
        let seq1 = seq![command_integer(Command::LineTo, (n - 1) as u32)] + params(first, tail) + rest;
        assert(seq.skip(3) =~= seq1);
        let acc1 = acc + single_paths(head);
        assert(replay(seq, cursor, acc) == replay(seq1, first, acc1));
        lemma_walk_params(first, tail);
        assert(seq1[0] == command_integer(Command::LineTo, (n - 1) as u32));
        assert(seq1.subrange(1, 1 + 2 * (n - 1)) =~= params(first, tail));
        assert(seq1.skip(1 + 2 * (n - 1)) =~= rest);
        assert(acc1.last() == PathView { points: head, closed: false });
        assert(head + tail =~= pts);
        assert(acc1.drop_last().push(PathView { points: head + tail, closed: false }) =~= acc + paths_of_line(
            pts,
        ));
        assert(tail.last() == pts.last());
        assert(replay(seq1, first, acc1) == replay(rest, pts.last(), acc + paths_of_line(pts)));
    }
}

proof fn lemma_replay_ring_then(cursor: Point, pts: Seq<Point>, rest: Seq<u32>, acc: Seq<PathView>)
    requires
        points_fit(pts),
    ensures
        replay(encode_ring(cursor, pts) + rest, cursor, acc) == replay(
            rest,
            cursor_after_ring(cursor, pts),
            acc + paths_of_ring(pts),
        ),
{
    if pts.len() < 4 {
        assert(encode_ring(cursor, pts) + rest =~= rest);
        assert(acc + paths_of_ring(pts) =~= acc);
    } else {
        let kept = pts.drop_last();
        let close = seq![command_integer(Command::ClosePath, 1)];
        let seq1 = close + rest;
        assert(encode_ring(cursor, pts) + rest =~= encode_line(cursor, kept) + seq1);
        lemma_replay_line_then(cursor, kept, seq1, acc);
        let acc1 = acc + paths_of_line(kept);
        lemma_command_integer_parts(Command::ClosePath, 1);
        assert(seq1[0] == command_integer(Command::ClosePath, 1));
        assert(seq1.skip(1) =~= rest);
        assert(acc1.last() == PathView { points: kept, closed: false });
        assert(acc1.drop_last().push(PathView { points: kept, closed: true }) =~= acc + paths_of_ring(pts));
        assert(kept.last() == pts[pts.len() - 2]);
        assert(replay(seq1, kept.last(), acc1) == replay(rest, kept.last(), acc + paths_of_ring(pts)));
    }
}

proof fn lemma_replay_lines_then(cursor: Point, lines: Seq<Seq<Point>>, rest: Seq<u32>, acc: Seq<PathView>)
    requires
        lines_fit(lines),
    ensures
        replay(encode_lines(cursor, lines) + rest, cursor, acc) == replay(
            rest,
            cursor_after_lines(cursor, lines),
            acc + paths_of_lines(lines),
        ),
    decreases lines.len(),
{
    if lines.len() == 0 {
        assert(encode_lines(cursor, lines) + rest =~= rest);
        assert(acc + paths_of_lines(lines) =~= acc);
    } else {
        let init = lines.drop_last();
        let mid = cursor_after_lines(cursor, init);
        let tail = encode_line(mid, lines.last()) + rest;
        assert(lines_fit(init));
        assert(points_fit(lines[lines.len() - 1]));
        assert(encode_lines(cursor, lines) + rest =~= encode_lines(cursor, init) + tail);
        lemma_replay_lines_then(cursor, init, tail, acc);
        lemma_replay_line_then(mid, lines.last(), rest, acc + paths_of_lines(init));
        assert(acc + paths_of_lines(init) + paths_of_line(lines.last()) =~= acc + paths_of_lines(lines));
    }
}

proof fn lemma_replay_rings_then(cursor: Point, rings: Seq<Seq<Point>>, rest: Seq<u32>, acc: Seq<PathView>)
    requires
        lines_fit(rings),
    ensures
        replay(encode_rings(cursor, rings) + rest, cursor, acc) == replay(
            rest,
            cursor_after_rings(cursor, rings),
            acc + paths_of_rings(rings),
        ),
    decreases rings.len(),
{
    if rings.len() == 0 {
        assert(encode_rings(cursor, rings) + rest =~= rest);
        assert(acc + paths_of_rings(rings) =~= acc);
    } else {
        let init = rings.drop_last();
        let mid = cursor_after_rings(cursor, init);
        let tail = encode_ring(mid, rings.last()) + rest;
        assert(lines_fit(init));
        assert(points_fit(rings[rings.len() - 1]));
        assert(encode_rings(cursor, rings) + rest =~= encode_rings(cursor, init) + tail);
        lemma_replay_rings_then(cursor, init, tail, acc);
        lemma_replay_ring_then(mid, rings.last(), rest, acc + paths_of_rings(init));
        assert(acc + paths_of_rings(init) + paths_of_ring(rings.last()) =~= acc + paths_of_rings(rings));
    }
}

proof fn lemma_replay_polygons_then(
    cursor: Point,
    polys: Seq<Seq<Seq<Point>>>,
    rest: Seq<u32>,
    acc: Seq<PathView>,
)
    requires
        polygons_fit(polys),
    ensures
        replay(encode_polygons(cursor, polys) + rest, cursor, acc) == replay(
            rest,
            cursor_after_polygons(cursor, polys),
            acc + paths_of_polygons(polys),
        ),
    decreases polys.len(),
{
    if polys.len() == 0 {
        assert(encode_polygons(cursor, polys) + rest =~= rest);
        assert(acc + paths_of_polygons(polys) =~= acc);
    } else {
        let init = polys.drop_last();
        let mid = cursor_after_polygons(cursor, init);
        let tail = encode_rings(mid, polys.last()) + rest;
        assert(polygons_fit(init));
        assert(lines_fit(polys[polys.len() - 1]));
        assert(encode_polygons(cursor, polys) + rest =~= encode_polygons(cursor, init) + tail);
        lemma_replay_polygons_then(cursor, init, tail, acc);
        lemma_replay_rings_then(mid, polys.last(), rest, acc + paths_of_polygons(init));
        assert(acc + paths_of_polygons(init) + paths_of_rings(polys.last()) =~= acc + paths_of_polygons(polys));
    }
}

/// Replaying the commands of a point or a list of points gives back each
/// point, in order, as a path of its own.
pub proof fn lemma_replay_points(cursor: Point, pts: Seq<Point>)
    requires
        points_fit(pts),
    ensures
        replay(encode_points(cursor, pts), cursor, Seq::empty()) == Some(single_paths(pts)),
{
    lemma_replay_points_then(cursor, pts, Seq::empty(), Seq::empty());
    assert(encode_points(cursor, pts) + Seq::<u32>::empty() =~= encode_points(cursor, pts));
    assert(Seq::<PathView>::empty() + single_paths(pts) =~= single_paths(pts));
}

/// Replaying the commands of a line of two or more points gives back the
/// line, point for point, as one open path.
pub proof fn lemma_replay_line(cursor: Point, pts: Seq<Point>)
    requires
        points_fit(pts),
    ensures
        replay(encode_line(cursor, pts), cursor, Seq::empty()) == Some(paths_of_line(pts)),
        pts.len() >= 2 ==> paths_of_line(pts) == seq![PathView { points: pts, closed: false }],
{
    lemma_replay_line_then(cursor, pts, Seq::empty(), Seq::empty());
    assert(encode_line(cursor, pts) + Seq::<u32>::empty() =~= encode_line(cursor, pts));
    assert(Seq::<PathView>::empty() + paths_of_line(pts) =~= paths_of_line(pts));
}

/// Replaying the commands of several lines gives back, in order, every line of
/// two or more points.
pub proof fn lemma_replay_lines(cursor: Point, lines: Seq<Seq<Point>>)
    requires
        lines_fit(lines),
    ensures
        replay(encode_lines(cursor, lines), cursor, Seq::empty()) == Some(paths_of_lines(lines)),
{
    lemma_replay_lines_then(cursor, lines, Seq::empty(), Seq::empty());
    assert(encode_lines(cursor, lines) + Seq::<u32>::empty() =~= encode_lines(cursor, lines));
    assert(Seq::<PathView>::empty() + paths_of_lines(lines) =~= paths_of_lines(lines));
}

/// Replaying the commands of a polygon gives back, in order, every ring of
/// four or more points as a closed path of all its points but the last.
pub proof fn lemma_replay_rings(cursor: Point, rings: Seq<Seq<Point>>)
    requires
        lines_fit(rings),
    ensures
        replay(encode_rings(cursor, rings), cursor, Seq::empty()) == Some(paths_of_rings(rings)),
{
    lemma_replay_rings_then(cursor, rings, Seq::empty(), Seq::empty());
    assert(encode_rings(cursor, rings) + Seq::<u32>::empty() =~= encode_rings(cursor, rings));
    assert(Seq::<PathView>::empty() + paths_of_rings(rings) =~= paths_of_rings(rings));
}

/// Replaying the commands of several polygons gives back the rings of all of
/// them, as [`lemma_replay_rings`] says of one.
pub proof fn lemma_replay_polygons(cursor: Point, polys: Seq<Seq<Seq<Point>>>)
    requires
        polygons_fit(polys),
    ensures
        replay(encode_polygons(cursor, polys), cursor, Seq::empty()) == Some(paths_of_polygons(polys)),
{
    lemma_replay_polygons_then(cursor, polys, Seq::empty(), Seq::empty());
    assert(encode_polygons(cursor, polys) + Seq::<u32>::empty() =~= encode_polygons(cursor, polys));
    assert(Seq::<PathView>::empty() + paths_of_polygons(polys) =~= paths_of_polygons(polys));
}

proof fn lemma_walk_len(cursor: Point, ps: Seq<u32>)
    ensures
        walk(cursor, ps).len() == ps.len() / 2,
    decreases ps.len(),
{
    if ps.len() >= 2 {
        lemma_walk_len(cursor, ps.take(ps.len() - 2));
    }
}

/// The views of a list of paths.
pub open spec fn path_views(paths: Seq<Path>) -> Seq<PathView> {
    paths.map_values(|p: Path| p@)
}

/// Follows `count` parameter pairs of `seq`, the first at index `start`.
fn walk_run(seq: &Vec<u32>, start: usize, count: usize, pen: Point) -> (pts: Vec<Point>)
    requires
        start + 2 * count <= seq@.len(),
    ensures
        pts@ == walk(pen, seq@.subrange(start as int, start + 2 * count)),
{
    let ghost ps = seq@.subrange(start as int, start + 2 * count);
    let mut pts: Vec<Point> = Vec::new();
    let mut at: Point = pen;
    let mut k: usize = 0;
    let n: usize = seq.len();
    assert(pts@ =~= walk(pen, ps.take(0)));
    while k < count
        invariant
            k <= count,
            n == seq@.len(),
            start + 2 * count <= seq@.len(),
            ps == seq@.subrange(start as int, start + 2 * count),
            pts@ == walk(pen, ps.take(2 * k)),
            at == last_or(pen, pts@),
        decreases count - k,
    {
        let zx: u32 = seq[start + 2 * k];
        let zy: u32 = seq[start + 2 * k + 1];
        let next = Point {
            x: at.x.wrapping_add(ParameterInteger(zx).value()),
            y: at.y.wrapping_add(ParameterInteger(zy).value()),
        };
        proof {
            let cur = ps.take(2 * k + 2);
            assert(cur.take(cur.len() - 2) =~= ps.take(2 * k));
            assert(cur[cur.len() - 2] == zx);
            assert(cur[cur.len() - 1] == zy);
            assert(next == step(at, zx, zy));
        }
        pts.push(next);
        at = next;
        k += 1;
    }
    assert(ps.take(2 * count) =~= ps);
    pts
}

impl CommandSequence {
    /// Replays the sequence with the pen at the origin and returns the paths
    /// it draws, or `None` if it is no command sequence.
    pub fn decode(&self) -> (r: Option<Vec<Path>>)
        ensures
            r is Some <==> replay(self@, origin(), Seq::empty()) is Some,
            r is Some ==> path_views(r.unwrap()@) == replay(self@, origin(), Seq::empty()).unwrap(),
    {
        let seq = &self.0;
        let n: usize = seq.len();
        let mut pos: usize = 0;
        let mut pen = Point { x: 0, y: 0 };
        let mut paths: Vec<Path> = Vec::new();
        assert(seq@.skip(0) =~= seq@);
        assert(path_views(paths@) =~= Seq::<PathView>::empty());
        while pos < n
            invariant
                pos <= n,
                n == seq@.len(),
                seq@ == self@,
                replay(self@, origin(), Seq::empty()) == replay(seq@.skip(pos as int), pen, path_views(paths@)),
            decreases n - pos,
        {
            let ghost rem = seq@.skip(pos as int);
            let ghost before = path_views(paths@);
            let ci = CommandInteger(seq[pos]);
            let id: u32 = ci.id();
            let count: u32 = ci.count();
            assert(rem[0] == seq@[pos as int]);
            let room: usize = (n - pos - 1) / 2;
            if id == 1 {
                if count == 0 || room < count as usize {
                    return None;
                }
                let c: usize = count as usize;
                let pts = walk_run(seq, pos + 1, c, pen);
                assert(rem.subrange(1, 1 + 2 * c) =~= seq@.subrange(pos + 1, pos + 1 + 2 * c));
                assert(rem.skip(1 + 2 * c) =~= seq@.skip(pos + 1 + 2 * c));
                proof {
                    lemma_walk_len(pen, rem.subrange(1, 1 + 2 * c));
                }
                let mut k: usize = 0;
                assert(before + single_paths(pts@.take(0)) =~= before);
                while k < c
                    invariant
                        k <= c,
                        c == pts@.len(),
                        path_views(paths@) == before + single_paths(pts@.take(k as int)),
                    decreases c - k,
                {
                    let p: Point = pts[k];
                    let single = Path { points: vec![p], closed: false };
                    assert(single.points@ =~= seq![p]);
                    assert(single@ == PathView { points: seq![p], closed: false });
                    let ghost drawn = paths@;
                    paths.push(single);
                    k += 1;
                    proof {
                        let sp = PathView { points: seq![p], closed: false };
                        assert(path_views(paths@) =~= path_views(drawn).push(sp));
                        assert(pts@.take(k as int) =~= pts@.take(k - 1).push(p));
                        assert(single_paths(pts@.take(k as int)) =~= single_paths(pts@.take(k - 1)).push(sp));
                        assert(path_views(paths@) =~= before + single_paths(pts@.take(k as int)));
                    }
                }
                assert(pts@.take(c as int) =~= pts@);
                pen = pts[c - 1];
                pos = pos + 1 + 2 * c;
            } else if id == 2 {
                if count == 0 || room < count as usize || paths.len() == 0 {
                    return None;
                }
                let c: usize = count as usize;
                let mut cur = paths.pop().unwrap();
                assert(cur@ == before.last());
                assert(path_views(paths@) =~= before.drop_last());
                if cur.closed {
                    return None;
                }
                let mut pts = walk_run(seq, pos + 1, c, pen);
                assert(rem.subrange(1, 1 + 2 * c) =~= seq@.subrange(pos + 1, pos + 1 + 2 * c));
                assert(rem.skip(1 + 2 * c) =~= seq@.skip(pos + 1 + 2 * c));
                proof {
                    lemma_walk_len(pen, rem.subrange(1, 1 + 2 * c));
                }
                let ghost walked = pts@;
                pen = pts[c - 1];
                cur.points.append(&mut pts);
                paths.push(cur);
                assert(path_views(paths@) =~= before.drop_last().push(
                    PathView { points: before.last().points + walked, closed: false },
                ));
                pos = pos + 1 + 2 * c;
            } else if id == 7 {
                if count != 1 || paths.len() == 0 {
                    return None;
                }
                let mut cur = paths.pop().unwrap();
                assert(cur@ == before.last());
                assert(path_views(paths@) =~= before.drop_last());
                if cur.closed {
                    return None;
                }
                cur.closed = true;
                paths.push(cur);
                assert(path_views(paths@) =~= before.drop_last().push(
                    PathView { points: before.last().points, closed: true },
                ));
                assert(rem.skip(1) =~= seq@.skip(pos + 1));
                pos = pos + 1;
            } else {
                return None;
            }
        }
        assert(seq@.skip(n as int) =~= Seq::<u32>::empty());
        Some(paths)
    }
}

} // verus!
