use t_rex_core::geom_encoder::{Command, CommandInteger, CommandSequence, EncodableGeom, ParameterInteger, Path};
use t_rex_core::screen::{LineString, MultiLineString, MultiPoint, MultiPolygon, Point, Polygon};

fn pt(x: i32, y: i32) -> Point {
    Point { x, y }
}

fn line(points: &[(i32, i32)]) -> LineString {
    LineString { points: points.iter().map(|&(x, y)| pt(x, y)).collect() }
}

#[test]
fn command_integers_pack_id_and_count() {
    assert_eq!(CommandInteger::new(Command::MoveTo, 1).0, 9);
    assert_eq!(CommandInteger::new(Command::MoveTo, 120).0, 961);
    assert_eq!(CommandInteger::new(Command::LineTo, 1).0, 10);
    assert_eq!(CommandInteger::new(Command::LineTo, 3).0, 26);
    assert_eq!(CommandInteger::new(Command::ClosePath, 1).0, 15);
    assert_eq!(CommandInteger::new(Command::LineTo, 0x1FFF_FFFF).0, 0xFFFF_FFFA);
}

#[test]
fn command_integers_unpack() {
    let ci = CommandInteger(961);
    assert_eq!(ci.id(), 1);
    assert_eq!(ci.count(), 120);
    let ci = CommandInteger(15);
    assert_eq!(ci.id(), 7);
    assert_eq!(ci.count(), 1);
    assert_eq!(Command::MoveTo.code(), 1);
    assert_eq!(Command::LineTo.code(), 2);
    assert_eq!(Command::ClosePath.code(), 7);
}

#[test]
fn parameter_integers_are_zigzag() {
    assert_eq!(ParameterInteger::from(0).0, 0);
    assert_eq!(ParameterInteger::from(-1).0, 1);
    assert_eq!(ParameterInteger::from(1).0, 2);
    assert_eq!(ParameterInteger::from(-2).0, 3);
    assert_eq!(ParameterInteger::from(2048).0, 4096);
    assert_eq!(ParameterInteger::from(i32::MAX).0, 4294967294);
    assert_eq!(ParameterInteger::from(i32::MIN).0, 4294967295);
}

#[test]
fn parameter_integers_match_the_shift_and_xor_form() {
    for n in [0, 1, -1, 2, -2, 25, -17, 4096, -4096, i32::MAX, i32::MIN, i32::MAX - 1, i32::MIN + 1] {
        assert_eq!(ParameterInteger::from(n).0, ((n << 1) ^ (n >> 31)) as u32);
        assert_eq!(ParameterInteger::from(n).value(), n);
    }
    for z in [0u32, 1, 2, 3, 50, 34, u32::MAX, u32::MAX - 1] {
        assert_eq!(ParameterInteger::from(ParameterInteger(z).value()).0, z);
    }
}

#[test]
fn single_point_in_the_middle() {
    assert_eq!(pt(2048, 2048).encode().0, vec![9, 4096, 4096]);
    assert_eq!(pt(2048, 2048).encode().0, vec![1 | (1 << 3), 2048 << 1, 2048 << 1]);
}

#[test]
fn point_commands() {
    assert_eq!(pt(25, 17).encode().0, vec![9, 50, 34]);
    assert_eq!(pt(0, 0).encode().0, vec![9, 0, 0]);
    assert_eq!(pt(-1, -2).encode().0, vec![9, 1, 3]);
    assert_eq!(pt(25, 17).encode_from(&pt(20, 20)).0, vec![9, 10, 5]);
}

#[test]
fn multipoint_commands() {
    let mp = MultiPoint { points: vec![pt(5, 7), pt(3, 2)] };
    assert_eq!(mp.encode().0, vec![17, 10, 14, 3, 9]);
    let none = MultiPoint { points: vec![] };
    assert!(none.encode().is_empty());
}

#[test]
fn linestring_commands() {
    let l = line(&[(2, 2), (2, 10), (10, 10)]);
    assert_eq!(l.encode().0, vec![9, 4, 4, 18, 0, 16, 16, 0]);
    let two = line(&[(1, 1), (3, 5)]);
    assert_eq!(two.encode().0, vec![9, 2, 2, 10, 4, 8]);
}

#[test]
fn short_lines_are_dropped() {
    assert!(line(&[]).encode().is_empty());
    assert!(line(&[(5, 5)]).encode().is_empty());
    let ml = MultiLineString { lines: vec![line(&[(5, 5)]), line(&[])] };
    assert!(ml.encode().is_empty());
}

#[test]
fn multilinestring_commands() {
    let ml = MultiLineString { lines: vec![line(&[(2, 2), (2, 10), (10, 10)]), line(&[(1, 1), (3, 5)])] };
    assert_eq!(ml.encode().0, vec![9, 4, 4, 18, 0, 16, 16, 0, 9, 17, 17, 10, 4, 8]);
}

#[test]
fn dropped_line_leaves_the_pen_where_it_was() {
    let ml = MultiLineString {
        lines: vec![line(&[(2, 2), (2, 10), (10, 10)]), line(&[(100, 100)]), line(&[(1, 1), (3, 5)])],
    };
    assert_eq!(ml.encode().0, vec![9, 4, 4, 18, 0, 16, 16, 0, 9, 17, 17, 10, 4, 8]);
}

#[test]
fn polygon_commands() {
    let p = Polygon { rings: vec![line(&[(3, 6), (8, 12), (20, 34), (3, 6)])] };
    assert_eq!(p.encode().0, vec![9, 6, 12, 18, 10, 12, 24, 44, 15]);
}

#[test]
fn unit_square_ring_of_four_points() {
    let p = Polygon { rings: vec![line(&[(0, 0), (1, 0), (1, 1), (0, 0)])] };
    let seq = p.encode().0;
    assert_eq!(seq, vec![9, 0, 0, 18, 2, 0, 0, 2, 15]);
    let commands: Vec<(u32, u32)> = vec![
        (CommandInteger(seq[0]).id(), CommandInteger(seq[0]).count()),
        (CommandInteger(seq[3]).id(), CommandInteger(seq[3]).count()),
        (CommandInteger(seq[8]).id(), CommandInteger(seq[8]).count()),
    ];
    assert_eq!(commands, vec![(1, 1), (2, 2), (7, 1)]);
    // the last point of a ring is left to ClosePath whatever it is
    let open = Polygon { rings: vec![line(&[(0, 0), (1, 0), (1, 1), (0, 1)])] };
    assert_eq!(open.encode().0, vec![9, 0, 0, 18, 2, 0, 0, 2, 15]);
}

#[test]
fn short_rings_are_dropped() {
    let p = Polygon { rings: vec![line(&[(0, 0), (1, 0), (0, 0)])] };
    assert!(p.encode().is_empty());
    let p = Polygon { rings: vec![line(&[(0, 0), (1, 0), (0, 0)]), line(&[(3, 6), (8, 12), (20, 34), (3, 6)])] };
    assert_eq!(p.encode().0, vec![9, 6, 12, 18, 10, 12, 24, 44, 15]);
    let p = Polygon { rings: vec![] };
    assert!(p.encode().is_empty());
}

#[test]
fn multipolygon_commands() {
    let mp = MultiPolygon {
        polygons: vec![
            Polygon { rings: vec![line(&[(0, 0), (10, 0), (10, 10), (0, 10), (0, 0)])] },
            Polygon {
                rings: vec![
                    line(&[(11, 11), (20, 11), (20, 20), (11, 20), (11, 11)]),
                    line(&[(13, 13), (13, 17), (17, 17), (17, 13), (13, 13)]),
                ],
            },
        ],
    };
    assert_eq!(
        mp.encode().0,
        vec![
            9, 0, 0, 26, 20, 0, 0, 20, 19, 0, 15, 9, 22, 2, 26, 18, 0, 0, 18, 17, 0, 15, 9, 4, 13, 26, 0, 8, 8, 0,
            0, 7, 15
        ]
    );
}

#[test]
fn every_geometry_of_ordinary_size_can_be_encoded() {
    assert!(pt(1, 2).can_encode());
    assert!(MultiPoint { points: vec![pt(1, 2)] }.can_encode());
    assert!(line(&[(1, 2), (3, 4)]).can_encode());
    assert!(MultiLineString { lines: vec![line(&[(1, 2), (3, 4)])] }.can_encode());
    assert!(Polygon { rings: vec![line(&[(1, 2), (3, 4)])] }.can_encode());
    assert!(MultiPolygon { polygons: vec![Polygon { rings: vec![line(&[(1, 2), (3, 4)])] }] }.can_encode());
}

#[test]
fn command_sequence_operations() {
    let mut a = CommandSequence::new();
    assert!(a.is_empty());
    a.push(9);
    a.push(4);
    let mut b = CommandSequence(vec![4, 15]);
    a.append(&mut b);
    assert_eq!(a.len(), 4);
    assert!(b.is_empty());
    assert!(!a.is_empty());
    assert_eq!(a.vec(), vec![9, 4, 4, 15]);
}

fn open_path(points: &[(i32, i32)]) -> Path {
    Path { points: points.iter().map(|&(x, y)| pt(x, y)).collect(), closed: false }
}

fn closed_path(points: &[(i32, i32)]) -> Path {
    Path { points: points.iter().map(|&(x, y)| pt(x, y)).collect(), closed: true }
}

#[test]
fn replaying_points_gives_the_points() {
    let p = pt(25, 17);
    assert_eq!(p.encode().decode(), Some(vec![open_path(&[(25, 17)])]));
    let mp = MultiPoint { points: vec![pt(5, 7), pt(3, 2), pt(-4, 0)] };
    assert_eq!(
        mp.encode().decode(),
        Some(vec![open_path(&[(5, 7)]), open_path(&[(3, 2)]), open_path(&[(-4, 0)])])
    );
}

#[test]
fn replaying_lines_gives_the_lines() {
    let l = line(&[(2, 2), (2, 10), (10, 10)]);
    assert_eq!(l.encode().decode(), Some(vec![open_path(&[(2, 2), (2, 10), (10, 10)])]));
    let ml = MultiLineString { lines: vec![line(&[(2, 2), (2, 10), (10, 10)]), line(&[(7, 7)]), line(&[(1, 1), (3, 5)])] };
    assert_eq!(
        ml.encode().decode(),
        Some(vec![open_path(&[(2, 2), (2, 10), (10, 10)]), open_path(&[(1, 1), (3, 5)])])
    );
}

#[test]
fn replaying_polygons_gives_the_rings_without_their_closing_point() {
    let p = Polygon { rings: vec![line(&[(3, 6), (8, 12), (20, 34), (3, 6)])] };
    assert_eq!(p.encode().decode(), Some(vec![closed_path(&[(3, 6), (8, 12), (20, 34)])]));
    let mp = MultiPolygon {
        polygons: vec![
            Polygon { rings: vec![line(&[(0, 0), (10, 0), (10, 10), (0, 10), (0, 0)])] },
            Polygon {
                rings: vec![
                    line(&[(11, 11), (20, 11), (20, 20), (11, 20), (11, 11)]),
                    line(&[(1, 1), (2, 2), (1, 1)]),
                    line(&[(13, 13), (13, 17), (17, 17), (17, 13), (13, 13)]),
                ],
            },
        ],
    };
    assert_eq!(
        mp.encode().decode(),
        Some(vec![
            closed_path(&[(0, 0), (10, 0), (10, 10), (0, 10)]),
            closed_path(&[(11, 11), (20, 11), (20, 20), (11, 20)]),
            closed_path(&[(13, 13), (13, 17), (17, 17), (17, 13)]),
        ])
    );
}

#[test]
fn replaying_survives_the_widest_steps() {
    let l = line(&[(i32::MIN, i32::MAX), (i32::MAX, i32::MIN), (0, -1), (i32::MIN, i32::MIN)]);
    let seq = l.encode();
    assert_eq!(
        seq.decode(),
        Some(vec![open_path(&[(i32::MIN, i32::MAX), (i32::MAX, i32::MIN), (0, -1), (i32::MIN, i32::MIN)])])
    );
}

#[test]
fn empty_sequence_replays_to_no_path() {
    assert_eq!(CommandSequence::new().decode(), Some(vec![]));
}

#[test]
fn malformed_sequences_are_refused() {
    // unknown command id
    assert_eq!(CommandSequence(vec![0]).decode(), None);
    assert_eq!(CommandSequence(vec![11, 0, 0]).decode(), None);
    // run of length zero
    assert_eq!(CommandSequence(vec![1]).decode(), None);
    assert_eq!(CommandSequence(vec![9, 0, 0, 2]).decode(), None);
    // parameters end early
    assert_eq!(CommandSequence(vec![9, 4]).decode(), None);
    assert_eq!(CommandSequence(vec![17, 4, 4, 2]).decode(), None);
    assert_eq!(CommandSequence(vec![9, 4, 4, 18, 0, 16]).decode(), None);
    // LineTo or ClosePath without an open path
    assert_eq!(CommandSequence(vec![10, 2, 2]).decode(), None);
    assert_eq!(CommandSequence(vec![15]).decode(), None);
    assert_eq!(CommandSequence(vec![9, 4, 4, 10, 2, 2, 15, 15]).decode(), None);
    assert_eq!(CommandSequence(vec![9, 4, 4, 10, 2, 2, 15, 10, 2, 2]).decode(), None);
    // ClosePath must have a run of one
    assert_eq!(CommandSequence(vec![9, 4, 4, 10, 2, 2, 23]).decode(), None);
}

#[test]
fn hand_written_sequence_replays() {
    // MoveTo(1,1) LineTo(+3,+4) ClosePath MoveTo(+1,-1)
    let seq = CommandSequence(vec![9, 2, 2, 10, 6, 8, 15, 9, 2, 1]);
    assert_eq!(seq.decode(), Some(vec![closed_path(&[(1, 1), (4, 5)]), open_path(&[(5, 4)])]));
}
