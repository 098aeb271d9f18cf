use t_rex_core::geom;
use t_rex_core::grid::Extent;
use t_rex_core::screen;
use t_rex_core::screen::ScreenGeom;

fn unit_extent() -> Extent {
    Extent { minx: 0, miny: 0, maxx: 4096, maxy: 4096 }
}

fn project(extent: &Extent, reverse_y: bool, tile_size: u32, x: i64, y: i64) -> screen::Point {
    screen::Point::from_geom(extent, reverse_y, tile_size, &geom::Point { x, y })
}

#[test]
fn extent_validity() {
    assert!(unit_extent().is_valid());
    assert!(!Extent { minx: 0, miny: 0, maxx: 0, maxy: 10 }.is_valid());
    assert!(!Extent { minx: 0, miny: 5, maxx: 10, maxy: 5 }.is_valid());
    assert!(!Extent { minx: 3, miny: 0, maxx: 2, maxy: 10 }.is_valid());
}

#[test]
fn point_in_the_middle_of_the_tile() {
    let p = project(&unit_extent(), false, 4096, 2048, 2048);
    assert_eq!(p, screen::Point { x: 2048, y: 2048 });
}

#[test]
fn scaling_rounds_to_the_nearest_pixel() {
    let extent = Extent { minx: 0, miny: 0, maxx: 100, maxy: 100 };
    assert_eq!(project(&extent, false, 4096, 50, 50), screen::Point { x: 2048, y: 2048 });
    // 1 * 4096 / 100 = 40.96, 99 * 4096 / 100 = 4055.04
    assert_eq!(project(&extent, false, 4096, 1, 99), screen::Point { x: 41, y: 4055 });
    // 3 * 4096 / 100 = 122.88, 33 * 4096 / 100 = 1351.68
    assert_eq!(project(&extent, false, 4096, 3, 33), screen::Point { x: 123, y: 1352 });
}

#[test]
fn scaling_uses_the_offset_from_the_extent_minimum() {
    let extent = Extent { minx: 1000, miny: -500, maxx: 2000, maxy: 500 };
    assert_eq!(project(&extent, false, 256, 1000, -500), screen::Point { x: 0, y: 0 });
    assert_eq!(project(&extent, false, 256, 2000, 500), screen::Point { x: 256, y: 256 });
    assert_eq!(project(&extent, false, 256, 1500, 0), screen::Point { x: 128, y: 128 });
}

#[test]
fn halves_round_away_from_zero() {
    let extent = Extent { minx: 0, miny: 0, maxx: 2, maxy: 2 };
    assert_eq!(project(&extent, false, 1, 1, 3), screen::Point { x: 1, y: 2 });
    assert_eq!(project(&extent, false, 1, -1, -3), screen::Point { x: -1, y: -2 });
}

#[test]
fn points_outside_the_extent_pass_through() {
    let extent = Extent { minx: 0, miny: 0, maxx: 100, maxy: 100 };
    assert_eq!(project(&extent, false, 4096, -1, 200), screen::Point { x: -41, y: 8192 });
}

#[test]
fn reverse_y_counts_from_the_opposite_border() {
    let extent = Extent { minx: 0, miny: 0, maxx: 100, maxy: 100 };
    assert_eq!(project(&extent, true, 4096, 0, 0), screen::Point { x: 0, y: 4096 });
    assert_eq!(project(&extent, true, 4096, 100, 100), screen::Point { x: 4096, y: 0 });
    assert_eq!(project(&extent, true, 4096, 50, 25), screen::Point { x: 2048, y: 3072 });
}

#[test]
fn reverse_y_saturates_at_zero() {
    let extent = Extent { minx: 0, miny: 0, maxx: 100, maxy: 100 };
    assert_eq!(project(&extent, true, 4096, 0, 200).y, 0);
    assert_eq!(project(&extent, true, 4096, 0, i64::MAX).y, 0);
    // below the extent the reversed row lies beyond the tile, and is kept
    assert_eq!(project(&extent, true, 4096, 0, -100).y, 8192);
}

#[test]
fn reverse_y_is_never_negative_inside_the_extent() {
    let extent = Extent { minx: -7, miny: -13, maxx: 29, maxy: 31 };
    for tile_size in [1u32, 2, 255, 256, 4096] {
        for y in -13..=31 {
            let p = project(&extent, true, tile_size, 0, y);
            assert!(p.y >= 0);
            assert!(p.y <= tile_size as i32);
        }
    }
}

#[test]
fn pixel_coordinates_are_limited_to_i32() {
    let extent = Extent { minx: 0, miny: 0, maxx: 1, maxy: 1 };
    let p = project(&extent, false, u32::MAX, 10, -10);
    assert_eq!(p, screen::Point { x: i32::MAX, y: i32::MIN });
    let q = project(&extent, true, u32::MAX, 0, i64::MIN);
    assert_eq!(q.y, i32::MAX);
    let far = Extent { minx: i64::MIN, miny: i64::MIN, maxx: i64::MAX, maxy: i64::MAX };
    let r = project(&far, false, 4096, i64::MAX, i64::MIN);
    assert_eq!(r, screen::Point { x: 4096, y: 0 });
}

#[test]
fn projection_can_be_reversed_within_half_a_pixel() {
    let extent = Extent { minx: -1000, miny: 250, maxx: 3000, maxy: 1250 };
    let w = (extent.maxx - extent.minx) as i128;
    let h = (extent.maxy - extent.miny) as i128;
    for tile_size in [256u32, 4096] {
        let t = tile_size as i128;
        let mut x = extent.minx;
        while x <= extent.maxx {
            let mut y = extent.miny;
            while y <= extent.maxy {
                let s = project(&extent, false, tile_size, x, y);
                let ex = 2 * (s.x as i128 * w - (x - extent.minx) as i128 * t);
                let ey = 2 * (s.y as i128 * h - (y - extent.miny) as i128 * t);
                assert!(-w <= ex && ex <= w);
                assert!(-h <= ey && ey <= h);
                let r = project(&extent, true, tile_size, x, y);
                assert_eq!(r.x, s.x);
                assert_eq!(r.y, tile_size as i32 - s.y);
                y += 37;
            }
            x += 41;
        }
    }
}

#[test]
fn world_units_as_fine_as_pixels_are_recovered_exactly() {
    let extent = Extent { minx: 10, miny: 20, maxx: 74, maxy: 84 };
    for x in 10..=74 {
        let s = project(&extent, false, 4096, x, 20);
        // 64 pixels a world unit
        assert_eq!(s.x as i64, (x - 10) * 64);
        assert_eq!(10 + (s.x as i64 + 32) / 64, x);
    }
}

#[test]
fn multi_geometries_keep_order_and_nesting() {
    let extent = Extent { minx: 0, miny: 0, maxx: 10, maxy: 10 };
    let line_a = geom::LineString { points: vec![geom::Point { x: 0, y: 0 }, geom::Point { x: 10, y: 5 }] };
    let line_b = geom::LineString { points: vec![geom::Point { x: 5, y: 5 }] };
    let s = screen::LineString::from_geom(&extent, false, 100, &line_a);
    assert_eq!(s.points, vec![screen::Point { x: 0, y: 0 }, screen::Point { x: 100, y: 50 }]);

    let mp = geom::MultiPoint { points: vec![geom::Point { x: 1, y: 2 }, geom::Point { x: 3, y: 4 }] };
    let s = screen::MultiPoint::from_geom(&extent, true, 100, &mp);
    assert_eq!(s.points, vec![screen::Point { x: 10, y: 80 }, screen::Point { x: 30, y: 60 }]);

    let ml = geom::MultiLineString { lines: vec![line_a.clone(), line_b.clone()] };
    let s = screen::MultiLineString::from_geom(&extent, false, 100, &ml);
    assert_eq!(s.lines.len(), 2);
    assert_eq!(s.lines[0].points, vec![screen::Point { x: 0, y: 0 }, screen::Point { x: 100, y: 50 }]);
    assert_eq!(s.lines[1].points, vec![screen::Point { x: 50, y: 50 }]);

    let poly = geom::Polygon { rings: vec![line_b.clone(), line_a.clone()] };
    let s = screen::Polygon::from_geom(&extent, false, 100, &poly);
    assert_eq!(s.rings.len(), 2);
    assert_eq!(s.rings[0].points, vec![screen::Point { x: 50, y: 50 }]);
    assert_eq!(s.rings[1].points.len(), 2);

    let mpoly = geom::MultiPolygon { polygons: vec![poly.clone(), geom::Polygon { rings: vec![] }, poly] };
    let s = screen::MultiPolygon::from_geom(&extent, false, 100, &mpoly);
    assert_eq!(s.polygons.len(), 3);
    assert_eq!(s.polygons[0].rings.len(), 2);
    assert_eq!(s.polygons[1].rings.len(), 0);
    assert_eq!(s.polygons[2].rings[1].points[1], screen::Point { x: 100, y: 50 });
}

#[test]
fn empty_geometries_project_to_empty_geometries() {
    let extent = unit_extent();
    let s = screen::MultiPoint::from_geom(&extent, false, 4096, &geom::MultiPoint { points: vec![] });
    assert!(s.points.is_empty());
    let s = screen::MultiPolygon::from_geom(&extent, false, 4096, &geom::MultiPolygon { polygons: vec![] });
    assert!(s.polygons.is_empty());
}
