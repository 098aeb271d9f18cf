use t_rex_core::feature::{Feature, FeatureAttr, FeatureAttrValType};
use t_rex_core::geom;
use t_rex_core::geom::GeometryType;
use t_rex_core::grid::Extent;
use t_rex_core::layer::Layer;
use t_rex_core::tile::Tile;
use t_rex_core::vector_tile;
use t_rex_core::vector_tile::{GeomType, Value};

fn extent() -> Extent {
    Extent { minx: 0, miny: 0, maxx: 4096, maxy: 4096 }
}

fn config(name: &str) -> Layer {
    Layer {
        name: name.to_string(),
        geometry_field: Some("geom".to_string()),
        geometry_type: Some("POINT".to_string()),
        fid_field: Some("id".to_string()),
        tile_size: 4096,
    }
}

enum Shape {
    Point(i64, i64),
    Line(Vec<(i64, i64)>),
    Ring(Vec<(i64, i64)>),
    Collection,
    Missing,
}

struct TestFeature {
    fid: Option<u64>,
    attrs: Vec<(String, FeatureAttrValType)>,
    shape: Shape,
}

fn points(ps: &[(i64, i64)]) -> Vec<geom::Point> {
    ps.iter().map(|&(x, y)| geom::Point { x, y }).collect()
}

impl Feature for TestFeature {
    fn fid(&self) -> Option<u64> {
        self.fid
    }

    fn attributes(&self) -> Vec<FeatureAttr> {
        self.attrs.iter().map(|(k, v)| FeatureAttr { key: k.clone(), value: v.clone() }).collect()
    }

    fn geometry(&self) -> Result<GeometryType, String> {
        match &self.shape {
            Shape::Point(x, y) => Ok(GeometryType::Point(geom::Point { x: *x, y: *y })),
            Shape::Line(ps) => Ok(GeometryType::LineString(geom::LineString { points: points(ps) })),
            Shape::Ring(ps) => {
                Ok(GeometryType::Polygon(geom::Polygon { rings: vec![geom::LineString { points: points(ps) }] }))
            }
            Shape::Collection => Ok(GeometryType::GeometryCollection(geom::GeometryCollection {
                geometries: vec![GeometryType::Point(geom::Point { x: 1, y: 1 })],
            })),
            Shape::Missing => Err("no geometry".to_string()),
        }
    }
}

fn named(name: &str, x: i64, y: i64) -> TestFeature {
    TestFeature {
        fid: None,
        attrs: vec![("name".to_string(), FeatureAttrValType::String(name.to_string()))],
        shape: Shape::Point(x, y),
    }
}

#[test]
fn new_tile_is_empty() {
    let e = extent();
    let tile = Tile::new(&e, true);
    assert!(tile.mvt_tile.layers.is_empty());
    assert_eq!(*tile.extent, e);
    assert!(tile.reverse_y);
}

#[test]
fn new_layer_takes_name_and_size() {
    let e = extent();
    let mut tile = Tile::new(&e, false);
    let mut cfg = config("roads");
    cfg.tile_size = 512;
    let l = tile.new_layer(&cfg);
    assert_eq!(l.version, 2);
    assert_eq!(l.name, "roads");
    assert_eq!(l.extent, 512);
    assert!(l.keys.is_empty());
    assert!(l.values.is_empty());
    assert!(l.features.is_empty());
    assert!(tile.mvt_tile.layers.is_empty());
}

#[test]
fn layers_are_appended_in_order_and_never_merged() {
    let e = extent();
    let mut tile = Tile::new(&e, false);
    let a = tile.new_layer(&config("a"));
    let b = tile.new_layer(&config("b"));
    let a2 = tile.new_layer(&config("a"));
    tile.add_layer(a);
    tile.add_layer(b);
    tile.add_layer(a2);
    let names: Vec<&str> = tile.mvt_tile.layers.iter().map(|l| l.name.as_str()).collect();
    assert_eq!(names, vec!["a", "b", "a"]);
}

#[test]
fn geometry_types_fold_onto_three() {
    let p = geom::Point { x: 0, y: 0 };
    assert_eq!(GeometryType::Point(p).mvt_field_type(), GeomType::Point);
    assert_eq!(GeometryType::MultiPoint(geom::MultiPoint { points: vec![] }).mvt_field_type(), GeomType::Point);
    assert_eq!(
        GeometryType::LineString(geom::LineString { points: vec![] }).mvt_field_type(),
        GeomType::LineString
    );
    assert_eq!(
        GeometryType::MultiLineString(geom::MultiLineString { lines: vec![] }).mvt_field_type(),
        GeomType::LineString
    );
    assert_eq!(GeometryType::Polygon(geom::Polygon { rings: vec![] }).mvt_field_type(), GeomType::Polygon);
    assert_eq!(
        GeometryType::MultiPolygon(geom::MultiPolygon { polygons: vec![] }).mvt_field_type(),
        GeomType::Polygon
    );
    assert_eq!(
        GeometryType::GeometryCollection(geom::GeometryCollection { geometries: vec![] }).mvt_field_type(),
        GeomType::Unknown
    );
}

#[test]
fn point_in_the_middle_encodes_to_three_integers() {
    let e = extent();
    let tile = Tile::new(&e, false);
    let cmds = tile.encode_geom(GeometryType::Point(geom::Point { x: 2048, y: 2048 }), 4096).unwrap();
    assert_eq!(cmds.0, vec![9, 4096, 4096]);
}

#[test]
fn encode_geom_projects_before_it_encodes() {
    let e = Extent { minx: 0, miny: 0, maxx: 100, maxy: 100 };
    let tile = Tile::new(&e, true);
    let cmds = tile.encode_geom(GeometryType::Point(geom::Point { x: 50, y: 25 }), 4096).unwrap();
    // pixel (2048, 3072)
    assert_eq!(cmds.0, vec![9, 4096, 6144]);
    let line = geom::LineString { points: points(&[(0, 100), (100, 100), (100, 0)]) };
    let cmds = tile.encode_geom(GeometryType::LineString(line), 256).unwrap();
    // pixels (0,0) (256,0) (256,256)
    assert_eq!(cmds.0, vec![9, 0, 0, 18, 512, 0, 0, 512]);
    let ml = geom::MultiLineString {
        lines: vec![geom::LineString { points: points(&[(0, 100), (100, 100)]) }],
    };
    assert_eq!(tile.encode_geom(GeometryType::MultiLineString(ml), 256).unwrap().0, vec![9, 0, 0, 10, 512, 0]);
    let mp = geom::MultiPoint { points: points(&[(0, 100), (100, 0)]) };
    assert_eq!(tile.encode_geom(GeometryType::MultiPoint(mp), 256).unwrap().0, vec![17, 0, 0, 512, 512]);
    let ring = geom::LineString { points: points(&[(0, 100), (100, 100), (100, 0), (0, 100)]) };
    let poly = geom::Polygon { rings: vec![ring.clone()] };
    assert_eq!(
        tile.encode_geom(GeometryType::Polygon(poly.clone()), 256).unwrap().0,
        vec![9, 0, 0, 18, 512, 0, 0, 512, 15]
    );
    let mpoly = geom::MultiPolygon { polygons: vec![poly] };
    assert_eq!(
        tile.encode_geom(GeometryType::MultiPolygon(mpoly), 256).unwrap().0,
        vec![9, 0, 0, 18, 512, 0, 0, 512, 15]
    );
}

#[test]
fn collections_are_refused() {
    let e = extent();
    let tile = Tile::new(&e, false);
    let c = GeometryType::GeometryCollection(geom::GeometryCollection { geometries: vec![] });
    assert_eq!(tile.encode_geom(c, 4096).unwrap_err(), "GeometryCollection not supported");
}

#[test]
fn interning_a_key_twice_gives_the_same_index() {
    let e = extent();
    let mut tile = Tile::new(&e, false);
    let mut l = tile.new_layer(&config("l"));
    assert_eq!(Tile::intern_key(&mut l, "name".to_string()), 0);
    assert_eq!(Tile::intern_key(&mut l, "name".to_string()), 0);
    assert_eq!(Tile::intern_key(&mut l, "kind".to_string()), 1);
    assert_eq!(Tile::intern_key(&mut l, "name".to_string()), 0);
    assert_eq!(Tile::intern_key(&mut l, "kind".to_string()), 1);
    assert_eq!(l.keys, vec!["name".to_string(), "kind".to_string()]);
}

#[test]
fn interning_distinct_values_counts_up_in_first_seen_order() {
    let e = extent();
    let mut tile = Tile::new(&e, false);
    let mut l = tile.new_layer(&config("l"));
    let values = vec![
        Value::String("a".to_string()),
        Value::Double(1.0f64.to_bits()),
        Value::Float(1.0f32.to_bits()),
        Value::Int(1),
        Value::UInt(1),
        Value::SInt(1),
        Value::Bool(true),
        Value::String("b".to_string()),
        Value::Bool(false),
    ];
    for (i, v) in values.iter().enumerate() {
        assert_eq!(Tile::intern_value(&mut l, v.clone()), i as u32);
    }
    for (i, v) in values.iter().enumerate() {
        assert_eq!(Tile::intern_value(&mut l, v.clone()), i as u32);
    }
    assert_eq!(l.values, values);
}

#[test]
fn values_of_different_variants_are_never_equal() {
    assert!(Value::Double(1.0f64.to_bits()) != Value::Float(1.0f32.to_bits()));
    assert!(Value::Int(1) != Value::UInt(1));
    assert!(Value::Int(1) != Value::SInt(1));
    assert!(Value::Int(1) != Value::Bool(true));
    assert!(Value::String("1".to_string()) != Value::Int(1));
    assert!(Value::Int(7) == Value::Int(7));
    assert!(Value::String("x".to_string()) == Value::String("x".to_string()));
    assert!(Value::String("x".to_string()) != Value::String("y".to_string()));
}

#[test]
fn floats_are_compared_as_numbers() {
    assert!(Value::Double(0.0f64.to_bits()) == Value::Double((-0.0f64).to_bits()));
    assert!(Value::Float(0.0f32.to_bits()) == Value::Float((-0.0f32).to_bits()));
    assert!(Value::Double(f64::NAN.to_bits()) != Value::Double(f64::NAN.to_bits()));
    assert!(Value::Float(f32::NAN.to_bits()) != Value::Float(f32::NAN.to_bits()));
    assert!(Value::Double(f64::INFINITY.to_bits()) == Value::Double(f64::INFINITY.to_bits()));
    assert!(Value::Double(f64::INFINITY.to_bits()) != Value::Double(f64::NEG_INFINITY.to_bits()));
    assert!(Value::Double(1.5f64.to_bits()) != Value::Double(2.5f64.to_bits()));
    for (a, b) in [(1.0f64, 1.0f64), (0.0, -0.0), (f64::NAN, 1.0), (f64::NAN, f64::NAN), (2.0, 3.0)] {
        assert_eq!(Value::Double(a.to_bits()) == Value::Double(b.to_bits()), a == b);
    }
    for (a, b) in [(1.0f32, 1.0f32), (0.0, -0.0), (f32::NAN, 1.0), (f32::NAN, f32::NAN), (2.0, 3.0)] {
        assert_eq!(Value::Float(a.to_bits()) == Value::Float(b.to_bits()), a == b);
    }
}

#[test]
fn a_nan_is_interned_anew_each_time() {
    let e = extent();
    let mut tile = Tile::new(&e, false);
    let mut l = tile.new_layer(&config("l"));
    assert_eq!(Tile::intern_value(&mut l, Value::Double(f64::NAN.to_bits())), 0);
    assert_eq!(Tile::intern_value(&mut l, Value::Double(f64::NAN.to_bits())), 1);
    assert_eq!(Tile::intern_value(&mut l, Value::Double((-0.0f64).to_bits())), 2);
    assert_eq!(Tile::intern_value(&mut l, Value::Double(0.0f64.to_bits())), 2);
    assert_eq!(l.values.len(), 3);
}

#[test]
fn attribute_indices_follow_the_tags() {
    let e = extent();
    let mut tile = Tile::new(&e, false);
    let mut l = tile.new_layer(&config("l"));
    let mut f = vector_tile::Feature { id: Some(3), tags: vec![], field_type: GeomType::Point, geometry: vec![9, 0, 0] };
    Tile::add_feature_attribute(&mut l, &mut f, "a".to_string(), Value::Int(1));
    Tile::add_feature_attribute(&mut l, &mut f, "b".to_string(), Value::Int(1));
    Tile::add_feature_attribute(&mut l, &mut f, "a".to_string(), Value::Int(2));
    assert_eq!(f.tags, vec![0, 0, 1, 0, 0, 1]);
    assert_eq!(f.id, Some(3));
    assert_eq!(f.geometry, vec![9, 0, 0]);
    assert_eq!(l.keys, vec!["a".to_string(), "b".to_string()]);
    assert_eq!(l.values, vec![Value::Int(1), Value::Int(2)]);
}

#[test]
fn two_features_share_a_key() {
    let e = extent();
    let mut tile = Tile::new(&e, false);
    let cfg = config("places");
    let mut l = tile.new_layer(&cfg);
    tile.add_feature(&cfg, &mut l, &named("a", 1, 1));
    tile.add_feature(&cfg, &mut l, &named("b", 2, 2));
    assert_eq!(l.keys, vec!["name".to_string()]);
    assert_eq!(l.values, vec![Value::String("a".to_string()), Value::String("b".to_string())]);
    assert_eq!(l.features.len(), 2);
    assert_eq!(l.features[0].tags, vec![0, 0]);
    assert_eq!(l.features[1].tags, vec![0, 1]);
    assert_eq!(l.features[0].field_type, GeomType::Point);
    assert_eq!(l.features[0].geometry, vec![9, 2, 2]);
    assert_eq!(l.features[1].geometry, vec![9, 4, 4]);
    assert_eq!(l.features[0].id, None);
}

#[test]
fn feature_id_is_kept() {
    let e = extent();
    let mut tile = Tile::new(&e, false);
    let cfg = config("places");
    let mut l = tile.new_layer(&cfg);
    let mut f = named("a", 1, 1);
    f.fid = Some(u64::MAX);
    tile.add_feature(&cfg, &mut l, &f);
    assert_eq!(l.features[0].id, Some(u64::MAX));
}

#[test]
fn attribute_values_keep_their_variant() {
    let e = extent();
    let mut tile = Tile::new(&e, false);
    let cfg = config("l");
    let mut l = tile.new_layer(&cfg);
    let f = TestFeature {
        fid: None,
        attrs: vec![
            ("s".to_string(), FeatureAttrValType::String("x".to_string())),
            ("d".to_string(), FeatureAttrValType::Double(2.5f64.to_bits())),
            ("f".to_string(), FeatureAttrValType::Float(2.5f32.to_bits())),
            ("i".to_string(), FeatureAttrValType::Int(-5)),
            ("u".to_string(), FeatureAttrValType::UInt(5)),
            ("z".to_string(), FeatureAttrValType::SInt(-5)),
            ("b".to_string(), FeatureAttrValType::Bool(true)),
        ],
        shape: Shape::Point(0, 0),
    };
    tile.add_feature(&cfg, &mut l, &f);
    assert_eq!(
        l.values,
        vec![
            Value::String("x".to_string()),
            Value::Double(2.5f64.to_bits()),
            Value::Float(2.5f32.to_bits()),
            Value::Int(-5),
            Value::UInt(5),
            Value::SInt(-5),
            Value::Bool(true),
        ]
    );
    assert_eq!(l.features[0].tags, vec![0, 0, 1, 1, 2, 2, 3, 3, 4, 4, 5, 5, 6, 6]);
    assert!(matches!(FeatureAttrValType::Int(-5).to_value(), Value::Int(-5)));
}

#[test]
fn geometry_and_id_attributes_are_not_tags() {
    let e = extent();
    let mut tile = Tile::new(&e, false);
    let cfg = config("l");
    let mut l = tile.new_layer(&cfg);
    let f = TestFeature {
        fid: Some(9),
        attrs: vec![
            ("id".to_string(), FeatureAttrValType::Int(9)),
            ("name".to_string(), FeatureAttrValType::String("x".to_string())),
            ("geom".to_string(), FeatureAttrValType::String("POINT(0 0)".to_string())),
        ],
        shape: Shape::Point(0, 0),
    };
    tile.add_feature(&cfg, &mut l, &f);
    assert_eq!(l.keys, vec!["name".to_string()]);
    assert_eq!(l.values, vec![Value::String("x".to_string())]);
    assert_eq!(l.features[0].tags, vec![0, 0]);
    assert!(cfg.names_position(&"id".to_string()));
    assert!(cfg.names_position(&"geom".to_string()));
    assert!(!cfg.names_position(&"name".to_string()));
}

#[test]
fn layers_without_field_names_skip_nothing() {
    let e = extent();
    let mut tile = Tile::new(&e, false);
    let mut cfg = config("l");
    cfg.geometry_field = None;
    cfg.fid_field = None;
    let mut l = tile.new_layer(&cfg);
    let f = TestFeature {
        fid: None,
        attrs: vec![
            ("id".to_string(), FeatureAttrValType::Int(9)),
            ("".to_string(), FeatureAttrValType::Int(9)),
            ("geom".to_string(), FeatureAttrValType::Int(10)),
        ],
        shape: Shape::Point(0, 0),
    };
    tile.add_feature(&cfg, &mut l, &f);
    assert_eq!(l.keys, vec!["id".to_string(), "".to_string(), "geom".to_string()]);
    assert_eq!(l.features[0].tags, vec![0, 0, 1, 0, 2, 1]);
}

#[test]
fn one_point_line_is_never_in_the_layer() {
    let e = extent();
    let mut tile = Tile::new(&e, false);
    let cfg = config("l");
    let mut l = tile.new_layer(&cfg);
    let mut f = named("short", 0, 0);
    f.shape = Shape::Line(vec![(5, 5)]);
    tile.add_feature(&cfg, &mut l, &f);
    assert!(l.features.is_empty());
    f.shape = Shape::Line(vec![]);
    tile.add_feature(&cfg, &mut l, &f);
    assert!(l.features.is_empty());
    f.shape = Shape::Ring(vec![(0, 0), (1, 0), (0, 0)]);
    tile.add_feature(&cfg, &mut l, &f);
    assert!(l.features.is_empty());
    f.shape = Shape::Line(vec![(5, 5), (6, 6)]);
    tile.add_feature(&cfg, &mut l, &f);
    assert_eq!(l.features.len(), 1);
    assert_eq!(l.features[0].field_type, GeomType::LineString);
    assert_eq!(l.features[0].geometry, vec![9, 10, 10, 10, 2, 2]);
}

#[test]
fn collection_is_left_out_and_its_siblings_are_kept() {
    let e = extent();
    let mut tile = Tile::new(&e, false);
    let cfg = config("l");
    let mut l = tile.new_layer(&cfg);
    tile.add_feature(&cfg, &mut l, &named("before", 1, 1));
    let mut c = named("collection", 0, 0);
    c.shape = Shape::Collection;
    tile.add_feature(&cfg, &mut l, &c);
    tile.add_feature(&cfg, &mut l, &named("after", 2, 2));
    assert_eq!(l.features.len(), 2);
    assert_eq!(l.features[0].geometry, vec![9, 2, 2]);
    assert_eq!(l.features[1].geometry, vec![9, 4, 4]);
    // every tag still points into the dictionaries
    for f in &l.features {
        assert_eq!(f.tags.len() % 2, 0);
        for pair in f.tags.chunks(2) {
            assert!((pair[0] as usize) < l.keys.len());
            assert!((pair[1] as usize) < l.values.len());
        }
    }
    assert_eq!(l.keys[l.features[1].tags[0] as usize], "name");
    assert_eq!(l.values[l.features[1].tags[1] as usize], Value::String("after".to_string()));
}

#[test]
fn feature_without_geometry_is_left_out() {
    let e = extent();
    let mut tile = Tile::new(&e, false);
    let cfg = config("l");
    let mut l = tile.new_layer(&cfg);
    let mut f = named("lost", 0, 0);
    f.shape = Shape::Missing;
    tile.add_feature(&cfg, &mut l, &f);
    assert!(l.features.is_empty());
    tile.add_feature(&cfg, &mut l, &named("found", 2, 2));
    assert_eq!(l.features.len(), 1);
}

#[test]
fn features_are_projected_with_the_layer_extent() {
    let e = Extent { minx: 0, miny: 0, maxx: 100, maxy: 100 };
    let mut tile = Tile::new(&e, true);
    let mut cfg = config("l");
    cfg.tile_size = 256;
    let mut l = tile.new_layer(&cfg);
    tile.add_feature(&cfg, &mut l, &named("p", 25, 25));
    // pixel (64, 192)
    assert_eq!(l.features[0].geometry, vec![9, 128, 384]);
}

#[test]
fn add_feature_parts_is_what_add_feature_does() {
    let e = extent();
    let mut tile = Tile::new(&e, false);
    let cfg = config("l");
    let mut a = tile.new_layer(&cfg);
    let mut b = tile.new_layer(&cfg);
    let f = TestFeature {
        fid: Some(1),
        attrs: vec![
            ("id".to_string(), FeatureAttrValType::Int(1)),
            ("k".to_string(), FeatureAttrValType::Bool(true)),
        ],
        shape: Shape::Ring(vec![(0, 0), (10, 0), (10, 10), (0, 10), (0, 0)]),
    };
    tile.add_feature(&cfg, &mut a, &f);
    tile.add_feature_parts(&cfg, &mut b, f.fid(), f.attributes(), f.geometry());
    assert_eq!(a, b);
    assert_eq!(a.features[0].field_type, GeomType::Polygon);
    assert_eq!(a.features[0].geometry, vec![9, 0, 0, 26, 20, 0, 0, 20, 19, 0, 15]);
    assert_eq!(a.features[0].tags, vec![0, 0]);
}
