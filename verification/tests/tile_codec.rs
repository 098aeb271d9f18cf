use flate2::write::GzEncoder;
use flate2::Compression;
use protobuf::CodedInputStream;
use protobuf::CodedOutputStream;
use std::io::Write;
use t_rex_core::feature::{Feature as FeatureSource, FeatureAttr, FeatureAttrValType};
use t_rex_core::geom;
use t_rex_core::geom::GeometryType;
use t_rex_core::grid::Extent;
use t_rex_core::layer;
use t_rex_core::codec::{read_feature, read_layer, read_value, write_feature, write_layer, write_value};
use t_rex_core::tile::{ReadError, Tile};
use t_rex_core::vector_tile;
use t_rex_core::vector_tile::{Feature, GeomType, Layer, Value};
use t_rex_core::wire::{get_field, get_fields, get_packed, get_varint, packed, put_varint, RawPayload};

fn sample_tile() -> vector_tile::Tile {
    let points = Layer {
        version: 2,
        name: "points".to_string(),
        features: vec![
            Feature { id: Some(1), tags: vec![0, 0, 1, 1], field_type: GeomType::Point, geometry: vec![9, 2410, 3080] },
            Feature { id: None, tags: vec![], field_type: GeomType::LineString, geometry: vec![9, 4, 4, 18, 0, 16, 16, 0] },
            Feature {
                id: Some(u64::MAX),
                tags: vec![2, 2, 3, 3, 4, 4, 5, 5, 6, 6],
                field_type: GeomType::Polygon,
                geometry: vec![9, 6, 12, 18, 10, 12, 24, 44, 15, 4294967295],
            },
        ],
        keys: vec![
            "hello".to_string(),
            "h".to_string(),
            "count".to_string(),
            "ü€𝄞".to_string(),
            "".to_string(),
            "flag".to_string(),
            "big".to_string(),
        ],
        values: vec![
            Value::String("world".to_string()),
            Value::Double(1.23f64.to_bits()),
            Value::Float(4.5f32.to_bits()),
            Value::Int(-7),
            Value::UInt(u64::MAX),
            Value::SInt(i64::MIN),
            Value::Bool(true),
            Value::Int(i64::MAX),
            Value::SInt(-1),
            Value::Bool(false),
            Value::String("".to_string()),
        ],
        extent: 4096,
    };
    let empty = Layer { version: 2, name: "empty".to_string(), features: vec![], keys: vec![], values: vec![], extent: 256 };
    vector_tile::Tile { layers: vec![points, empty] }
}

#[test]
fn varints_are_base_128() {
    for (v, bytes) in [
        (0u64, vec![0u8]),
        (1, vec![1]),
        (127, vec![0x7f]),
        (128, vec![0x80, 0x01]),
        (300, vec![0xac, 0x02]),
        (4096, vec![0x80, 0x20]),
        (u64::MAX, vec![0xff, 0xff, 0xff, 0xff, 0xff, 0xff, 0xff, 0xff, 0xff, 0x01]),
    ] {
        let mut out = vec![0xaa];
        put_varint(&mut out, v);
        assert_eq!(out[0], 0xaa);
        assert_eq!(out[1..].to_vec(), bytes);
        assert_eq!(get_varint(&out, 1), Some((v, bytes.len())));
    }
}

#[test]
fn varints_that_end_early_or_overflow_are_refused() {
    assert_eq!(get_varint(&[], 0), None);
    assert_eq!(get_varint(&[0x80], 0), None);
    assert_eq!(get_varint(&[0x01, 0x80], 1), None);
    assert_eq!(get_varint(&[0xff, 0xff, 0xff, 0xff, 0xff, 0xff, 0xff, 0xff, 0xff, 0x02], 0), None);
    assert_eq!(get_varint(&[0xff, 0xff, 0xff, 0xff, 0xff, 0xff, 0xff, 0xff, 0xff, 0x81, 0x00], 0), None);
    // a varint may be longer than it needs to be
    assert_eq!(get_varint(&[0x81, 0x80, 0x00, 0x55], 0), Some((1, 3)));
}

#[test]
fn varints_agree_with_protobuf() {
    for v in [0u64, 1, 127, 128, 16383, 16384, 1 << 32, (1 << 63) - 1, 1 << 63, u64::MAX] {
        let mut ours = Vec::new();
        put_varint(&mut ours, v);
        let mut theirs = Vec::new();
        {
            let mut os = CodedOutputStream::vec(&mut theirs);
            os.write_raw_varint64(v).unwrap();
            os.flush().unwrap();
        }
        assert_eq!(ours, theirs);
        let mut is = CodedInputStream::from_bytes(&ours);
        assert_eq!(is.read_raw_varint64().unwrap(), v);
    }
}

#[test]
fn fields_are_read_by_wire_type() {
    let bytes = [0x08, 0x96, 0x01, 0x12, 0x02, 0x68, 0x69, 0x1d, 1, 0, 0, 0, 0x21, 2, 0, 0, 0, 0, 0, 0, 0];
    let fields = get_fields(&bytes).unwrap();
    assert_eq!(fields.len(), 4);
    assert_eq!(fields[0].number, 1);
    assert!(matches!(fields[0].payload, RawPayload::Varint(150)));
    assert_eq!(fields[1].number, 2);
    assert!(matches!(fields[1].payload, RawPayload::Bytes(b) if b == b"hi"));
    assert_eq!(fields[2].number, 3);
    assert!(matches!(fields[2].payload, RawPayload::Fixed32(1)));
    assert_eq!(fields[3].number, 4);
    assert!(matches!(fields[3].payload, RawPayload::Fixed64(2)));
    let (f, len) = get_field(&bytes, 3).unwrap();
    assert_eq!(f.number, 2);
    assert_eq!(len, 4);
    assert_eq!(get_fields(&[]).unwrap().len(), 0);
}

#[test]
fn malformed_fields_are_refused() {
    // field number zero
    assert!(get_fields(&[0x00, 0x00]).is_none());
    // wire types 3, 4, 6, 7
    assert!(get_fields(&[0x0b]).is_none());
    assert!(get_fields(&[0x0c]).is_none());
    assert!(get_fields(&[0x0e, 0x00]).is_none());
    assert!(get_fields(&[0x0f, 0x00]).is_none());
    // payload cut short
    assert!(get_fields(&[0x08]).is_none());
    assert!(get_fields(&[0x12, 0x03, 0x68, 0x69]).is_none());
    assert!(get_fields(&[0x1d, 1, 0, 0]).is_none());
    assert!(get_fields(&[0x21, 1, 0, 0, 0, 0, 0, 0]).is_none());
    // a field number beyond 29 bits
    assert!(get_fields(&[0x80, 0x80, 0x80, 0x80, 0x10, 0x00]).is_none());
    assert!(get_fields(&[0xf8, 0xff, 0xff, 0xff, 0x0f, 0x00]).is_some());
}

#[test]
fn packed_runs() {
    assert_eq!(packed(&vec![]), Vec::<u8>::new());
    assert_eq!(packed(&vec![9, 4096, 300]), vec![9, 0x80, 0x20, 0xac, 0x02]);
    assert_eq!(get_packed(&[9, 0x80, 0x20, 0xac, 0x02]), Some(vec![9, 4096, 300]));
    assert_eq!(get_packed(&[]), Some(vec![]));
    assert_eq!(get_packed(&[9, 0x80]), None);
    let many: Vec<u32> = vec![0, 1, u32::MAX, 7, 1 << 31];
    assert_eq!(get_packed(&packed(&many)), Some(many.iter().map(|&v| v as u64).collect()));
}

#[test]
fn empty_layer_bytes() {
    let tile = vector_tile::Tile {
        layers: vec![Layer { version: 2, name: "a".to_string(), features: vec![], keys: vec![], values: vec![], extent: 4096 }],
    };
    assert_eq!(Tile::binary_tile(&tile), vec![0x1a, 0x08, 0x78, 0x02, 0x0a, 0x01, 0x61, 0x28, 0x80, 0x20]);
    assert_eq!(Tile::binary_tile(&vector_tile::Tile { layers: vec![] }), Vec::<u8>::new());
}

#[test]
fn value_bytes() {
    let cases: Vec<(Value, Vec<u8>)> = vec![
        (Value::String("hi".to_string()), vec![0x0a, 0x02, 0x68, 0x69]),
        (Value::Float(1.0f32.to_bits()), vec![0x15, 0x00, 0x00, 0x80, 0x3f]),
        (Value::Double(1.0f64.to_bits()), vec![0x19, 0, 0, 0, 0, 0, 0, 0xf0, 0x3f]),
        (Value::Int(1), vec![0x20, 0x01]),
        (Value::Int(-1), vec![0x20, 0xff, 0xff, 0xff, 0xff, 0xff, 0xff, 0xff, 0xff, 0xff, 0x01]),
        (Value::UInt(300), vec![0x28, 0xac, 0x02]),
        (Value::SInt(-1), vec![0x30, 0x01]),
        (Value::SInt(1), vec![0x30, 0x02]),
        (Value::SInt(i64::MIN), vec![0x30, 0xff, 0xff, 0xff, 0xff, 0xff, 0xff, 0xff, 0xff, 0xff, 0x01]),
        (Value::Bool(true), vec![0x38, 0x01]),
        (Value::Bool(false), vec![0x38, 0x00]),
    ];
    for (v, bytes) in cases {
        let mut out = Vec::new();
        write_value(&mut out, &v);
        assert_eq!(out, bytes);
        let back = read_value(&bytes).unwrap();
        assert_eq!(format!("{:?}", back), format!("{:?}", v));
    }
}

#[test]
fn feature_bytes() {
    let f = Feature { id: Some(1), tags: vec![0, 0], field_type: GeomType::Point, geometry: vec![9, 50, 34] };
    let mut out = Vec::new();
    write_feature(&mut out, &f);
    assert_eq!(out, vec![0x08, 0x01, 0x12, 0x02, 0x00, 0x00, 0x18, 0x01, 0x22, 0x03, 0x09, 0x32, 0x22]);
    assert_eq!(read_feature(&out), Some(f));
    let bare = Feature { id: None, tags: vec![], field_type: GeomType::Unknown, geometry: vec![] };
    let mut out = Vec::new();
    write_feature(&mut out, &bare);
    assert_eq!(out, vec![0x18, 0x00]);
    assert_eq!(read_feature(&out), Some(bare.clone()));
    assert_eq!(read_feature(&[]), Some(bare));
}

#[test]
fn tile_bytes_agree_with_protobuf() {
    let tile = sample_tile();
    let mut theirs = Vec::new();
    {
        let mut os = CodedOutputStream::vec(&mut theirs);
        for layer in &tile.layers {
            let mut lb = Vec::new();
            {
                let mut ls = CodedOutputStream::vec(&mut lb);
                ls.write_uint32(15, layer.version).unwrap();
                ls.write_string(1, &layer.name).unwrap();
                for f in &layer.features {
                    let mut fb = Vec::new();
                    {
                        let mut fs = CodedOutputStream::vec(&mut fb);
                        if let Some(id) = f.id {
                            fs.write_uint64(1, id).unwrap();
                        }
                        fs.write_repeated_packed_uint32(2, &f.tags).unwrap();
                        let code = match f.field_type {
                            GeomType::Unknown => 0,
                            GeomType::Point => 1,
                            GeomType::LineString => 2,
                            GeomType::Polygon => 3,
                        };
                        fs.write_enum(3, code).unwrap();
                        fs.write_repeated_packed_uint32(4, &f.geometry).unwrap();
                        fs.flush().unwrap();
                    }
                    ls.write_bytes(2, &fb).unwrap();
                }
                for k in &layer.keys {
                    ls.write_string(3, k).unwrap();
                }
                for v in &layer.values {
                    let mut vb = Vec::new();
                    {
                        let mut vs = CodedOutputStream::vec(&mut vb);
                        match v {
                            Value::String(s) => vs.write_string(1, s).unwrap(),
                            Value::Float(b) => vs.write_float(2, f32::from_bits(*b)).unwrap(),
                            Value::Double(b) => vs.write_double(3, f64::from_bits(*b)).unwrap(),
                            Value::Int(i) => vs.write_int64(4, *i).unwrap(),
                            Value::UInt(u) => vs.write_uint64(5, *u).unwrap(),
                            Value::SInt(i) => vs.write_sint64(6, *i).unwrap(),
                            Value::Bool(b) => vs.write_bool(7, *b).unwrap(),
                        }
                        vs.flush().unwrap();
                    }
                    ls.write_bytes(4, &vb).unwrap();
                }
                ls.write_uint32(5, layer.extent).unwrap();
                ls.flush().unwrap();
            }
            os.write_bytes(3, &lb).unwrap();
        }
        os.flush().unwrap();
    }
    assert_eq!(Tile::binary_tile(&tile), theirs);
}

#[test]
fn protobuf_reads_what_was_written() {
    let tile = vector_tile::Tile {
        layers: vec![Layer {
            version: 2,
            name: "né".to_string(),
            features: vec![],
            keys: vec!["k".to_string()],
            values: vec![Value::SInt(-3)],
            extent: 512,
        }],
    };
    let bytes = Tile::binary_tile(&tile);
    let mut is = CodedInputStream::from_bytes(&bytes);
    assert_eq!(is.read_raw_tag_or_eof().unwrap(), Some(3 << 3 | 2));
    let layer = is.read_bytes().unwrap();
    assert!(is.eof().unwrap());
    let mut ls = CodedInputStream::from_bytes(&layer);
    assert_eq!(ls.read_raw_tag_or_eof().unwrap(), Some(15 << 3));
    assert_eq!(ls.read_uint32().unwrap(), 2);
    assert_eq!(ls.read_raw_tag_or_eof().unwrap(), Some(1 << 3 | 2));
    assert_eq!(ls.read_string().unwrap(), "né");
    assert_eq!(ls.read_raw_tag_or_eof().unwrap(), Some(3 << 3 | 2));
    assert_eq!(ls.read_string().unwrap(), "k");
    assert_eq!(ls.read_raw_tag_or_eof().unwrap(), Some(4 << 3 | 2));
    let value = ls.read_bytes().unwrap();
    let mut vs = CodedInputStream::from_bytes(&value);
    assert_eq!(vs.read_raw_tag_or_eof().unwrap(), Some(6 << 3));
    assert_eq!(vs.read_sint64().unwrap(), -3);
    assert_eq!(ls.read_raw_tag_or_eof().unwrap(), Some(5 << 3));
    assert_eq!(ls.read_uint32().unwrap(), 512);
    assert_eq!(ls.read_raw_tag_or_eof().unwrap(), None);
}

#[test]
fn tile_round_trip() {
    let tile = sample_tile();
    let bytes = Tile::binary_tile(&tile);
    let back = Tile::read_from(&bytes).unwrap();
    assert_eq!(back, tile);
    let mut out = vec![1, 2, 3];
    Tile::write_to(&mut out, &tile);
    assert_eq!(out[..3].to_vec(), vec![1, 2, 3]);
    assert_eq!(out[3..].to_vec(), bytes);
}

#[test]
fn layer_round_trip() {
    for layer in sample_tile().layers {
        let mut out = Vec::new();
        write_layer(&mut out, &layer);
        assert_eq!(read_layer(&out), Some(layer));
    }
}

#[test]
fn gzip_round_trip() {
    let tile = sample_tile();
    let mut gz = Vec::new();
    Tile::write_gz_to(&mut gz, &tile);
    let plain = Tile::binary_tile(&tile);
    assert_ne!(gz, plain);
    assert_eq!(gz[..4].to_vec(), vec![0x1f, 0x8b, 0x08, 0x00]);
    let back = Tile::read_gz_from(&gz).unwrap();
    assert_eq!(back, tile);
}

#[test]
fn gzip_is_appended() {
    let tile = sample_tile();
    let mut gz = Vec::new();
    Tile::write_gz_to(&mut gz, &tile);
    let mut out = vec![7, 7];
    Tile::write_gz_to(&mut out, &tile);
    assert_eq!(out[..2].to_vec(), vec![7, 7]);
    assert_eq!(out[2..].to_vec(), gz);
}

#[test]
fn gzip_of_an_empty_tile() {
    let tile = vector_tile::Tile { layers: vec![] };
    let mut gz = Vec::new();
    Tile::write_gz_to(&mut gz, &tile);
    assert!(gz.len() >= 18);
    assert_eq!(Tile::read_gz_from(&gz).unwrap(), tile);
}

#[test]
fn bytes_that_are_no_gzip_stream() {
    let plain = Tile::binary_tile(&sample_tile());
    assert!(matches!(Tile::read_gz_from(&plain), Err(ReadError::Gzip(_))));
    assert!(matches!(Tile::read_gz_from(&[]), Err(ReadError::Gzip(_))));
    let mut gz = Vec::new();
    Tile::write_gz_to(&mut gz, &sample_tile());
    gz.truncate(gz.len() / 2);
    assert!(matches!(Tile::read_gz_from(&gz), Err(ReadError::Gzip(_))));
}

#[test]
fn gzip_stream_that_holds_no_tile() {
    let mut enc = GzEncoder::new(Vec::new(), Compression::default());
    enc.write_all(&[0x1a, 0x05, 0x00]).unwrap();
    let gz = enc.finish().unwrap();
    assert!(matches!(Tile::read_gz_from(&gz), Err(ReadError::Malformed)));
}

#[test]
fn gzip_written_elsewhere_is_read() {
    let tile = sample_tile();
    let mut enc = GzEncoder::new(Vec::new(), Compression::best());
    enc.write_all(&Tile::binary_tile(&tile)).unwrap();
    let gz = enc.finish().unwrap();
    assert_eq!(Tile::read_gz_from(&gz).unwrap(), tile);
}

#[test]
fn bytes_that_are_no_tile() {
    assert!(matches!(Tile::read_from(&[0x1a, 0x05, 0x00]), Err(ReadError::Malformed)));
    assert!(matches!(Tile::read_from(&[0x1a]), Err(ReadError::Malformed)));
    // field 3 must be length-delimited
    assert!(matches!(Tile::read_from(&[0x18, 0x01]), Err(ReadError::Malformed)));
    // a layer without a name
    assert!(matches!(Tile::read_from(&[0x1a, 0x02, 0x78, 0x02]), Err(ReadError::Malformed)));
    // a layer without a version
    assert!(matches!(Tile::read_from(&[0x1a, 0x03, 0x0a, 0x01, 0x61]), Err(ReadError::Malformed)));
    // a name that is not UTF-8
    assert!(matches!(Tile::read_from(&[0x1a, 0x05, 0x78, 0x02, 0x0a, 0x01, 0xff]), Err(ReadError::Malformed)));
    // a key that is not UTF-8
    assert!(matches!(
        Tile::read_from(&[0x1a, 0x08, 0x78, 0x02, 0x0a, 0x01, 0x61, 0x1a, 0x01, 0xc3]),
        Err(ReadError::Malformed)
    ));
    // a value without content
    assert!(matches!(
        Tile::read_from(&[0x1a, 0x07, 0x78, 0x02, 0x0a, 0x01, 0x61, 0x22, 0x00]),
        Err(ReadError::Malformed)
    ));
    // a value whose field has the wrong wire type
    assert!(matches!(
        Tile::read_from(&[0x1a, 0x09, 0x78, 0x02, 0x0a, 0x01, 0x61, 0x22, 0x02, 0x08, 0x01]),
        Err(ReadError::Malformed)
    ));
}

#[test]
fn empty_bytes_are_an_empty_tile() {
    assert_eq!(Tile::read_from(&[]).unwrap(), vector_tile::Tile { layers: vec![] });
}

#[test]
fn extent_defaults_to_4096() {
    let tile = Tile::read_from(&[0x1a, 0x05, 0x78, 0x02, 0x0a, 0x01, 0x61]).unwrap();
    assert_eq!(tile.layers.len(), 1);
    assert_eq!(tile.layers[0].extent, 4096);
    assert_eq!(tile.layers[0].version, 2);
    assert_eq!(tile.layers[0].name, "a");
}

#[test]
fn unknown_fields_are_passed_over() {
    // tile: field 1 varint, then a layer with an unknown fixed32 field 9 and varint field 16
    let bytes = [
        0x08, 0x05, 0x1a, 0x0f, 0x78, 0x01, 0x4d, 1, 2, 3, 4, 0x0a, 0x01, 0x62, 0x80, 0x01, 0x07, 0x28, 0x10,
    ];
    let tile = Tile::read_from(&bytes).unwrap();
    assert_eq!(tile.layers.len(), 1);
    assert_eq!(tile.layers[0].name, "b");
    assert_eq!(tile.layers[0].version, 1);
    assert_eq!(tile.layers[0].extent, 16);
}

#[test]
fn later_fields_replace_earlier_ones() {
    let layer = read_layer(&[0x78, 0x01, 0x0a, 0x01, 0x61, 0x78, 0x02, 0x0a, 0x01, 0x62, 0x28, 0x08, 0x28, 0x09]).unwrap();
    assert_eq!(layer.version, 2);
    assert_eq!(layer.name, "b");
    assert_eq!(layer.extent, 9);
    let value = read_value(&[0x20, 0x01, 0x38, 0x01]).unwrap();
    assert!(matches!(value, Value::Bool(true)));
    let f = read_feature(&[0x08, 0x01, 0x08, 0x02, 0x18, 0x01, 0x18, 0x03]).unwrap();
    assert_eq!(f.id, Some(2));
    assert_eq!(f.field_type, GeomType::Polygon);
}

#[test]
fn repeated_integers_may_come_one_by_one() {
    let f = read_feature(&[0x10, 0x01, 0x12, 0x02, 0x02, 0x03, 0x10, 0x04, 0x20, 0x09, 0x22, 0x02, 0x32, 0x22]).unwrap();
    assert_eq!(f.tags, vec![1, 2, 3, 4]);
    assert_eq!(f.geometry, vec![9, 50, 34]);
    // a geometry type that is not known is passed over
    let f = read_feature(&[0x18, 0x02, 0x18, 0x09]).unwrap();
    assert_eq!(f.field_type, GeomType::LineString);
    // integers wider than 32 bits keep their low bits
    let f = read_feature(&[0x10, 0x81, 0x80, 0x80, 0x80, 0x10]).unwrap();
    assert_eq!(f.tags, vec![1]);
    // a packed run that ends inside a varint
    assert_eq!(read_feature(&[0x12, 0x01, 0x80]), None);
    // a fixed-width field where integers belong
    assert_eq!(read_feature(&[0x15, 0, 0, 0, 0]), None);
}

struct Town;

impl FeatureSource for Town {
    fn fid(&self) -> Option<u64> {
        Some(42)
    }

    fn attributes(&self) -> Vec<FeatureAttr> {
        vec![
            FeatureAttr { key: "name".to_string(), value: FeatureAttrValType::String("Bern".to_string()) },
            FeatureAttr { key: "pop".to_string(), value: FeatureAttrValType::Int(134000) },
            FeatureAttr { key: "area".to_string(), value: FeatureAttrValType::Double(51.62f64.to_bits()) },
        ]
    }

    fn geometry(&self) -> Result<GeometryType, String> {
        Ok(GeometryType::Point(geom::Point { x: 960000, y: 5990000 }))
    }
}

#[test]
fn built_tile_round_trip() {
    let extent = Extent { minx: 958826, miny: 5987771, maxx: 978393, maxy: 6007338 };
    let mut tile = Tile::new(&extent, true);
    let cfg = layer::Layer {
        name: "towns".to_string(),
        geometry_field: None,
        geometry_type: None,
        fid_field: None,
        tile_size: 4096,
    };
    let mut l = tile.new_layer(&cfg);
    tile.add_feature(&cfg, &mut l, &Town);
    tile.add_layer(l);
    assert_eq!(tile.mvt_tile.layers[0].features.len(), 1);
    assert_eq!(tile.mvt_tile.layers[0].features[0].id, Some(42));
    // 1174 * 4096 / 19567 = 245.76, 2229 * 4096 / 19567 = 466.6, reversed 3629
    assert_eq!(tile.mvt_tile.layers[0].features[0].geometry, vec![9, 492, 7258]);
    let bytes = Tile::binary_tile(&tile.mvt_tile);
    assert_eq!(Tile::read_from(&bytes).unwrap(), tile.mvt_tile);
    let mut gz = Vec::new();
    Tile::write_gz_to(&mut gz, &tile.mvt_tile);
    assert_eq!(Tile::read_gz_from(&gz).unwrap(), tile.mvt_tile);
}
