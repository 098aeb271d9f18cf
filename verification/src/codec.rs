//! The binary form of a tile: which fields each message is written as, and
//! what a message that is read means.

use vstd::prelude::*;
use vstd::utf8::{decode_utf8, encode_utf8, encode_utf8_decode_utf8, encode_utf8_valid_utf8, valid_utf8};
use crate::vector_tile::{
    feature_views, layer_views, string_views, value_views, Feature, FeatureView, GeomType, Layer, LayerView, Tile,
    TileView, Value, ValueView,
};
use crate::wire::{
    encode_field, encode_fields, encode_packed, fields_wf, fold_fields, get_fields, get_packed, lemma_encode_fields_one,
    lemma_encode_fields_push, lemma_fold_fields_concat, lemma_fold_fields_one, lemma_fold_fields_prefix_fails,
    lemma_parse_fields, lemma_parse_packed, packed, parse_fields, parse_packed, put_bytes_field, put_fixed32_field,
    put_fixed64_field, put_varint_field, raw_views, widen, Field, Payload, RawField, RawPayload,
};

verus! {

/// A signed 64-bit integer as the unsigned integer with the same bits.
pub open spec fn int_to_wire(i: i64) -> u64 {
    if i >= 0 {
        i as u64
    } else {
        (i + 0x1_0000_0000_0000_0000) as u64
    }
}

/// The inverse of [`int_to_wire`].
pub open spec fn wire_to_int(u: u64) -> i64 {
    if u <= i64::MAX {
        u as i64
    } else {
        (u - 0x1_0000_0000_0000_0000) as i64
    }
}

/// A signed 64-bit integer folded onto the unsigned ones: 0, -1, 1, -2, ...
/// become 0, 1, 2, 3, ...
pub open spec fn zigzag64(i: i64) -> u64 {
    if i >= 0 {
        (2 * i) as u64
    } else {
        (-2 * i - 1) as u64
    }
}

/// The inverse of [`zigzag64`].
pub open spec fn unzigzag64(z: u64) -> i64 {
    if z % 2 == 0 {
        (z / 2) as i64
    } else {
        (-(z / 2) - 1) as i64
    }
}

/// The low 32 bits of a varint.
pub open spec fn low32(v: u64) -> u32 {
    (v % 0x1_0000_0000) as u32
}

/// The low 32 bits of each value.
pub open spec fn narrow(vs: Seq<u64>) -> Seq<u32> {
    vs.map_values(|v: u64| low32(v))
}

/// The number a geometry type is written as.
pub open spec fn geom_type_code(t: GeomType) -> u64 {
    match t {
        GeomType::Unknown => 0,
        GeomType::Point => 1,
        GeomType::LineString => 2,
        GeomType::Polygon => 3,
    }
}

/// The geometry type a number stands for, if any.
pub open spec fn geom_type_of(code: u64) -> Option<GeomType> {
    if code == 0 {
        Some(GeomType::Unknown)
    } else if code == 1 {
        Some(GeomType::Point)
    } else if code == 2 {
        Some(GeomType::LineString)
    } else if code == 3 {
        Some(GeomType::Polygon)
    } else {
        None
    }
}

/// The one field a value is written as: its variant decides the number.
pub open spec fn value_field(v: ValueView) -> Field {
    match v {
        ValueView::String(s) => Field { number: 1, payload: Payload::Bytes(encode_utf8(s)) },
        ValueView::Float(b) => Field { number: 2, payload: Payload::Fixed32(b) },
        ValueView::Double(b) => Field { number: 3, payload: Payload::Fixed64(b) },
        ValueView::Int(i) => Field { number: 4, payload: Payload::Varint(int_to_wire(i)) },
        ValueView::UInt(u) => Field { number: 5, payload: Payload::Varint(u) },
        ValueView::SInt(i) => Field { number: 6, payload: Payload::Varint(zigzag64(i)) },
        ValueView::Bool(b) => Field {
            number: 7,
            payload: Payload::Varint(
                if b {
                    1
                } else {
                    0
                },
            ),
        },
    }
}

/// The bytes of a value message.
pub open spec fn encode_value(v: ValueView) -> Seq<u8> {
    encode_fields(seq![value_field(v)])
}

/// The value read so far, after one more field. A field of a known number
/// replaces it and must have the wire type of that number; a string must be
/// UTF-8. Other fields are passed over.
pub open spec fn value_step(acc: Option<ValueView>, f: Field) -> Option<Option<ValueView>> {
    if f.number == 1 {
        match f.payload {
            Payload::Bytes(b) => if valid_utf8(b) {
                Some(Some(ValueView::String(decode_utf8(b))))
            } else {
                None
            },
            _ => None,
        }
    } else if f.number == 2 {
        match f.payload {
            Payload::Fixed32(v) => Some(Some(ValueView::Float(v))),
            _ => None,
        }
    } else if f.number == 3 {
        match f.payload {
            Payload::Fixed64(v) => Some(Some(ValueView::Double(v))),
            _ => None,
        }
    } else if f.number == 4 {
        match f.payload {
            Payload::Varint(v) => Some(Some(ValueView::Int(wire_to_int(v)))),
            _ => None,
        }
    } else if f.number == 5 {
        match f.payload {
            Payload::Varint(v) => Some(Some(ValueView::UInt(v))),
            _ => None,
        }
    } else if f.number == 6 {
        match f.payload {
            Payload::Varint(v) => Some(Some(ValueView::SInt(unzigzag64(v)))),
            _ => None,
        }
    } else if f.number == 7 {
        match f.payload {
            Payload::Varint(v) => Some(Some(ValueView::Bool(v != 0))),
            _ => None,
        }
    } else {
        Some(acc)
    }
}

/// [`value_step`] as a function value.
pub open spec fn value_stepper() -> spec_fn(Option<ValueView>, Field) -> Option<Option<ValueView>> {
    |acc: Option<ValueView>, f: Field| value_step(acc, f)
}

/// The value that a message holds: the last of its value fields. `None` if
/// the message is malformed or holds no value.
pub open spec fn decode_value(bytes: Seq<u8>) -> Option<ValueView> {
    match parse_fields(bytes) {
        Some(fs) => match fold_fields(fs, None, value_stepper()) {
            Some(Some(v)) => Some(v),
            _ => None,
        },
        None => None,
    }
}

/// The value can be written.
pub open spec fn value_wf(v: ValueView) -> bool {
    value_field(v).wf()
}

/// The fields a feature is written as: the id if there is one, the tags as a
/// packed run unless there are none, the geometry type, the geometry as a
/// packed run unless it is empty.
pub open spec fn feature_fields(f: FeatureView) -> Seq<Field> {
    (if f.id is Some {
        seq![Field { number: 1, payload: Payload::Varint(f.id.unwrap()) }]
    } else {
        Seq::empty()
    }) + (if f.tags.len() > 0 {
        seq![Field { number: 2, payload: Payload::Bytes(encode_packed(widen(f.tags))) }]
    } else {
        Seq::empty()
    }) + seq![Field { number: 3, payload: Payload::Varint(geom_type_code(f.field_type)) }] + (if f.geometry.len()
        > 0 {
        seq![Field { number: 4, payload: Payload::Bytes(encode_packed(widen(f.geometry))) }]
    } else {
        Seq::empty()
    })
}

/// The bytes of a feature message.
pub open spec fn encode_feature(f: FeatureView) -> Seq<u8> {
    encode_fields(feature_fields(f))
}

/// A feature of which nothing has been read.
pub open spec fn blank_feature() -> FeatureView {
    FeatureView { id: None, tags: Seq::empty(), field_type: GeomType::Unknown, geometry: Seq::empty() }
}

/// The integers a repeated field adds: one for a varint, all of a packed run.
pub open spec fn repeated_u32(p: Payload) -> Option<Seq<u32>> {
    match p {
        Payload::Varint(v) => Some(seq![low32(v)]),
        Payload::Bytes(b) => match parse_packed(b) {
            Some(vs) => Some(narrow(vs)),
            None => None,
        },
        _ => None,
    }
}

/// The feature read so far, after one more field. Tags and geometry grow, id
/// and type are replaced; a type of an unknown number is passed over, as are
/// fields of other numbers.
pub open spec fn feature_step(acc: FeatureView, f: Field) -> Option<FeatureView> {
    if f.number == 1 {
        match f.payload {
            Payload::Varint(v) => Some(FeatureView { id: Some(v), ..acc }),
            _ => None,
        }
    } else if f.number == 2 {
        match repeated_u32(f.payload) {
            Some(vs) => Some(FeatureView { tags: acc.tags + vs, ..acc }),
            None => None,
        }
    } else if f.number == 3 {
        match f.payload {
            Payload::Varint(v) => match geom_type_of(v) {
                Some(t) => Some(FeatureView { field_type: t, ..acc }),
                None => Some(acc),
            },
            _ => None,
        }
    } else if f.number == 4 {
        match repeated_u32(f.payload) {
            Some(vs) => Some(FeatureView { geometry: acc.geometry + vs, ..acc }),
            None => None,
        }
    } else {
        Some(acc)
    }
}

/// [`feature_step`] as a function value.
pub open spec fn feature_stepper() -> spec_fn(FeatureView, Field) -> Option<FeatureView> {
    |acc: FeatureView, f: Field| feature_step(acc, f)
}

/// The feature that a message holds, or `None` if the message is malformed.
pub open spec fn decode_feature(bytes: Seq<u8>) -> Option<FeatureView> {
    match parse_fields(bytes) {
        Some(fs) => fold_fields(fs, blank_feature(), feature_stepper()),
        None => None,
    }
}

/// The feature can be written.
pub open spec fn feature_wf(f: FeatureView) -> bool {
    fields_wf(feature_fields(f))
}

/// One field for each feature of a layer.
pub open spec fn feature_entries(fs: Seq<FeatureView>) -> Seq<Field> {
    fs.map_values(|f: FeatureView| Field { number: 2, payload: Payload::Bytes(encode_feature(f)) })
}

/// One field for each key of a layer.
pub open spec fn key_entries(ks: Seq<Seq<char>>) -> Seq<Field> {
    ks.map_values(|k: Seq<char>| Field { number: 3, payload: Payload::Bytes(encode_utf8(k)) })
}

/// One field for each value of a layer.
pub open spec fn value_entries(vs: Seq<ValueView>) -> Seq<Field> {
    vs.map_values(|v: ValueView| Field { number: 4, payload: Payload::Bytes(encode_value(v)) })
}

/// The fields a layer is written as: version, name, features, keys, values,
/// extent.
pub open spec fn layer_fields(l: LayerView) -> Seq<Field> {
    seq![
        Field { number: 15, payload: Payload::Varint(l.version as u64) },
        Field { number: 1, payload: Payload::Bytes(encode_utf8(l.name)) },
    ] + feature_entries(l.features) + key_entries(l.keys) + value_entries(l.values) + seq![
        Field { number: 5, payload: Payload::Varint(l.extent as u64) },
    ]
}

/// The bytes of a layer message.
pub open spec fn encode_layer(l: LayerView) -> Seq<u8> {
    encode_fields(layer_fields(l))
}

/// What has been read of a layer.
pub struct LayerParts {
    pub version: Option<u32>,
    pub name: Option<Seq<char>>,
    pub features: Seq<FeatureView>,
    pub keys: Seq<Seq<char>>,
    pub values: Seq<ValueView>,
    pub extent: Option<u32>,
}

/// A layer of which nothing has been read.
pub open spec fn blank_layer() -> LayerParts {
    LayerParts {
        version: None,
        name: None,
        features: Seq::empty(),
        keys: Seq::empty(),
        values: Seq::empty(),
        extent: None,
    }
}

/// The extent of a layer that names none.
pub const DEFAULT_EXTENT: u32 = 4096;

/// The layer read so far, after one more field. Features, keys and values
/// grow; version, name and extent are replaced; fields of other numbers are
/// passed over. A field of a known number must have its wire type, and what it
/// holds must be well formed.
pub open spec fn layer_step(acc: LayerParts, f: Field) -> Option<LayerParts> {
    if f.number == 15 {
        match f.payload {
            Payload::Varint(v) => Some(LayerParts { version: Some(low32(v)), ..acc }),
            _ => None,
        }
    } else if f.number == 1 {
        match f.payload {
            Payload::Bytes(b) => if valid_utf8(b) {
                Some(LayerParts { name: Some(decode_utf8(b)), ..acc })
            } else {
                None
            },
            _ => None,
        }
    } else if f.number == 2 {
        match f.payload {
            Payload::Bytes(b) => match decode_feature(b) {
                Some(feature) => Some(LayerParts { features: acc.features.push(feature), ..acc }),
                None => None,
            },
            _ => None,
        }
    } else if f.number == 3 {
        match f.payload {
            Payload::Bytes(b) => if valid_utf8(b) {
                Some(LayerParts { keys: acc.keys.push(decode_utf8(b)), ..acc })
            } else {
                None
            },
            _ => None,
        }
    } else if f.number == 4 {
        match f.payload {
            Payload::Bytes(b) => match decode_value(b) {
                Some(value) => Some(LayerParts { values: acc.values.push(value), ..acc }),
                None => None,
            },
            _ => None,
        }
    } else if f.number == 5 {
        match f.payload {
            Payload::Varint(v) => Some(LayerParts { extent: Some(low32(v)), ..acc }),
            _ => None,
        }
    } else {
        Some(acc)
    }
}

/// [`layer_step`] as a function value.
pub open spec fn layer_stepper() -> spec_fn(LayerParts, Field) -> Option<LayerParts> {
    |acc: LayerParts, f: Field| layer_step(acc, f)
}

/// The layer made of what was read: version and name must be there, the
/// extent defaults to [`DEFAULT_EXTENT`].
pub open spec fn layer_of_parts(p: LayerParts) -> Option<LayerView> {
    if p.version is Some && p.name is Some {
        Some(
            LayerView {
                version: p.version.unwrap(),
                name: p.name.unwrap(),
                features: p.features,
                keys: p.keys,
                values: p.values,
                extent: match p.extent {
                    Some(e) => e,
                    None => DEFAULT_EXTENT,
                },
            },
        )
    } else {
        None
    }
}

/// The layer that a message holds, or `None` if the message is malformed or
/// lacks a version or a name.
pub open spec fn decode_layer(bytes: Seq<u8>) -> Option<LayerView> {
    match parse_fields(bytes) {
        Some(fs) => match fold_fields(fs, blank_layer(), layer_stepper()) {
            Some(p) => layer_of_parts(p),
            None => None,
        },
        None => None,
    }
}

/// The layer and all it holds can be written.
pub open spec fn layer_wf(l: LayerView) -> bool {
    &&& fields_wf(layer_fields(l))
    &&& forall|i: int| 0 <= i < l.features.len() ==> feature_wf(#[trigger] l.features[i])
    &&& forall|i: int| 0 <= i < l.values.len() ==> value_wf(#[trigger] l.values[i])
}

/// One field for each layer of a tile.
pub open spec fn layer_entries(ls: Seq<LayerView>) -> Seq<Field> {
    ls.map_values(|l: LayerView| Field { number: 3, payload: Payload::Bytes(encode_layer(l)) })
}

/// The bytes of a tile.
pub open spec fn encode_tile(t: TileView) -> Seq<u8> {
    encode_fields(layer_entries(t.layers))
}

/// The layers read so far, after one more field.
pub open spec fn tile_step(acc: Seq<LayerView>, f: Field) -> Option<Seq<LayerView>> {
    if f.number == 3 {
        match f.payload {
            Payload::Bytes(b) => match decode_layer(b) {
                Some(layer) => Some(acc.push(layer)),
                None => None,
            },
            _ => None,
        }
    } else {
        Some(acc)
    }
}

/// [`tile_step`] as a function value.
pub open spec fn tile_stepper() -> spec_fn(Seq<LayerView>, Field) -> Option<Seq<LayerView>> {
    |acc: Seq<LayerView>, f: Field| tile_step(acc, f)
}

/// The tile that `bytes` holds, or `None` if they are malformed.
pub open spec fn decode_tile(bytes: Seq<u8>) -> Option<TileView> {
    match parse_fields(bytes) {
        Some(fs) => match fold_fields(fs, Seq::empty(), tile_stepper()) {
            Some(layers) => Some(TileView { layers }),
            None => None,
        },
        None => None,
    }
}

/// The tile and all it holds can be written.
pub open spec fn tile_wf(t: TileView) -> bool {
    &&& fields_wf(layer_entries(t.layers))
    &&& forall|i: int| 0 <= i < t.layers.len() ==> layer_wf(#[trigger] t.layers[i])
}

/// A written value is read back.
pub proof fn lemma_decode_encode_value(v: ValueView)
    requires
        value_wf(v),
    ensures
        decode_value(encode_value(v)) == Some(v),
{
    let f = value_field(v);
    let fs = seq![f];
    assert(fields_wf(fs));
    lemma_parse_fields(fs);
    lemma_fold_fields_one(f, None::<ValueView>, value_stepper());
    match v {
        ValueView::String(s) => {
            encode_utf8_valid_utf8(s);
            encode_utf8_decode_utf8(s);
        },
        _ => {},
    }
    assert(value_step(None, f) == Some(Some(v)));
}

proof fn lemma_fold_optional<A>(present: bool, f: Field, init: A, step: spec_fn(A, Field) -> Option<A>)
    ensures
        fold_fields(
            if present {
                seq![f]
            } else {
                Seq::empty()
            },
            init,
            step,
        ) == if present {
            step(init, f)
        } else {
            Some(init)
        },
{
    if present {
        lemma_fold_fields_one(f, init, step);
    }
}

proof fn lemma_narrow_widen(vs: Seq<u32>)
    ensures
        narrow(widen(vs)) == vs,
{
    assert(narrow(widen(vs)) =~= vs);
}

/// A written feature is read back.
pub proof fn lemma_decode_encode_feature(f: FeatureView)
    requires
        feature_wf(f),
    ensures
        decode_feature(encode_feature(f)) == Some(f),
{
    let step = feature_stepper();
    let f1 = Field { number: 1, payload: Payload::Varint(f.id.unwrap()) };
    let f2 = Field { number: 2, payload: Payload::Bytes(encode_packed(widen(f.tags))) };
    let f3 = Field { number: 3, payload: Payload::Varint(geom_type_code(f.field_type)) };
    let f4 = Field { number: 4, payload: Payload::Bytes(encode_packed(widen(f.geometry))) };
    let s1 = if f.id is Some {
        seq![f1]
    } else {
        Seq::empty()
    };
    let s2 = if f.tags.len() > 0 {
        seq![f2]
    } else {
        Seq::empty()
    };
    let s3 = seq![f3];
    let s4 = if f.geometry.len() > 0 {
        seq![f4]
    } else {
        Seq::empty()
    };
    let fs = feature_fields(f);
    assert(fs == s1 + s2 + s3 + s4);
    lemma_parse_fields(fs);
    let a0 = blank_feature();
    let a1 = FeatureView { id: f.id, ..a0 };
    let a2 = FeatureView { tags: f.tags, ..a1 };
    let a3 = FeatureView { field_type: f.field_type, ..a2 };
    lemma_fold_optional(f.id is Some, f1, a0, step);
    assert(fold_fields(s1, a0, step) == Some(a1));
    lemma_parse_packed(widen(f.tags));
    lemma_narrow_widen(f.tags);
    lemma_fold_optional(f.tags.len() > 0, f2, a1, step);
    assert(a1.tags + f.tags =~= f.tags);
    assert(fold_fields(s2, a1, step) == Some(a2));
    lemma_fold_fields_one(f3, a2, step);
    assert(fold_fields(s3, a2, step) == Some(a3));
    lemma_parse_packed(widen(f.geometry));
    lemma_narrow_widen(f.geometry);
    lemma_fold_optional(f.geometry.len() > 0, f4, a3, step);
    assert(a3.geometry + f.geometry =~= f.geometry);
    assert(fold_fields(s4, a3, step) == Some(f));
    lemma_fold_fields_concat(s1, s2, a0, step);
    lemma_fold_fields_concat(s1 + s2, s3, a0, step);
    lemma_fold_fields_concat(s1 + s2 + s3, s4, a0, step);
}

proof fn lemma_fold_feature_entries(st: LayerParts, fs: Seq<FeatureView>)
    requires
        forall|i: int| 0 <= i < fs.len() ==> feature_wf(#[trigger] fs[i]),
    ensures
        fold_fields(feature_entries(fs), st, layer_stepper()) == Some(
            LayerParts { features: st.features + fs, ..st },
        ),
    decreases fs.len(),
{
    if fs.len() == 0 {
        assert(st.features + fs =~= st.features);
    } else {
        let init = fs.drop_last();
        lemma_fold_feature_entries(st, init);
        assert(feature_entries(fs).drop_last() =~= feature_entries(init));
        assert(feature_wf(fs[fs.len() - 1]));
        lemma_decode_encode_feature(fs.last());
        assert((st.features + init).push(fs.last()) =~= st.features + fs);
    }
}

proof fn lemma_fold_key_entries(st: LayerParts, ks: Seq<Seq<char>>)
    ensures
        fold_fields(key_entries(ks), st, layer_stepper()) == Some(LayerParts { keys: st.keys + ks, ..st }),
    decreases ks.len(),
{
    if ks.len() == 0 {
        assert(st.keys + ks =~= st.keys);
    } else {
        let init = ks.drop_last();
        lemma_fold_key_entries(st, init);
        assert(key_entries(ks).drop_last() =~= key_entries(init));
        encode_utf8_valid_utf8(ks.last());
        encode_utf8_decode_utf8(ks.last());
        assert((st.keys + init).push(ks.last()) =~= st.keys + ks);
    }
}

proof fn lemma_fold_value_entries(st: LayerParts, vs: Seq<ValueView>)
    requires
        forall|i: int| 0 <= i < vs.len() ==> value_wf(#[trigger] vs[i]),
    ensures
        fold_fields(value_entries(vs), st, layer_stepper()) == Some(LayerParts { values: st.values + vs, ..st }),
    decreases vs.len(),
{
    if vs.len() == 0 {
        assert(st.values + vs =~= st.values);
    } else {
        let init = vs.drop_last();
        lemma_fold_value_entries(st, init);
        assert(value_entries(vs).drop_last() =~= value_entries(init));
        assert(value_wf(vs[vs.len() - 1]));
        lemma_decode_encode_value(vs.last());
        assert((st.values + init).push(vs.last()) =~= st.values + vs);
    }
}

/// A written layer is read back.
pub proof fn lemma_decode_encode_layer(l: LayerView)
    requires
        layer_wf(l),
    ensures
        decode_layer(encode_layer(l)) == Some(l),
{
    let step = layer_stepper();
    let fv = Field { number: 15, payload: Payload::Varint(l.version as u64) };
    let fname = Field { number: 1, payload: Payload::Bytes(encode_utf8(l.name)) };
    let fe = Field { number: 5, payload: Payload::Varint(l.extent as u64) };
    let head = seq![fv, fname];
    let tail = seq![fe];
    let fs = layer_fields(l);
    assert(fs == head + feature_entries(l.features) + key_entries(l.keys) + value_entries(l.values) + tail);
    lemma_parse_fields(fs);
    let a0 = blank_layer();
    let a1 = LayerParts { version: Some(l.version), ..a0 };
    let a2 = LayerParts { name: Some(l.name), ..a1 };
    let a3 = LayerParts { features: l.features, ..a2 };
    let a4 = LayerParts { keys: l.keys, ..a3 };
    let a5 = LayerParts { values: l.values, ..a4 };
    let a6 = LayerParts { extent: Some(l.extent), ..a5 };
    assert(head =~= seq![fv] + seq![fname]);
    lemma_fold_fields_one(fv, a0, step);
    encode_utf8_valid_utf8(l.name);
    encode_utf8_decode_utf8(l.name);
    lemma_fold_fields_one(fname, a1, step);
    lemma_fold_fields_concat(seq![fv], seq![fname], a0, step);
    assert(fold_fields(head, a0, step) == Some(a2));
    lemma_fold_feature_entries(a2, l.features);
    assert(a2.features + l.features =~= l.features);
    lemma_fold_key_entries(a3, l.keys);
    assert(a3.keys + l.keys =~= l.keys);
    lemma_fold_value_entries(a4, l.values);
    assert(a4.values + l.values =~= l.values);
    lemma_fold_fields_one(fe, a5, step);
    let upto_features = head + feature_entries(l.features);
    let upto_keys = upto_features + key_entries(l.keys);
    let upto_values = upto_keys + value_entries(l.values);
    lemma_fold_fields_concat(head, feature_entries(l.features), a0, step);
    lemma_fold_fields_concat(upto_features, key_entries(l.keys), a0, step);
    lemma_fold_fields_concat(upto_keys, value_entries(l.values), a0, step);
    lemma_fold_fields_concat(upto_values, tail, a0, step);
    assert(fold_fields(fs, a0, step) == Some(a6));
    assert(layer_of_parts(a6) == Some(l));
}

proof fn lemma_fold_layer_entries(acc: Seq<LayerView>, ls: Seq<LayerView>)
    requires
        forall|i: int| 0 <= i < ls.len() ==> layer_wf(#[trigger] ls[i]),
    ensures
        fold_fields(layer_entries(ls), acc, tile_stepper()) == Some(acc + ls),
    decreases ls.len(),
{
    if ls.len() == 0 {
        assert(acc + ls =~= acc);
    } else {
        let init = ls.drop_last();
        lemma_fold_layer_entries(acc, init);
        assert(layer_entries(ls).drop_last() =~= layer_entries(init));
        assert(layer_wf(ls[ls.len() - 1]));
        lemma_decode_encode_layer(ls.last());
        assert((acc + init).push(ls.last()) =~= acc + ls);
    }
}

/// A written tile is read back: the layers, their features, keys and values,
/// all as they were.
pub proof fn lemma_decode_encode_tile(t: TileView)
    requires
        tile_wf(t),
    ensures
        decode_tile(encode_tile(t)) == Some(t),
{
    lemma_parse_fields(layer_entries(t.layers));
    lemma_fold_layer_entries(Seq::empty(), t.layers);
    assert(Seq::<LayerView>::empty() + t.layers =~= t.layers);
}

/// Checks that `bytes` are UTF-8 and gives the string they spell.
///
/// Calls `String::from_utf8`, which accepts exactly the byte sequences that
/// are valid UTF-8 and returns the string with those bytes.
#[verifier::external_body]
pub(crate) fn string_from_utf8(bytes: &[u8]) -> (r: Option<String>)
    ensures
        r is Some <==> valid_utf8(bytes@),
        r is Some ==> r.unwrap()@ == decode_utf8(bytes@),
{
    String::from_utf8(bytes.to_vec()).ok()
}

/// The unsigned integer with the bits of `i`.
pub(crate) fn int_bits(i: i64) -> (u: u64)
    ensures
        u == int_to_wire(i),
{
    if i >= 0 {
        i as u64
    } else {
        u64::MAX - ((-(i + 1)) as u64)
    }
}

fn int_of_bits(u: u64) -> (i: i64)
    ensures
        i == wire_to_int(u),
{
    if u <= i64::MAX as u64 {
        u as i64
    } else {
        -((u64::MAX - u) as i64) - 1
    }
}

fn sint_bits(i: i64) -> (z: u64)
    ensures
        z == zigzag64(i),
{
    if i >= 0 {
        (i as u64) * 2
    } else {
        ((-(i + 1)) as u64) * 2 + 1
    }
}

fn sint_of_bits(z: u64) -> (i: i64)
    ensures
        i == unzigzag64(z),
{
    if z % 2 == 0 {
        (z / 2) as i64
    } else {
        -((z / 2) as i64) - 1
    }
}

fn low_bits(v: u64) -> (w: u32)
    ensures
        w == low32(v),
{
    (v % 0x1_0000_0000) as u32
}

fn geom_code(t: GeomType) -> (code: u64)
    ensures
        code == geom_type_code(t),
{
    match t {
        GeomType::Unknown => 0,
        GeomType::Point => 1,
        GeomType::LineString => 2,
        GeomType::Polygon => 3,
    }
}

fn geom_of_code(code: u64) -> (t: Option<GeomType>)
    ensures
        t == geom_type_of(code),
{
    if code == 0 {
        Some(GeomType::Unknown)
    } else if code == 1 {
        Some(GeomType::Point)
    } else if code == 2 {
        Some(GeomType::LineString)
    } else if code == 3 {
        Some(GeomType::Polygon)
    } else {
        None
    }
}

/// Appends the value message of `v`.
pub fn write_value(out: &mut Vec<u8>, v: &Value)
    ensures
        final(out)@ == old(out)@ + encode_value(v@),
        value_wf(v@),
{
    proof {
        lemma_encode_fields_one(value_field(v@));
    }
    match v {
        Value::String(s) => {
            put_bytes_field(out, 1, s.as_str().as_bytes());
        },
        Value::Float(b) => {
            put_fixed32_field(out, 2, *b);
        },
        Value::Double(b) => {
            put_fixed64_field(out, 3, *b);
        },
        Value::Int(i) => {
            put_varint_field(out, 4, int_bits(*i));
        },
        Value::UInt(u) => {
            put_varint_field(out, 5, *u);
        },
        Value::SInt(i) => {
            put_varint_field(out, 6, sint_bits(*i));
        },
        Value::Bool(b) => {
            put_varint_field(
                out,
                7,
                if *b {
                    1
                } else {
                    0
                },
            );
        },
    }
}

proof fn lemma_field_written(base: Seq<u8>, done: Seq<Field>, fld: Field, before: Seq<u8>, after: Seq<u8>)
    requires
        before == base + encode_fields(done),
        after == before + encode_field(fld),
        fields_wf(done),
        fld.wf(),
    ensures
        after == base + encode_fields(done + seq![fld]),
        fields_wf(done + seq![fld]),
{
    lemma_encode_fields_push(done, fld);
    assert(done + seq![fld] =~= done.push(fld));
    assert(after =~= base + encode_fields(done.push(fld)));
}

proof fn lemma_field_skipped(base: Seq<u8>, done: Seq<Field>, before: Seq<u8>)
    requires
        before == base + encode_fields(done),
        fields_wf(done),
    ensures
        before == base + encode_fields(done + Seq::<Field>::empty()),
        fields_wf(done + Seq::<Field>::empty()),
{
    assert(done + Seq::<Field>::empty() =~= done);
}

/// Appends the feature message of `f`.
pub fn write_feature(out: &mut Vec<u8>, f: &Feature)
    ensures
        final(out)@ == old(out)@ + encode_feature(f@),
        feature_wf(f@),
{
    let ghost base = out@;
    let ghost s0 = Seq::<Field>::empty();
    let ghost f1 = Field { number: 1, payload: Payload::Varint(f.id.unwrap()) };
    let ghost f2 = Field { number: 2, payload: Payload::Bytes(encode_packed(widen(f.tags@))) };
    let ghost f3 = Field { number: 3, payload: Payload::Varint(geom_type_code(f.field_type)) };
    let ghost f4 = Field { number: 4, payload: Payload::Bytes(encode_packed(widen(f.geometry@))) };
    let ghost s1 = s0 + (if f.id is Some {
        seq![f1]
    } else {
        Seq::empty()
    });
    let ghost s2 = s1 + (if f.tags@.len() > 0 {
        seq![f2]
    } else {
        Seq::empty()
    });
    let ghost s3 = s2 + seq![f3];
    let ghost s4 = s3 + (if f.geometry@.len() > 0 {
        seq![f4]
    } else {
        Seq::empty()
    });
    assert(out@ =~= base + encode_fields(s0));
    match f.id {
        Some(id) => {
            let ghost before = out@;
            put_varint_field(out, 1, id);
            proof {
                lemma_field_written(base, s0, f1, before, out@);
            }
        },
        None => {
            proof {
                lemma_field_skipped(base, s0, out@);
            }
        },
    }
    assert(out@ == base + encode_fields(s1) && fields_wf(s1));
    if f.tags.len() > 0 {
        let ghost before = out@;
        let run = packed(&f.tags);
        put_bytes_field(out, 2, run.as_slice());
        proof {
            lemma_field_written(base, s1, f2, before, out@);
        }
    } else {
        proof {
            lemma_field_skipped(base, s1, out@);
        }
    }
    assert(out@ == base + encode_fields(s2) && fields_wf(s2));
    let ghost before3 = out@;
    put_varint_field(out, 3, geom_code(f.field_type));
    proof {
        lemma_field_written(base, s2, f3, before3, out@);
    }
    assert(out@ == base + encode_fields(s3) && fields_wf(s3));
    if f.geometry.len() > 0 {
        let ghost before = out@;
        let run = packed(&f.geometry);
        put_bytes_field(out, 4, run.as_slice());
        proof {
            lemma_field_written(base, s3, f4, before, out@);
        }
    } else {
        proof {
            lemma_field_skipped(base, s3, out@);
        }
    }
    assert(out@ == base + encode_fields(s4) && fields_wf(s4));
    assert(s4 =~= feature_fields(f@));
}

/// Appends the layer message of `l`.
pub fn write_layer(out: &mut Vec<u8>, l: &Layer)
    ensures
        final(out)@ == old(out)@ + encode_layer(l@),
        layer_wf(l@),
{
    let ghost lv = l@;
    let ghost fv = Field { number: 15, payload: Payload::Varint(l.version as u64) };
    let ghost fname = Field { number: 1, payload: Payload::Bytes(encode_utf8(l.name@)) };
    let ghost head = seq![fv, fname];
    put_varint_field(out, 15, l.version as u64);
    put_bytes_field(out, 1, l.name.as_str().as_bytes());
    proof {
        lemma_encode_fields_one(fv);
        lemma_encode_fields_push(seq![fv], fname);
        assert(seq![fv].push(fname) =~= head);
        assert(out@ =~= old(out)@ + encode_fields(head));
        assert(feature_entries(lv.features.take(0)) =~= Seq::<Field>::empty());
        assert(head + feature_entries(lv.features.take(0)) =~= head);
    }
    let n: usize = l.features.len();
    let mut i: usize = 0;
    while i < n
        invariant
            i <= n,
            n == l.features@.len(),
            lv == l@,
            head == seq![fv, fname],
            fields_wf(head + feature_entries(lv.features.take(i as int))),
            forall|j: int| 0 <= j < i ==> feature_wf(#[trigger] lv.features[j]),
            out@ == old(out)@ + encode_fields(head + feature_entries(lv.features.take(i as int))),
        decreases n - i,
    {
        let ghost done = head + feature_entries(lv.features.take(i as int));
        let mut buf: Vec<u8> = Vec::new();
        write_feature(&mut buf, &l.features[i]);
        put_bytes_field(out, 2, buf.as_slice());
        proof {
            assert(lv.features[i as int] == l.features@[i as int]@);
            assert(buf@ =~= encode_feature(lv.features[i as int]));
            let fld = Field { number: 2, payload: Payload::Bytes(buf@) };
            lemma_encode_fields_push(done, fld);
            assert(lv.features.take(i + 1) =~= lv.features.take(i as int).push(lv.features[i as int]));
            assert(feature_entries(lv.features.take(i + 1)) =~= feature_entries(lv.features.take(i as int)).push(
                fld,
            ));
            assert(head + feature_entries(lv.features.take(i + 1)) =~= done.push(fld));
        }
        i += 1;
    }
    let ghost upto_features = head + feature_entries(lv.features);
    proof {
        assert(lv.features.take(n as int) =~= lv.features);
        assert(key_entries(lv.keys.take(0)) =~= Seq::<Field>::empty());
        assert(upto_features + key_entries(lv.keys.take(0)) =~= upto_features);
    }
    let nk: usize = l.keys.len();
    let mut k: usize = 0;
    while k < nk
        invariant
            k <= nk,
            nk == l.keys@.len(),
            lv == l@,
            upto_features == head + feature_entries(lv.features),
            fields_wf(upto_features + key_entries(lv.keys.take(k as int))),
            out@ == old(out)@ + encode_fields(upto_features + key_entries(lv.keys.take(k as int))),
        decreases nk - k,
    {
        let ghost done = upto_features + key_entries(lv.keys.take(k as int));
        put_bytes_field(out, 3, l.keys[k].as_str().as_bytes());
        proof {
            assert(lv.keys[k as int] == l.keys@[k as int]@);
            let fld = Field { number: 3, payload: Payload::Bytes(encode_utf8(lv.keys[k as int])) };
            lemma_encode_fields_push(done, fld);
            assert(lv.keys.take(k + 1) =~= lv.keys.take(k as int).push(lv.keys[k as int]));
            assert(key_entries(lv.keys.take(k + 1)) =~= key_entries(lv.keys.take(k as int)).push(fld));
            assert(upto_features + key_entries(lv.keys.take(k + 1)) =~= done.push(fld));
        }
        k += 1;
    }
    let ghost upto_keys = upto_features + key_entries(lv.keys);
    proof {
        assert(lv.keys.take(nk as int) =~= lv.keys);
        assert(value_entries(lv.values.take(0)) =~= Seq::<Field>::empty());
        assert(upto_keys + value_entries(lv.values.take(0)) =~= upto_keys);
    }
    let nv: usize = l.values.len();
    let mut m: usize = 0;
    while m < nv
        invariant
            m <= nv,
            nv == l.values@.len(),
            lv == l@,
            upto_keys == upto_features + key_entries(lv.keys),
            fields_wf(upto_keys + value_entries(lv.values.take(m as int))),
            forall|j: int| 0 <= j < m ==> value_wf(#[trigger] lv.values[j]),
            out@ == old(out)@ + encode_fields(upto_keys + value_entries(lv.values.take(m as int))),
        decreases nv - m,
    {
        let ghost done = upto_keys + value_entries(lv.values.take(m as int));
        let mut buf: Vec<u8> = Vec::new();
        write_value(&mut buf, &l.values[m]);
        put_bytes_field(out, 4, buf.as_slice());
        proof {
            assert(lv.values[m as int] == l.values@[m as int]@);
            assert(buf@ =~= encode_value(lv.values[m as int]));
            let fld = Field { number: 4, payload: Payload::Bytes(buf@) };
            lemma_encode_fields_push(done, fld);
            assert(lv.values.take(m + 1) =~= lv.values.take(m as int).push(lv.values[m as int]));
            assert(value_entries(lv.values.take(m + 1)) =~= value_entries(lv.values.take(m as int)).push(fld));
            assert(upto_keys + value_entries(lv.values.take(m + 1)) =~= done.push(fld));
        }
        m += 1;
    }
    let ghost upto_values = upto_keys + value_entries(lv.values);
    put_varint_field(out, 5, l.extent as u64);
    proof {
        assert(lv.values.take(nv as int) =~= lv.values);
        let fld = Field { number: 5, payload: Payload::Varint(l.extent as u64) };
        lemma_encode_fields_push(upto_values, fld);
        assert(upto_values.push(fld) =~= layer_fields(lv));
    }
}

/// Appends the bytes of `t`.
pub fn write_tile(out: &mut Vec<u8>, t: &Tile)
    ensures
        final(out)@ == old(out)@ + encode_tile(t@),
        tile_wf(t@),
{
    let ghost tv = t@;
    let n: usize = t.layers.len();
    let mut i: usize = 0;
    proof {
        assert(layer_entries(tv.layers.take(0)) =~= Seq::<Field>::empty());
        assert(out@ =~= old(out)@ + encode_fields(layer_entries(tv.layers.take(0))));
    }
    while i < n
        invariant
            i <= n,
            n == t.layers@.len(),
            tv == t@,
            fields_wf(layer_entries(tv.layers.take(i as int))),
            forall|j: int| 0 <= j < i ==> layer_wf(#[trigger] tv.layers[j]),
            out@ == old(out)@ + encode_fields(layer_entries(tv.layers.take(i as int))),
        decreases n - i,
    {
        let ghost done = layer_entries(tv.layers.take(i as int));
        let mut buf: Vec<u8> = Vec::new();
        write_layer(&mut buf, &t.layers[i]);
        put_bytes_field(out, 3, buf.as_slice());
        proof {
            assert(tv.layers[i as int] == t.layers@[i as int]@);
            assert(buf@ =~= encode_layer(tv.layers[i as int]));
            let fld = Field { number: 3, payload: Payload::Bytes(buf@) };
            lemma_encode_fields_push(done, fld);
            assert(tv.layers.take(i + 1) =~= tv.layers.take(i as int).push(tv.layers[i as int]));
            assert(layer_entries(tv.layers.take(i + 1)) =~= done.push(fld));
        }
        i += 1;
    }
    assert(tv.layers.take(n as int) =~= tv.layers);
}

/// The content of a value that may not be there.
pub open spec fn value_option_view(v: Option<Value>) -> Option<ValueView> {
    match v {
        Some(x) => Some(x@),
        None => None,
    }
}

fn read_value_field(f: &RawField) -> (r: Option<Option<Value>>)
    ensures
        match value_step(None, f@) {
            Some(Some(v)) => r is Some && value_option_view(r.unwrap()) == Some(v),
            Some(None) => r == Some(None::<Value>) && !(1 <= f.number <= 7),
            None => r is None,
        },
        1 <= f.number <= 7 ==> value_step(None, f@) is None || value_step(None, f@).unwrap() is Some,
{
    match f.number {
        1 => match f.payload {
            RawPayload::Bytes(b) => match string_from_utf8(b) {
                Some(s) => Some(Some(Value::String(s))),
                None => None,
            },
            _ => None,
        },
        2 => match f.payload {
            RawPayload::Fixed32(v) => Some(Some(Value::Float(v))),
            _ => None,
        },
        3 => match f.payload {
            RawPayload::Fixed64(v) => Some(Some(Value::Double(v))),
            _ => None,
        },
        4 => match f.payload {
            RawPayload::Varint(v) => Some(Some(Value::Int(int_of_bits(v)))),
            _ => None,
        },
        5 => match f.payload {
            RawPayload::Varint(v) => Some(Some(Value::UInt(v))),
            _ => None,
        },
        6 => match f.payload {
            RawPayload::Varint(v) => Some(Some(Value::SInt(sint_of_bits(v)))),
            _ => None,
        },
        7 => match f.payload {
            RawPayload::Varint(v) => Some(Some(Value::Bool(v != 0))),
            _ => None,
        },
        _ => Some(None),
    }
}

/// Reads a value message.
pub fn read_value(bytes: &[u8]) -> (r: Option<Value>)
    ensures
        match decode_value(bytes@) {
            Some(v) => r is Some && r.unwrap()@ == v,
            None => r is None,
        },
{
    let fields = match get_fields(bytes) {
        Some(fields) => fields,
        None => {
            return None;
        },
    };
    let ghost fs = raw_views(fields@);
    let ghost step = value_stepper();
    let mut acc: Option<Value> = None;
    let n: usize = fields.len();
    let mut i: usize = 0;
    assert(fs.take(0) =~= Seq::<Field>::empty());
    while i < n
        invariant
            i <= n,
            n == fields@.len(),
            fs == raw_views(fields@),
            parse_fields(bytes@) == Some(fs),
            step == value_stepper(),
            fold_fields(fs.take(i as int), None, step) == Some(value_option_view(acc)),
        decreases n - i,
    {
        let f = &fields[i];
        proof {
            assert(fs.take(i + 1).drop_last() =~= fs.take(i as int));
            assert(fs.take(i + 1).last() == f@);
            assert(value_step(value_option_view(acc), f@) == if 1 <= f.number <= 7 {
                value_step(None, f@)
            } else {
                Some(value_option_view(acc))
            });
        }
        match read_value_field(f) {
            None => {
                proof {
                    lemma_fold_fields_prefix_fails(fs, i + 1, None, step);
                }
                return None;
            },
            Some(Some(v)) => {
                acc = Some(v);
            },
            Some(None) => {},
        }
        i += 1;
    }
    assert(fs.take(n as int) =~= fs);
    acc
}

/// Adds the integers of a repeated field to `acc`.
fn read_repeated(acc: &mut Vec<u32>, payload: &RawPayload) -> (ok: bool)
    ensures
        match repeated_u32(payload@) {
            Some(vs) => ok && final(acc)@ == old(acc)@ + vs,
            None => !ok,
        },
{
    match payload {
        RawPayload::Varint(v) => {
            acc.push(low_bits(*v));
            assert(acc@ =~= old(acc)@ + seq![low32(*v)]);
            true
        },
        RawPayload::Bytes(b) => {
            let run = match get_packed(b) {
                Some(run) => run,
                None => {
                    return false;
                },
            };
            let n: usize = run.len();
            let mut i: usize = 0;
            assert(acc@ =~= old(acc)@ + narrow(run@.take(0)));
            while i < n
                invariant
                    i <= n,
                    n == run@.len(),
                    acc@ == old(acc)@ + narrow(run@.take(i as int)),
                decreases n - i,
            {
                acc.push(low_bits(run[i]));
                i += 1;
                assert(run@.take(i as int) =~= run@.take(i - 1).push(run@[i - 1]));
                assert(acc@ =~= old(acc)@ + narrow(run@.take(i as int)));
            }
            assert(run@.take(n as int) =~= run@);
            true
        },
        _ => false,
    }
}

/// Reads a feature message.
pub fn read_feature(bytes: &[u8]) -> (r: Option<Feature>)
    ensures
        match decode_feature(bytes@) {
            Some(f) => r is Some && r.unwrap()@ == f,
            None => r is None,
        },
{
    let fields = match get_fields(bytes) {
        Some(fields) => fields,
        None => {
            return None;
        },
    };
    let ghost fs = raw_views(fields@);
    let ghost step = feature_stepper();
    let mut acc = Feature { id: None, tags: Vec::new(), field_type: GeomType::Unknown, geometry: Vec::new() };
    let n: usize = fields.len();
    let mut i: usize = 0;
    assert(fs.take(0) =~= Seq::<Field>::empty());
    assert(acc@ =~= blank_feature()) by {
        assert(acc@.tags =~= Seq::<u32>::empty());
        assert(acc@.geometry =~= Seq::<u32>::empty());
    }
    while i < n
        invariant
            i <= n,
            n == fields@.len(),
            fs == raw_views(fields@),
            parse_fields(bytes@) == Some(fs),
            step == feature_stepper(),
            fold_fields(fs.take(i as int), blank_feature(), step) == Some(acc@),
        decreases n - i,
    {
        let f = &fields[i];
        let ghost before = acc@;
        proof {
            assert(fs.take(i + 1).drop_last() =~= fs.take(i as int));
            assert(fs.take(i + 1).last() == f@);
        }
        let mut ok: bool = true;
        match f.number {
            1 => match f.payload {
                RawPayload::Varint(v) => {
                    acc.id = Some(v);
                },
                _ => {
                    ok = false;
                },
            },
            2 => {
                ok = read_repeated(&mut acc.tags, &f.payload);
            },
            3 => match f.payload {
                RawPayload::Varint(v) => match geom_of_code(v) {
                    Some(t) => {
                        acc.field_type = t;
                    },
                    None => {},
                },
                _ => {
                    ok = false;
                },
            },
            4 => {
                ok = read_repeated(&mut acc.geometry, &f.payload);
            },
            _ => {},
        }
        if !ok {
            proof {
                assert(feature_step(before, f@) is None);
                lemma_fold_fields_prefix_fails(fs, i + 1, blank_feature(), step);
            }
            return None;
        }
        assert(feature_step(before, f@) == Some(acc@));
        i += 1;
    }
    assert(fs.take(n as int) =~= fs);
    Some(acc)
}

/// The content of a string that may not be there.
pub open spec fn string_option_view(s: Option<String>) -> Option<Seq<char>> {
    match s {
        Some(x) => Some(x@),
        None => None,
    }
}

/// Reads a layer message.
pub fn read_layer(bytes: &[u8]) -> (r: Option<Layer>)
    ensures
        match decode_layer(bytes@) {
            Some(l) => r is Some && r.unwrap()@ == l,
            None => r is None,
        },
{
    let fields = match get_fields(bytes) {
        Some(fields) => fields,
        None => {
            return None;
        },
    };
    let ghost fs = raw_views(fields@);
    let ghost step = layer_stepper();
    let mut version: Option<u32> = None;
    let mut name: Option<String> = None;
    let mut features: Vec<Feature> = Vec::new();
    let mut keys: Vec<String> = Vec::new();
    let mut values: Vec<Value> = Vec::new();
    let mut extent: Option<u32> = None;
    let n: usize = fields.len();
    let mut i: usize = 0;
    proof {
        assert(fs.take(0) =~= Seq::<Field>::empty());
        assert(feature_views(features@) =~= Seq::<FeatureView>::empty());
        assert(string_views(keys@) =~= Seq::<Seq<char>>::empty());
        assert(value_views(values@) =~= Seq::<ValueView>::empty());
    }
    while i < n
        invariant
            i <= n,
            n == fields@.len(),
            fs == raw_views(fields@),
            parse_fields(bytes@) == Some(fs),
            step == layer_stepper(),
            fold_fields(fs.take(i as int), blank_layer(), step) == Some(
                LayerParts {
                    version,
                    name: string_option_view(name),
                    features: feature_views(features@),
                    keys: string_views(keys@),
                    values: value_views(values@),
                    extent,
                },
            ),
        decreases n - i,
    {
        let f = &fields[i];
        let ghost before = LayerParts {
            version,
            name: string_option_view(name),
            features: feature_views(features@),
            keys: string_views(keys@),
            values: value_views(values@),
            extent,
        };
        proof {
            assert(fs.take(i + 1).drop_last() =~= fs.take(i as int));
            assert(fs.take(i + 1).last() == f@);
        }
        let mut ok: bool = true;
        match f.number {
            15 => match f.payload {
                RawPayload::Varint(v) => {
                    version = Some(low_bits(v));
                },
                _ => {
                    ok = false;
                },
            },
            1 => match f.payload {
                RawPayload::Bytes(b) => match string_from_utf8(b) {
                    Some(s) => {
                        name = Some(s);
                    },
                    None => {
                        ok = false;
                    },
                },
                _ => {
                    ok = false;
                },
            },
            2 => match f.payload {
                RawPayload::Bytes(b) => match read_feature(b) {
                    Some(feature) => {
                        let ghost had = features@;
                        features.push(feature);
                        assert(feature_views(features@) =~= feature_views(had).push(feature@));
                    },
                    None => {
                        ok = false;
                    },
                },
                _ => {
                    ok = false;
                },
            },
            3 => match f.payload {
                RawPayload::Bytes(b) => match string_from_utf8(b) {
                    Some(s) => {
                        let ghost had = keys@;
                        keys.push(s);
                        assert(string_views(keys@) =~= string_views(had).push(s@));
                    },
                    None => {
                        ok = false;
                    },
                },
                _ => {
                    ok = false;
                },
            },
            4 => match f.payload {
                RawPayload::Bytes(b) => match read_value(b) {
                    Some(value) => {
                        let ghost had = values@;
                        values.push(value);
                        assert(value_views(values@) =~= value_views(had).push(value@));
                    },
                    None => {
                        ok = false;
                    },
                },
                _ => {
                    ok = false;
                },
            },
            5 => match f.payload {
                RawPayload::Varint(v) => {
                    extent = Some(low_bits(v));
                },
                _ => {
                    ok = false;
                },
            },
            _ => {},
        }
        if !ok {
            proof {
                assert(layer_step(before, f@) is None);
                lemma_fold_fields_prefix_fails(fs, i + 1, blank_layer(), step);
            }
            return None;
        }
        assert(layer_step(before, f@) == Some(
            LayerParts {
                version,
                name: string_option_view(name),
                features: feature_views(features@),
                keys: string_views(keys@),
                values: value_views(values@),
                extent,
            },
        ));
        i += 1;
    }
    assert(fs.take(n as int) =~= fs);
    match (version, name) {
        (Some(version), Some(name)) => Some(
            Layer {
                version,
                name,
                features,
                keys,
                values,
                extent: match extent {
                    Some(e) => e,
                    None => DEFAULT_EXTENT,
                },
            },
        ),
        _ => None,
    }
}

/// Reads a tile.
pub fn read_tile(bytes: &[u8]) -> (r: Option<Tile>)
    ensures
        match decode_tile(bytes@) {
            Some(t) => r is Some && r.unwrap()@ == t,
            None => r is None,
        },
{
    let fields = match get_fields(bytes) {
        Some(fields) => fields,
        None => {
            return None;
        },
    };
    let ghost fs = raw_views(fields@);
    let ghost step = tile_stepper();
    let mut layers: Vec<Layer> = Vec::new();
    let n: usize = fields.len();
    let mut i: usize = 0;
    proof {
        assert(fs.take(0) =~= Seq::<Field>::empty());
        assert(layer_views(layers@) =~= Seq::<LayerView>::empty());
    }
    while i < n
        invariant
            i <= n,
            n == fields@.len(),
            fs == raw_views(fields@),
            parse_fields(bytes@) == Some(fs),
            step == tile_stepper(),
            fold_fields(fs.take(i as int), Seq::empty(), step) == Some(layer_views(layers@)),
        decreases n - i,
    {
        let f = &fields[i];
        let ghost before = layer_views(layers@);
        proof {
            assert(fs.take(i + 1).drop_last() =~= fs.take(i as int));
            assert(fs.take(i + 1).last() == f@);
        }
        if f.number == 3 {
            let layer = match f.payload {
                RawPayload::Bytes(b) => read_layer(b),
                _ => None,
            };
            match layer {
                Some(layer) => {
                    let ghost had = layers@;
                    layers.push(layer);
                    assert(layer_views(layers@) =~= layer_views(had).push(layer@));
                },
                None => {
                    proof {
                        assert(tile_step(before, f@) is None);
                        lemma_fold_fields_prefix_fails(fs, i + 1, Seq::empty(), step);
                    }
                    return None;
                },
            }
        }
        assert(tile_step(before, f@) == Some(layer_views(layers@)));
        i += 1;
    }
    assert(fs.take(n as int) =~= fs);
    Some(Tile { layers })
}

} // verus!
