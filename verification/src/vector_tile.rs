//! The data model of a vector tile: layers, features, attribute values.

use vstd::prelude::*;
use vstd::std_specs::cmp::PartialEqSpecImpl;

verus! {

/// The kind of shape a feature's geometry draws.
#[derive(Clone, Copy, Debug, PartialEq, Eq)]
pub enum GeomType {
    Unknown,
    Point,
    LineString,
    Polygon,
}

/// An attribute value. `Float` and `Double` hold the bits of an IEEE 754
/// single and double.
#[derive(Clone, Debug)]
pub enum Value {
    String(String),
    Float(u32),
    Double(u64),
    Int(i64),
    UInt(u64),
    SInt(i64),
    Bool(bool),
}

/// The mathematical content of a [`Value`].
pub enum ValueView {
    String(Seq<char>),
    Float(u32),
    Double(u64),
    Int(i64),
    UInt(u64),
    SInt(i64),
    Bool(bool),
}

impl View for Value {
    type V = ValueView;

    open spec fn view(&self) -> ValueView {
        match self {
            Value::String(s) => ValueView::String(s@),
            Value::Float(b) => ValueView::Float(*b),
            Value::Double(b) => ValueView::Double(*b),
            Value::Int(i) => ValueView::Int(*i),
            Value::UInt(u) => ValueView::UInt(*u),
            Value::SInt(i) => ValueView::SInt(*i),
            Value::Bool(b) => ValueView::Bool(*b),
        }
    }
}

/// The bits of a single are those of a NaN: exponent all ones, fraction not
/// zero, either sign.
pub open spec fn float_is_nan(bits: u32) -> bool {
    bits % 0x8000_0000 > 0x7F80_0000
}

/// The bits of a double are those of a NaN.
pub open spec fn double_is_nan(bits: u64) -> bool {
    bits % 0x8000_0000_0000_0000 > 0x7FF0_0000_0000_0000
}

/// Two singles are equal as numbers: neither is a NaN, and their bits agree
/// or both are a zero of either sign.
pub open spec fn float_eq(a: u32, b: u32) -> bool {
    !float_is_nan(a) && !float_is_nan(b) && (a == b || (a % 0x8000_0000 == 0 && b % 0x8000_0000 == 0))
}

/// Two doubles are equal as numbers.
pub open spec fn double_eq(a: u64, b: u64) -> bool {
    !double_is_nan(a) && !double_is_nan(b) && (a == b || (a % 0x8000_0000_0000_0000 == 0 && b
        % 0x8000_0000_0000_0000 == 0))
}

/// Equality of attribute values: the same variant holding equal contents.
/// Values of different variants are never equal, whatever they hold.
pub open spec fn value_eq(a: ValueView, b: ValueView) -> bool {
    match (a, b) {
        (ValueView::String(x), ValueView::String(y)) => x == y,
        (ValueView::Float(x), ValueView::Float(y)) => float_eq(x, y),
        (ValueView::Double(x), ValueView::Double(y)) => double_eq(x, y),
        (ValueView::Int(x), ValueView::Int(y)) => x == y,
        (ValueView::UInt(x), ValueView::UInt(y)) => x == y,
        (ValueView::SInt(x), ValueView::SInt(y)) => x == y,
        (ValueView::Bool(x), ValueView::Bool(y)) => x == y,
        _ => false,
    }
}

/// A value equals itself: every value but a NaN.
pub open spec fn value_is_reflexive(v: ValueView) -> bool {
    match v {
        ValueView::Float(x) => !float_is_nan(x),
        ValueView::Double(x) => !double_is_nan(x),
        _ => true,
    }
}

fn float_bits_eq(a: u32, b: u32) -> (r: bool)
    ensures
        r == float_eq(a, b),
{
    let ma: u32 = a % 0x8000_0000;
    let mb: u32 = b % 0x8000_0000;
    ma <= 0x7F80_0000 && mb <= 0x7F80_0000 && (a == b || (ma == 0 && mb == 0))
}

fn double_bits_eq(a: u64, b: u64) -> (r: bool)
    ensures
        r == double_eq(a, b),
{
    let ma: u64 = a % 0x8000_0000_0000_0000;
    let mb: u64 = b % 0x8000_0000_0000_0000;
    ma <= 0x7FF0_0000_0000_0000 && mb <= 0x7FF0_0000_0000_0000 && (a == b || (ma == 0 && mb == 0))
}

fn value_same(a: &Value, b: &Value) -> (r: bool)
    ensures
        r == value_eq(a@, b@),
{
    match a {
        Value::String(x) => match b {
            Value::String(y) => *x == *y,
            _ => false,
        },
        Value::Float(x) => match b {
            Value::Float(y) => float_bits_eq(*x, *y),
            _ => false,
        },
        Value::Double(x) => match b {
            Value::Double(y) => double_bits_eq(*x, *y),
            _ => false,
        },
        Value::Int(x) => match b {
            Value::Int(y) => *x == *y,
            _ => false,
        },
        Value::UInt(x) => match b {
            Value::UInt(y) => *x == *y,
            _ => false,
        },
        Value::SInt(x) => match b {
            Value::SInt(y) => *x == *y,
            _ => false,
        },
        Value::Bool(x) => match b {
            Value::Bool(y) => *x == *y,
            _ => false,
        },
    }
}

impl PartialEq for Value {
    fn eq(&self, other: &Value) -> (r: bool) {
        value_same(self, other)
    }
}

impl PartialEqSpecImpl for Value {
    open spec fn obeys_eq_spec() -> bool {
        true
    }

    open spec fn eq_spec(&self, other: &Value) -> bool {
        value_eq(self@, other@)
    }
}

/// One feature of a layer.
#[derive(Clone, Debug, PartialEq)]
pub struct Feature {
    pub id: Option<u64>,
    /// Pairs of indices into the layer's keys and values.
    pub tags: Vec<u32>,
    pub field_type: GeomType,
    /// The command sequence of the feature's shape.
    pub geometry: Vec<u32>,
}

/// The mathematical content of a [`Feature`].
pub struct FeatureView {
    pub id: Option<u64>,
    pub tags: Seq<u32>,
    pub field_type: GeomType,
    pub geometry: Seq<u32>,
}

impl View for Feature {
    type V = FeatureView;

    open spec fn view(&self) -> FeatureView {
        FeatureView { id: self.id, tags: self.tags@, field_type: self.field_type, geometry: self.geometry@ }
    }
}

/// A named group of features with the dictionaries their tags index.
#[derive(Clone, Debug, PartialEq)]
pub struct Layer {
    pub version: u32,
    pub name: String,
    pub features: Vec<Feature>,
    pub keys: Vec<String>,
    pub values: Vec<Value>,
    /// The side of the tile in pixels.
    pub extent: u32,
}

/// The mathematical content of a [`Layer`].
pub struct LayerView {
    pub version: u32,
    pub name: Seq<char>,
    pub features: Seq<FeatureView>,
    pub keys: Seq<Seq<char>>,
    pub values: Seq<ValueView>,
    pub extent: u32,
}

/// The views of a list of features.
pub open spec fn feature_views(fs: Seq<Feature>) -> Seq<FeatureView> {
    fs.map_values(|f: Feature| f@)
}

/// The views of a list of strings.
pub open spec fn string_views(ss: Seq<String>) -> Seq<Seq<char>> {
    ss.map_values(|s: String| s@)
}

/// The views of a list of values.
pub open spec fn value_views(vs: Seq<Value>) -> Seq<ValueView> {
    vs.map_values(|v: Value| v@)
}

impl View for Layer {
    type V = LayerView;

    open spec fn view(&self) -> LayerView {
        LayerView {
            version: self.version,
            name: self.name@,
            features: feature_views(self.features@),
            keys: string_views(self.keys@),
            values: value_views(self.values@),
            extent: self.extent,
        }
    }
}

/// A tile: its layers in order.
#[derive(Clone, Debug, PartialEq)]
pub struct Tile {
    pub layers: Vec<Layer>,
}

/// The mathematical content of a [`Tile`].
pub struct TileView {
    pub layers: Seq<LayerView>,
}

/// The views of a list of layers.
pub open spec fn layer_views(ls: Seq<Layer>) -> Seq<LayerView> {
    ls.map_values(|l: Layer| l@)
}

impl View for Tile {
    type V = TileView;

    open spec fn view(&self) -> TileView {
        TileView { layers: layer_views(self.layers@) }
    }
}

impl Tile {
    /// A tile without layers.
    pub fn new() -> (tile: Tile)
        ensures
            tile@.layers == Seq::<LayerView>::empty(),
    {
        let tile = Tile { layers: Vec::new() };
        assert(tile@.layers =~= Seq::<LayerView>::empty());
        tile
    }
}

} // verus!
