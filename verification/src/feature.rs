//! What a data source hands to the tile builder.

use vstd::prelude::*;
use crate::geom::GeometryType;
use crate::vector_tile::{Value, ValueView};

verus! {

/// A typed attribute value. `Double` and `Float` hold the bits of an IEEE 754
/// double and single.
#[derive(Clone, Debug)]
pub enum FeatureAttrValType {
    String(String),
    Double(u64),
    Float(u32),
    Int(i64),
    UInt(u64),
    SInt(i64),
    Bool(bool),
}

impl View for FeatureAttrValType {
    type V = ValueView;

    open spec fn view(&self) -> ValueView {
        match self {
            FeatureAttrValType::String(s) => ValueView::String(s@),
            FeatureAttrValType::Double(b) => ValueView::Double(*b),
            FeatureAttrValType::Float(b) => ValueView::Float(*b),
            FeatureAttrValType::Int(i) => ValueView::Int(*i),
            FeatureAttrValType::UInt(u) => ValueView::UInt(*u),
            FeatureAttrValType::SInt(i) => ValueView::SInt(*i),
            FeatureAttrValType::Bool(b) => ValueView::Bool(*b),
        }
    }
}

impl FeatureAttrValType {
    /// The tile value of the same variant and content.
    pub fn to_value(&self) -> (v: Value)
        ensures
            v@ == self@,
    {
        match self {
            FeatureAttrValType::String(s) => Value::String(s.clone()),
            FeatureAttrValType::Double(b) => Value::Double(*b),
            FeatureAttrValType::Float(b) => Value::Float(*b),
            FeatureAttrValType::Int(i) => Value::Int(*i),
            FeatureAttrValType::UInt(u) => Value::UInt(*u),
            FeatureAttrValType::SInt(i) => Value::SInt(*i),
            FeatureAttrValType::Bool(b) => Value::Bool(*b),
        }
    }
}

/// A named attribute of a feature.
#[derive(Clone, Debug)]
pub struct FeatureAttr {
    pub key: String,
    pub value: FeatureAttrValType,
}

/// The mathematical content of a [`FeatureAttr`].
pub struct FeatureAttrView {
    pub key: Seq<char>,
    pub value: ValueView,
}

impl View for FeatureAttr {
    type V = FeatureAttrView;

    open spec fn view(&self) -> FeatureAttrView {
        FeatureAttrView { key: self.key@, value: self.value@ }
    }
}

/// The views of a list of attributes.
pub open spec fn attr_views(attrs: Seq<FeatureAttr>) -> Seq<FeatureAttrView> {
    attrs.map_values(|a: FeatureAttr| a@)
}

/// A feature as a data source provides it. Nothing is promised of what an
/// implementation returns.
pub trait Feature {
    /// The feature's identifier, if it has one.
    fn fid(&self) -> Option<u64>;

    /// The feature's attributes in order. Attributes without a value are left
    /// out.
    fn attributes(&self) -> Vec<FeatureAttr>;

    /// The feature's shape, or why it could not be had.
    fn geometry(&self) -> Result<GeometryType, String>;
}

} // verus!
