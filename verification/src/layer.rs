//! The configuration of a map layer.

use vstd::prelude::*;

verus! {

/// What a tile builder needs to know of a layer.
#[derive(Clone, Debug)]
pub struct Layer {
    pub name: String,
    /// The name of the attribute that holds the geometry.
    pub geometry_field: Option<String>,
    /// The name of the geometry type, as the data source spells it.
    pub geometry_type: Option<String>,
    /// The name of the attribute that holds the feature id.
    pub fid_field: Option<String>,
    /// The side of a tile in pixels.
    pub tile_size: u32,
}

impl Layer {
    /// Whether `key` names the geometry field or the id field of this layer.
    /// Such attributes say where a feature is and which one it is; they are
    /// not written as tags.
    pub open spec fn is_positional(&self, key: Seq<char>) -> bool {
        ||| (self.geometry_field is Some && self.geometry_field.unwrap()@ == key)
        ||| (self.fid_field is Some && self.fid_field.unwrap()@ == key)
    }

    /// Runtime test of [`Layer::is_positional`].
    pub fn names_position(&self, key: &String) -> (r: bool)
        ensures
            r == self.is_positional(key@),
    {
        let is_geometry = match &self.geometry_field {
            Some(name) => *name == *key,
            None => false,
        };
        let is_fid = match &self.fid_field {
            Some(name) => *name == *key,
            None => false,
        };
        is_geometry || is_fid
    }
}

} // verus!
