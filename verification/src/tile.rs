//! Building a tile: layers, features, and the dictionaries of their
//! attributes.

use vstd::prelude::*;
use crate::codec::{decode_tile, encode_tile, lemma_decode_encode_tile, read_tile, write_tile};
use crate::feature::{attr_views, Feature, FeatureAttr, FeatureAttrView};
use crate::geom;
use crate::geom::GeometryType;
use crate::geom_encoder::{
    encode_line, encode_lines, encode_points, encode_polygons, encode_rings, lemma_replay_line, lemma_replay_lines,
    lemma_replay_points, lemma_replay_polygons, lemma_replay_rings, lines_fit, origin, paths_of_line,
    paths_of_lines, paths_of_polygons, paths_of_rings, points_fit, polygons_fit, replay, single_paths,
    CommandSequence, EncodableGeom, PathView,
};
use crate::gz::{compress, expand, gunzip, gzip};
use crate::screen;
use crate::screen::{project_lines, project_point, project_points, project_polygons, ScreenGeom};
use crate::grid::Extent;
use crate::layer::Layer;
use crate::vector_tile;
use crate::vector_tile::{
    feature_views, value_eq, value_is_reflexive, FeatureView, GeomType, LayerView, Value, ValueView,
};

verus! {

/// A tile under construction, with the extent it shows.
pub struct Tile<'a> {
    pub mvt_tile: vector_tile::Tile,
    /// The extent the tile shows.
    pub extent: &'a Extent,
    /// Whether pixel rows are counted from the opposite border.
    pub reverse_y: bool,
}

/// The version of the tile format that layers are written in.
pub const LAYER_VERSION: u32 = 2;

/// The index of the first entry of `dict` that is `same` as `x`, or the length
/// of `dict` if there is none.
pub open spec fn dict_index<T>(dict: Seq<T>, x: T, same: spec_fn(T, T) -> bool) -> int
    decreases dict.len(),
{
    if dict.len() == 0 {
        0
    } else {
        let i = dict_index(dict.drop_last(), x, same);
        if i < dict.len() - 1 {
            i
        } else if same(dict.last(), x) {
            dict.len() - 1
        } else {
            dict.len() as int
        }
    }
}

/// The dictionary after `x` was interned, and the index `x` is found at: an
/// entry that is `same` as `x` is used where there is one, else `x` is added
/// at the end.
pub open spec fn interned<T>(dict: Seq<T>, x: T, same: spec_fn(T, T) -> bool) -> (Seq<T>, int) {
    let i = dict_index(dict, x, same);
    if i < dict.len() {
        (dict, i)
    } else {
        (dict.push(x), i)
    }
}

/// The dictionary after each of `xs` was interned in turn, and the index of
/// each.
pub open spec fn interned_all<T>(dict: Seq<T>, xs: Seq<T>, same: spec_fn(T, T) -> bool) -> (Seq<T>, Seq<int>)
    decreases xs.len(),
{
    if xs.len() == 0 {
        (dict, Seq::empty())
    } else {
        let (d, is) = interned_all(dict, xs.drop_last(), same);
        let (d2, i) = interned(d, xs.last(), same);
        (d2, is.push(i))
    }
}

/// Equality of keys.
pub open spec fn key_same() -> spec_fn(Seq<char>, Seq<char>) -> bool {
    |a: Seq<char>, b: Seq<char>| a == b
}

/// Equality of values, [`value_eq`].
pub open spec fn value_same() -> spec_fn(ValueView, ValueView) -> bool {
    |a: ValueView, b: ValueView| value_eq(a, b)
}

/// What [`dict_index`] finds: an index into the dictionary or its length; the
/// entry at the index is the same as `x`, and no entry before it is.
pub proof fn lemma_dict_index<T>(dict: Seq<T>, x: T, same: spec_fn(T, T) -> bool)
    ensures
        0 <= dict_index(dict, x, same) <= dict.len(),
        dict_index(dict, x, same) < dict.len() ==> same(dict[dict_index(dict, x, same)], x),
        forall|j: int| 0 <= j < dict_index(dict, x, same) ==> !same(#[trigger] dict[j], x),
    decreases dict.len(),
{
    if dict.len() > 0 {
        lemma_dict_index(dict.drop_last(), x, same);
        let i = dict_index(dict.drop_last(), x, same);
        assert forall|j: int| 0 <= j < dict_index(dict, x, same) implies !same(#[trigger] dict[j], x) by {
            if j < dict.len() - 1 {
                assert(dict[j] == dict.drop_last()[j]);
            }
        }
        if i < dict.len() - 1 {
            assert(dict[i] == dict.drop_last()[i]);
        }
    }
}

proof fn lemma_dict_index_absent<T>(dict: Seq<T>, x: T, same: spec_fn(T, T) -> bool)
    requires
        forall|j: int| 0 <= j < dict.len() ==> !same(#[trigger] dict[j], x),
    ensures
        dict_index(dict, x, same) == dict.len(),
    decreases dict.len(),
{
    if dict.len() > 0 {
        assert forall|j: int| 0 <= j < dict.drop_last().len() implies !same(#[trigger] dict.drop_last()[j], x) by {
            assert(dict.drop_last()[j] == dict[j]);
        }
        lemma_dict_index_absent(dict.drop_last(), x, same);
        assert(!same(dict[dict.len() - 1], x));
    }
}

proof fn lemma_dict_index_found<T>(dict: Seq<T>, k: int, n: int, x: T, same: spec_fn(T, T) -> bool)
    requires
        0 <= k <= n <= dict.len(),
        dict_index(dict.take(k), x, same) < k,
    ensures
        dict_index(dict.take(n), x, same) == dict_index(dict.take(k), x, same),
    decreases n - k,
{
    if n > k {
        lemma_dict_index_found(dict, k, n - 1, x, same);
        assert(dict.take(n).drop_last() =~= dict.take(n - 1));
    }
}

/// Interning is idempotent: interning a value a second time changes nothing
/// and finds the index that the first time gave. This holds of every value
/// that is the same as itself.
pub proof fn lemma_intern_idempotent<T>(dict: Seq<T>, x: T, same: spec_fn(T, T) -> bool)
    requires
        same(x, x),
    ensures
        interned(interned(dict, x, same).0, x, same) == interned(dict, x, same),
{
    lemma_dict_index(dict, x, same);
    let (d1, i1) = interned(dict, x, same);
    if i1 == dict.len() {
        assert(d1.drop_last() =~= dict);
        assert(d1.last() == x);
    }
}

/// Interning distinct values into an empty dictionary gives them the indices
/// 0, 1, 2, ... in the order they come, and the dictionary holds them in that
/// order.
pub proof fn lemma_intern_distinct<T>(xs: Seq<T>, same: spec_fn(T, T) -> bool)
    requires
        forall|i: int| 0 <= i < xs.len() ==> same(#[trigger] xs[i], xs[i]),
        forall|i: int, j: int| 0 <= i < xs.len() && 0 <= j < xs.len() && i != j ==> !same(xs[i], xs[j]),
    ensures
        interned_all(Seq::empty(), xs, same) == (xs, Seq::new(xs.len(), |i: int| i)),
    decreases xs.len(),
{
    if xs.len() == 0 {
        assert(Seq::<int>::empty() =~= Seq::new(xs.len(), |i: int| i));
        assert(xs =~= Seq::<T>::empty());
    } else {
        let init = xs.drop_last();
        assert forall|i: int| 0 <= i < init.len() implies same(#[trigger] init[i], init[i]) by {
            assert(init[i] == xs[i]);
        }
        assert forall|i: int, j: int| 0 <= i < init.len() && 0 <= j < init.len() && i != j implies !same(
            init[i],
            init[j],
        ) by {
            assert(init[i] == xs[i] && init[j] == xs[j]);
        }
        lemma_intern_distinct(init, same);
        assert forall|j: int| 0 <= j < init.len() implies !same(#[trigger] init[j], xs.last()) by {
            assert(init[j] == xs[j]);
            assert(!same(xs[j], xs[xs.len() - 1]));
        }
        lemma_dict_index_absent(init, xs.last(), same);
        assert(init.push(xs.last()) =~= xs);
        assert(Seq::new(init.len(), |i: int| i).push(init.len() as int) =~= Seq::new(xs.len(), |i: int| i));
    }
}

/// Interning the same key twice gives the same index both times.
pub proof fn lemma_intern_key_twice(keys: Seq<Seq<char>>, key: Seq<char>)
    ensures
        interned(interned(keys, key, key_same()).0, key, key_same()) == interned(keys, key, key_same()),
{
    lemma_intern_idempotent(keys, key, key_same());
}

/// Interning the same value twice gives the same index both times, unless the
/// value is a NaN, which equals nothing.
pub proof fn lemma_intern_value_twice(values: Seq<ValueView>, value: ValueView)
    requires
        value_is_reflexive(value),
    ensures
        interned(interned(values, value, value_same()).0, value, value_same()) == interned(
            values,
            value,
            value_same(),
        ),
{
    lemma_intern_idempotent(values, value, value_same());
}

impl GeometryType {
    /// The geometry type a feature of this shape is written with. A
    /// collection has none.
    pub open spec fn geom_type(&self) -> GeomType {
        match self {
            GeometryType::Point(_) => GeomType::Point,
            GeometryType::LineString(_) => GeomType::LineString,
            GeometryType::Polygon(_) => GeomType::Polygon,
            GeometryType::MultiPoint(_) => GeomType::Point,
            GeometryType::MultiLineString(_) => GeomType::LineString,
            GeometryType::MultiPolygon(_) => GeomType::Polygon,
            GeometryType::GeometryCollection(_) => GeomType::Unknown,
        }
    }

    /// GeometryType to MVT geom type.
    pub fn mvt_field_type(&self) -> (t: GeomType)
        ensures
            t == self.geom_type(),
    {
        match self {
            GeometryType::Point(_) => GeomType::Point,
            GeometryType::LineString(_) => GeomType::LineString,
            GeometryType::Polygon(_) => GeomType::Polygon,
            GeometryType::MultiPoint(_) => GeomType::Point,
            GeometryType::MultiLineString(_) => GeomType::LineString,
            GeometryType::MultiPolygon(_) => GeomType::Polygon,
            GeometryType::GeometryCollection(_) => GeomType::Unknown,
        }
    }
}

impl<'a> Tile<'a> {
    /// An empty tile for `extent`.
    pub fn new(extent: &'a Extent, reverse_y: bool) -> (tile: Tile<'a>)
        ensures
            *tile.extent == *extent,
            tile.reverse_y == reverse_y,
            tile.mvt_tile@.layers == Seq::<LayerView>::empty(),
    {
        let mvt_tile = vector_tile::Tile::new();
        Tile { mvt_tile, extent, reverse_y }
    }

    /// An empty tile layer named and sized as `layer` says.
    pub fn new_layer(&mut self, layer: &Layer) -> (mvt_layer: vector_tile::Layer)
        ensures
            *final(self) == *old(self),
            mvt_layer@ == (LayerView {
                version: LAYER_VERSION,
                name: layer.name@,
                features: Seq::empty(),
                keys: Seq::empty(),
                values: Seq::empty(),
                extent: layer.tile_size,
            }),
            layer_consistent(mvt_layer@),
    {
        let mvt_layer = vector_tile::Layer {
            version: LAYER_VERSION,
            name: layer.name.clone(),
            features: Vec::new(),
            keys: Vec::new(),
            values: Vec::new(),
            extent: layer.tile_size,
        };
        proof {
            assert(mvt_layer@.features =~= Seq::<FeatureView>::empty());
            assert(mvt_layer@.keys =~= Seq::<Seq<char>>::empty());
            assert(mvt_layer@.values =~= Seq::<ValueView>::empty());
        }
        mvt_layer
    }

    /// Appends `mvt_layer` to the tile. Layers are neither merged nor told
    /// apart by name.
    pub fn add_layer(&mut self, mvt_layer: vector_tile::Layer)
        ensures
            final(self).mvt_tile@.layers == old(self).mvt_tile@.layers.push(mvt_layer@),
            *final(self).extent == *old(self).extent,
            final(self).reverse_y == old(self).reverse_y,
    {
        self.mvt_tile.layers.push(mvt_layer);
        assert(self.mvt_tile@.layers =~= old(self).mvt_tile@.layers.push(mvt_layer@));
    }

    /// Finds `key` among the keys of `mvt_layer`, or adds it at the end, and
    /// returns its index.
    pub fn intern_key(mvt_layer: &mut vector_tile::Layer, key: String) -> (idx: u32)
        requires
            old(mvt_layer)@.keys.len() <= u32::MAX,
        ensures
            final(mvt_layer)@ == (LayerView {
                keys: interned(old(mvt_layer)@.keys, key@, key_same()).0,
                ..old(mvt_layer)@
            }),
            idx == interned(old(mvt_layer)@.keys, key@, key_same()).1,
            idx < final(mvt_layer)@.keys.len() <= old(mvt_layer)@.keys.len() + 1,
            final(mvt_layer)@.keys[idx as int] == key@,
            final(mvt_layer)@.keys.take(old(mvt_layer)@.keys.len() as int) == old(mvt_layer)@.keys,
    {
        proof {
            lemma_dict_index(mvt_layer@.keys, key@, key_same());
            let d = interned(mvt_layer@.keys, key@, key_same()).0;
            assert(d.take(mvt_layer@.keys.len() as int) =~= mvt_layer@.keys);
        }
        let ghost keys = mvt_layer@.keys;
        let ghost same = key_same();
        let n: usize = mvt_layer.keys.len();
        let mut i: usize = 0;
        assert(keys.take(0) =~= Seq::<Seq<char>>::empty());
        while i < n
            invariant
                i <= n,
                n == mvt_layer.keys@.len(),
                n <= u32::MAX,
                *mvt_layer == *old(mvt_layer),
                keys == mvt_layer@.keys,
                same == key_same(),
                dict_index(keys.take(i as int), key@, same) == i,
            decreases n - i,
        {
            let found = mvt_layer.keys[i] == key;
            proof {
                assert(keys[i as int] == mvt_layer.keys@[i as int]@);
                assert(keys.take(i + 1).drop_last() =~= keys.take(i as int));
                assert(keys.take(i + 1).last() == keys[i as int]);
            }
            if found {
                proof {
                    lemma_dict_index_found(keys, i + 1, n as int, key@, same);
                    assert(keys.take(n as int) =~= keys);
                }
                return i as u32;
            }
            i += 1;
        }
        assert(keys.take(n as int) =~= keys);
        mvt_layer.keys.push(key);
        assert(mvt_layer@.keys =~= keys.push(key@));
        n as u32
    }

    /// Finds a value equal to `value` among the values of `mvt_layer`, or adds
    /// `value` at the end, and returns its index.
    pub fn intern_value(mvt_layer: &mut vector_tile::Layer, value: Value) -> (idx: u32)
        requires
            old(mvt_layer)@.values.len() <= u32::MAX,
        ensures
            final(mvt_layer)@ == (LayerView {
                values: interned(old(mvt_layer)@.values, value@, value_same()).0,
                ..old(mvt_layer)@
            }),
            idx == interned(old(mvt_layer)@.values, value@, value_same()).1,
            idx < final(mvt_layer)@.values.len() <= old(mvt_layer)@.values.len() + 1,
            value_is_reflexive(value@) ==> value_eq(final(mvt_layer)@.values[idx as int], value@),
            final(mvt_layer)@.values.take(old(mvt_layer)@.values.len() as int) == old(mvt_layer)@.values,
    {
        proof {
            lemma_dict_index(mvt_layer@.values, value@, value_same());
            let d = interned(mvt_layer@.values, value@, value_same()).0;
            assert(d.take(mvt_layer@.values.len() as int) =~= mvt_layer@.values);
        }
        let ghost values = mvt_layer@.values;
        let ghost same = value_same();
        let n: usize = mvt_layer.values.len();
        let mut i: usize = 0;
        assert(values.take(0) =~= Seq::<ValueView>::empty());
        while i < n
            invariant
                i <= n,
                n == mvt_layer.values@.len(),
                n <= u32::MAX,
                *mvt_layer == *old(mvt_layer),
                values == mvt_layer@.values,
                same == value_same(),
                dict_index(values.take(i as int), value@, same) == i,
            decreases n - i,
        {
            let found = mvt_layer.values[i] == value;
            proof {
                assert(values[i as int] == mvt_layer.values@[i as int]@);
                assert(values.take(i + 1).drop_last() =~= values.take(i as int));
                assert(values.take(i + 1).last() == values[i as int]);
            }
            if found {
                proof {
                    lemma_dict_index_found(values, i + 1, n as int, value@, same);
                    assert(values.take(n as int) =~= values);
                }
                return i as u32;
            }
            i += 1;
        }
        assert(values.take(n as int) =~= values);
        mvt_layer.values.push(value);
        assert(mvt_layer@.values =~= values.push(value@));
        n as u32
    }
}

/// The command sequence of `geom` on a tile of `tile_size` pixels showing
/// `extent`: the geometry projected, then encoded with the pen at the origin.
/// `None` for a collection, which a tile cannot hold, and for a geometry with
/// more points in one line, ring or list than a command can count.
pub open spec fn geometry_commands(extent: Extent, reverse_y: bool, tile_size: u32, geom: GeometryType) -> Option<
    Seq<u32>,
> {
    match geom {
        GeometryType::Point(p) => Some(encode_points(origin(), seq![project_point(extent, reverse_y, tile_size, p)])),
        GeometryType::MultiPoint(g) => {
            let pts = project_points(extent, reverse_y, tile_size, g@);
            if points_fit(pts) {
                Some(encode_points(origin(), pts))
            } else {
                None
            }
        },
        GeometryType::LineString(g) => {
            let pts = project_points(extent, reverse_y, tile_size, g@);
            if points_fit(pts) {
                Some(encode_line(origin(), pts))
            } else {
                None
            }
        },
        GeometryType::MultiLineString(g) => {
            let lines = project_lines(extent, reverse_y, tile_size, g@);
            if lines_fit(lines) {
                Some(encode_lines(origin(), lines))
            } else {
                None
            }
        },
        GeometryType::Polygon(g) => {
            let rings = project_lines(extent, reverse_y, tile_size, g@);
            if lines_fit(rings) {
                Some(encode_rings(origin(), rings))
            } else {
                None
            }
        },
        GeometryType::MultiPolygon(g) => {
            let polys = project_polygons(extent, reverse_y, tile_size, g@);
            if polygons_fit(polys) {
                Some(encode_polygons(origin(), polys))
            } else {
                None
            }
        },
        GeometryType::GeometryCollection(_) => None,
    }
}

/// The paths that the commands of `geom` draw: every point of a point
/// geometry as a path of its own, every line of two or more points as an open
/// path, every ring of four or more points as a closed path of all its points
/// but the last; all of them projected, in the order of the geometry.
pub open spec fn geometry_paths(extent: Extent, reverse_y: bool, tile_size: u32, geom: GeometryType) -> Seq<
    PathView,
> {
    match geom {
        GeometryType::Point(p) => single_paths(seq![project_point(extent, reverse_y, tile_size, p)]),
        GeometryType::MultiPoint(g) => single_paths(project_points(extent, reverse_y, tile_size, g@)),
        GeometryType::LineString(g) => paths_of_line(project_points(extent, reverse_y, tile_size, g@)),
        GeometryType::MultiLineString(g) => paths_of_lines(project_lines(extent, reverse_y, tile_size, g@)),
        GeometryType::Polygon(g) => paths_of_rings(project_lines(extent, reverse_y, tile_size, g@)),
        GeometryType::MultiPolygon(g) => paths_of_polygons(project_polygons(extent, reverse_y, tile_size, g@)),
        GeometryType::GeometryCollection(_) => Seq::empty(),
    }
}

/// Replaying the command sequence of a geometry draws the projected points of
/// the geometry again, path for path and point for point.
pub proof fn lemma_geometry_commands_replay(extent: Extent, reverse_y: bool, tile_size: u32, geom: GeometryType)
    requires
        geometry_commands(extent, reverse_y, tile_size, geom) is Some,
    ensures
        replay(geometry_commands(extent, reverse_y, tile_size, geom).unwrap(), origin(), Seq::empty()) == Some(
            geometry_paths(extent, reverse_y, tile_size, geom),
        ),
{
    match geom {
        GeometryType::Point(p) => {
            lemma_replay_points(origin(), seq![project_point(extent, reverse_y, tile_size, p)]);
        },
        GeometryType::MultiPoint(g) => {
            lemma_replay_points(origin(), project_points(extent, reverse_y, tile_size, g@));
        },
        GeometryType::LineString(g) => {
            lemma_replay_line(origin(), project_points(extent, reverse_y, tile_size, g@));
        },
        GeometryType::MultiLineString(g) => {
            lemma_replay_lines(origin(), project_lines(extent, reverse_y, tile_size, g@));
        },
        GeometryType::Polygon(g) => {
            lemma_replay_rings(origin(), project_lines(extent, reverse_y, tile_size, g@));
        },
        GeometryType::MultiPolygon(g) => {
            lemma_replay_polygons(origin(), project_polygons(extent, reverse_y, tile_size, g@));
        },
        GeometryType::GeometryCollection(_) => {},
    }
}

/// The layer and the tags after one attribute was added: key and value are
/// interned, and their indices follow the tags.
pub open spec fn attribute_added(layer: LayerView, tags: Seq<u32>, key: Seq<char>, value: ValueView) -> (
    LayerView,
    Seq<u32>,
) {
    let (keys, k) = interned(layer.keys, key, key_same());
    let (values, v) = interned(layer.values, value, value_same());
    (LayerView { keys, values, ..layer }, tags.push(k as u32).push(v as u32))
}

/// The layer and the tags after the attributes `attrs` were added in order,
/// those left out that name the geometry or the id.
pub open spec fn attributes_added(config: Layer, layer: LayerView, tags: Seq<u32>, attrs: Seq<FeatureAttrView>) -> (
    LayerView,
    Seq<u32>,
)
    decreases attrs.len(),
{
    if attrs.len() == 0 {
        (layer, tags)
    } else {
        let (l, t) = attributes_added(config, layer, tags, attrs.drop_last());
        let a = attrs.last();
        if config.is_positional(a.key) {
            (l, t)
        } else {
            attribute_added(l, t, a.key, a.value)
        }
    }
}

/// The layer after a feature with the id `fid`, the attributes `attrs` and
/// the shape `geom` was offered to it.
///
/// The attributes are interned in any case. The feature itself is added only
/// if its shape could be had, can be encoded, and encodes to at least one
/// command.
pub open spec fn feature_added(
    extent: Extent,
    reverse_y: bool,
    config: Layer,
    layer: LayerView,
    fid: Option<u64>,
    attrs: Seq<FeatureAttrView>,
    geom: Result<GeometryType, String>,
) -> LayerView {
    let (l, tags) = attributes_added(config, layer, Seq::empty(), attrs);
    match geom {
        Ok(g) => match geometry_commands(extent, reverse_y, layer.extent, g) {
            Some(cmds) => if cmds.len() > 0 {
                LayerView {
                    features: l.features.push(
                        FeatureView { id: fid, tags, field_type: g.geom_type(), geometry: cmds },
                    ),
                    ..l
                }
            } else {
                l
            },
            None => l,
        },
        Err(_) => l,
    }
}

/// The dictionaries of `layer` have room for `n` more entries each, so that
/// every index still fits a tag.
pub open spec fn has_room(layer: LayerView, n: nat) -> bool {
    layer.keys.len() + n <= u32::MAX && layer.values.len() + n <= u32::MAX
}

/// [`feature_added`] where the dictionaries have room for the attributes,
/// else the layer as it was.
pub open spec fn feature_offered(
    extent: Extent,
    reverse_y: bool,
    config: Layer,
    layer: LayerView,
    fid: Option<u64>,
    attrs: Seq<FeatureAttrView>,
    geom: Result<GeometryType, String>,
) -> LayerView {
    if has_room(layer, attrs.len()) {
        feature_added(extent, reverse_y, config, layer, fid, attrs, geom)
    } else {
        layer
    }
}

/// No entry of `dict` is the same as a later one.
pub open spec fn dict_distinct<T>(dict: Seq<T>, same: spec_fn(T, T) -> bool) -> bool {
    forall|i: int, j: int| 0 <= i < j < dict.len() ==> !same(dict[i], dict[j])
}

/// `tags` is a list of pairs, each a valid index into the keys followed by a
/// valid index into the values.
pub open spec fn tags_valid(tags: Seq<u32>, keys: nat, values: nat) -> bool {
    &&& tags.len() % 2 == 0
    &&& forall|i: int|
        0 <= i < tags.len() ==> if i % 2 == 0 {
            (#[trigger] tags[i]) < keys
        } else {
            tags[i] < values
        }
}

/// The invariants of a layer: no key and no value occurs twice, the tags of
/// every feature index the dictionaries, and every feature has a shape.
pub open spec fn layer_consistent(l: LayerView) -> bool {
    &&& dict_distinct(l.keys, key_same())
    &&& dict_distinct(l.values, value_same())
    &&& forall|i: int|
        0 <= i < l.features.len() ==> tags_valid((#[trigger] l.features[i]).tags, l.keys.len(), l.values.len())
            && l.features[i].geometry.len() > 0
}

proof fn lemma_interned_distinct<T>(dict: Seq<T>, x: T, same: spec_fn(T, T) -> bool)
    requires
        dict_distinct(dict, same),
    ensures
        dict_distinct(interned(dict, x, same).0, same),
        dict.len() <= interned(dict, x, same).0.len() <= dict.len() + 1,
        0 <= interned(dict, x, same).1 < interned(dict, x, same).0.len(),
        interned(dict, x, same).0.take(dict.len() as int) == dict,
{
    lemma_dict_index(dict, x, same);
    let d = interned(dict, x, same).0;
    assert(d.take(dict.len() as int) =~= dict);
    assert forall|i: int, j: int| 0 <= i < j < d.len() implies !same(d[i], d[j]) by {
        if j < dict.len() {
            assert(d[i] == dict[i] && d[j] == dict[j]);
        } else {
            assert(d[i] == dict[i]);
        }
    }
}

proof fn lemma_attribute_added(layer: LayerView, tags: Seq<u32>, key: Seq<char>, value: ValueView)
    requires
        dict_distinct(layer.keys, key_same()),
        dict_distinct(layer.values, value_same()),
        tags_valid(tags, layer.keys.len(), layer.values.len()),
        has_room(layer, 1),
    ensures
        ({
            let (l, t) = attribute_added(layer, tags, key, value);
            &&& dict_distinct(l.keys, key_same())
            &&& dict_distinct(l.values, value_same())
            &&& tags_valid(t, l.keys.len(), l.values.len())
            &&& layer.keys.len() <= l.keys.len() <= layer.keys.len() + 1
            &&& layer.values.len() <= l.values.len() <= layer.values.len() + 1
            &&& l.features == layer.features
            &&& l.extent == layer.extent
            &&& l.version == layer.version
            &&& l.name == layer.name
        }),
{
    lemma_interned_distinct(layer.keys, key, key_same());
    lemma_interned_distinct(layer.values, value, value_same());
    let (l, t) = attribute_added(layer, tags, key, value);
    assert forall|i: int| 0 <= i < t.len() implies if i % 2 == 0 {
        (#[trigger] t[i]) < l.keys.len()
    } else {
        t[i] < l.values.len()
    } by {
        if i < tags.len() {
            assert(t[i] == tags[i]);
        }
    }
}

proof fn lemma_attributes_added(config: Layer, layer: LayerView, tags: Seq<u32>, attrs: Seq<FeatureAttrView>)
    requires
        dict_distinct(layer.keys, key_same()),
        dict_distinct(layer.values, value_same()),
        tags_valid(tags, layer.keys.len(), layer.values.len()),
        has_room(layer, attrs.len()),
    ensures
        ({
            let (l, t) = attributes_added(config, layer, tags, attrs);
            &&& dict_distinct(l.keys, key_same())
            &&& dict_distinct(l.values, value_same())
            &&& tags_valid(t, l.keys.len(), l.values.len())
            &&& layer.keys.len() <= l.keys.len() <= layer.keys.len() + attrs.len()
            &&& layer.values.len() <= l.values.len() <= layer.values.len() + attrs.len()
            &&& l.features == layer.features
            &&& l.extent == layer.extent
            &&& l.version == layer.version
            &&& l.name == layer.name
        }),
    decreases attrs.len(),
{
    if attrs.len() > 0 {
        lemma_attributes_added(config, layer, tags, attrs.drop_last());
        let (l, t) = attributes_added(config, layer, tags, attrs.drop_last());
        let a = attrs.last();
        if !config.is_positional(a.key) {
            lemma_attribute_added(l, t, a.key, a.value);
        }
    }
}

proof fn lemma_attributes_keep(config: Layer, layer: LayerView, tags: Seq<u32>, attrs: Seq<FeatureAttrView>)
    ensures
        ({
            let (l, t) = attributes_added(config, layer, tags, attrs);
            &&& l.features == layer.features
            &&& l.extent == layer.extent
            &&& l.version == layer.version
            &&& l.name == layer.name
            &&& layer.keys.len() <= l.keys.len() <= layer.keys.len() + attrs.len()
            &&& layer.values.len() <= l.values.len() <= layer.values.len() + attrs.len()
        }),
    decreases attrs.len(),
{
    if attrs.len() > 0 {
        lemma_attributes_keep(config, layer, tags, attrs.drop_last());
        let (l, t) = attributes_added(config, layer, tags, attrs.drop_last());
        lemma_dict_index(l.keys, attrs.last().key, key_same());
        lemma_dict_index(l.values, attrs.last().value, value_same());
    }
}

/// Adding a feature keeps the invariants of a layer: where no key and no
/// value occurred twice, none does afterwards; the tags of every feature, the
/// new one included, are pairs of valid indices; and a feature is in the layer
/// only with a shape of at least one command.
pub proof fn lemma_feature_added_consistent(
    extent: Extent,
    reverse_y: bool,
    config: Layer,
    layer: LayerView,
    fid: Option<u64>,
    attrs: Seq<FeatureAttrView>,
    geom: Result<GeometryType, String>,
)
    requires
        layer_consistent(layer),
        has_room(layer, attrs.len()),
    ensures
        layer_consistent(feature_added(extent, reverse_y, config, layer, fid, attrs, geom)),
{
    lemma_attributes_added(config, layer, Seq::empty(), attrs);
    let (l, tags) = attributes_added(config, layer, Seq::empty(), attrs);
    let after = feature_added(extent, reverse_y, config, layer, fid, attrs, geom);
    assert forall|i: int| 0 <= i < after.features.len() implies tags_valid(
        (#[trigger] after.features[i]).tags,
        after.keys.len(),
        after.values.len(),
    ) && after.features[i].geometry.len() > 0 by {
        if i < layer.features.len() {
            assert(after.features[i] == layer.features[i]);
            let old_tags = layer.features[i].tags;
            assert(tags_valid(old_tags, layer.keys.len(), layer.values.len()));
            assert forall|k: int| 0 <= k < old_tags.len() implies if k % 2 == 0 {
                (#[trigger] old_tags[k]) < after.keys.len()
            } else {
                old_tags[k] < after.values.len()
            } by {}
        }
    }
}

/// A feature whose shape encodes to no command is not added to the layer: the
/// features stay as they were. Such is a line of fewer than two points.
pub proof fn lemma_empty_shape_adds_no_feature(
    extent: Extent,
    reverse_y: bool,
    config: Layer,
    layer: LayerView,
    fid: Option<u64>,
    attrs: Seq<FeatureAttrView>,
    geom: GeometryType,
)
    requires
        geometry_commands(extent, reverse_y, layer.extent, geom) == Some(Seq::<u32>::empty()),
    ensures
        feature_added(extent, reverse_y, config, layer, fid, attrs, Ok(geom)).features == layer.features,
{
    lemma_attributes_keep(config, layer, Seq::empty(), attrs);
}

/// A line of fewer than two points encodes to no command.
pub proof fn lemma_short_line_has_no_commands(
    extent: Extent,
    reverse_y: bool,
    tile_size: u32,
    line: geom::LineString,
)
    requires
        line@.len() < 2,
    ensures
        geometry_commands(extent, reverse_y, tile_size, GeometryType::LineString(line)) == Some(
            Seq::<u32>::empty(),
        ),
{
}

/// A feature whose shape is a collection is not added to the layer, and the
/// layer takes further features as before.
pub proof fn lemma_collection_adds_no_feature(
    extent: Extent,
    reverse_y: bool,
    config: Layer,
    layer: LayerView,
    fid: Option<u64>,
    attrs: Seq<FeatureAttrView>,
    collection: geom::GeometryCollection,
)
    ensures
        feature_added(
            extent,
            reverse_y,
            config,
            layer,
            fid,
            attrs,
            Ok(GeometryType::GeometryCollection(collection)),
        ).features == layer.features,
{
    lemma_attributes_keep(config, layer, Seq::empty(), attrs);
}

/// Why a tile could not be read.
#[derive(Debug)]
pub enum ReadError {
    /// The bytes are no gzip stream; the message says why.
    Gzip(String),
    /// The bytes are no tile.
    Malformed,
}

/// The tile that the gzip stream `bytes` holds.
pub open spec fn decode_gz(bytes: Seq<u8>) -> Option<vector_tile::TileView> {
    match gunzip(bytes) {
        Some(data) => decode_tile(data),
        None => None,
    }
}

fn unsupported() -> (msg: String)
    ensures
        msg@ == "GeometryCollection not supported"@,
{
    "GeometryCollection not supported".to_owned()
}

fn too_many_points() -> (msg: String)
    ensures
        msg@ == "Geometry has too many points"@,
{
    "Geometry has too many points".to_owned()
}

impl<'a> Tile<'a> {
    /// Projects `geom` onto a tile of `tile_size` pixels and encodes it.
    ///
    /// A collection is refused, and so is a geometry with more points in one
    /// run than a command can count.
    pub fn encode_geom(&self, geom: GeometryType, tile_size: u32) -> (r: Result<CommandSequence, String>)
        requires
            self.extent.wf(),
        ensures
            match geometry_commands(*self.extent, self.reverse_y, tile_size, geom) {
                Some(cmds) => r is Ok && r.unwrap()@ == cmds,
                None => r is Err,
            },
            geom is GeometryCollection ==> r.unwrap_err()@ == "GeometryCollection not supported"@,
            r is Err && !(geom is GeometryCollection) ==> r.unwrap_err()@ == "Geometry has too many points"@,
    {
        match geom {
            GeometryType::Point(ref g) => {
                let s = screen::Point::from_geom(self.extent, self.reverse_y, tile_size, g);
                Ok(s.encode())
            },
            GeometryType::MultiPoint(ref g) => {
                let s = screen::MultiPoint::from_geom(self.extent, self.reverse_y, tile_size, g);
                if s.can_encode() {
                    Ok(s.encode())
                } else {
                    Err(too_many_points())
                }
            },
            GeometryType::LineString(ref g) => {
                let s = screen::LineString::from_geom(self.extent, self.reverse_y, tile_size, g);
                if s.can_encode() {
                    Ok(s.encode())
                } else {
                    Err(too_many_points())
                }
            },
            GeometryType::MultiLineString(ref g) => {
                let s = screen::MultiLineString::from_geom(self.extent, self.reverse_y, tile_size, g);
                if s.can_encode() {
                    Ok(s.encode())
                } else {
                    Err(too_many_points())
                }
            },
            GeometryType::Polygon(ref g) => {
                let s = screen::Polygon::from_geom(self.extent, self.reverse_y, tile_size, g);
                if s.can_encode() {
                    Ok(s.encode())
                } else {
                    Err(too_many_points())
                }
            },
            GeometryType::MultiPolygon(ref g) => {
                let s = screen::MultiPolygon::from_geom(self.extent, self.reverse_y, tile_size, g);
                if s.can_encode() {
                    Ok(s.encode())
                } else {
                    Err(too_many_points())
                }
            },
            GeometryType::GeometryCollection(_) => Err(unsupported()),
        }
    }

    /// Interns `key` and `mvt_value` in `mvt_layer` and appends their indices
    /// to the tags of `mvt_feature`.
    pub fn add_feature_attribute(
        mvt_layer: &mut vector_tile::Layer,
        mvt_feature: &mut vector_tile::Feature,
        key: String,
        mvt_value: Value,
    )
        requires
            has_room(old(mvt_layer)@, 1),
        ensures
            final(mvt_layer)@ == attribute_added(old(mvt_layer)@, old(mvt_feature)@.tags, key@, mvt_value@).0,
            final(mvt_feature)@ == (FeatureView {
                tags: attribute_added(old(mvt_layer)@, old(mvt_feature)@.tags, key@, mvt_value@).1,
                ..old(mvt_feature)@
            }),
            layer_consistent(old(mvt_layer)@) ==> layer_consistent(final(mvt_layer)@),
            layer_consistent(old(mvt_layer)@) && tags_valid(
                old(mvt_feature)@.tags,
                old(mvt_layer)@.keys.len(),
                old(mvt_layer)@.values.len(),
            ) ==> tags_valid(final(mvt_feature)@.tags, final(mvt_layer)@.keys.len(), final(mvt_layer)@.values.len()),
    {
        proof {
            if layer_consistent(mvt_layer@) {
                lemma_attribute_added(mvt_layer@, Seq::empty(), key@, mvt_value@);
                if tags_valid(mvt_feature@.tags, mvt_layer@.keys.len(), mvt_layer@.values.len()) {
                    lemma_attribute_added(mvt_layer@, mvt_feature@.tags, key@, mvt_value@);
                }
                let after = attribute_added(mvt_layer@, mvt_feature@.tags, key@, mvt_value@).0;
                assert forall|i: int| 0 <= i < after.features.len() implies tags_valid(
                    (#[trigger] after.features[i]).tags,
                    after.keys.len(),
                    after.values.len(),
                ) && after.features[i].geometry.len() > 0 by {
                    let old_tags = mvt_layer@.features[i].tags;
                    assert(tags_valid(old_tags, mvt_layer@.keys.len(), mvt_layer@.values.len()));
                    assert forall|k: int| 0 <= k < old_tags.len() implies if k % 2 == 0 {
                        (#[trigger] old_tags[k]) < after.keys.len()
                    } else {
                        old_tags[k] < after.values.len()
                    } by {}
                }
            }
        }
        let keyidx: u32 = Tile::intern_key(mvt_layer, key);
        mvt_feature.tags.push(keyidx);
        let validx: u32 = Tile::intern_value(mvt_layer, mvt_value);
        mvt_feature.tags.push(validx);
    }

    /// Adds a feature, given by its parts, to `mvt_layer`.
    ///
    /// The attributes are interned and become the feature's tags, but for
    /// those that name the geometry or the id field of `layer`. The shape is
    /// projected and encoded for a tile as large as the layer's extent says.
    /// The feature is appended unless its shape is missing, cannot be encoded
    /// or encodes to nothing.
    pub fn add_feature_parts(
        &self,
        layer: &Layer,
        mvt_layer: &mut vector_tile::Layer,
        fid: Option<u64>,
        attrs: Vec<FeatureAttr>,
        geom: Result<GeometryType, String>,
    )
        requires
            self.extent.wf(),
            has_room(old(mvt_layer)@, attrs@.len()),
        ensures
            final(mvt_layer)@ == feature_added(
                *self.extent,
                self.reverse_y,
                *layer,
                old(mvt_layer)@,
                fid,
                attr_views(attrs@),
                geom,
            ),
            layer_consistent(old(mvt_layer)@) ==> layer_consistent(final(mvt_layer)@),
    {
        proof {
            if layer_consistent(mvt_layer@) {
                lemma_feature_added_consistent(
                    *self.extent,
                    self.reverse_y,
                    *layer,
                    mvt_layer@,
                    fid,
                    attr_views(attrs@),
                    geom,
                );
            }
        }
        let ghost start = mvt_layer@;
        let ghost all = attr_views(attrs@);
        let mut mvt_feature = vector_tile::Feature {
            id: fid,
            tags: Vec::new(),
            field_type: GeomType::Unknown,
            geometry: Vec::new(),
        };
        let n: usize = attrs.len();
        let mut i: usize = 0;
        assert(all.take(0) =~= Seq::<FeatureAttrView>::empty());
        assert(mvt_feature.tags@ =~= Seq::<u32>::empty());
        while i < n
            invariant
                i <= n,
                n == attrs@.len(),
                all == attr_views(attrs@),
                has_room(start, n as nat),
                mvt_feature.id == fid,
                (mvt_layer@, mvt_feature.tags@) == attributes_added(*layer, start, Seq::empty(), all.take(i as int)),
            decreases n - i,
        {
            let attr = &attrs[i];
            proof {
                lemma_attributes_keep(*layer, start, Seq::empty(), all.take(i as int));
                assert(all.take(i + 1).drop_last() =~= all.take(i as int));
                assert(all.take(i + 1).last() == attr@);
            }
            if !layer.names_position(&attr.key) {
                Tile::add_feature_attribute(mvt_layer, &mut mvt_feature, attr.key.clone(), attr.value.to_value());
            }
            i += 1;
        }
        proof {
            assert(all.take(n as int) =~= all);
            lemma_attributes_keep(*layer, start, Seq::empty(), all);
        }
        match geom {
            Ok(g) => {
                let field_type = g.mvt_field_type();
                let tile_size: u32 = mvt_layer.extent;
                match self.encode_geom(g, tile_size) {
                    Ok(cmds) => {
                        if !cmds.is_empty() {
                            mvt_feature.field_type = field_type;
                            mvt_feature.geometry = cmds.vec();
                            let ghost had = mvt_layer.features@;
                            mvt_layer.features.push(mvt_feature);
                            assert(feature_views(mvt_layer.features@) =~= feature_views(had).push(mvt_feature@));
                        }
                    },
                    Err(_) => {},
                }
            },
            Err(_) => {},
        }
    }

    /// Adds `feature` to `mvt_layer`: asks it for its id, its attributes and
    /// its shape, and hands them to [`Tile::add_feature_parts`].
    ///
    /// What the feature answers is its own affair; whatever it answers, the
    /// layer ends as `add_feature_parts` leaves it for those answers. A
    /// feature with more attributes than the dictionaries have room for is
    /// left out and the layer stays as it was.
    pub fn add_feature<F: Feature>(&self, layer: &Layer, mvt_layer: &mut vector_tile::Layer, feature: &F)
        requires
            self.extent.wf(),
        ensures
            exists|fid: Option<u64>, attrs: Seq<FeatureAttrView>, geom: Result<GeometryType, String>|
                final(mvt_layer)@ == #[trigger] feature_offered(
                    *self.extent,
                    self.reverse_y,
                    *layer,
                    old(mvt_layer)@,
                    fid,
                    attrs,
                    geom,
                ),
            layer_consistent(old(mvt_layer)@) ==> layer_consistent(final(mvt_layer)@),
            final(mvt_layer)@.features == old(mvt_layer)@.features || final(mvt_layer)@.features.drop_last() == old(
                mvt_layer,
            )@.features,
            final(mvt_layer)@.version == old(mvt_layer)@.version,
            final(mvt_layer)@.name == old(mvt_layer)@.name,
            final(mvt_layer)@.extent == old(mvt_layer)@.extent,
    {
        let fid = feature.fid();
        let attrs = feature.attributes();
        let geom = feature.geometry();
        let n: usize = attrs.len();
        let limit: usize = u32::MAX as usize;
        let room_keys: bool = n <= limit && mvt_layer.keys.len() <= limit - n;
        let room_values: bool = n <= limit && mvt_layer.values.len() <= limit - n;
        let ghost offered = feature_offered(
            *self.extent,
            self.reverse_y,
            *layer,
            mvt_layer@,
            fid,
            attr_views(attrs@),
            geom,
        );
        proof {
            if has_room(mvt_layer@, attrs@.len()) {
                lemma_attributes_keep(*layer, mvt_layer@, Seq::empty(), attr_views(attrs@));
                if layer_consistent(mvt_layer@) {
                    lemma_feature_added_consistent(
                        *self.extent,
                        self.reverse_y,
                        *layer,
                        mvt_layer@,
                        fid,
                        attr_views(attrs@),
                        geom,
                    );
                }
                let (l, _tags) = attributes_added(*layer, mvt_layer@, Seq::empty(), attr_views(attrs@));
                assert(offered.features == l.features || offered.features.drop_last() =~= l.features);
            }
        }
        if room_keys && room_values {
            self.add_feature_parts(layer, mvt_layer, fid, attrs, geom);
        }
        assert(mvt_layer@ == offered);
    }

    /// Appends the bytes of `mvt_tile` to `out`. Reading them gives the tile
    /// back.
    pub fn write_to(out: &mut Vec<u8>, mvt_tile: &vector_tile::Tile)
        ensures
            final(out)@ == old(out)@ + encode_tile(mvt_tile@),
            decode_tile(encode_tile(mvt_tile@)) == Some(mvt_tile@),
    {
        write_tile(out, mvt_tile);
        proof {
            lemma_decode_encode_tile(mvt_tile@);
        }
    }

    /// Appends the gzip stream of the bytes of `mvt_tile` to `out`. Reading
    /// what was appended gives the tile back.
    pub fn write_gz_to(out: &mut Vec<u8>, mvt_tile: &vector_tile::Tile)
        ensures
            final(out)@ == old(out)@ + gzip(encode_tile(mvt_tile@)),
            decode_gz(final(out)@.skip(old(out)@.len() as int)) == Some(mvt_tile@),
    {
        let plain = Tile::binary_tile(mvt_tile);
        compress(out, plain.as_slice());
    }

    /// Reads a tile from its bytes.
    pub fn read_from(fin: &[u8]) -> (r: Result<vector_tile::Tile, ReadError>)
        ensures
            match decode_tile(fin@) {
                Some(t) => r is Ok && r.unwrap()@ == t,
                None => r matches Err(ReadError::Malformed),
            },
    {
        match read_tile(fin) {
            Some(t) => Ok(t),
            None => Err(ReadError::Malformed),
        }
    }

    /// Reads a tile from a gzip stream of its bytes.
    pub fn read_gz_from(fin: &[u8]) -> (r: Result<vector_tile::Tile, ReadError>)
        ensures
            match decode_gz(fin@) {
                Some(t) => r is Ok && r.unwrap()@ == t,
                None => r is Err,
            },
            r matches Err(ReadError::Gzip(_)) <==> gunzip(fin@) is None,
    {
        match expand(fin) {
            Ok(data) => Tile::read_from(data.as_slice()),
            Err(msg) => Err(ReadError::Gzip(msg)),
        }
    }

    /// The bytes of `mvt_tile`. Reading them gives the tile back.
    pub fn binary_tile(mvt_tile: &vector_tile::Tile) -> (v: Vec<u8>)
        ensures
            v@ == encode_tile(mvt_tile@),
            decode_tile(v@) == Some(mvt_tile@),
    {
        let mut v: Vec<u8> = Vec::new();
        Tile::write_to(&mut v, mvt_tile);
        assert(v@ =~= encode_tile(mvt_tile@));
        v
    }
}

} // verus!
