//! Features out of the rows of a spatial table: which geometry a type name
//! stands for, how a cell becomes an attribute value, and which cells of a row
//! become the attributes and the id of a feature.

use vstd::prelude::*;
use vstd::string::StringExecFns;
use vstd::utf8::{decode_utf8, valid_utf8};
use crate::codec::{int_bits, int_to_wire, string_from_utf8};
use crate::feature::{attr_views, FeatureAttr, FeatureAttrValType, FeatureAttrView};
use crate::geom::GeometryType;
use crate::layer::Layer;
use crate::vector_tile::ValueView;

verus! {

/// The geometry a column is read as.
#[derive(Clone, Copy, Debug, PartialEq, Eq)]
pub enum GeometryKind {
    Point,
    MultiPoint,
    MultiLineString,
    MultiPolygon,
    GeometryCollection,
}

/// The geometry that a column of the type named `geometry_type` is read as, if
/// the name is known. Single lines and polygons are read as their multi
/// forms, and so are compound curves and curve polygons.
pub open spec fn kind_of(geometry_type: Seq<char>) -> Option<GeometryKind> {
    if geometry_type == "POINT"@ {
        Some(GeometryKind::Point)
    } else if geometry_type == "MULTIPOINT"@ {
        Some(GeometryKind::MultiPoint)
    } else if geometry_type == "LINESTRING"@ || geometry_type == "MULTILINESTRING"@ || geometry_type == "COMPOUNDCURVE"@ {
        Some(GeometryKind::MultiLineString)
    } else if geometry_type == "POLYGON"@ || geometry_type == "MULTIPOLYGON"@ || geometry_type == "CURVEPOLYGON"@ {
        Some(GeometryKind::MultiPolygon)
    } else if geometry_type == "GEOMETRYCOLLECTION"@ {
        Some(GeometryKind::GeometryCollection)
    } else {
        None
    }
}

fn spells(name: &String, word: &str) -> (r: bool)
    ensures
        r == (name@ == word@),
{
    *name == word.to_owned()
}

/// Runtime value of [`kind_of`].
pub fn geometry_kind(geometry_type: &str) -> (kind: Option<GeometryKind>)
    ensures
        kind == kind_of(geometry_type@),
{
    let name = geometry_type.to_owned();
    if spells(&name, "POINT") {
        Some(GeometryKind::Point)
    } else if spells(&name, "MULTIPOINT") {
        Some(GeometryKind::MultiPoint)
    } else if spells(&name, "LINESTRING") || spells(&name, "MULTILINESTRING") || spells(&name, "COMPOUNDCURVE") {
        Some(GeometryKind::MultiLineString)
    } else if spells(&name, "POLYGON") || spells(&name, "MULTIPOLYGON") || spells(&name, "CURVEPOLYGON") {
        Some(GeometryKind::MultiPolygon)
    } else if spells(&name, "GEOMETRYCOLLECTION") {
        Some(GeometryKind::GeometryCollection)
    } else {
        None
    }
}

impl GeometryType {
    /// The geometry of a row, given what reading its geometry column as
    /// [`kind_of`]`(geometry_type)` gave: `None` if the row has no such column,
    /// else the geometry or the reason it could not be decoded.
    ///
    /// A type name that is not known is an error, whatever `field` holds.
    pub fn from_geom_field(field: Option<Result<GeometryType, String>>, geometry_type: &str) -> (r: Result<
        GeometryType,
        String,
    >)
        ensures
            kind_of(geometry_type@) is None ==> r is Err && r.unwrap_err()@ == "Unknown geometry type "@ + geometry_type@,
            kind_of(geometry_type@) is Some && field is None ==> r is Err && r.unwrap_err()@ == "Column not found"@,
            kind_of(geometry_type@) is Some && field is Some ==> r == field.unwrap(),
    {
        if geometry_kind(geometry_type).is_none() {
            let mut msg = "Unknown geometry type ".to_owned();
            msg.append(geometry_type);
            return Err(msg);
        }
        match field {
            None => Err("Column not found".to_owned()),
            Some(res) => res,
        }
    }
}

/// The type of a column, as far as attribute values go.
#[derive(Clone, Debug)]
pub enum ColumnType {
    Varchar,
    Text,
    CharArray,
    Float4,
    Float8,
    Int2,
    Int4,
    Int8,
    Bool,
    /// Any other type, with its name.
    Other(String),
}

/// A cell of a row: the column's name and type, and the bytes of the value in
/// the binary format of the database, `None` for NULL.
#[derive(Clone, Debug)]
pub struct Column {
    pub name: String,
    pub ty: ColumnType,
    pub raw: Option<Vec<u8>>,
}

/// The unsigned integer that `raw` spells, highest byte first.
pub open spec fn big_endian(raw: Seq<u8>) -> nat
    decreases raw.len(),
{
    if raw.len() == 0 {
        0
    } else {
        big_endian(raw.drop_last()) * 256 + raw.last() as nat
    }
}

/// The signed integer with the bits of `v`, for a width whose sign bit has
/// the value `half`.
pub open spec fn signed(v: nat, half: nat) -> int {
    if v >= half {
        v - 2 * half
    } else {
        v as int
    }
}

/// The value that the bytes `raw` of a column of type `ty` spell, if any:
/// text must be UTF-8, a number or a boolean must have the width of its type.
/// Integers of any width become `Int`.
pub open spec fn decoded(ty: ColumnType, raw: Seq<u8>) -> Option<ValueView> {
    match ty {
        ColumnType::Varchar | ColumnType::Text | ColumnType::CharArray => if valid_utf8(raw) {
            Some(ValueView::String(decode_utf8(raw)))
        } else {
            None
        },
        ColumnType::Float4 => if raw.len() == 4 {
            Some(ValueView::Float(big_endian(raw) as u32))
        } else {
            None
        },
        ColumnType::Float8 => if raw.len() == 8 {
            Some(ValueView::Double(big_endian(raw) as u64))
        } else {
            None
        },
        ColumnType::Int2 => if raw.len() == 2 {
            Some(ValueView::Int(signed(big_endian(raw), 0x8000) as i64))
        } else {
            None
        },
        ColumnType::Int4 => if raw.len() == 4 {
            Some(ValueView::Int(signed(big_endian(raw), 0x8000_0000) as i64))
        } else {
            None
        },
        ColumnType::Int8 => if raw.len() == 8 {
            Some(ValueView::Int(signed(big_endian(raw), 0x8000_0000_0000_0000) as i64))
        } else {
            None
        },
        ColumnType::Bool => if raw.len() == 1 {
            Some(ValueView::Bool(raw[0] != 0))
        } else {
            None
        },
        ColumnType::Other(_) => None,
    }
}

proof fn lemma_big_endian_bound(raw: Seq<u8>)
    requires
        raw.len() <= 8,
    ensures
        raw.len() == 0 ==> big_endian(raw) == 0,
        raw.len() == 1 ==> big_endian(raw) < 0x100,
        raw.len() == 2 ==> big_endian(raw) < 0x1_0000,
        raw.len() == 3 ==> big_endian(raw) < 0x100_0000,
        raw.len() == 4 ==> big_endian(raw) < 0x1_0000_0000,
        raw.len() == 5 ==> big_endian(raw) < 0x100_0000_0000,
        raw.len() == 6 ==> big_endian(raw) < 0x1_0000_0000_0000,
        raw.len() == 7 ==> big_endian(raw) < 0x100_0000_0000_0000,
        raw.len() == 8 ==> big_endian(raw) < 0x1_0000_0000_0000_0000,
    decreases raw.len(),
{
    if raw.len() > 0 {
        lemma_big_endian_bound(raw.drop_last());
    }
}

/// Reads up to eight bytes as an unsigned integer, highest byte first.
fn read_big_endian(raw: &[u8]) -> (v: u64)
    requires
        raw@.len() <= 8,
    ensures
        v == big_endian(raw@),
{
    let n: usize = raw.len();
    let mut v: u64 = 0;
    let mut i: usize = 0;
    assert(raw@.take(0) =~= Seq::<u8>::empty());
    while i < n
        invariant
            i <= n,
            n == raw@.len(),
            n <= 8,
            v == big_endian(raw@.take(i as int)),
        decreases n - i,
    {
        proof {
            lemma_big_endian_bound(raw@.take(i as int));
            assert(raw@.take(i + 1).drop_last() =~= raw@.take(i as int));
            assert(raw@.take(i + 1).last() == raw@[i as int]);
        }
        v = v * 256 + raw[i] as u64;
        i += 1;
    }
    assert(raw@.take(n as int) =~= raw@);
    v
}

fn read_signed(raw: &[u8], half: u64) -> (v: i64)
    requires
        raw@.len() <= 8,
        half == 0x8000 && raw@.len() == 2 || half == 0x8000_0000 && raw@.len() == 4 || half
            == 0x8000_0000_0000_0000 && raw@.len() == 8,
    ensures
        v == signed(big_endian(raw@), half as nat),
{
    let u: u64 = read_big_endian(raw);
    proof {
        lemma_big_endian_bound(raw@);
    }
    if u >= half {
        let below: u64 = (half - 1) - (u - half);
        -(below as i64) - 1
    } else {
        u as i64
    }
}

/// The width in bytes of the values of a column type, for the types of one
/// width.
pub open spec fn width_of(ty: ColumnType) -> Option<nat> {
    match ty {
        ColumnType::Float4 | ColumnType::Int4 => Some(4),
        ColumnType::Float8 | ColumnType::Int8 => Some(8),
        ColumnType::Int2 => Some(2),
        ColumnType::Bool => Some(1),
        _ => None,
    }
}

/// Why the bytes `raw` of a column of type `ty` spell no value.
pub open spec fn decode_failure(ty: ColumnType, raw: Seq<u8>) -> Seq<char> {
    match ty {
        ColumnType::Other(name) => "cannot convert "@ + name@ + " to FeatureAttrValType"@,
        ColumnType::Varchar | ColumnType::Text | ColumnType::CharArray => "invalid utf-8 sequence"@,
        ColumnType::Bool => "invalid buffer size"@,
        _ => if raw.len() < width_of(ty).unwrap() {
            "failed to fill whole buffer"@
        } else {
            "invalid buffer size"@
        },
    }
}

fn width_error(len: usize, width: usize) -> (msg: String)
    requires
        len != width,
    ensures
        len < width ==> msg@ == "failed to fill whole buffer"@,
        len > width ==> msg@ == "invalid buffer size"@,
{
    if len < width {
        "failed to fill whole buffer".to_owned()
    } else {
        "invalid buffer size".to_owned()
    }
}

impl FeatureAttrValType {
    /// Values can be made of text, of floats and integers of any width, and
    /// of booleans.
    pub open spec fn accepted(ty: ColumnType) -> bool {
        !(ty is Other)
    }

    /// Whether a column of type `ty` can be read as an attribute value.
    pub fn accepts(ty: &ColumnType) -> (r: bool)
        ensures
            r == Self::accepted(*ty),
    {
        match ty {
            ColumnType::Other(_) => false,
            _ => true,
        }
    }

    /// Reads the bytes `raw` of a column of type `ty` as an attribute value.
    ///
    /// Fails if the type is not accepted, if text is not UTF-8, or if a
    /// number or a boolean has not the width of its type.
    pub fn from_sql(ty: &ColumnType, raw: &[u8]) -> (r: Result<FeatureAttrValType, String>)
        ensures
            match decoded(*ty, raw@) {
                Some(v) => r is Ok && r.unwrap()@ == v,
                None => r is Err && r.unwrap_err()@ == decode_failure(*ty, raw@),
            },
    {
        let n: usize = raw.len();
        match ty {
            ColumnType::Varchar | ColumnType::Text | ColumnType::CharArray => match string_from_utf8(raw) {
                Some(s) => Ok(FeatureAttrValType::String(s)),
                None => Err("invalid utf-8 sequence".to_owned()),
            },
            ColumnType::Float4 => if n == 4 {
                proof {
                    lemma_big_endian_bound(raw@);
                }
                Ok(FeatureAttrValType::Float(read_big_endian(raw) as u32))
            } else {
                Err(width_error(n, 4))
            },
            ColumnType::Float8 => if n == 8 {
                Ok(FeatureAttrValType::Double(read_big_endian(raw)))
            } else {
                Err(width_error(n, 8))
            },
            ColumnType::Int2 => if n == 2 {
                Ok(FeatureAttrValType::Int(read_signed(raw, 0x8000)))
            } else {
                Err(width_error(n, 2))
            },
            ColumnType::Int4 => if n == 4 {
                Ok(FeatureAttrValType::Int(read_signed(raw, 0x8000_0000)))
            } else {
                Err(width_error(n, 4))
            },
            ColumnType::Int8 => if n == 8 {
                Ok(FeatureAttrValType::Int(read_signed(raw, 0x8000_0000_0000_0000)))
            } else {
                Err(width_error(n, 8))
            },
            ColumnType::Bool => if n == 1 {
                Ok(FeatureAttrValType::Bool(raw[0] != 0))
            } else {
                Err("invalid buffer size".to_owned())
            },
            ColumnType::Other(name) => {
                let mut msg = "cannot convert ".to_owned();
                msg.append(name.as_str());
                msg.append(" to FeatureAttrValType");
                Err(msg)
            },
        }
    }
}

/// The value of a cell: `Some(None)` for NULL, `None` where the column's type
/// is not accepted or its bytes do not spell a value.
pub open spec fn cell_value(col: Column) -> Option<Option<ValueView>> {
    match col.raw {
        None => if FeatureAttrValType::accepted(col.ty) {
            Some(None)
        } else {
            None
        },
        Some(raw) => match decoded(col.ty, raw@) {
            Some(v) => Some(Some(v)),
            None => None,
        },
    }
}

/// Reads a cell that may be NULL.
pub fn read_cell(col: &Column) -> (r: Result<Option<FeatureAttrValType>, String>)
    ensures
        match cell_value(*col) {
            Some(Some(v)) => r is Ok && r.unwrap() is Some && r.unwrap().unwrap()@ == v,
            Some(None) => r is Ok && r.unwrap() is None,
            None => r is Err && r.unwrap_err()@ == decode_failure(
                col.ty,
                match col.raw {
                    Some(raw) => raw@,
                    None => Seq::empty(),
                },
            ),
        },
{
    match &col.raw {
        None => match &col.ty {
            ColumnType::Other(name) => {
                let mut msg = "cannot convert ".to_owned();
                msg.append(name.as_str());
                msg.append(" to FeatureAttrValType");
                Err(msg)
            },
            _ => Ok(None),
        },
        Some(raw) => match FeatureAttrValType::from_sql(&col.ty, raw.as_slice()) {
            Ok(v) => Ok(Some(v)),
            Err(e) => Err(e),
        },
    }
}

/// The index of the first column named `name`, or the number of columns.
pub open spec fn column_index(columns: Seq<Column>, name: Seq<char>) -> int
    decreases columns.len(),
{
    if columns.len() == 0 {
        0
    } else {
        let i = column_index(columns.drop_last(), name);
        if i < columns.len() - 1 {
            i
        } else if columns.last().name@ == name {
            columns.len() - 1
        } else {
            columns.len() as int
        }
    }
}

proof fn lemma_column_index_found(columns: Seq<Column>, k: int, n: int, name: Seq<char>)
    requires
        0 <= k <= n <= columns.len(),
        column_index(columns.take(k), name) < k,
    ensures
        column_index(columns.take(n), name) == column_index(columns.take(k), name),
    decreases n - k,
{
    if n > k {
        lemma_column_index_found(columns, k, n - 1, name);
        assert(columns.take(n).drop_last() =~= columns.take(n - 1));
    }
}

/// The id of the feature in a row: the integer in the first column that has
/// the name of the layer's id field, with its bits read as unsigned. `None`
/// if the layer has no id field, if the row has no such column, or if the
/// cell is NULL or holds no integer.
pub open spec fn row_fid(layer: Layer, columns: Seq<Column>) -> Option<u64> {
    match layer.fid_field {
        None => None,
        Some(name) => {
            let i = column_index(columns, name@);
            if i < columns.len() {
                match cell_value(columns[i]) {
                    Some(Some(ValueView::Int(v))) => Some(int_to_wire(v)),
                    _ => None,
                }
            } else {
                None
            }
        },
    }
}

/// Runtime value of [`row_fid`].
pub fn fid_from_columns(layer: &Layer, columns: &Vec<Column>) -> (fid: Option<u64>)
    ensures
        fid == row_fid(*layer, columns@),
{
    let name = match &layer.fid_field {
        None => {
            return None;
        },
        Some(name) => name,
    };
    let n: usize = columns.len();
    let mut i: usize = 0;
    assert(columns@.take(0) =~= Seq::<Column>::empty());
    while i < n
        invariant
            i <= n,
            n == columns@.len(),
            layer.fid_field == Some(*name),
            column_index(columns@.take(i as int), name@) == i,
        decreases n - i,
    {
        proof {
            assert(columns@.take(i + 1).drop_last() =~= columns@.take(i as int));
            assert(columns@.take(i + 1).last() == columns@[i as int]);
        }
        if columns[i].name == *name {
            proof {
                lemma_column_index_found(columns@, i + 1, n as int, name@);
                assert(columns@.take(n as int) =~= columns@);
            }
            return match read_cell(&columns[i]) {
                Ok(Some(FeatureAttrValType::Int(v))) => Some(int_bits(v)),
                _ => None,
            };
        }
        i += 1;
    }
    assert(columns@.take(n as int) =~= columns@);
    None
}

/// The attributes of the feature in a row, in the order of the columns: one
/// for each cell that holds a value, but for the columns that name the
/// layer's geometry or id field. NULL cells and cells that cannot be read
/// are left out.
pub open spec fn row_attributes(layer: Layer, columns: Seq<Column>) -> Seq<FeatureAttrView>
    decreases columns.len(),
{
    if columns.len() == 0 {
        Seq::empty()
    } else {
        let before = row_attributes(layer, columns.drop_last());
        let col = columns.last();
        if layer.is_positional(col.name@) {
            before
        } else {
            match cell_value(col) {
                Some(Some(v)) => before.push(FeatureAttrView { key: col.name@, value: v }),
                _ => before,
            }
        }
    }
}

/// Runtime value of [`row_attributes`].
pub fn attributes_from_columns(layer: &Layer, columns: &Vec<Column>) -> (attrs: Vec<FeatureAttr>)
    ensures
        attr_views(attrs@) == row_attributes(*layer, columns@),
{
    let mut attrs: Vec<FeatureAttr> = Vec::new();
    let n: usize = columns.len();
    let mut i: usize = 0;
    proof {
        assert(columns@.take(0) =~= Seq::<Column>::empty());
        assert(attr_views(attrs@) =~= Seq::<FeatureAttrView>::empty());
    }
    while i < n
        invariant
            i <= n,
            n == columns@.len(),
            attr_views(attrs@) == row_attributes(*layer, columns@.take(i as int)),
        decreases n - i,
    {
        let col = &columns[i];
        proof {
            assert(columns@.take(i + 1).drop_last() =~= columns@.take(i as int));
            assert(columns@.take(i + 1).last() == *col);
        }
        if !layer.names_position(&col.name) {
            match read_cell(col) {
                Ok(Some(v)) => {
                    let ghost had = attrs@;
                    let fattr = FeatureAttr { key: col.name.clone(), value: v };
                    attrs.push(fattr);
                    assert(attr_views(attrs@) =~= attr_views(had).push(fattr@));
                },
                Ok(None) => {},
                Err(_) => {},
            }
        }
        i += 1;
    }
    assert(columns@.take(n as int) =~= columns@);
    attrs
}

} // verus!
