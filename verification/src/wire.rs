//! The protocol-buffer wire format: varints, tagged fields and packed runs.
//!
//! A message is a sequence of fields. Each field starts with a varint tag that
//! holds its number and its wire type, and carries a varint, four or eight
//! little-endian bytes, or a length-delimited run of bytes.

use vstd::prelude::*;
use vstd::bytes::{
    lemma_auto_spec_u32_to_from_le_bytes, lemma_auto_spec_u64_to_from_le_bytes, spec_u32_from_le_bytes,
    spec_u32_to_le_bytes, spec_u64_from_le_bytes, spec_u64_to_le_bytes, u32_from_le_bytes, u32_to_le_bytes,
    u64_from_le_bytes, u64_to_le_bytes,
};
use vstd::slice::slice_subrange;

verus! {

/// The largest field number a tag can hold.
pub const MAX_FIELD: u32 = 0x1FFF_FFFF;

/// What a field carries, by wire type.
pub enum Payload {
    /// Wire type 0.
    Varint(u64),
    /// Wire type 1, eight little-endian bytes.
    Fixed64(u64),
    /// Wire type 2, a length and that many bytes.
    Bytes(Seq<u8>),
    /// Wire type 5, four little-endian bytes.
    Fixed32(u32),
}

/// One field of a message.
pub struct Field {
    pub number: u32,
    pub payload: Payload,
}

impl Payload {
    /// The wire type written into the tag.
    pub open spec fn wire_type(self) -> u64 {
        match self {
            Payload::Varint(_) => 0,
            Payload::Fixed64(_) => 1,
            Payload::Bytes(_) => 2,
            Payload::Fixed32(_) => 5,
        }
    }
}

impl Field {
    /// The field can be written: its number fits a tag and its bytes can be
    /// counted in 64 bits.
    pub open spec fn wf(self) -> bool {
        &&& 1 <= self.number <= MAX_FIELD
        &&& match self.payload {
            Payload::Bytes(b) => b.len() <= u64::MAX,
            _ => true,
        }
    }

    /// The tag: the number above the three bits of the wire type.
    pub open spec fn tag(self) -> u64 {
        (self.number * 8 + self.payload.wire_type()) as u64
    }
}

/// The base-128 encoding of `v`: seven bits a byte, lowest first, the high bit
/// set on every byte but the last.
pub open spec fn varint(v: u64) -> Seq<u8>
    decreases v,
{
    if v < 128 {
        seq![v as u8]
    } else {
        seq![(v % 128 + 128) as u8] + varint(v / 128)
    }
}

/// The varint at the start of `bytes` and its length, read with `depth` bytes
/// of it already behind. `None` if the bytes end before the varint does, if it
/// is longer than ten bytes, or if its value needs more than 64 bits.
pub open spec fn read_varint(bytes: Seq<u8>, depth: nat) -> Option<(u64, nat)>
    decreases 10 - depth,
{
    if depth >= 10 || bytes.len() == 0 {
        None
    } else if bytes[0] < 128 {
        Some((bytes[0] as u64, 1))
    } else {
        match read_varint(bytes.skip(1), depth + 1) {
            Some((hi, n)) => if (bytes[0] - 128) + 128 * hi <= u64::MAX {
                Some((((bytes[0] - 128) + 128 * hi) as u64, n + 1))
            } else {
                None
            },
            None => None,
        }
    }
}

/// The varint at the start of `bytes` and its length.
pub open spec fn parse_varint(bytes: Seq<u8>) -> Option<(u64, nat)> {
    read_varint(bytes, 0)
}

/// The bytes of one field: tag, then payload.
pub open spec fn encode_field(f: Field) -> Seq<u8> {
    match f.payload {
        Payload::Varint(v) => varint(f.tag()) + varint(v),
        Payload::Fixed64(v) => varint(f.tag()) + spec_u64_to_le_bytes(v),
        Payload::Bytes(b) => varint(f.tag()) + varint(b.len() as u64) + b,
        Payload::Fixed32(v) => varint(f.tag()) + spec_u32_to_le_bytes(v),
    }
}

/// The bytes of a message: its fields one after the other.
pub open spec fn encode_fields(fs: Seq<Field>) -> Seq<u8>
    decreases fs.len(),
{
    if fs.len() == 0 {
        Seq::empty()
    } else {
        encode_fields(fs.drop_last()) + encode_field(fs.last())
    }
}

/// The field at the start of `bytes` and its length. `None` if the tag or the
/// payload is cut short or malformed, if the field number is zero or too
/// large, or if the wire type is none of 0, 1, 2 and 5.
pub open spec fn parse_field(bytes: Seq<u8>) -> Option<(Field, nat)> {
    match parse_varint(bytes) {
        None => None,
        Some((t, n)) => {
            let number = t / 8;
            let wt = t % 8;
            let body = bytes.skip(n as int);
            if number < 1 || number > MAX_FIELD {
                None
            } else if wt == 0 {
                match parse_varint(body) {
                    Some((v, m)) => Some((Field { number: number as u32, payload: Payload::Varint(v) }, n + m)),
                    None => None,
                }
            } else if wt == 1 {
                if body.len() >= 8 {
                    Some(
                        (
                            Field {
                                number: number as u32,
                                payload: Payload::Fixed64(spec_u64_from_le_bytes(body.take(8))),
                            },
                            n + 8,
                        ),
                    )
                } else {
                    None
                }
            } else if wt == 2 {
                match parse_varint(body) {
                    Some((len, m)) => if m + len <= body.len() {
                        Some(
                            (
                                Field {
                                    number: number as u32,
                                    payload: Payload::Bytes(body.subrange(m as int, m + len)),
                                },
                                (n + m + len) as nat,
                            ),
                        )
                    } else {
                        None
                    },
                    None => None,
                }
            } else if wt == 5 {
                if body.len() >= 4 {
                    Some(
                        (
                            Field {
                                number: number as u32,
                                payload: Payload::Fixed32(spec_u32_from_le_bytes(body.take(4))),
                            },
                            n + 4,
                        ),
                    )
                } else {
                    None
                }
            } else {
                None
            }
        },
    }
}

/// A message of one field is that field.
pub proof fn lemma_encode_fields_one(f: Field)
    ensures
        encode_fields(seq![f]) == encode_field(f),
{
    assert(seq![f].drop_last() =~= Seq::<Field>::empty());
    reveal_with_fuel(encode_fields, 2);
    assert(encode_fields(seq![f]) =~= encode_field(f));
}

/// A message with one more field is the message followed by that field.
pub proof fn lemma_encode_fields_push(fs: Seq<Field>, f: Field)
    ensures
        encode_fields(fs.push(f)) == encode_fields(fs) + encode_field(f),
{
    assert(fs.push(f).drop_last() =~= fs);
}

/// `head` followed by `tail`, where there is a tail.
pub open spec fn prepend<T>(head: Seq<T>, tail: Option<Seq<T>>) -> Option<Seq<T>> {
    match tail {
        Some(t) => Some(head + t),
        None => None,
    }
}

/// The fields of the message `bytes`, or `None` if some field of it is
/// malformed.
pub open spec fn parse_fields(bytes: Seq<u8>) -> Option<Seq<Field>>
    decreases bytes.len(),
{
    if bytes.len() == 0 {
        Some(Seq::empty())
    } else {
        match parse_field(bytes) {
            Some((f, n)) => if 0 < n <= bytes.len() {
                prepend(seq![f], parse_fields(bytes.skip(n as int)))
            } else {
                None
            },
            None => None,
        }
    }
}

/// A packed run: the varints of `vs` one after the other.
pub open spec fn encode_packed(vs: Seq<u64>) -> Seq<u8>
    decreases vs.len(),
{
    if vs.len() == 0 {
        Seq::empty()
    } else {
        encode_packed(vs.drop_last()) + varint(vs.last())
    }
}

/// The varints that `bytes` is made of, or `None` if it ends inside one.
pub open spec fn parse_packed(bytes: Seq<u8>) -> Option<Seq<u64>>
    decreases bytes.len(),
{
    if bytes.len() == 0 {
        Some(Seq::empty())
    } else {
        match parse_varint(bytes) {
            Some((v, n)) => if 0 < n <= bytes.len() {
                prepend(seq![v], parse_packed(bytes.skip(n as int)))
            } else {
                None
            },
            None => None,
        }
    }
}

/// A message read field by field: `step` takes the state so far and the next
/// field, and gives the next state or fails.
pub open spec fn fold_fields<A>(fs: Seq<Field>, init: A, step: spec_fn(A, Field) -> Option<A>) -> Option<A>
    decreases fs.len(),
{
    if fs.len() == 0 {
        Some(init)
    } else {
        match fold_fields(fs.drop_last(), init, step) {
            Some(a) => step(a, fs.last()),
            None => None,
        }
    }
}

/// Reading `a` and then `b` is reading `a + b`.
pub proof fn lemma_fold_fields_concat<A>(a: Seq<Field>, b: Seq<Field>, init: A, step: spec_fn(A, Field) -> Option<A>)
    ensures
        fold_fields(a + b, init, step) == match fold_fields(a, init, step) {
            Some(m) => fold_fields(b, m, step),
            None => None,
        },
    decreases b.len(),
{
    if b.len() == 0 {
        assert(a + b =~= a);
    } else {
        lemma_fold_fields_concat(a, b.drop_last(), init, step);
        assert((a + b).drop_last() =~= a + b.drop_last());
        assert((a + b).last() == b.last());
    }
}

/// Where reading the first `k` fields fails, reading all of them fails.
pub proof fn lemma_fold_fields_prefix_fails<A>(
    fs: Seq<Field>,
    k: int,
    init: A,
    step: spec_fn(A, Field) -> Option<A>,
)
    requires
        0 <= k <= fs.len(),
        fold_fields(fs.take(k), init, step) is None,
    ensures
        fold_fields(fs, init, step) is None,
{
    lemma_fold_fields_concat(fs.take(k), fs.skip(k), init, step);
    assert(fs.take(k) + fs.skip(k) =~= fs);
}

/// Reading one field is one step.
pub proof fn lemma_fold_fields_one<A>(f: Field, init: A, step: spec_fn(A, Field) -> Option<A>)
    ensures
        fold_fields(seq![f], init, step) == step(init, f),
{
    assert(seq![f].drop_last() =~= Seq::<Field>::empty());
    reveal_with_fuel(fold_fields, 2);
}

spec fn pow128(k: nat) -> nat
    decreases k,
{
    if k == 0 {
        1
    } else {
        128 * pow128((k - 1) as nat)
    }
}

proof fn lemma_varint_len_under(v: u64, k: nat)
    requires
        k >= 1,
        v < pow128(k),
    ensures
        1 <= varint(v).len() <= k,
    decreases v,
{
    if v >= 128 {
        reveal_with_fuel(pow128, 2);
        if k == 1 {
            assert(pow128(1) == 128);
        } else {
            assert(pow128(k) == 128 * pow128((k - 1) as nat));
            lemma_varint_len_under(v / 128, (k - 1) as nat);
        }
    }
}

/// A varint is one to ten bytes long.
pub proof fn lemma_varint_len(v: u64)
    ensures
        1 <= varint(v).len() <= 10,
{
    reveal_with_fuel(pow128, 11);
    assert(pow128(10) == 0x40_0000_0000_0000_0000);
    lemma_varint_len_under(v, 10);
}

proof fn lemma_read_varint_at(v: u64, rest: Seq<u8>, depth: nat)
    requires
        depth + varint(v).len() <= 10,
    ensures
        read_varint(varint(v) + rest, depth) == Some((v, varint(v).len())),
    decreases v,
{
    let bytes = varint(v) + rest;
    if v < 128 {
        assert(bytes[0] == v as u8);
    } else {
        let tail = varint(v / 128);
        assert(bytes[0] == (v % 128 + 128) as u8);
        assert(bytes.skip(1) =~= tail + rest);
        lemma_read_varint_at(v / 128, rest, depth + 1);
    }
}

/// A written varint is read back, whatever follows it.
pub proof fn lemma_parse_varint(v: u64, rest: Seq<u8>)
    ensures
        parse_varint(varint(v) + rest) == Some((v, varint(v).len())),
{
    lemma_varint_len(v);
    lemma_read_varint_at(v, rest, 0);
}

proof fn lemma_tag_parts(f: Field)
    requires
        f.wf(),
    ensures
        f.tag() / 8 == f.number,
        f.tag() % 8 == f.payload.wire_type(),
{
}

proof fn lemma_parse_tag(f: Field, body: Seq<u8>)
    requires
        f.wf(),
    ensures
        parse_varint(varint(f.tag()) + body) == Some((f.tag(), varint(f.tag()).len())),
        (varint(f.tag()) + body).skip(varint(f.tag()).len() as int) == body,
        varint(f.tag()).len() >= 1,
{
    lemma_parse_varint(f.tag(), body);
    lemma_varint_len(f.tag());
    assert((varint(f.tag()) + body).skip(varint(f.tag()).len() as int) =~= body);
}

proof fn lemma_parse_field_varint(f: Field, v: u64, rest: Seq<u8>)
    requires
        f.wf(),
        f.payload == Payload::Varint(v),
    ensures
        parse_field(encode_field(f) + rest) == Some((f, encode_field(f).len())),
{
    let body = varint(v) + rest;
    assert(encode_field(f) + rest =~= varint(f.tag()) + body);
    lemma_tag_parts(f);
    lemma_parse_tag(f, body);
    lemma_parse_varint(v, rest);
}

proof fn lemma_parse_field_fixed64(f: Field, v: u64, rest: Seq<u8>)
    requires
        f.wf(),
        f.payload == Payload::Fixed64(v),
    ensures
        parse_field(encode_field(f) + rest) == Some((f, encode_field(f).len())),
{
    let le = spec_u64_to_le_bytes(v);
    let body = le + rest;
    lemma_auto_spec_u64_to_from_le_bytes();
    assert(encode_field(f) + rest =~= varint(f.tag()) + body);
    lemma_tag_parts(f);
    lemma_parse_tag(f, body);
    assert(body.take(8) =~= le);
}

proof fn lemma_parse_field_fixed32(f: Field, v: u32, rest: Seq<u8>)
    requires
        f.wf(),
        f.payload == Payload::Fixed32(v),
    ensures
        parse_field(encode_field(f) + rest) == Some((f, encode_field(f).len())),
{
    let le = spec_u32_to_le_bytes(v);
    let body = le + rest;
    lemma_auto_spec_u32_to_from_le_bytes();
    assert(encode_field(f) + rest =~= varint(f.tag()) + body);
    lemma_tag_parts(f);
    lemma_parse_tag(f, body);
    assert(body.take(4) =~= le);
}

proof fn lemma_parse_field_bytes(f: Field, b: Seq<u8>, rest: Seq<u8>)
    requires
        f.wf(),
        f.payload == Payload::Bytes(b),
    ensures
        parse_field(encode_field(f) + rest) == Some((f, encode_field(f).len())),
{
    let lb = varint(b.len() as u64);
    let body = lb + (b + rest);
    assert(encode_field(f) + rest =~= varint(f.tag()) + body);
    lemma_tag_parts(f);
    lemma_parse_tag(f, body);
    lemma_parse_varint(b.len() as u64, b + rest);
    lemma_varint_len(b.len() as u64);
    assert(body.subrange(lb.len() as int, (lb.len() + b.len()) as int) =~= b);
}

/// A written field is read back, whatever follows it.
pub proof fn lemma_parse_field(f: Field, rest: Seq<u8>)
    requires
        f.wf(),
    ensures
        parse_field(encode_field(f) + rest) == Some((f, encode_field(f).len())),
        encode_field(f).len() > 0,
{
    lemma_varint_len(f.tag());
    match f.payload {
        Payload::Varint(v) => {
            lemma_parse_field_varint(f, v, rest);
        },
        Payload::Fixed64(v) => {
            lemma_parse_field_fixed64(f, v, rest);
        },
        Payload::Bytes(b) => {
            lemma_parse_field_bytes(f, b, rest);
        },
        Payload::Fixed32(v) => {
            lemma_parse_field_fixed32(f, v, rest);
        },
    }
}

/// Every field of `fs` can be written.
pub open spec fn fields_wf(fs: Seq<Field>) -> bool {
    forall|i: int| 0 <= i < fs.len() ==> (#[trigger] fs[i]).wf()
}

/// Written fields are read back, followed by what the rest reads as.
pub proof fn lemma_parse_fields_then(fs: Seq<Field>, rest: Seq<u8>)
    requires
        fields_wf(fs),
    ensures
        parse_fields(encode_fields(fs) + rest) == prepend(fs, parse_fields(rest)),
    decreases fs.len(),
{
    if fs.len() == 0 {
        assert(encode_fields(fs) + rest =~= rest);
        match parse_fields(rest) {
            Some(t) => {
                assert(fs + t =~= t);
            },
            None => {},
        }
    } else {
        let init = fs.drop_last();
        let f = fs.last();
        let tail = encode_field(f) + rest;
        assert(fields_wf(init));
        assert(fs[fs.len() - 1].wf());
        assert(encode_fields(fs) + rest =~= encode_fields(init) + tail);
        lemma_parse_fields_then(init, tail);
        lemma_parse_field(f, rest);
        assert(tail.skip(encode_field(f).len() as int) =~= rest);
        assert(parse_fields(tail) == prepend(seq![f], parse_fields(rest)));
        match parse_fields(rest) {
            Some(t) => {
                assert(init + (seq![f] + t) =~= fs + t);
            },
            None => {},
        }
    }
}

/// A written message is read back field for field.
pub proof fn lemma_parse_fields(fs: Seq<Field>)
    requires
        fields_wf(fs),
    ensures
        parse_fields(encode_fields(fs)) == Some(fs),
{
    lemma_parse_fields_then(fs, Seq::empty());
    assert(encode_fields(fs) + Seq::<u8>::empty() =~= encode_fields(fs));
    assert(fs + Seq::<Field>::empty() =~= fs);
}

proof fn lemma_parse_packed_then(vs: Seq<u64>, rest: Seq<u8>)
    ensures
        parse_packed(encode_packed(vs) + rest) == prepend(vs, parse_packed(rest)),
    decreases vs.len(),
{
    if vs.len() == 0 {
        assert(encode_packed(vs) + rest =~= rest);
        match parse_packed(rest) {
            Some(t) => {
                assert(vs + t =~= t);
            },
            None => {},
        }
    } else {
        let init = vs.drop_last();
        let v = vs.last();
        let tail = varint(v) + rest;
        assert(encode_packed(vs) + rest =~= encode_packed(init) + tail);
        lemma_parse_packed_then(init, tail);
        lemma_parse_varint(v, rest);
        lemma_varint_len(v);
        assert(tail.skip(varint(v).len() as int) =~= rest);
        assert(parse_packed(tail) == prepend(seq![v], parse_packed(rest)));
        match parse_packed(rest) {
            Some(t) => {
                assert(init + (seq![v] + t) =~= vs + t);
            },
            None => {},
        }
    }
}

/// A written packed run is read back value for value.
pub proof fn lemma_parse_packed(vs: Seq<u64>)
    ensures
        parse_packed(encode_packed(vs)) == Some(vs),
{
    lemma_parse_packed_then(vs, Seq::empty());
    assert(encode_packed(vs) + Seq::<u8>::empty() =~= encode_packed(vs));
    assert(vs + Seq::<u64>::empty() =~= vs);
}

/// What a field that was read carries. Bytes are borrowed from the message.
#[derive(Clone, Copy, Debug)]
pub enum RawPayload<'a> {
    Varint(u64),
    Fixed64(u64),
    Bytes(&'a [u8]),
    Fixed32(u32),
}

/// A field that was read.
#[derive(Clone, Copy, Debug)]
pub struct RawField<'a> {
    pub number: u32,
    pub payload: RawPayload<'a>,
}

impl<'a> View for RawPayload<'a> {
    type V = Payload;

    open spec fn view(&self) -> Payload {
        match *self {
            RawPayload::Varint(v) => Payload::Varint(v),
            RawPayload::Fixed64(v) => Payload::Fixed64(v),
            RawPayload::Bytes(b) => Payload::Bytes(b@),
            RawPayload::Fixed32(v) => Payload::Fixed32(v),
        }
    }
}

impl<'a> View for RawField<'a> {
    type V = Field;

    open spec fn view(&self) -> Field {
        Field { number: self.number, payload: self.payload@ }
    }
}

/// The views of a list of fields.
pub open spec fn raw_views<'a>(fs: Seq<RawField<'a>>) -> Seq<Field> {
    fs.map_values(|f: RawField<'a>| f@)
}

/// Appends `bytes` to `out`.
pub fn put_bytes(out: &mut Vec<u8>, bytes: &[u8])
    ensures
        final(out)@ == old(out)@ + bytes@,
{
    let n: usize = bytes.len();
    let mut i: usize = 0;
    assert(out@ =~= old(out)@ + bytes@.take(0));
    while i < n
        invariant
            i <= n,
            n == bytes@.len(),
            out@ == old(out)@ + bytes@.take(i as int),
        decreases n - i,
    {
        out.push(bytes[i]);
        i += 1;
        assert(out@ =~= old(out)@ + bytes@.take(i as int));
    }
    assert(bytes@.take(n as int) =~= bytes@);
}

/// Appends the varint of `v` to `out`.
pub fn put_varint(out: &mut Vec<u8>, v: u64)
    ensures
        final(out)@ == old(out)@ + varint(v),
{
    let mut rem: u64 = v;
    while rem >= 128
        invariant
            out@ + varint(rem) == old(out)@ + varint(v),
        decreases rem,
    {
        let ghost before = out@;
        let b: u8 = (rem % 128 + 128) as u8;
        out.push(b);
        assert(before + varint(rem) =~= out@ + varint(rem / 128));
        rem = rem / 128;
    }
    let ghost before = out@;
    out.push(rem as u8);
    assert(out@ =~= before + varint(rem));
}

fn put_tag(out: &mut Vec<u8>, number: u32, wire_type: u8)
    requires
        number <= MAX_FIELD,
        wire_type < 8,
    ensures
        final(out)@ == old(out)@ + varint((number * 8 + wire_type) as u64),
{
    put_varint(out, (number as u64) * 8 + wire_type as u64);
}

/// Appends a varint field.
pub fn put_varint_field(out: &mut Vec<u8>, number: u32, v: u64)
    requires
        1 <= number <= MAX_FIELD,
    ensures
        final(out)@ == old(out)@ + encode_field(Field { number, payload: Payload::Varint(v) }),
{
    put_tag(out, number, 0);
    put_varint(out, v);
    assert(out@ =~= old(out)@ + encode_field(Field { number, payload: Payload::Varint(v) }));
}

/// Appends an eight-byte field.
pub fn put_fixed64_field(out: &mut Vec<u8>, number: u32, v: u64)
    requires
        1 <= number <= MAX_FIELD,
    ensures
        final(out)@ == old(out)@ + encode_field(Field { number, payload: Payload::Fixed64(v) }),
{
    put_tag(out, number, 1);
    let body = u64_to_le_bytes(v);
    put_bytes(out, body.as_slice());
    assert(out@ =~= old(out)@ + encode_field(Field { number, payload: Payload::Fixed64(v) }));
}

/// Appends a four-byte field.
pub fn put_fixed32_field(out: &mut Vec<u8>, number: u32, v: u32)
    requires
        1 <= number <= MAX_FIELD,
    ensures
        final(out)@ == old(out)@ + encode_field(Field { number, payload: Payload::Fixed32(v) }),
{
    put_tag(out, number, 5);
    let body = u32_to_le_bytes(v);
    put_bytes(out, body.as_slice());
    assert(out@ =~= old(out)@ + encode_field(Field { number, payload: Payload::Fixed32(v) }));
}

/// Appends a length-delimited field.
pub fn put_bytes_field(out: &mut Vec<u8>, number: u32, bytes: &[u8])
    requires
        1 <= number <= MAX_FIELD,
    ensures
        final(out)@ == old(out)@ + encode_field(Field { number, payload: Payload::Bytes(bytes@) }),
        (Field { number, payload: Payload::Bytes(bytes@) }).wf(),
{
    put_tag(out, number, 2);
    put_varint(out, bytes.len() as u64);
    put_bytes(out, bytes);
    assert(out@ =~= old(out)@ + encode_field(Field { number, payload: Payload::Bytes(bytes@) }));
}

/// The values of `vs` widened to 64 bits.
pub open spec fn widen(vs: Seq<u32>) -> Seq<u64> {
    vs.map_values(|v: u32| v as u64)
}

/// The packed run of `vs`.
pub fn packed(vs: &Vec<u32>) -> (out: Vec<u8>)
    ensures
        out@ == encode_packed(widen(vs@)),
{
    let ghost all = widen(vs@);
    let mut out: Vec<u8> = Vec::new();
    let n: usize = vs.len();
    let mut i: usize = 0;
    assert(all.take(0) =~= Seq::<u64>::empty());
    while i < n
        invariant
            i <= n,
            n == vs@.len(),
            all == widen(vs@),
            out@ == encode_packed(all.take(i as int)),
        decreases n - i,
    {
        put_varint(&mut out, vs[i] as u64);
        i += 1;
        proof {
            let s = all.take(i as int);
            assert(s.drop_last() =~= all.take(i - 1));
            assert(s.last() == vs@[i - 1] as u64);
        }
    }
    assert(all.take(n as int) =~= all);
    out
}

fn get_varint_at(bytes: &[u8], pos: usize, depth: u8) -> (r: Option<(u64, usize)>)
    requires
        pos <= bytes@.len(),
        depth <= 10,
    ensures
        match read_varint(bytes@.skip(pos as int), depth as nat) {
            Some((v, n)) => r == Some((v, n as usize)) && 1 <= n && pos + n <= bytes@.len(),
            None => r is None,
        },
    decreases 10 - depth,
{
    if depth >= 10 || pos >= bytes.len() {
        return None;
    }
    let b: u8 = bytes[pos];
    assert(bytes@.skip(pos as int)[0] == b);
    if b < 128 {
        return Some((b as u64, 1));
    }
    assert(bytes@.skip(pos as int).skip(1) =~= bytes@.skip(pos + 1));
    match get_varint_at(bytes, pos + 1, depth + 1) {
        Some((hi, n)) => {
            let low: u64 = (b - 128) as u64;
            if hi > (u64::MAX - low) / 128 {
                None
            } else {
                Some((low + 128 * hi, n + 1))
            }
        },
        None => None,
    }
}

/// Reads the varint at `bytes[pos..]`: its value and its length.
pub fn get_varint(bytes: &[u8], pos: usize) -> (r: Option<(u64, usize)>)
    requires
        pos <= bytes@.len(),
    ensures
        match parse_varint(bytes@.skip(pos as int)) {
            Some((v, n)) => r == Some((v, n as usize)) && 1 <= n && pos + n <= bytes@.len(),
            None => r is None,
        },
{
    get_varint_at(bytes, pos, 0)
}

/// Reads the field at `bytes[pos..]`: the field and its length.
pub fn get_field<'a>(bytes: &'a [u8], pos: usize) -> (r: Option<(RawField<'a>, usize)>)
    requires
        pos <= bytes@.len(),
    ensures
        match parse_field(bytes@.skip(pos as int)) {
            Some((f, n)) => r is Some && r.unwrap().0@ == f && r.unwrap().1 == n && 1 <= n && pos + n
                <= bytes@.len(),
            None => r is None,
        },
{
    let ghost rem = bytes@.skip(pos as int);
    let total: usize = bytes.len();
    let (t, n) = match get_varint(bytes, pos) {
        Some(x) => x,
        None => {
            return None;
        },
    };
    let number: u64 = t / 8;
    let wt: u64 = t % 8;
    if number < 1 || number > MAX_FIELD as u64 {
        return None;
    }
    let at: usize = pos + n;
    assert(rem.skip(n as int) =~= bytes@.skip(at as int));
    let ghost body = bytes@.skip(at as int);
    if wt == 0 {
        match get_varint(bytes, at) {
            Some((v, m)) => Some((RawField { number: number as u32, payload: RawPayload::Varint(v) }, n + m)),
            None => None,
        }
    } else if wt == 1 {
        if total - at >= 8 {
            let chunk = slice_subrange(bytes, at, at + 8);
            assert(chunk@ =~= body.take(8));
            Some((RawField { number: number as u32, payload: RawPayload::Fixed64(u64_from_le_bytes(chunk)) }, n + 8))
        } else {
            None
        }
    } else if wt == 2 {
        match get_varint(bytes, at) {
            Some((len, m)) => {
                if len <= (total - at - m) as u64 {
                    let l: usize = len as usize;
                    let chunk = slice_subrange(bytes, at + m, at + m + l);
                    assert(chunk@ =~= body.subrange(m as int, m + len));
                    Some((RawField { number: number as u32, payload: RawPayload::Bytes(chunk) }, n + m + l))
                } else {
                    None
                }
            },
            None => None,
        }
    } else if wt == 5 {
        if total - at >= 4 {
            let chunk = slice_subrange(bytes, at, at + 4);
            assert(chunk@ =~= body.take(4));
            Some((RawField { number: number as u32, payload: RawPayload::Fixed32(u32_from_le_bytes(chunk)) }, n + 4))
        } else {
            None
        }
    } else {
        None
    }
}

/// Reads the message `bytes` into its fields.
pub fn get_fields<'a>(bytes: &'a [u8]) -> (r: Option<Vec<RawField<'a>>>)
    ensures
        match parse_fields(bytes@) {
            Some(fs) => r is Some && raw_views(r.unwrap()@) == fs,
            None => r is None,
        },
{
    let mut fields: Vec<RawField<'a>> = Vec::new();
    let n: usize = bytes.len();
    let mut pos: usize = 0;
    assert(bytes@.skip(0) =~= bytes@);
    proof {
        match parse_fields(bytes@) {
            Some(t) => {
                assert(raw_views(fields@) + t =~= t);
            },
            None => {},
        }
    }
    while pos < n
        invariant
            pos <= n,
            n == bytes@.len(),
            parse_fields(bytes@) == prepend(raw_views(fields@), parse_fields(bytes@.skip(pos as int))),
        decreases n - pos,
    {
        let ghost rem = bytes@.skip(pos as int);
        let ghost read = raw_views(fields@);
        match get_field(bytes, pos) {
            None => {
                return None;
            },
            Some((f, len)) => {
                fields.push(f);
                proof {
                    assert(rem.skip(len as int) =~= bytes@.skip(pos + len));
                    assert(raw_views(fields@) =~= read.push(f@));
                    match parse_fields(bytes@.skip(pos + len)) {
                        Some(t) => {
                            assert(read + (seq![f@] + t) =~= read.push(f@) + t);
                        },
                        None => {},
                    }
                }
                pos = pos + len;
            },
        }
    }
    proof {
        assert(raw_views(fields@) + Seq::<Field>::empty() =~= raw_views(fields@));
    }
    Some(fields)
}

/// Reads the packed run `bytes` into its values.
pub fn get_packed(bytes: &[u8]) -> (r: Option<Vec<u64>>)
    ensures
        match parse_packed(bytes@) {
            Some(vs) => r is Some && r.unwrap()@ == vs,
            None => r is None,
        },
{
    let mut values: Vec<u64> = Vec::new();
    let n: usize = bytes.len();
    let mut pos: usize = 0;
    assert(bytes@.skip(0) =~= bytes@);
    proof {
        match parse_packed(bytes@) {
            Some(t) => {
                assert(values@ + t =~= t);
            },
            None => {},
        }
    }
    while pos < n
        invariant
            pos <= n,
            n == bytes@.len(),
            parse_packed(bytes@) == prepend(values@, parse_packed(bytes@.skip(pos as int))),
        decreases n - pos,
    {
        let ghost rem = bytes@.skip(pos as int);
        let ghost read = values@;
        match get_varint(bytes, pos) {
            None => {
                return None;
            },
            Some((v, len)) => {
                values.push(v);
                proof {
                    assert(rem.skip(len as int) =~= bytes@.skip(pos + len));
                    match parse_packed(bytes@.skip(pos + len)) {
                        Some(t) => {
                            assert(read + (seq![v] + t) =~= read.push(v) + t);
                        },
                        None => {},
                    }
                }
                pos = pos + len;
            },
        }
    }
    proof {
        assert(values@ + Seq::<u64>::empty() =~= values@);
    }
    Some(values)
}

} // verus!
