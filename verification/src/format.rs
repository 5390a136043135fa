//! The mathematical model of the wire format.
//!
//! [`SpecValue`] and [`SpecShape`] are the ghost counterparts of the
//! executable value and shape types: sequences of children become `Seq`, and
//! single children sit behind `Box`. The spec functions here define, for
//! every model value, its byte encoding ([`encoding`]), whether encoding can
//! succeed ([`encode_fault`]), which values belong to a shape ([`fits`]), and
//! how many bytes a decode of a given shape consumes ([`decode_len`]).

use vstd::arithmetic::div_mod::{
    lemma_div_denominator, lemma_div_pos_is_pos, lemma_fundamental_div_mod,
    lemma_fundamental_div_mod_converse, lemma_mod_bound, lemma_small_mod,
};
use vstd::prelude::*;

verus! {

/// Scalar kinds outside the supported wire subset. A value or shape of one
/// of these kinds announces only its kind: both directions reject it before
/// looking at any content, so no content is carried.
#[derive(Debug, Clone, Copy, PartialEq, Eq, Structural)]
pub enum ScalarKind {
    /// Signed integers of any width.
    SignedInteger,
    /// Unsigned integers wider than 32 bits, or 16-bit ones.
    WideInteger,
    /// Floating-point numbers of any width.
    FloatingPoint,
    /// A single character.
    Character,
    /// Text strings.
    Text,
    /// Raw byte blobs.
    RawBytes,
    /// A value whose type does not matter because it is ignored.
    Ignored,
}

/// The ghost model of a shape-described value.
pub enum SpecValue {
    /// A boolean, one wire byte holding 0 or 1.
    Bool(bool),
    /// An 8-bit unsigned integer, one raw wire byte.
    U8(u8),
    /// A 32-bit unsigned integer, four raw little-endian wire bytes.
    U32(u32),
    /// An optional: a discriminant byte, then the payload if present.
    Optional(Option<Box<SpecValue>>),
    /// A unit or unit-struct value, a single zero byte.
    Unit,
    /// A newtype wrapper: the inner encoding with no extra framing.
    Newtype(Box<SpecValue>),
    /// A sequence of elements, length-prefixed.
    Sequence(Seq<SpecValue>),
    /// A tuple, tuple struct or struct, its fields positional, length-prefixed.
    Record(Seq<SpecValue>),
    /// A map, its entries key then value interleaved, length-prefixed.
    Table(Seq<(SpecValue, SpecValue)>),
    /// A tagged-union variant: its index and its payload.
    Variant(u32, SpecPayload),
    /// A scalar outside the supported subset.
    Unsupported(ScalarKind),
}

/// The ghost model of a variant's payload.
pub enum SpecPayload {
    /// A unit variant carries nothing beyond its index byte.
    Unit,
    /// A newtype variant carries one value, encoded with its own framing.
    Newtype(Box<SpecValue>),
    /// A tuple or struct variant carries positional fields, concatenated
    /// without an inner length prefix: they share the variant's outer one.
    Fields(Seq<SpecValue>),
}

/// The ghost model of a requested target shape.
pub enum SpecShape {
    /// A boolean.
    Bool,
    /// An 8-bit unsigned integer.
    U8,
    /// A 32-bit unsigned integer.
    U32,
    /// An optional of the inner shape.
    Optional(Box<SpecShape>),
    /// A unit or unit struct.
    Unit,
    /// A newtype wrapper of the inner shape.
    Newtype(Box<SpecShape>),
    /// A sequence of elements of one shape, of any length.
    Sequence(Box<SpecShape>),
    /// A tuple, tuple struct or struct with the given field shapes in order.
    Record(Seq<SpecShape>),
    /// A map with the given key and value shapes.
    Table(Box<SpecShape>, Box<SpecShape>),
    /// A tagged union with the given variants, in index order.
    Enum(Seq<SpecVariantShape>),
    /// A scalar outside the supported subset.
    Unsupported(ScalarKind),
}

/// The ghost model of one variant of a tagged union.
pub enum SpecVariantShape {
    /// A variant with no payload.
    Unit,
    /// A variant holding one value of the inner shape.
    Newtype(Box<SpecShape>),
    /// A variant holding positional fields of the given shapes.
    Fields(Seq<SpecShape>),
}

/// The four little-endian bytes of `n`, for `0 <= n <= u32::MAX`.
pub open spec fn le32(n: int) -> Seq<u8> {
    seq![
        (n % 256) as u8,
        ((n / 256) % 256) as u8,
        ((n / 65536) % 256) as u8,
        ((n / 16777216) % 256) as u8,
    ]
}

/// The value of the four little-endian bytes at the front of `b`.
pub open spec fn le32_val(b: Seq<u8>) -> int
    recommends
        b.len() >= 4,
{
    b[0] as int + 256 * (b[1] as int) + 65536 * (b[2] as int) + 16777216 * (b[3] as int)
}

/// The byte encoding of `v`. Meaningful when `encode_fault(v)` is `None`;
/// an unencodable value is mapped to an arbitrary placeholder.
pub open spec fn encoding(v: SpecValue) -> Seq<u8>
    decreases v,
{
    match v {
        SpecValue::Bool(x) => seq![if x { 1u8 } else { 0u8 }],
        SpecValue::U8(x) => seq![x],
        SpecValue::U32(x) => le32(x as int),
        SpecValue::Optional(opt) => match opt {
            Option::None => seq![0u8],
            Option::Some(inner) => seq![1u8] + encoding(*inner),
        },
        SpecValue::Unit => seq![0u8],
        SpecValue::Newtype(inner) => encoding(*inner),
        SpecValue::Sequence(elems) => {
            let payload = encoding_seq(elems);
            le32(payload.len() as int) + payload
        },
        SpecValue::Record(fields) => {
            let payload = encoding_seq(fields);
            le32(payload.len() as int) + payload
        },
        SpecValue::Table(pairs) => {
            let payload = encoding_pairs(pairs);
            le32(payload.len() as int) + payload
        },
        SpecValue::Variant(idx, data) => {
            let payload = encoding_payload(data);
            le32(1 + payload.len() as int) + seq![idx as u8] + payload
        },
        SpecValue::Unsupported(_) => Seq::empty(),
    }
}

/// The concatenated encodings of the values of `vs`, in order.
pub open spec fn encoding_seq(vs: Seq<SpecValue>) -> Seq<u8>
    decreases vs,
{
    if vs.len() == 0 {
        Seq::empty()
    } else {
        encoding(vs[0]) + encoding_seq(vs.drop_first())
    }
}

/// The concatenated encodings of the entries of `ps`, key then value.
pub open spec fn encoding_pairs(ps: Seq<(SpecValue, SpecValue)>) -> Seq<u8>
    decreases ps,
{
    if ps.len() == 0 {
        Seq::empty()
    } else {
        encoding(ps[0].0) + encoding(ps[0].1) + encoding_pairs(ps.drop_first())
    }
}

/// The bytes of a variant payload, after the index byte.
pub open spec fn encoding_payload(p: SpecPayload) -> Seq<u8>
    decreases p,
{
    match p {
        SpecPayload::Unit => Seq::empty(),
        SpecPayload::Newtype(inner) => encoding(*inner),
        SpecPayload::Fields(fields) => encoding_seq(fields),
    }
}

/// A value below `u32::MAX + 1` is recovered exactly from its four
/// little-endian bytes.
pub proof fn lemma_le32_val_of_le32(n: int)
    requires
        0 <= n <= u32::MAX,
    ensures
        le32(n).len() == 4,
        le32_val(le32(n)) == n,
{
    let d0 = n % 256;
    let r1 = n / 256;
    lemma_fundamental_div_mod(n, 256);
    lemma_mod_bound(n, 256);
    lemma_div_pos_is_pos(n, 256);
    let d1 = r1 % 256;
    let r2 = r1 / 256;
    lemma_fundamental_div_mod(r1, 256);
    lemma_mod_bound(r1, 256);
    lemma_div_pos_is_pos(r1, 256);
    let d2 = r2 % 256;
    let r3 = r2 / 256;
    lemma_fundamental_div_mod(r2, 256);
    lemma_mod_bound(r2, 256);
    lemma_div_pos_is_pos(r2, 256);
    lemma_div_denominator(n, 256, 256);
    lemma_div_denominator(n, 65536, 256);
    assert(n == 16777216 * r3 + (65536 * d2 + 256 * d1 + d0));
    assert(r3 < 256);
    lemma_small_mod(r3 as nat, 256);
}

/// Any four bytes are the little-endian encoding of their own value, which
/// lies in the range of a 32-bit word: the framing bytes pin the framed
/// length down and the other way round.
pub proof fn lemma_le32_of_le32_val(b: Seq<u8>)
    requires
        b.len() == 4,
    ensures
        0 <= le32_val(b) <= u32::MAX,
        le32(le32_val(b)) == b,
{
    let n = le32_val(b);
    let b0 = b[0] as int;
    let b1 = b[1] as int;
    let b2 = b[2] as int;
    let b3 = b[3] as int;
    let r1 = b1 + 256 * b2 + 65536 * b3;
    let r2 = b2 + 256 * b3;
    lemma_fundamental_div_mod_converse(n, 256, r1, b0);
    lemma_fundamental_div_mod_converse(r1, 256, r2, b1);
    lemma_fundamental_div_mod_converse(r2, 256, b3, b2);
    lemma_div_denominator(n, 256, 256);
    lemma_div_denominator(n, 65536, 256);
    lemma_small_mod(b3 as nat, 256);
    assert(le32(n) =~= b);
}

/// No supported value encodes to zero bytes: every element inside a
/// self-delimiting container moves the byte budget.
pub proof fn lemma_encoding_nonempty(v: SpecValue)
    requires
        encode_fault(v) is None,
    ensures
        encoding(v).len() >= 1,
    decreases v,
{
    match v {
        SpecValue::Newtype(inner) => {
            lemma_encoding_nonempty(*inner);
        },
        _ => {},
    }
}

/// Why an encode must fail, in the order the encoder discovers failures:
/// within any value, children are visited in order, a variant's index is
/// checked before its payload, and a container's own framing limit is
/// checked last, when it is closed.
pub enum EncodeFault {
    /// A scalar outside the supported subset was supplied.
    Unsupported,
    /// A variant index above 255 cannot be written as one byte.
    IndexTooLarge,
    /// A container payload longer than a 4-byte prefix can measure.
    Oversize,
}

/// The first fault an encode of `v` runs into, or `None` when `encoding(v)`
/// is the byte sequence the encoder produces.
pub open spec fn encode_fault(v: SpecValue) -> Option<EncodeFault>
    decreases v,
{
    match v {
        SpecValue::Bool(_) => Option::None,
        SpecValue::U8(_) => Option::None,
        SpecValue::U32(_) => Option::None,
        SpecValue::Optional(opt) => match opt {
            Option::None => Option::None,
            Option::Some(inner) => encode_fault(*inner),
        },
        SpecValue::Unit => Option::None,
        SpecValue::Newtype(inner) => encode_fault(*inner),
        SpecValue::Sequence(elems) => match encode_fault_seq(elems) {
            Option::Some(f) => Option::Some(f),
            Option::None => if encoding_seq(elems).len() > u32::MAX {
                Option::Some(EncodeFault::Oversize)
            } else {
                Option::None
            },
        },
        SpecValue::Record(fields) => match encode_fault_seq(fields) {
            Option::Some(f) => Option::Some(f),
            Option::None => if encoding_seq(fields).len() > u32::MAX {
                Option::Some(EncodeFault::Oversize)
            } else {
                Option::None
            },
        },
        SpecValue::Table(pairs) => match encode_fault_pairs(pairs) {
            Option::Some(f) => Option::Some(f),
            Option::None => if encoding_pairs(pairs).len() > u32::MAX {
                Option::Some(EncodeFault::Oversize)
            } else {
                Option::None
            },
        },
        SpecValue::Variant(idx, data) => if idx > 255 {
            Option::Some(EncodeFault::IndexTooLarge)
        } else {
            match encode_fault_payload(data) {
                Option::Some(f) => Option::Some(f),
                Option::None => if 1 + encoding_payload(data).len() > u32::MAX {
                    Option::Some(EncodeFault::Oversize)
                } else {
                    Option::None
                },
            }
        },
        SpecValue::Unsupported(_) => Option::Some(EncodeFault::Unsupported),
    }
}

/// The first fault among the values of `vs`, in order.
pub open spec fn encode_fault_seq(vs: Seq<SpecValue>) -> Option<EncodeFault>
    decreases vs,
{
    if vs.len() == 0 {
        Option::None
    } else {
        match encode_fault(vs[0]) {
            Option::Some(f) => Option::Some(f),
            Option::None => encode_fault_seq(vs.drop_first()),
        }
    }
}

/// The first fault among the entries of `ps`, key before value.
pub open spec fn encode_fault_pairs(ps: Seq<(SpecValue, SpecValue)>) -> Option<EncodeFault>
    decreases ps,
{
    if ps.len() == 0 {
        Option::None
    } else {
        match encode_fault(ps[0].0) {
            Option::Some(f) => Option::Some(f),
            Option::None => match encode_fault(ps[0].1) {
                Option::Some(f) => Option::Some(f),
                Option::None => encode_fault_pairs(ps.drop_first()),
            },
        }
    }
}

/// The first fault inside a variant payload.
pub open spec fn encode_fault_payload(p: SpecPayload) -> Option<EncodeFault>
    decreases p,
{
    match p {
        SpecPayload::Unit => Option::None,
        SpecPayload::Newtype(inner) => encode_fault(*inner),
        SpecPayload::Fields(fields) => encode_fault_seq(fields),
    }
}

/// Element encodings concatenate: the payload of a container split in two
/// is the two payloads side by side.
pub proof fn lemma_encoding_seq_cat(a: Seq<SpecValue>, b: Seq<SpecValue>)
    ensures
        encoding_seq(a + b) == encoding_seq(a) + encoding_seq(b),
    decreases a,
{
    if a.len() == 0 {
        assert(a + b =~= b);
        assert(encoding_seq(a) + encoding_seq(b) =~= encoding_seq(b));
    } else {
        assert((a + b).drop_first() =~= a.drop_first() + b);
        lemma_encoding_seq_cat(a.drop_first(), b);
        assert((a + b)[0] == a[0]);
        assert(encoding(a[0]) + (encoding_seq(a.drop_first()) + encoding_seq(b)) =~= (encoding(
            a[0],
        ) + encoding_seq(a.drop_first())) + encoding_seq(b));
    }
}

/// Entry encodings concatenate, as element encodings do.
pub proof fn lemma_encoding_pairs_cat(a: Seq<(SpecValue, SpecValue)>, b: Seq<(SpecValue, SpecValue)>)
    ensures
        encoding_pairs(a + b) == encoding_pairs(a) + encoding_pairs(b),
    decreases a,
{
    if a.len() == 0 {
        assert(a + b =~= b);
        assert(encoding_pairs(a) + encoding_pairs(b) =~= encoding_pairs(b));
    } else {
        assert((a + b).drop_first() =~= a.drop_first() + b);
        lemma_encoding_pairs_cat(a.drop_first(), b);
        assert((a + b)[0] == a[0]);
        assert(encoding((a + b)[0].0) + encoding((a + b)[0].1) + (encoding_pairs(a.drop_first())
            + encoding_pairs(b)) =~= (encoding(a[0].0) + encoding(a[0].1) + encoding_pairs(
            a.drop_first(),
        )) + encoding_pairs(b));
    }
}

/// The first fault of a split list: the first fault of the front, or, when
/// the front is clean, of the back.
pub proof fn lemma_encode_fault_seq_cat(a: Seq<SpecValue>, b: Seq<SpecValue>)
    ensures
        encode_fault_seq(a + b) == match encode_fault_seq(a) {
            Option::Some(f) => Option::Some(f),
            Option::None => encode_fault_seq(b),
        },
    decreases a,
{
    if a.len() == 0 {
        assert(a + b =~= b);
    } else {
        assert((a + b).drop_first() =~= a.drop_first() + b);
        lemma_encode_fault_seq_cat(a.drop_first(), b);
        assert((a + b)[0] == a[0]);
    }
}

/// The first fault of split entries, as for split elements.
pub proof fn lemma_encode_fault_pairs_cat(
    a: Seq<(SpecValue, SpecValue)>,
    b: Seq<(SpecValue, SpecValue)>,
)
    ensures
        encode_fault_pairs(a + b) == match encode_fault_pairs(a) {
            Option::Some(f) => Option::Some(f),
            Option::None => encode_fault_pairs(b),
        },
    decreases a,
{
    if a.len() == 0 {
        assert(a + b =~= b);
    } else {
        assert((a + b).drop_first() =~= a.drop_first() + b);
        lemma_encode_fault_pairs_cat(a.drop_first(), b);
        assert((a + b)[0] == a[0]);
    }
}

/// Appending one value extends the payload by that value's encoding.
pub proof fn lemma_encoding_seq_push(vs: Seq<SpecValue>, v: SpecValue)
    ensures
        encoding_seq(vs.push(v)) == encoding_seq(vs) + encoding(v),
{
    lemma_encoding_seq_cat(vs, seq![v]);
    assert(seq![v].drop_first() =~= Seq::<SpecValue>::empty());
    assert(encoding_seq(Seq::<SpecValue>::empty()) == Seq::<u8>::empty());
    assert(encoding(v) + Seq::<u8>::empty() =~= encoding(v));
    assert(vs + seq![v] =~= vs.push(v));
}

/// Appending one entry extends the payload by its key's and value's
/// encodings.
pub proof fn lemma_encoding_pairs_push(ps: Seq<(SpecValue, SpecValue)>, kv: (SpecValue, SpecValue))
    ensures
        encoding_pairs(ps.push(kv)) == encoding_pairs(ps) + encoding(kv.0) + encoding(kv.1),
{
    lemma_encoding_pairs_cat(ps, seq![kv]);
    assert(seq![kv].drop_first() =~= Seq::<(SpecValue, SpecValue)>::empty());
    assert(encoding_pairs(Seq::<(SpecValue, SpecValue)>::empty()) == Seq::<u8>::empty());
    assert(encoding(kv.0) + encoding(kv.1) + Seq::<u8>::empty() =~= encoding(kv.0) + encoding(
        kv.1,
    ));
    assert(ps + seq![kv] =~= ps.push(kv));
    assert(encoding_pairs(ps) + (encoding(kv.0) + encoding(kv.1)) =~= encoding_pairs(ps)
        + encoding(kv.0) + encoding(kv.1));
}

/// A clean list followed by one more value faults exactly as that value
/// does.
pub proof fn lemma_encode_fault_seq_push(vs: Seq<SpecValue>, v: SpecValue)
    requires
        encode_fault_seq(vs) is None,
    ensures
        encode_fault_seq(vs.push(v)) == encode_fault(v),
{
    lemma_encode_fault_seq_cat(vs, seq![v]);
    assert(seq![v].drop_first() =~= Seq::<SpecValue>::empty());
    assert(encode_fault_seq(Seq::<SpecValue>::empty()) == Option::<EncodeFault>::None);
    assert(vs + seq![v] =~= vs.push(v));
}

/// Clean entries followed by one more entry fault exactly as that entry
/// does, key before value.
pub proof fn lemma_encode_fault_pairs_push(
    ps: Seq<(SpecValue, SpecValue)>,
    kv: (SpecValue, SpecValue),
)
    requires
        encode_fault_pairs(ps) is None,
    ensures
        encode_fault_pairs(ps.push(kv)) == match encode_fault(kv.0) {
            Option::Some(f) => Option::Some(f),
            Option::None => encode_fault(kv.1),
        },
{
    lemma_encode_fault_pairs_cat(ps, seq![kv]);
    assert(seq![kv].drop_first() =~= Seq::<(SpecValue, SpecValue)>::empty());
    assert(encode_fault_pairs(Seq::<(SpecValue, SpecValue)>::empty()) == Option::<
        EncodeFault,
    >::None);
    assert(ps + seq![kv] =~= ps.push(kv));
}

/// Whether `v` is a legal value of shape `s`. Unsupported scalars belong to
/// no shape: no decode can produce them.
pub open spec fn fits(v: SpecValue, s: SpecShape) -> bool
    decreases v,
{
    match v {
        SpecValue::Bool(_) => s is Bool,
        SpecValue::U8(_) => s is U8,
        SpecValue::U32(_) => s is U32,
        SpecValue::Optional(opt) => {
            &&& s matches SpecShape::Optional(t)
            &&& match opt {
                Option::None => true,
                Option::Some(inner) => fits(*inner, *t),
            }
        },
        SpecValue::Unit => s is Unit,
        SpecValue::Newtype(inner) => {
            &&& s matches SpecShape::Newtype(t)
            &&& fits(*inner, *t)
        },
        SpecValue::Sequence(elems) => {
            &&& s matches SpecShape::Sequence(t)
            &&& fits_seq(elems, *t)
        },
        SpecValue::Record(fields) => {
            &&& s matches SpecShape::Record(ts)
            &&& fits_fields(fields, ts)
        },
        SpecValue::Table(pairs) => {
            &&& s matches SpecShape::Table(kt, vt)
            &&& fits_pairs(pairs, *kt, *vt)
        },
        SpecValue::Variant(idx, data) => {
            &&& s matches SpecShape::Enum(vars)
            &&& 0 <= idx < vars.len()
            &&& fits_payload(data, vars[idx as int])
        },
        SpecValue::Unsupported(_) => false,
    }
}

/// Whether every value of `vs` is a legal value of the element shape `t`.
pub open spec fn fits_seq(vs: Seq<SpecValue>, t: SpecShape) -> bool
    decreases vs,
{
    if vs.len() == 0 {
        true
    } else {
        fits(vs[0], t) && fits_seq(vs.drop_first(), t)
    }
}

/// Whether `vs` are legal field values for the field shapes `ts`, in order.
pub open spec fn fits_fields(vs: Seq<SpecValue>, ts: Seq<SpecShape>) -> bool
    decreases vs,
{
    &&& vs.len() == ts.len()
    &&& if vs.len() == 0 {
        true
    } else {
        fits(vs[0], ts[0]) && fits_fields(vs.drop_first(), ts.drop_first())
    }
}

/// Whether every entry of `ps` has a legal key and a legal value.
pub open spec fn fits_pairs(ps: Seq<(SpecValue, SpecValue)>, kt: SpecShape, vt: SpecShape) -> bool
    decreases ps,
{
    if ps.len() == 0 {
        true
    } else {
        fits(ps[0].0, kt) && fits(ps[0].1, vt) && fits_pairs(ps.drop_first(), kt, vt)
    }
}

/// Whether a variant payload is legal for the variant shape `vs`.
pub open spec fn fits_payload(p: SpecPayload, vs: SpecVariantShape) -> bool
    decreases p,
{
    match p {
        SpecPayload::Unit => vs is Unit,
        SpecPayload::Newtype(inner) => {
            &&& vs matches SpecVariantShape::Newtype(t)
            &&& fits(*inner, *t)
        },
        SpecPayload::Fields(fields) => {
            &&& vs matches SpecVariantShape::Fields(ts)
            &&& fits_fields(fields, ts)
        },
    }
}

/// A legal list stays legal when a legal value is appended.
pub proof fn lemma_fits_seq_push(vs: Seq<SpecValue>, v: SpecValue, t: SpecShape)
    requires
        fits_seq(vs, t),
        fits(v, t),
    ensures
        fits_seq(vs.push(v), t),
    decreases vs,
{
    if vs.len() == 0 {
        assert(vs.push(v).drop_first() =~= Seq::<SpecValue>::empty());
        assert(vs.push(v)[0] == v);
        assert(fits_seq(Seq::<SpecValue>::empty(), t));
    } else {
        assert(vs.push(v).drop_first() =~= vs.drop_first().push(v));
        lemma_fits_seq_push(vs.drop_first(), v, t);
        assert(vs.push(v)[0] == vs[0]);
    }
}

/// Legal fields stay legal when one more legal field is appended along with
/// its shape.
pub proof fn lemma_fits_fields_push(vs: Seq<SpecValue>, v: SpecValue, ts: Seq<SpecShape>, t: SpecShape)
    requires
        fits_fields(vs, ts),
        fits(v, t),
    ensures
        fits_fields(vs.push(v), ts.push(t)),
    decreases vs,
{
    if vs.len() == 0 {
        assert(vs.push(v).drop_first() =~= Seq::<SpecValue>::empty());
        assert(ts.push(t).drop_first() =~= Seq::<SpecShape>::empty());
        assert(vs.push(v)[0] == v);
        assert(ts.push(t)[0] == t);
        assert(fits_fields(Seq::<SpecValue>::empty(), Seq::<SpecShape>::empty()));
    } else {
        assert(vs.push(v).drop_first() =~= vs.drop_first().push(v));
        assert(ts.push(t).drop_first() =~= ts.drop_first().push(t));
        lemma_fits_fields_push(vs.drop_first(), v, ts.drop_first(), t);
        assert(vs.push(v)[0] == vs[0]);
        assert(ts.push(t)[0] == ts[0]);
    }
}

/// Legal entries stay legal when a legal entry is appended.
pub proof fn lemma_fits_pairs_push(
    ps: Seq<(SpecValue, SpecValue)>,
    kv: (SpecValue, SpecValue),
    kt: SpecShape,
    vt: SpecShape,
)
    requires
        fits_pairs(ps, kt, vt),
        fits(kv.0, kt),
        fits(kv.1, vt),
    ensures
        fits_pairs(ps.push(kv), kt, vt),
    decreases ps,
{
    if ps.len() == 0 {
        assert(ps.push(kv).drop_first() =~= Seq::<(SpecValue, SpecValue)>::empty());
        assert(ps.push(kv)[0] == kv);
        assert(fits_pairs(Seq::<(SpecValue, SpecValue)>::empty(), kt, vt));
    } else {
        assert(ps.push(kv).drop_first() =~= ps.drop_first().push(kv));
        lemma_fits_pairs_push(ps.drop_first(), kv, kt, vt);
        assert(ps.push(kv)[0] == ps[0]);
    }
}

/// Why a decode must fail.
pub enum DecodeFault {
    /// The requested shape lies outside the supported subset.
    Unsupported,
    /// The bytes do not form an encoding of the requested shape: a read past
    /// the end of the buffer, an invalid discriminant byte, a variant index
    /// outside the known set, or a broken byte budget.
    Malformed,
}

/// The number of bytes a decode of shape `s` consumes from `b` starting at
/// `i`, or the fault that stops it. A decode of a supported shape succeeds
/// exactly when this returns `Ok`.
pub open spec fn decode_len(b: Seq<u8>, i: int, s: SpecShape) -> Result<int, DecodeFault>
    decreases s, 2int, 0int,
{
    match s {
        SpecShape::Bool => if i + 1 <= b.len() {
            if b[i] == 0 || b[i] == 1 {
                Result::Ok(1)
            } else {
                Result::Err(DecodeFault::Malformed)
            }
        } else {
            Result::Err(DecodeFault::Malformed)
        },
        SpecShape::U8 => if i + 1 <= b.len() {
            Result::Ok(1)
        } else {
            Result::Err(DecodeFault::Malformed)
        },
        SpecShape::U32 => if i + 4 <= b.len() {
            Result::Ok(4)
        } else {
            Result::Err(DecodeFault::Malformed)
        },
        SpecShape::Optional(t) => if i + 1 <= b.len() {
            if b[i] == 0 {
                Result::Ok(1)
            } else if b[i] == 1 {
                match decode_len(b, i + 1, *t) {
                    Result::Ok(c) => Result::Ok(1 + c),
                    Result::Err(f) => Result::Err(f),
                }
            } else {
                Result::Err(DecodeFault::Malformed)
            }
        } else {
            Result::Err(DecodeFault::Malformed)
        },
        SpecShape::Unit => if i + 1 <= b.len() {
            if b[i] == 0 {
                Result::Ok(1)
            } else {
                Result::Err(DecodeFault::Malformed)
            }
        } else {
            Result::Err(DecodeFault::Malformed)
        },
        SpecShape::Newtype(t) => decode_len(b, i, *t),
        SpecShape::Sequence(t) => if i + 4 <= b.len() {
            let n = le32_val(b.subrange(i, i + 4));
            match decode_elems(b, i + 4, *t, n) {
                Result::Ok(u) => Result::Ok(4 + n),
                Result::Err(f) => Result::Err(f),
            }
        } else {
            Result::Err(DecodeFault::Malformed)
        },
        SpecShape::Record(ts) => if i + 4 <= b.len() {
            let n = le32_val(b.subrange(i, i + 4));
            match decode_fields(b, i + 4, ts, n) {
                Result::Ok(u) => Result::Ok(4 + n),
                Result::Err(f) => Result::Err(f),
            }
        } else {
            Result::Err(DecodeFault::Malformed)
        },
        SpecShape::Table(kt, vt) => if i + 4 <= b.len() {
            let n = le32_val(b.subrange(i, i + 4));
            match decode_pairs(b, i + 4, s, n) {
                Result::Ok(u) => Result::Ok(4 + n),
                Result::Err(f) => Result::Err(f),
            }
        } else {
            Result::Err(DecodeFault::Malformed)
        },
        SpecShape::Enum(vars) => if i + 5 <= b.len() {
            let n = le32_val(b.subrange(i, i + 4));
            let idx = b[i + 4] as int;
            if idx < vars.len() {
                if n < 1 {
                    Result::Err(DecodeFault::Malformed)
                } else {
                    match vars[idx] {
                        SpecVariantShape::Unit => if n == 1 {
                            Result::Ok(5)
                        } else {
                            Result::Err(DecodeFault::Malformed)
                        },
                        SpecVariantShape::Newtype(t) => match decode_len(b, i + 5, *t) {
                            Result::Ok(c) => if c == n - 1 {
                                Result::Ok(4 + n)
                            } else {
                                Result::Err(DecodeFault::Malformed)
                            },
                            Result::Err(f) => Result::Err(f),
                        },
                        SpecVariantShape::Fields(ts) => match decode_fields(b, i + 5, ts, n - 1) {
                            Result::Ok(u) => Result::Ok(4 + n),
                            Result::Err(f) => Result::Err(f),
                        },
                    }
                }
            } else {
                Result::Err(DecodeFault::Malformed)
            }
        } else {
            Result::Err(DecodeFault::Malformed)
        },
        SpecShape::Unsupported(_) => Result::Err(DecodeFault::Unsupported),
    }
}

/// Consumes elements of shape `t` from `b` at `i` until the byte budget `n`
/// is exhausted. `Ok` means the budget was consumed exactly; an element that
/// consumes nothing, or more than remains, is a fault.
pub open spec fn decode_elems(b: Seq<u8>, i: int, t: SpecShape, n: int) -> Result<(), DecodeFault>
    decreases t, 3int, n,
{
    if n <= 0 {
        if n == 0 {
            Result::Ok(())
        } else {
            Result::Err(DecodeFault::Malformed)
        }
    } else {
        match decode_len(b, i, t) {
            Result::Ok(c) => if c <= 0 || c > n {
                Result::Err(DecodeFault::Malformed)
            } else {
                decode_elems(b, i + c, t, n - c)
            },
            Result::Err(f) => Result::Err(f),
        }
    }
}

/// Consumes fields of the shapes `ts`, in order, from `b` at `i` within the
/// byte budget `n`. The budget must run out exactly when the fields do.
pub open spec fn decode_fields(b: Seq<u8>, i: int, ts: Seq<SpecShape>, n: int) -> Result<
    (),
    DecodeFault,
>
    decreases ts, 3int, n,
{
    if n <= 0 {
        if n == 0 && ts.len() == 0 {
            Result::Ok(())
        } else {
            Result::Err(DecodeFault::Malformed)
        }
    } else if ts.len() == 0 {
        Result::Err(DecodeFault::Malformed)
    } else {
        match decode_len(b, i, ts[0]) {
            Result::Ok(c) => if c <= 0 || c > n {
                Result::Err(DecodeFault::Malformed)
            } else {
                decode_fields(b, i + c, ts.drop_first(), n - c)
            },
            Result::Err(f) => Result::Err(f),
        }
    }
}

/// Consumes map entries, key then value, from `b` at `i` until the byte
/// budget `n` is exhausted. `s` is the map shape the entries belong to.
pub open spec fn decode_pairs(b: Seq<u8>, i: int, s: SpecShape, n: int) -> Result<(), DecodeFault>
    recommends
        s is Table,
    decreases s, 1int, n,
{
    match s {
        SpecShape::Table(kt, vt) => if n <= 0 {
            if n == 0 {
                Result::Ok(())
            } else {
                Result::Err(DecodeFault::Malformed)
            }
        } else {
            match decode_len(b, i, *kt) {
                Result::Ok(ck) => if ck <= 0 || ck > n {
                    Result::Err(DecodeFault::Malformed)
                } else {
                    match decode_len(b, i + ck, *vt) {
                        Result::Ok(cv) => if cv <= 0 || cv > n - ck {
                            Result::Err(DecodeFault::Malformed)
                        } else {
                            decode_pairs(b, i + ck + cv, s, n - ck - cv)
                        },
                        Result::Err(f) => Result::Err(f),
                    }
                },
                Result::Err(f) => Result::Err(f),
            }
        },
        _ => Result::Err(DecodeFault::Malformed),
    }
}

} // verus!
