//! The laws of the wire format, proved once and for all over the ghost
//! model: encodings always decode back (round trip), equal encodings come
//! from equal values (injectivity), every length prefix is exact, and every
//! container decode consumes its declared budget exactly.

use vstd::prelude::*;

use crate::format::{
    decode_elems, decode_fields, decode_len, decode_pairs, encode_fault, encode_fault_pairs,
    encode_fault_seq, encoding, encoding_pairs, encoding_seq, fits, fits_fields, fits_pairs,
    fits_payload, fits_seq, le32, le32_val, lemma_encoding_nonempty, lemma_le32_val_of_le32,
    DecodeFault, EncodeFault, SpecPayload, SpecShape, SpecValue, SpecVariantShape,
};

verus! {

/// Splitting a window: when a stretch of `b` holds `x + y`, its front holds
/// `x` and its back holds `y`.
proof fn lemma_subrange_split(b: Seq<u8>, i: int, x: Seq<u8>, y: Seq<u8>)
    requires
        0 <= i,
        i + x.len() + y.len() <= b.len(),
        b.subrange(i, i + x.len() + y.len()) == x + y,
    ensures
        b.subrange(i, i + x.len() as int) == x,
        b.subrange(i + x.len(), i + x.len() + y.len() as int) == y,
{
    assert forall|j: int| 0 <= j < x.len() implies b[i + j] == x[j] by {
        assert(b.subrange(i, i + x.len() + y.len())[j] == b[i + j]);
        assert((x + y)[j] == x[j]);
    }
    assert forall|j: int| 0 <= j < y.len() implies b[i + x.len() + j] == y[j] by {
        assert(b.subrange(i, i + x.len() + y.len())[x.len() + j] == b[i + x.len() + j]);
        assert((x + y)[x.len() + j] == y[j]);
    }
    assert(b.subrange(i, i + x.len() as int) =~= x);
    assert(b.subrange(i + x.len(), i + x.len() + y.len() as int) =~= y);
}

/// Round-trip law, decoding half: wherever the encoding of a legal,
/// faultlessly encodable value of a shape sits in a buffer, a decode of that
/// shape from there succeeds and consumes exactly the encoding.
#[verifier::rlimit(100)]
pub proof fn lemma_decode_encoded(b: Seq<u8>, i: int, v: SpecValue, s: SpecShape)
    requires
        fits(v, s),
        encode_fault(v) is None,
        0 <= i,
        i + encoding(v).len() <= b.len(),
        b.subrange(i, i + encoding(v).len()) == encoding(v),
    ensures
        decode_len(b, i, s) == Result::<int, DecodeFault>::Ok(encoding(v).len() as int),
    decreases v, 1int,
{
    let e = encoding(v);
    match v {
        SpecValue::Bool(x) => {
            assert(b[i] == e[0]);
        },
        SpecValue::U8(x) => {
            assert(b[i] == e[0]);
        },
        SpecValue::U32(x) => {},
        SpecValue::Optional(opt) => match opt {
            Option::None => {
                assert(b[i] == e[0]);
            },
            Option::Some(inner) => {
                assert(b[i] == e[0]);
                let ie = encoding(*inner);
                lemma_subrange_split(b, i, seq![1u8], ie);
                let t = s->Optional_0;
                lemma_decode_encoded(b, i + 1, *inner, *t);
            },
        },
        SpecValue::Unit => {
            assert(b[i] == e[0]);
        },
        SpecValue::Newtype(inner) => {
            let t = s->Newtype_0;
            lemma_decode_encoded(b, i, *inner, *t);
        },
        SpecValue::Sequence(elems) => {
            let t = s->Sequence_0;
            let payload = encoding_seq(elems);
            lemma_le32_val_of_le32(payload.len() as int);
            lemma_subrange_split(b, i, le32(payload.len() as int), payload);
            lemma_decode_encoded_elems(b, i + 4, elems, *t);
        },
        SpecValue::Record(fields) => {
            let ts = s->Record_0;
            let payload = encoding_seq(fields);
            lemma_le32_val_of_le32(payload.len() as int);
            lemma_subrange_split(b, i, le32(payload.len() as int), payload);
            lemma_decode_encoded_fields(b, i + 4, fields, ts);
        },
        SpecValue::Table(pairs) => {
            let payload = encoding_pairs(pairs);
            lemma_le32_val_of_le32(payload.len() as int);
            lemma_subrange_split(b, i, le32(payload.len() as int), payload);
            lemma_decode_encoded_pairs(b, i + 4, pairs, s);
        },
        SpecValue::Variant(idx, data) => {
            lemma_decode_encoded_variant(b, i, v, s);
        },
        SpecValue::Unsupported(_) => {},
    }
}

/// The variant case of [`lemma_decode_encoded`]: prefix, index byte, then
/// the payload its variant shape prescribes.
#[verifier::rlimit(100)]
proof fn lemma_decode_encoded_variant(b: Seq<u8>, i: int, v: SpecValue, s: SpecShape)
    requires
        v is Variant,
        fits(v, s),
        encode_fault(v) is None,
        0 <= i,
        i + encoding(v).len() <= b.len(),
        b.subrange(i, i + encoding(v).len()) == encoding(v),
    ensures
        decode_len(b, i, s) == Result::<int, DecodeFault>::Ok(encoding(v).len() as int),
    decreases v, 0int,
{
    let idx = v->Variant_0;
    let data = v->Variant_1;
    let vars = s->Enum_0;
    let payload = crate::format::encoding_payload(data);
    let n = 1 + payload.len() as int;
    lemma_le32_val_of_le32(n);
    assert(le32(n) + seq![(idx as u8)] + payload =~= le32(n) + (seq![(idx as u8)] + payload));
    lemma_subrange_split(b, i, le32(n), seq![(idx as u8)] + payload);
    lemma_subrange_split(b, i + 4, seq![(idx as u8)], payload);
    assert(b[i + 4] == b.subrange(i + 4, i + 5)[0]);
    assert(fits_payload(data, vars[idx as int]));
    assert(crate::format::encode_fault_payload(data) is None);
    match data {
        SpecPayload::Unit => {},
        SpecPayload::Newtype(inner) => {
            let t = vars[idx as int]->Newtype_0;
            assert(fits(*inner, *t));
            assert(encode_fault(*inner) is None);
            assert(payload == encoding(*inner));
            lemma_decode_encoded(b, i + 5, *inner, *t);
        },
        SpecPayload::Fields(fields) => {
            let ts = vars[idx as int]->Fields_0;
            assert(fits_fields(fields, ts));
            assert(encode_fault_seq(fields) is None);
            assert(payload == encoding_seq(fields));
            lemma_decode_encoded_fields(b, i + 5, fields, ts);
        },
    }
}

/// The element encodings of a legal list, sitting in a buffer, decode as
/// elements until their combined length is exhausted exactly.
#[verifier::rlimit(100)]
pub proof fn lemma_decode_encoded_elems(b: Seq<u8>, i: int, vs: Seq<SpecValue>, t: SpecShape)
    requires
        fits_seq(vs, t),
        encode_fault_seq(vs) is None,
        0 <= i,
        i + encoding_seq(vs).len() <= b.len(),
        b.subrange(i, i + encoding_seq(vs).len()) == encoding_seq(vs),
    ensures
        decode_elems(b, i, t, encoding_seq(vs).len() as int) == Result::<(), DecodeFault>::Ok(()),
    decreases vs, 2int,
{
    if vs.len() > 0 {
        let head = encoding(vs[0]);
        let tail = encoding_seq(vs.drop_first());
        lemma_encoding_nonempty(vs[0]);
        lemma_subrange_split(b, i, head, tail);
        lemma_decode_encoded(b, i, vs[0], t);
        lemma_decode_encoded_elems(b, i + head.len() as int, vs.drop_first(), t);
    }
}

/// The field encodings of a legal record, sitting in a buffer, decode as
/// fields whose shapes and combined length run out together.
#[verifier::rlimit(100)]
pub proof fn lemma_decode_encoded_fields(
    b: Seq<u8>,
    i: int,
    vs: Seq<SpecValue>,
    ts: Seq<SpecShape>,
)
    requires
        fits_fields(vs, ts),
        encode_fault_seq(vs) is None,
        0 <= i,
        i + encoding_seq(vs).len() <= b.len(),
        b.subrange(i, i + encoding_seq(vs).len()) == encoding_seq(vs),
    ensures
        decode_fields(b, i, ts, encoding_seq(vs).len() as int) == Result::<(), DecodeFault>::Ok(
            (),
        ),
    decreases vs, 2int,
{
    if vs.len() > 0 {
        let head = encoding(vs[0]);
        let tail = encoding_seq(vs.drop_first());
        lemma_encoding_nonempty(vs[0]);
        lemma_subrange_split(b, i, head, tail);
        lemma_decode_encoded(b, i, vs[0], ts[0]);
        lemma_decode_encoded_fields(b, i + head.len() as int, vs.drop_first(), ts.drop_first());
    }
}

/// The entry encodings of a legal map, sitting in a buffer, decode as
/// key-value pairs until their combined length is exhausted exactly.
#[verifier::rlimit(100)]
pub proof fn lemma_decode_encoded_pairs(
    b: Seq<u8>,
    i: int,
    ps: Seq<(SpecValue, SpecValue)>,
    s: SpecShape,
)
    requires
        s is Table,
        fits_pairs(ps, *s->Table_0, *s->Table_1),
        encode_fault_pairs(ps) is None,
        0 <= i,
        i + encoding_pairs(ps).len() <= b.len(),
        b.subrange(i, i + encoding_pairs(ps).len()) == encoding_pairs(ps),
    ensures
        decode_pairs(b, i, s, encoding_pairs(ps).len() as int) == Result::<(), DecodeFault>::Ok(
            (),
        ),
    decreases ps, 2int,
{
    if ps.len() > 0 {
        let ke = encoding(ps[0].0);
        let ve = encoding(ps[0].1);
        let tail = encoding_pairs(ps.drop_first());
        lemma_encoding_nonempty(ps[0].0);
        lemma_encoding_nonempty(ps[0].1);
        assert(ke + ve + tail =~= ke + (ve + tail));
        lemma_subrange_split(b, i, ke, ve + tail);
        lemma_subrange_split(b, i + ke.len() as int, ve, tail);
        lemma_decode_encoded(b, i, ps[0].0, *s->Table_0);
        lemma_decode_encoded(b, i + ke.len() as int, ps[0].1, *s->Table_1);
        lemma_decode_encoded_pairs(b, i + ke.len() + ve.len() as int, ps.drop_first(), s);
    }
}

/// Two legal values of one shape whose encodings start at the same place in
/// one buffer have the same encoding: the decode length is a function of
/// the buffer, the place and the shape alone.
proof fn lemma_same_window_same_encoding(
    e: Seq<u8>,
    i: int,
    v1: SpecValue,
    v2: SpecValue,
    t: SpecShape,
)
    requires
        fits(v1, t),
        fits(v2, t),
        encode_fault(v1) is None,
        encode_fault(v2) is None,
        0 <= i,
        i + encoding(v1).len() <= e.len(),
        e.subrange(i, i + encoding(v1).len()) == encoding(v1),
        i + encoding(v2).len() <= e.len(),
        e.subrange(i, i + encoding(v2).len()) == encoding(v2),
    ensures
        encoding(v1) == encoding(v2),
{
    lemma_decode_encoded(e, i, v1, t);
    lemma_decode_encoded(e, i, v2, t);
    assert(encoding(v1) =~= encoding(v2));
}

/// Round-trip law, value half: two legal, faultlessly encodable values of
/// one shape with the same encoding are the same value. Together with the
/// decoding half this pins the decoded value down: whatever the decoder
/// returns for `encoding(v)` can only be `v`.
#[verifier::rlimit(100)]
pub proof fn lemma_encoding_injective(v1: SpecValue, v2: SpecValue, s: SpecShape)
    requires
        fits(v1, s),
        fits(v2, s),
        encode_fault(v1) is None,
        encode_fault(v2) is None,
        encoding(v1) == encoding(v2),
    ensures
        v1 == v2,
    decreases v1, 1int,
{
    match v1 {
        SpecValue::Bool(x) => {
            assert(v2 is Bool);
            assert(encoding(v1) == seq![if x { 1u8 } else { 0u8 }]);
            assert(encoding(v2) == seq![if v2->Bool_0 { 1u8 } else { 0u8 }]);
            assert(seq![if x { 1u8 } else { 0u8 }][0] == if x { 1u8 } else { 0u8 });
            assert(seq![if v2->Bool_0 { 1u8 } else { 0u8 }][0] == if v2->Bool_0 { 1u8 } else { 0u8 });
            assert(encoding(v1)[0] == encoding(v2)[0]);
            assert(v1 == v2);
        },
        SpecValue::U8(x) => {
            assert(v2 is U8);
            assert(encoding(v1) == seq![x]);
            assert(encoding(v2) == seq![v2->U8_0]);
            assert(seq![x][0] == x);
            assert(seq![v2->U8_0][0] == v2->U8_0);
            assert(encoding(v1)[0] == encoding(v2)[0]);
            assert(v1 == v2);
        },
        SpecValue::U32(x) => {
            assert(v2 is U32);
            let y = v2->U32_0;
            lemma_le32_val_of_le32(x as int);
            lemma_le32_val_of_le32(y as int);
            assert(v1 == v2);
        },
        SpecValue::Optional(opt1) => {
            assert(v2 is Optional);
            let opt2 = v2->Optional_0;
            assert(encoding(v1)[0] == encoding(v2)[0]);
            match opt1 {
                Option::None => {
                    if opt2 is Some {
                        assert(encoding(v2)[0] == 1);
                        assert(false);
                    }
                },
                Option::Some(inner1) => {
                    if opt2 is None {
                        assert(encoding(v2)[0] == 0);
                        assert(false);
                    }
                    let inner2 = opt2->0;
                    assert(v2 == SpecValue::Optional(Option::Some(inner2)));
                    assert(encoding(v2) == seq![1u8] + encoding(*inner2));
                    assert forall|j: int|
                        0 <= j < encoding(*inner1).len() implies encoding(*inner1)[j] == encoding(
                        *inner2,
                    )[j] by {
                        assert(encoding(v1)[1 + j] == encoding(*inner1)[j]);
                        assert(encoding(v2)[1 + j] == encoding(*inner2)[j]);
                    }
                    assert(encoding(*inner1) =~= encoding(*inner2));
                    lemma_encoding_injective(*inner1, *inner2, *s->Optional_0);
                    assert(v1 == v2);
                },
            }
        },
        SpecValue::Unit => {
            assert(v2 is Unit);
        },
        SpecValue::Newtype(inner1) => {
            assert(v2 is Newtype);
            lemma_encoding_injective(*inner1, *v2->Newtype_0, *s->Newtype_0);
            assert(v1 == v2);
        },
        SpecValue::Sequence(es1) => {
            lemma_encoding_injective_container(v1, v2, s);
        },
        SpecValue::Record(fs1) => {
            lemma_encoding_injective_container(v1, v2, s);
        },
        SpecValue::Table(ps1) => {
            lemma_encoding_injective_container(v1, v2, s);
        },
        SpecValue::Variant(idx1, data1) => {
            lemma_encoding_injective_variant(v1, v2, s);
        },
        SpecValue::Unsupported(_) => {},
    }
}

/// The container cases of [`lemma_encoding_injective`]: equal prefixes force
/// equal payloads, and equal payloads force equal children.
#[verifier::rlimit(100)]
proof fn lemma_encoding_injective_container(v1: SpecValue, v2: SpecValue, s: SpecShape)
    requires
        v1 is Sequence || v1 is Record || v1 is Table,
        fits(v1, s),
        fits(v2, s),
        encode_fault(v1) is None,
        encode_fault(v2) is None,
        encoding(v1) == encoding(v2),
    ensures
        v1 == v2,
    decreases v1, 0int,
{
    match v1 {
        SpecValue::Sequence(es1) => {
            assert(v2 is Sequence);
            let es2 = v2->Sequence_0;
            let p1 = encoding_seq(es1);
            let p2 = encoding_seq(es2);
            lemma_le32_val_of_le32(p1.len() as int);
            lemma_le32_val_of_le32(p2.len() as int);
            assert(encoding(v1).subrange(0, 4) =~= le32(p1.len() as int));
            assert(encoding(v2).subrange(0, 4) =~= le32(p2.len() as int));
            assert(p1.len() == p2.len());
            assert forall|j: int| 0 <= j < p1.len() implies p1[j] == p2[j] by {
                assert(encoding(v1)[4 + j] == p1[j]);
                assert(encoding(v2)[4 + j] == p2[j]);
            }
            assert(p1 =~= p2);
            lemma_encoding_injective_seq(es1, es2, *s->Sequence_0);
            assert(v1 == v2);
        },
        SpecValue::Record(fs1) => {
            assert(v2 is Record);
            let fs2 = v2->Record_0;
            let p1 = encoding_seq(fs1);
            let p2 = encoding_seq(fs2);
            lemma_le32_val_of_le32(p1.len() as int);
            lemma_le32_val_of_le32(p2.len() as int);
            assert(encoding(v1).subrange(0, 4) =~= le32(p1.len() as int));
            assert(encoding(v2).subrange(0, 4) =~= le32(p2.len() as int));
            assert(p1.len() == p2.len());
            assert forall|j: int| 0 <= j < p1.len() implies p1[j] == p2[j] by {
                assert(encoding(v1)[4 + j] == p1[j]);
                assert(encoding(v2)[4 + j] == p2[j]);
            }
            assert(p1 =~= p2);
            lemma_encoding_injective_fields(fs1, fs2, s->Record_0);
            assert(v1 == v2);
        },
        SpecValue::Table(ps1) => {
            assert(v2 is Table);
            let ps2 = v2->Table_0;
            let p1 = encoding_pairs(ps1);
            let p2 = encoding_pairs(ps2);
            lemma_le32_val_of_le32(p1.len() as int);
            lemma_le32_val_of_le32(p2.len() as int);
            assert(encoding(v1).subrange(0, 4) =~= le32(p1.len() as int));
            assert(encoding(v2).subrange(0, 4) =~= le32(p2.len() as int));
            assert(p1.len() == p2.len());
            assert forall|j: int| 0 <= j < p1.len() implies p1[j] == p2[j] by {
                assert(encoding(v1)[4 + j] == p1[j]);
                assert(encoding(v2)[4 + j] == p2[j]);
            }
            assert(p1 =~= p2);
            lemma_encoding_injective_pairs(ps1, ps2, *s->Table_0, *s->Table_1);
            assert(v1 == v2);
        },
        _ => {},
    }
}

/// The variant case of [`lemma_encoding_injective`]: equal prefixes force
/// equal payload lengths, the index byte forces equal indexes, and the
/// variant shape forces equal payload kinds.
#[verifier::rlimit(100)]
proof fn lemma_encoding_injective_variant(v1: SpecValue, v2: SpecValue, s: SpecShape)
    requires
        v1 is Variant,
        fits(v1, s),
        fits(v2, s),
        encode_fault(v1) is None,
        encode_fault(v2) is None,
        encoding(v1) == encoding(v2),
    ensures
        v1 == v2,
    decreases v1, 0int,
{
    assert(v2 is Variant);
    let idx1 = v1->Variant_0;
    let data1 = v1->Variant_1;
    let idx2 = v2->Variant_0;
    let data2 = v2->Variant_1;
    let vars = s->Enum_0;
    let p1 = crate::format::encoding_payload(data1);
    let p2 = crate::format::encoding_payload(data2);
    lemma_le32_val_of_le32(1 + p1.len() as int);
    lemma_le32_val_of_le32(1 + p2.len() as int);
    assert(encoding(v1).subrange(0, 4) =~= le32(1 + p1.len() as int));
    assert(encoding(v2).subrange(0, 4) =~= le32(1 + p2.len() as int));
    assert(p1.len() == p2.len());
    assert(encoding(v1)[4] == (idx1 as u8));
    assert(encoding(v2)[4] == (idx2 as u8));
    assert(idx1 == idx2) by {
        assert((idx1 as u8) == (idx2 as u8));
        assert(idx1 <= 255 && idx2 <= 255);
    }
    assert(v2 is Variant);
    assert forall|j: int| 0 <= j < p1.len() implies p1[j] == p2[j] by {
        assert(encoding(v1)[5 + j] == p1[j]);
        assert(encoding(v2)[5 + j] == p2[j]);
    }
    assert(p1 =~= p2);
    assert(fits_payload(data1, vars[idx1 as int]));
    assert(fits_payload(data2, vars[idx1 as int]));
    assert(crate::format::encode_fault_payload(data1) is None);
    assert(crate::format::encode_fault_payload(data2) is None);
    match data1 {
        SpecPayload::Unit => {
            assert(data2 is Unit);
        },
        SpecPayload::Newtype(inner1) => {
            assert(data2 is Newtype);
            let inner2 = data2->Newtype_0;
            let t = vars[idx1 as int]->Newtype_0;
            assert(encoding(*inner1) =~= encoding(*inner2));
            lemma_encoding_injective(*inner1, *inner2, *t);
        },
        SpecPayload::Fields(fields1) => {
            assert(data2 is Fields);
            let fields2 = data2->Fields_0;
            let ts = vars[idx1 as int]->Fields_0;
            assert(encoding_seq(fields1) =~= encoding_seq(fields2));
            lemma_encoding_injective_fields(fields1, fields2, ts);
        },
    }
}

/// Equal concatenations of element encodings, under one element shape, come
/// from equal element lists.
#[verifier::rlimit(100)]
pub proof fn lemma_encoding_injective_seq(vs1: Seq<SpecValue>, vs2: Seq<SpecValue>, t: SpecShape)
    requires
        fits_seq(vs1, t),
        fits_seq(vs2, t),
        encode_fault_seq(vs1) is None,
        encode_fault_seq(vs2) is None,
        encoding_seq(vs1) == encoding_seq(vs2),
    ensures
        vs1 == vs2,
    decreases vs1, 2int,
{
    if vs1.len() == 0 || vs2.len() == 0 {
        if vs1.len() != 0 {
            lemma_encoding_nonempty(vs1[0]);
            assert(false);
        }
        if vs2.len() != 0 {
            lemma_encoding_nonempty(vs2[0]);
            assert(false);
        }
        assert(vs1 =~= vs2);
    } else {
        let e = encoding_seq(vs1);
        let h1 = encoding(vs1[0]);
        let h2 = encoding(vs2[0]);
        assert(e == h1 + encoding_seq(vs1.drop_first()));
        assert(encoding_seq(vs2) == h2 + encoding_seq(vs2.drop_first()));
        assert(e.subrange(0, e.len() as int) =~= e);
        lemma_subrange_split(e, 0, h1, encoding_seq(vs1.drop_first()));
        lemma_subrange_split(e, 0, h2, encoding_seq(vs2.drop_first()));
        lemma_same_window_same_encoding(e, 0, vs1[0], vs2[0], t);
        lemma_encoding_injective(vs1[0], vs2[0], t);
        assert(encoding_seq(vs1.drop_first()) =~= encoding_seq(vs2.drop_first()));
        lemma_encoding_injective_seq(vs1.drop_first(), vs2.drop_first(), t);
        assert forall|j: int| 0 <= j < vs1.len() implies vs1[j] == vs2[j] by {
            if j > 0 {
                assert(vs1.drop_first()[j - 1] == vs2.drop_first()[j - 1]);
            }
        }
        assert(vs1 =~= vs2);
    }
}

/// Equal concatenations of field encodings, under one list of field shapes,
/// come from equal field lists.
#[verifier::rlimit(100)]
pub proof fn lemma_encoding_injective_fields(
    vs1: Seq<SpecValue>,
    vs2: Seq<SpecValue>,
    ts: Seq<SpecShape>,
)
    requires
        fits_fields(vs1, ts),
        fits_fields(vs2, ts),
        encode_fault_seq(vs1) is None,
        encode_fault_seq(vs2) is None,
        encoding_seq(vs1) == encoding_seq(vs2),
    ensures
        vs1 == vs2,
    decreases vs1, 2int,
{
    if vs1.len() == 0 {
        assert(vs1 =~= vs2);
    } else {
        let e = encoding_seq(vs1);
        let h1 = encoding(vs1[0]);
        let h2 = encoding(vs2[0]);
        assert(e == h1 + encoding_seq(vs1.drop_first()));
        assert(encoding_seq(vs2) == h2 + encoding_seq(vs2.drop_first()));
        assert(e.subrange(0, e.len() as int) =~= e);
        lemma_subrange_split(e, 0, h1, encoding_seq(vs1.drop_first()));
        lemma_subrange_split(e, 0, h2, encoding_seq(vs2.drop_first()));
        lemma_same_window_same_encoding(e, 0, vs1[0], vs2[0], ts[0]);
        lemma_encoding_injective(vs1[0], vs2[0], ts[0]);
        assert(encoding_seq(vs1.drop_first()) =~= encoding_seq(vs2.drop_first()));
        lemma_encoding_injective_fields(vs1.drop_first(), vs2.drop_first(), ts.drop_first());
        assert forall|j: int| 0 <= j < vs1.len() implies vs1[j] == vs2[j] by {
            if j > 0 {
                assert(vs1.drop_first()[j - 1] == vs2.drop_first()[j - 1]);
            }
        }
        assert(vs1 =~= vs2);
    }
}

/// Equal concatenations of entry encodings, under one key and one value
/// shape, come from equal entry lists.
#[verifier::rlimit(100)]
pub proof fn lemma_encoding_injective_pairs(
    ps1: Seq<(SpecValue, SpecValue)>,
    ps2: Seq<(SpecValue, SpecValue)>,
    kt: SpecShape,
    vt: SpecShape,
)
    requires
        fits_pairs(ps1, kt, vt),
        fits_pairs(ps2, kt, vt),
        encode_fault_pairs(ps1) is None,
        encode_fault_pairs(ps2) is None,
        encoding_pairs(ps1) == encoding_pairs(ps2),
    ensures
        ps1 == ps2,
    decreases ps1, 2int,
{
    if ps1.len() == 0 || ps2.len() == 0 {
        if ps1.len() != 0 {
            lemma_encoding_nonempty(ps1[0].0);
            assert(false);
        }
        if ps2.len() != 0 {
            lemma_encoding_nonempty(ps2[0].0);
            assert(false);
        }
        assert(ps1 =~= ps2);
    } else {
        let e = encoding_pairs(ps1);
        let k1 = encoding(ps1[0].0);
        let w1 = encoding(ps1[0].1);
        let k2 = encoding(ps2[0].0);
        let w2 = encoding(ps2[0].1);
        assert(e == k1 + w1 + encoding_pairs(ps1.drop_first()));
        assert(encoding_pairs(ps2) == k2 + w2 + encoding_pairs(ps2.drop_first()));
        assert(k1 + w1 + encoding_pairs(ps1.drop_first()) =~= k1 + (w1 + encoding_pairs(
            ps1.drop_first(),
        )));
        assert(k2 + w2 + encoding_pairs(ps2.drop_first()) =~= k2 + (w2 + encoding_pairs(
            ps2.drop_first(),
        )));
        assert(e.subrange(0, e.len() as int) =~= e);
        lemma_subrange_split(e, 0, k1, w1 + encoding_pairs(ps1.drop_first()));
        lemma_subrange_split(e, 0, k2, w2 + encoding_pairs(ps2.drop_first()));
        lemma_same_window_same_encoding(e, 0, ps1[0].0, ps2[0].0, kt);
        lemma_encoding_injective(ps1[0].0, ps2[0].0, kt);
        lemma_subrange_split(e, k1.len() as int, w1, encoding_pairs(ps1.drop_first()));
        lemma_subrange_split(e, k1.len() as int, w2, encoding_pairs(ps2.drop_first()));
        lemma_same_window_same_encoding(e, k1.len() as int, ps1[0].1, ps2[0].1, vt);
        lemma_encoding_injective(ps1[0].1, ps2[0].1, vt);
        assert(encoding_pairs(ps1.drop_first()) =~= encoding_pairs(ps2.drop_first()));
        lemma_encoding_injective_pairs(ps1.drop_first(), ps2.drop_first(), kt, vt);
        assert(ps1[0] == ps2[0]);
        assert forall|j: int| 0 <= j < ps1.len() implies ps1[j] == ps2[j] by {
            if j > 0 {
                assert(ps1.drop_first()[j - 1] == ps2.drop_first()[j - 1]);
            }
        }
        assert(ps1 =~= ps2);
    }
}

/// Length-prefix exactness: every container encoding starts with a 4-byte
/// prefix holding exactly the byte length of the payload that follows it,
/// the prefix itself excluded.
pub proof fn lemma_length_prefix_exact(v: SpecValue)
    requires
        encode_fault(v) is None,
        v is Sequence || v is Record || v is Table || v is Variant,
    ensures
        encoding(v).len() >= 4,
        le32_val(encoding(v).subrange(0, 4)) == encoding(v).len() - 4,
{
    match v {
        SpecValue::Sequence(elems) => {
            let payload = encoding_seq(elems);
            lemma_le32_val_of_le32(payload.len() as int);
            assert(encoding(v).subrange(0, 4) =~= le32(payload.len() as int));
        },
        SpecValue::Record(fields) => {
            let payload = encoding_seq(fields);
            lemma_le32_val_of_le32(payload.len() as int);
            assert(encoding(v).subrange(0, 4) =~= le32(payload.len() as int));
        },
        SpecValue::Table(pairs) => {
            let payload = encoding_pairs(pairs);
            lemma_le32_val_of_le32(payload.len() as int);
            assert(encoding(v).subrange(0, 4) =~= le32(payload.len() as int));
        },
        SpecValue::Variant(idx, data) => {
            let payload = crate::format::encoding_payload(data);
            lemma_le32_val_of_le32(1 + payload.len() as int);
            assert(encoding(v).subrange(0, 4) =~= le32(1 + payload.len() as int));
        },
        _ => {},
    }
}

/// Budget exhaustion: a container decode that succeeds consumes its 4-byte
/// prefix and then exactly the byte budget the prefix declares, never more
/// and never less; a budget that cannot be met exactly is a failure by the
/// definitions of the decode functions.
pub proof fn lemma_budget_exhaustion(b: Seq<u8>, i: int, s: SpecShape, n: int)
    requires
        s is Sequence || s is Record || s is Table || s is Enum,
        decode_len(b, i, s) == Result::<int, DecodeFault>::Ok(n),
    ensures
        i + 4 <= b.len(),
        n == 4 + le32_val(b.subrange(i, i + 4)),
{
}

/// Variant index bound, encoding half: an index above 255 cannot be written
/// as the single wire byte that holds it, whatever the payload.
pub proof fn lemma_variant_index_encode_bound(idx: u32, data: SpecPayload)
    requires
        idx > 255,
    ensures
        encode_fault(SpecValue::Variant(idx, data)) == Some(EncodeFault::IndexTooLarge),
{
}

/// Variant index bound, decoding half: an index byte outside the known
/// variant set of the requested shape is a malformed-data failure.
pub proof fn lemma_variant_index_decode_bound(b: Seq<u8>, i: int, vars: Seq<SpecVariantShape>)
    requires
        0 <= i,
        i + 5 <= b.len(),
        b[i + 4] as int >= vars.len(),
    ensures
        decode_len(b, i, SpecShape::Enum(vars)) == Result::<int, DecodeFault>::Err(
            DecodeFault::Malformed,
        ),
{
}

/// Round-trip law at the buffer's start: decoding the encoding of a legal,
/// faultlessly encodable value succeeds and consumes all of it.
pub proof fn lemma_round_trip_decodes(v: SpecValue, s: SpecShape)
    requires
        fits(v, s),
        encode_fault(v) is None,
    ensures
        decode_len(encoding(v), 0, s) == Result::<int, DecodeFault>::Ok(encoding(v).len() as int),
{
    assert(encoding(v).subrange(0, encoding(v).len() as int) =~= encoding(v));
    lemma_decode_encoded(encoding(v), 0, v, s);
}

/// Round-trip law: for every supported shape and every legal value of it,
/// decoding the encoding yields that value back. Decoding `encoding(v)`
/// succeeds and consumes all of it, and since the decoder only ever returns
/// a legal value whose encoding is the bytes it consumed, any value `w` it
/// could return is `v` itself.
pub proof fn lemma_round_trip(v: SpecValue, s: SpecShape, w: SpecValue)
    requires
        fits(v, s),
        encode_fault(v) is None,
        fits(w, s),
        encode_fault(w) is None,
        encoding(w) == encoding(v),
    ensures
        decode_len(encoding(v), 0, s) == Result::<int, DecodeFault>::Ok(encoding(v).len() as int),
        w == v,
{
    lemma_round_trip_decodes(v, s);
    lemma_encoding_injective(w, v, s);
}

} // verus!
