//! The decoder: reads a byte buffer back into a shape-described value,
//! driven by the caller's target shape and bounded by each container's
//! declared byte budget.

use vstd::prelude::*;

use crate::error::{decode_error_matches, Error};
use crate::format::{
    decode_elems, decode_fields, decode_len, decode_pairs, encode_fault, encode_fault_pairs,
    encode_fault_seq, encoding, encoding_pairs, encoding_seq, fits, fits_fields, fits_pairs,
    fits_seq, le32_val, lemma_encode_fault_pairs_push, lemma_encode_fault_seq_push,
    lemma_encoding_pairs_push, lemma_encoding_seq_push, lemma_fits_fields_push,
    encoding_payload, fits_payload, lemma_fits_pairs_push, lemma_fits_seq_push,
    lemma_le32_of_le32_val, DecodeFault, SpecPayload, SpecShape, SpecValue, SpecVariantShape,
};
use crate::value::{
    lemma_shapes_view, lemma_values_view, lemma_variant_shapes_view, pairs_view, payload_view,
    shape_view, shapes_view, value_view, values_view, variant_shapes_view, Shape, Value,
    VariantPayload, VariantShape,
};

verus! {

/// The decoder's mutable context: one byte buffer and one cursor, owned for
/// the duration of a single top-level decode.
pub struct BytesDeserializer {
    buffer: Vec<u8>,
    position: usize,
}

impl BytesDeserializer {
    /// The bytes being decoded.
    pub closed spec fn buf(self) -> Seq<u8> {
        self.buffer@
    }

    /// The cursor: how many bytes have been consumed.
    pub closed spec fn pos(self) -> int {
        self.position as int
    }

    /// The cursor never leaves the buffer.
    pub open spec fn wf(self) -> bool {
        self.pos() <= self.buf().len()
    }

    /// A fresh decoder with an empty buffer and the cursor at its start.
    pub fn new() -> (d: Self)
        ensures
            d.buf() == Seq::<u8>::empty(),
            d.pos() == 0,
    {
        BytesDeserializer { buffer: Vec::new(), position: 0 }
    }

    /// Where the cursor stands; container decoding measures each element's
    /// consumption by the cursor's movement.
    pub fn peek_position(&self) -> (p: usize)
        ensures
            p as int == self.pos(),
    {
        self.position
    }

    /// Reads the next `len` bytes, advancing the cursor. Fails, leaving the
    /// cursor in place, exactly when fewer than `len` bytes remain.
    pub fn read_bytes(&mut self, len: usize) -> (r: Result<Vec<u8>, Error>)
        requires
            old(self).wf(),
        ensures
            final(self).buf() == old(self).buf(),
            final(self).wf(),
            match r {
                Ok(bytes) => {
                    &&& old(self).pos() + len <= old(self).buf().len()
                    &&& bytes@ == old(self).buf().subrange(old(self).pos(), old(self).pos() + len)
                    &&& final(self).pos() == old(self).pos() + len
                },
                Err(e) => {
                    &&& old(self).pos() + len > old(self).buf().len()
                    &&& e matches Error::Custom(_)
                    &&& final(self).pos() == old(self).pos()
                },
            },
    {
        if len > self.buffer.len() - self.position {
            return Err(Error::Custom("Unexpected end of input".to_owned()));
        }
        let end = self.position + len;
        let mut result: Vec<u8> = Vec::new();
        let mut i = self.position;
        while i < end
            invariant
                self.position <= i <= end <= self.buffer@.len(),
                result@ == self.buffer@.subrange(self.position as int, i as int),
            decreases end - i,
        {
            result.push(self.buffer[i]);
            i = i + 1;
        }
        self.position = end;
        Ok(result)
    }

    /// Reads one byte, advancing the cursor.
    pub fn read_byte(&mut self) -> (r: Result<u8, Error>)
        requires
            old(self).wf(),
        ensures
            final(self).buf() == old(self).buf(),
            final(self).wf(),
            match r {
                Ok(b) => {
                    &&& old(self).pos() + 1 <= old(self).buf().len()
                    &&& b == old(self).buf()[old(self).pos()]
                    &&& final(self).pos() == old(self).pos() + 1
                },
                Err(e) => {
                    &&& old(self).pos() + 1 > old(self).buf().len()
                    &&& e matches Error::Custom(_)
                    &&& final(self).pos() == old(self).pos()
                },
            },
    {
        let bytes = match self.read_bytes(1) {
            Ok(bytes) => bytes,
            Err(e) => {
                return Err(e);
            },
        };
        Ok(bytes[0])
    }

    /// Reads a 32-bit little-endian word, advancing the cursor: how every
    /// length prefix is read.
    pub fn read_u32(&mut self) -> (r: Result<u32, Error>)
        requires
            old(self).wf(),
        ensures
            final(self).buf() == old(self).buf(),
            final(self).wf(),
            match r {
                Ok(x) => {
                    &&& old(self).pos() + 4 <= old(self).buf().len()
                    &&& x as int == le32_val(
                        old(self).buf().subrange(old(self).pos(), old(self).pos() + 4),
                    )
                    &&& final(self).pos() == old(self).pos() + 4
                },
                Err(e) => {
                    &&& old(self).pos() + 4 > old(self).buf().len()
                    &&& e matches Error::Custom(_)
                    &&& final(self).pos() == old(self).pos()
                },
            },
    {
        let bytes = match self.read_bytes(4) {
            Ok(bytes) => bytes,
            Err(e) => {
                return Err(e);
            },
        };
        let x = bytes[0] as u32 + 256 * (bytes[1] as u32) + 65536 * (bytes[2] as u32) + 16777216
            * (bytes[3] as u32);
        Ok(x)
    }

    /// Consumes elements of shape `t` until the byte budget is exhausted,
    /// as [`decode_elems`] prescribes.
    #[verifier::loop_isolation(false)]
    fn decode_elems_list(&mut self, t: &Shape, budget: usize) -> (r: Result<Vec<Value>, Error>)
        requires
            old(self).wf(),
        ensures
            final(self).buf() == old(self).buf(),
            final(self).wf(),
            final(self).pos() >= old(self).pos(),
            match r {
                Ok(vs) => {
                    &&& decode_elems(old(self).buf(), old(self).pos(), t@, budget as int) is Ok
                    &&& final(self).pos() == old(self).pos() + budget
                    &&& fits_seq(values_view(vs@), t@)
                    &&& encode_fault_seq(values_view(vs@)) is None
                    &&& encoding_seq(values_view(vs@)) == old(self).buf().subrange(
                        old(self).pos(),
                        old(self).pos() + budget,
                    )
                },
                Err(e) => (decode_elems(old(self).buf(), old(self).pos(), t@, budget as int)
                    matches Err(f) && decode_error_matches(f, e)),
            },
        decreases t, 5int,
    {
        let ghost b = self.buf();
        let ghost p0 = self.pos();
        let mut out: Vec<Value> = Vec::new();
        let mut remaining: usize = budget;
        proof {
            assert(b.subrange(p0, p0) =~= Seq::<u8>::empty());
        }
        while remaining > 0
            invariant
                self.wf(),
                self.buf() == b,
                remaining <= budget,
                self.pos() == p0 + budget - remaining,
                decode_elems(b, p0, t@, budget as int) == decode_elems(
                    b,
                    self.pos(),
                    t@,
                    remaining as int,
                ),
                fits_seq(values_view(out@), t@),
                encode_fault_seq(values_view(out@)) is None,
                encoding_seq(values_view(out@)) == b.subrange(p0, self.pos()),
            decreases remaining,
        {
            let before = self.peek_position();
            let ghost posb = self.pos();
            let ghost prev = values_view(out@);
            let ghost prev_vec = out@;
            let v = match self.decode_value(t) {
                Ok(v) => v,
                Err(e) => {
                    return Err(e);
                },
            };
            let consumed = self.peek_position() - before;
            if consumed == 0 || consumed > remaining {
                return Err(Error::Custom("Container element broke the byte budget".to_owned()));
            }
            remaining = remaining - consumed;
            out.push(v);
            proof {
                crate::value::lemma_values_view_push(prev_vec, v);
                lemma_fits_seq_push(prev, value_view(v), t@);
                lemma_encode_fault_seq_push(prev, value_view(v));
                lemma_encoding_seq_push(prev, value_view(v));
                assert(b.subrange(p0, posb) + b.subrange(posb, self.pos()) =~= b.subrange(
                    p0,
                    self.pos(),
                ));
            }
        }
        Ok(out)
    }

    /// Consumes fields of the shapes `ts`, in order, within the byte budget,
    /// as [`decode_fields`] prescribes: the budget must run out exactly when
    /// the field shapes do.
    #[verifier::loop_isolation(false)]
    fn decode_fields_list(&mut self, ts: &Vec<Shape>, budget: usize) -> (r: Result<
        Vec<Value>,
        Error,
    >)
        requires
            old(self).wf(),
        ensures
            final(self).buf() == old(self).buf(),
            final(self).wf(),
            final(self).pos() >= old(self).pos(),
            match r {
                Ok(vs) => {
                    &&& decode_fields(
                        old(self).buf(),
                        old(self).pos(),
                        shapes_view(ts@),
                        budget as int,
                    ) is Ok
                    &&& final(self).pos() == old(self).pos() + budget
                    &&& fits_fields(values_view(vs@), shapes_view(ts@))
                    &&& encode_fault_seq(values_view(vs@)) is None
                    &&& encoding_seq(values_view(vs@)) == old(self).buf().subrange(
                        old(self).pos(),
                        old(self).pos() + budget,
                    )
                },
                Err(e) => (decode_fields(
                    old(self).buf(),
                    old(self).pos(),
                    shapes_view(ts@),
                    budget as int,
                ) matches Err(f) && decode_error_matches(f, e)),
            },
        decreases ts, 5int,
    {
        let ghost b = self.buf();
        let ghost p0 = self.pos();
        let ghost tsv = shapes_view(ts@);
        proof {
            lemma_shapes_view(ts@);
        }
        let mut out: Vec<Value> = Vec::new();
        let mut remaining: usize = budget;
        let mut k: usize = 0;
        proof {
            assert(tsv.skip(0) =~= tsv);
            assert(tsv.take(0) =~= Seq::<SpecShape>::empty());
            assert(b.subrange(p0, p0) =~= Seq::<u8>::empty());
            assert(fits_fields(Seq::<SpecValue>::empty(), Seq::<SpecShape>::empty()));
        }
        while remaining > 0
            invariant
                self.wf(),
                self.buf() == b,
                remaining <= budget,
                k <= ts@.len(),
                tsv == shapes_view(ts@),
                tsv.len() == ts@.len(),
                forall|i: int| 0 <= i < ts@.len() ==> tsv[i] == shape_view(ts@[i]),
                self.pos() == p0 + budget - remaining,
                out@.len() == k,
                decode_fields(b, p0, tsv, budget as int) == decode_fields(
                    b,
                    self.pos(),
                    tsv.skip(k as int),
                    remaining as int,
                ),
                fits_fields(values_view(out@), tsv.take(k as int)),
                encode_fault_seq(values_view(out@)) is None,
                encoding_seq(values_view(out@)) == b.subrange(p0, self.pos()),
            decreases remaining,
        {
            if k == ts.len() {
                return Err(Error::Custom("Bytes left over after the last field".to_owned()));
            }
            let before = self.peek_position();
            let ghost posb = self.pos();
            let ghost prev = values_view(out@);
            let ghost prev_vec = out@;
            let ghost kb = k as int;
            proof {
                assert(tsv.skip(kb)[0] == tsv[kb]);
            }
            let v = match self.decode_value(&ts[k]) {
                Ok(v) => v,
                Err(e) => {
                    return Err(e);
                },
            };
            let consumed = self.peek_position() - before;
            if consumed == 0 || consumed > remaining {
                return Err(Error::Custom("Field broke the byte budget".to_owned()));
            }
            remaining = remaining - consumed;
            out.push(v);
            k = k + 1;
            proof {
                crate::value::lemma_values_view_push(prev_vec, v);
                lemma_fits_fields_push(prev, value_view(v), tsv.take(kb), tsv[kb]);
                lemma_encode_fault_seq_push(prev, value_view(v));
                lemma_encoding_seq_push(prev, value_view(v));
                assert(tsv.take(kb + 1) =~= tsv.take(kb).push(tsv[kb]));
                assert(tsv.skip(kb).drop_first() =~= tsv.skip(kb + 1));
                assert(b.subrange(p0, posb) + b.subrange(posb, self.pos()) =~= b.subrange(
                    p0,
                    self.pos(),
                ));
            }
        }
        if k < ts.len() {
            return Err(Error::Custom("Byte budget ended before the last field".to_owned()));
        }
        proof {
            assert(tsv.skip(k as int) =~= Seq::<SpecShape>::empty());
            assert(tsv.take(k as int) =~= tsv);
        }
        Ok(out)
    }

    /// Consumes map entries, key then value, until the byte budget is
    /// exhausted, as [`decode_pairs`] prescribes.
    #[verifier::loop_isolation(false)]
    fn decode_table_list(&mut self, shape: &Shape, budget: usize) -> (r: Result<
        Vec<(Value, Value)>,
        Error,
    >)
        requires
            old(self).wf(),
            shape@ is Table,
        ensures
            final(self).buf() == old(self).buf(),
            final(self).wf(),
            final(self).pos() >= old(self).pos(),
            match r {
                Ok(ps) => {
                    &&& decode_pairs(old(self).buf(), old(self).pos(), shape@, budget as int) is Ok
                    &&& final(self).pos() == old(self).pos() + budget
                    &&& (shape@ matches SpecShape::Table(kt, vt) && fits_pairs(
                        pairs_view(ps@),
                        *kt,
                        *vt,
                    ))
                    &&& encode_fault_pairs(pairs_view(ps@)) is None
                    &&& encoding_pairs(pairs_view(ps@)) == old(self).buf().subrange(
                        old(self).pos(),
                        old(self).pos() + budget,
                    )
                },
                Err(e) => (decode_pairs(old(self).buf(), old(self).pos(), shape@, budget as int)
                    matches Err(f) && decode_error_matches(f, e)),
            },
        decreases shape, 3int,
    {
        let ghost b = self.buf();
        let ghost p0 = self.pos();
        match shape {
            Shape::Table(kt, vt) => {
                let mut out: Vec<(Value, Value)> = Vec::new();
                let mut remaining: usize = budget;
                proof {
                    assert(b.subrange(p0, p0) =~= Seq::<u8>::empty());
                }
                while remaining > 0
                    invariant
                        self.wf(),
                        self.buf() == b,
                        remaining <= budget,
                        shape@ matches SpecShape::Table(skt, svt) && *skt == shape_view(**kt)
                            && *svt == shape_view(**vt),
                        self.pos() == p0 + budget - remaining,
                        decode_pairs(b, p0, shape@, budget as int) == decode_pairs(
                            b,
                            self.pos(),
                            shape@,
                            remaining as int,
                        ),
                        fits_pairs(pairs_view(out@), shape_view(**kt), shape_view(**vt)),
                        encode_fault_pairs(pairs_view(out@)) is None,
                        encoding_pairs(pairs_view(out@)) == b.subrange(p0, self.pos()),
                    decreases remaining,
                {
                    let before = self.peek_position();
                    let ghost posb = self.pos();
                    let ghost prev = pairs_view(out@);
                    let ghost prev_vec = out@;
                    let key = match self.decode_value(&**kt) {
                        Ok(v) => v,
                        Err(e) => {
                            return Err(e);
                        },
                    };
                    let key_consumed = self.peek_position() - before;
                    if key_consumed == 0 || key_consumed > remaining {
                        return Err(Error::Custom("Map key broke the byte budget".to_owned()));
                    }
                    let value_before = self.peek_position();
                    let ghost posv = self.pos();
                    let val = match self.decode_value(&**vt) {
                        Ok(v) => v,
                        Err(e) => {
                            return Err(e);
                        },
                    };
                    let value_consumed = self.peek_position() - value_before;
                    if value_consumed == 0 || value_consumed > remaining - key_consumed {
                        return Err(Error::Custom("Map value broke the byte budget".to_owned()));
                    }
                    remaining = remaining - key_consumed - value_consumed;
                    out.push((key, val));
                    proof {
                        crate::value::lemma_pairs_view_push(prev_vec, (key, val));
                        lemma_fits_pairs_push(
                            prev,
                            (value_view(key), value_view(val)),
                            shape_view(**kt),
                            shape_view(**vt),
                        );
                        lemma_encode_fault_pairs_push(prev, (value_view(key), value_view(val)));
                        lemma_encoding_pairs_push(prev, (value_view(key), value_view(val)));
                        assert(b.subrange(posb, posv) + b.subrange(posv, self.pos())
                            =~= b.subrange(posb, self.pos()));
                        assert(b.subrange(p0, posb) + b.subrange(posb, self.pos()) =~= b.subrange(
                            p0,
                            self.pos(),
                        ));
                        assert(encoding_pairs(prev) + (encoding(value_view(key)) + encoding(
                            value_view(val),
                        )) =~= encoding_pairs(prev) + encoding(value_view(key)) + encoding(
                            value_view(val),
                        ));
                    }
                }
                Ok(out)
            },
            _ => {
                proof {
                    assert(false);
                }
                Err(Error::Unimplemented)
            },
        }
    }


    /// Decodes one tagged-union value: the length prefix, the index byte,
    /// then the payload the indexed variant prescribes, which must consume
    /// the declared budget exactly.
    #[verifier::rlimit(100)]
    fn decode_enum(&mut self, shape: &Shape) -> (r: Result<Value, Error>)
        requires
            old(self).wf(),
            shape@ is Enum,
        ensures
            final(self).buf() == old(self).buf(),
            final(self).wf(),
            final(self).pos() >= old(self).pos(),
            match r {
                Ok(v) => {
                    &&& decode_len(old(self).buf(), old(self).pos(), shape@) matches Ok(n)
                        && final(self).pos() == old(self).pos() + n
                    &&& fits(v@, shape@)
                    &&& encode_fault(v@) is None
                    &&& encoding(v@) == old(self).buf().subrange(
                        old(self).pos(),
                        final(self).pos(),
                    )
                },
                Err(e) => (decode_len(old(self).buf(), old(self).pos(), shape@) matches Err(f)
                    && decode_error_matches(f, e)),
            },
        decreases shape, 3int,
    {
        let ghost b = self.buf();
        let ghost p0 = self.pos();
        match shape {
            Shape::Enum(vars) => {
                let l = match self.read_u32() {
                    Ok(l) => l,
                    Err(e) => {
                        return Err(e);
                    },
                };
                let idx = match self.read_byte() {
                    Ok(idx) => idx,
                    Err(e) => {
                        return Err(e);
                    },
                };
                proof {
                    lemma_variant_shapes_view(vars@);
                }
                if idx as usize >= vars.len() {
                    return Err(Error::Custom("Invalid variant index".to_owned()));
                }
                if l == 0 {
                    return Err(Error::Custom("Invalid variant length".to_owned()));
                }
                let budget = l as usize - 1;
                let ghost n = l as int;
                let ghost payload_pos = self.pos();
                let ghost vsv = variant_shapes_view(vars@);
                match &vars[idx as usize] {
                    VariantShape::Unit => {
                        if budget != 0 {
                            return Err(Error::Custom("Invalid unit variant length".to_owned()));
                        }
                        let out_v = Value::Variant(idx as u32, VariantPayload::Unit);
                        proof {
                            lemma_le32_of_le32_val(b.subrange(p0, p0 + 4));
                            assert(vsv[idx as int] == SpecVariantShape::Unit);
                            assert(payload_view(VariantPayload::Unit) == SpecPayload::Unit);
                            assert(shape@ == SpecShape::Enum(vsv));
                            assert(fits_payload(SpecPayload::Unit, vsv[idx as int]));
                            assert(crate::format::encode_fault_payload(SpecPayload::Unit)
                                is None);
                            assert(encoding_payload(SpecPayload::Unit) == Seq::<u8>::empty());
                            assert(b.subrange(payload_pos, self.pos()) =~= Seq::<u8>::empty());
                            assert(value_view(out_v) == SpecValue::Variant(
                                idx as u32,
                                SpecPayload::Unit,
                            ));
                            assert(fits(value_view(out_v), shape@));
                            assert(encode_fault(value_view(out_v)) is None);
                            assert(encoding(value_view(out_v)) =~= b.subrange(p0, self.pos()));
                        }
                        Ok(out_v)
                    },
                    VariantShape::Newtype(t) => {
                        let before = self.peek_position();
                        let v = match self.decode_value(&**t) {
                            Ok(v) => v,
                            Err(e) => {
                                return Err(e);
                            },
                        };
                        let consumed = self.peek_position() - before;
                        if consumed != budget {
                            return Err(
                                Error::Custom("Invalid newtype variant length".to_owned()),
                            );
                        }
                        let out_v = Value::Variant(
                            idx as u32,
                            VariantPayload::Newtype(Box::new(v)),
                        );
                        proof {
                            lemma_le32_of_le32_val(b.subrange(p0, p0 + 4));
                            assert(vsv[idx as int] == SpecVariantShape::Newtype(
                                Box::new(shape_view(**t)),
                            ));
                            assert(payload_view(VariantPayload::Newtype(Box::new(v)))
                                == SpecPayload::Newtype(Box::new(value_view(v))));
                            assert(shape@ == SpecShape::Enum(vsv));
                            assert(fits_payload(
                                SpecPayload::Newtype(Box::new(value_view(v))),
                                vsv[idx as int],
                            ));
                            assert(crate::format::encode_fault_payload(
                                SpecPayload::Newtype(Box::new(value_view(v))),
                            ) is None);
                            assert(encoding_payload(SpecPayload::Newtype(Box::new(value_view(v))))
                                == encoding(value_view(v)));
                            assert(value_view(out_v) == SpecValue::Variant(
                                idx as u32,
                                SpecPayload::Newtype(Box::new(value_view(v))),
                            ));
                            assert(fits(value_view(out_v), shape@));
                            assert(encode_fault(value_view(out_v)) is None);
                            assert(encoding(value_view(out_v)) =~= b.subrange(p0, self.pos()));
                        }
                        Ok(out_v)
                    },
                    VariantShape::Fields(ts) => {
                        let vs = match self.decode_fields_list(ts, budget) {
                            Ok(vs) => vs,
                            Err(e) => {
                                return Err(e);
                            },
                        };
                        let out_v = Value::Variant(idx as u32, VariantPayload::Fields(vs));
                        proof {
                            lemma_le32_of_le32_val(b.subrange(p0, p0 + 4));
                            assert(vsv[idx as int] == SpecVariantShape::Fields(shapes_view(ts@)));
                            assert(payload_view(VariantPayload::Fields(vs)) == SpecPayload::Fields(
                                values_view(vs@),
                            ));
                            assert(shape@ == SpecShape::Enum(vsv));
                            assert(fits_payload(
                                SpecPayload::Fields(values_view(vs@)),
                                vsv[idx as int],
                            ));
                            assert(crate::format::encode_fault_payload(
                                SpecPayload::Fields(values_view(vs@)),
                            ) is None);
                            assert(encoding_payload(SpecPayload::Fields(values_view(vs@)))
                                == encoding_seq(values_view(vs@)));
                            assert(value_view(out_v) == SpecValue::Variant(
                                idx as u32,
                                SpecPayload::Fields(values_view(vs@)),
                            ));
                            assert(fits(value_view(out_v), shape@));
                            assert(encode_fault(value_view(out_v)) is None);
                            assert(encoding(value_view(out_v)) =~= b.subrange(p0, self.pos()));
                        }
                        Ok(out_v)
                    },
                }
            },
            _ => {
                proof {
                    assert(false);
                }
                Err(Error::Unimplemented)
            },
        }
    }

    /// Loads `bytes` into the buffer, resets the cursor, and decodes one
    /// value of the requested shape. Trailing bytes beyond that value are
    /// ignored, as they are ignored by the shape-driven budget rules.
    ///
    /// Succeeds exactly when `decode_len(bytes@, 0, shape@)` does; the value
    /// returned is then a legal value of the shape whose own encoding is
    /// exactly the prefix consumed.
    pub fn from_bytes(&mut self, bytes: &[u8], shape: &Shape) -> (r: Result<Value, Error>)
        ensures
            match r {
                Ok(v) => {
                    &&& decode_len(bytes@, 0, shape@) is Ok
                    &&& fits(v@, shape@)
                    &&& encode_fault(v@) is None
                    &&& (decode_len(bytes@, 0, shape@) matches Ok(n) && encoding(v@)
                        == bytes@.subrange(0, n))
                },
                Err(e) => (decode_len(bytes@, 0, shape@) matches Err(f) && decode_error_matches(
                    f,
                    e,
                )),
            },
    {
        self.buffer.clear();
        let mut i: usize = 0;
        while i < bytes.len()
            invariant
                i <= bytes@.len(),
                self.buffer@ == bytes@.subrange(0, i as int),
            decreases bytes@.len() - i,
        {
            self.buffer.push(bytes[i]);
            i = i + 1;
        }
        proof {
            assert(self.buffer@ =~= bytes@);
        }
        self.position = 0;
        self.decode_value(shape)
    }

    /// Decodes one value of the requested shape from the cursor onward.
    ///
    /// Succeeds exactly when `decode_len` does, advancing the cursor by the
    /// length it names; the returned value is then a legal, faultlessly
    /// re-encodable value of the shape whose encoding is exactly the bytes
    /// consumed. On failure the reported error is the one the decode fault
    /// names; an unsupported shape is rejected before anything is read.
    #[verifier::rlimit(50)]
    pub fn decode_value(&mut self, shape: &Shape) -> (r: Result<Value, Error>)
        requires
            old(self).wf(),
        ensures
            final(self).buf() == old(self).buf(),
            final(self).wf(),
            final(self).pos() >= old(self).pos(),
            match r {
                Ok(v) => {
                    &&& decode_len(old(self).buf(), old(self).pos(), shape@) matches Ok(n)
                        && final(self).pos() == old(self).pos() + n
                    &&& fits(v@, shape@)
                    &&& encode_fault(v@) is None
                    &&& encoding(v@) == old(self).buf().subrange(
                        old(self).pos(),
                        final(self).pos(),
                    )
                },
                Err(e) => {
                    &&& (decode_len(old(self).buf(), old(self).pos(), shape@) matches Err(f)
                        && decode_error_matches(f, e))
                    &&& (shape@ matches SpecShape::Unsupported(_) ==> *final(self) == *old(self))
                },
            },
        decreases shape, 4int,
    {
        let ghost b = self.buf();
        let ghost p0 = self.pos();
        match shape {
            Shape::Bool => {
                let byte = match self.read_byte() {
                    Ok(byte) => byte,
                    Err(e) => {
                        return Err(e);
                    },
                };
                if byte == 0 {
                    proof {
                        assert(encoding(SpecValue::Bool(false)) =~= b.subrange(p0, p0 + 1));
                    }
                    Ok(Value::Bool(false))
                } else if byte == 1 {
                    proof {
                        assert(encoding(SpecValue::Bool(true)) =~= b.subrange(p0, p0 + 1));
                    }
                    Ok(Value::Bool(true))
                } else {
                    Err(Error::Custom("Invalid Bool value".to_owned()))
                }
            },
            Shape::U8 => {
                let byte = match self.read_byte() {
                    Ok(byte) => byte,
                    Err(e) => {
                        return Err(e);
                    },
                };
                proof {
                    assert(encoding(SpecValue::U8(byte)) =~= b.subrange(p0, p0 + 1));
                }
                Ok(Value::U8(byte))
            },
            Shape::U32 => {
                let x = match self.read_u32() {
                    Ok(x) => x,
                    Err(e) => {
                        return Err(e);
                    },
                };
                proof {
                    lemma_le32_of_le32_val(b.subrange(p0, p0 + 4));
                }
                Ok(Value::U32(x))
            },
            Shape::Optional(t) => {
                let byte = match self.read_byte() {
                    Ok(byte) => byte,
                    Err(e) => {
                        return Err(e);
                    },
                };
                if byte == 0 {
                    proof {
                        assert(encoding(SpecValue::Optional(Option::None)) =~= b.subrange(
                            p0,
                            p0 + 1,
                        ));
                    }
                    Ok(Value::Optional(None))
                } else if byte == 1 {
                    match self.decode_value(&**t) {
                        Ok(v) => {
                            proof {
                                assert(seq![1u8] + encoding(value_view(v)) =~= b.subrange(
                                    p0,
                                    self.pos(),
                                ));
                            }
                            Ok(Value::Optional(Some(Box::new(v))))
                        },
                        Err(e) => Err(e),
                    }
                } else {
                    Err(Error::Custom("Invalid Option value".to_owned()))
                }
            },
            Shape::Unit => {
                let byte = match self.read_byte() {
                    Ok(byte) => byte,
                    Err(e) => {
                        return Err(e);
                    },
                };
                if byte == 0 {
                    proof {
                        assert(encoding(SpecValue::Unit) =~= b.subrange(p0, p0 + 1));
                    }
                    Ok(Value::Unit)
                } else {
                    Err(Error::Custom("Invalid Unit value".to_owned()))
                }
            },
            Shape::Newtype(t) => match self.decode_value(&**t) {
                Ok(v) => Ok(Value::Newtype(Box::new(v))),
                Err(e) => Err(e),
            },
            Shape::Sequence(t) => {
                let l = match self.read_u32() {
                    Ok(l) => l,
                    Err(e) => {
                        return Err(e);
                    },
                };
                let budget = l as usize;
                match self.decode_elems_list(&**t, budget) {
                    Ok(vs) => {
                        proof {
                            lemma_le32_of_le32_val(b.subrange(p0, p0 + 4));
                            assert(encoding_seq(values_view(vs@)).len() == budget);
                            assert(crate::format::le32(budget as int) + encoding_seq(
                                values_view(vs@),
                            ) =~= b.subrange(p0, self.pos()));
                        }
                        Ok(Value::Sequence(vs))
                    },
                    Err(e) => Err(e),
                }
            },
            Shape::Record(ts) => {
                let l = match self.read_u32() {
                    Ok(l) => l,
                    Err(e) => {
                        return Err(e);
                    },
                };
                let budget = l as usize;
                match self.decode_fields_list(ts, budget) {
                    Ok(vs) => {
                        proof {
                            lemma_le32_of_le32_val(b.subrange(p0, p0 + 4));
                            assert(encoding_seq(values_view(vs@)).len() == budget);
                            assert(crate::format::le32(budget as int) + encoding_seq(
                                values_view(vs@),
                            ) =~= b.subrange(p0, self.pos()));
                        }
                        Ok(Value::Record(vs))
                    },
                    Err(e) => Err(e),
                }
            },
            Shape::Table(kt, vt) => {
                let l = match self.read_u32() {
                    Ok(l) => l,
                    Err(e) => {
                        return Err(e);
                    },
                };
                let budget = l as usize;
                match self.decode_table_list(shape, budget) {
                    Ok(ps) => {
                        proof {
                            lemma_le32_of_le32_val(b.subrange(p0, p0 + 4));
                            assert(encoding_pairs(pairs_view(ps@)).len() == budget);
                            assert(crate::format::le32(budget as int) + encoding_pairs(
                                pairs_view(ps@),
                            ) =~= b.subrange(p0, self.pos()));
                        }
                        Ok(Value::Table(ps))
                    },
                    Err(e) => Err(e),
                }
            },
            Shape::Enum(_) => self.decode_enum(shape),
            Shape::Unsupported(_) => Err(Error::Unimplemented),
        }
    }
}

/// Decodes one value of the requested shape from a byte buffer, on a fresh
/// decoder. Trailing bytes beyond that value are ignored.
///
/// Succeeds exactly when `decode_len(bytes@, 0, shape@)` does; the value
/// returned is then a legal value of the shape whose own encoding is exactly
/// the prefix consumed.
pub fn from_bytes(bytes: &[u8], shape: &Shape) -> (r: Result<Value, Error>)
    ensures
        match r {
            Ok(v) => {
                &&& decode_len(bytes@, 0, shape@) is Ok
                &&& fits(v@, shape@)
                &&& encode_fault(v@) is None
                &&& (decode_len(bytes@, 0, shape@) matches Ok(n) && encoding(v@)
                    == bytes@.subrange(0, n))
            },
            Err(e) => (decode_len(bytes@, 0, shape@) matches Err(f) && decode_error_matches(f, e)),
        },
{
    let mut de = BytesDeserializer::new();
    de.from_bytes(bytes, shape)
}

} // verus!
