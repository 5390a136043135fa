//! The encoder: walks a shape-described value and produces its byte
//! sequence, framing each container with a backpatched 4-byte length prefix.

use vstd::prelude::*;

use crate::error::{encode_error_matches, Error};
use crate::format::{
    encode_fault, encode_fault_pairs, encode_fault_seq, encoding, encoding_pairs, encoding_seq,
    le32, lemma_encode_fault_pairs_cat, lemma_encode_fault_pairs_push, lemma_encode_fault_seq_cat,
    lemma_encode_fault_seq_push, lemma_encoding_pairs_push, lemma_encoding_seq_push, EncodeFault,
    SpecValue,
};
use crate::value::{pairs_view, value_view, values_view, Value, VariantPayload};

verus! {

/// The encoder's mutable context: one byte buffer and one stack of pending
/// length-prefix slots, owned for the duration of a single top-level encode.
pub struct BytesSerializer {
    buffer: Vec<u8>,
    offsets: Vec<usize>,
}

impl BytesSerializer {
    /// The bytes produced so far.
    pub closed spec fn buf(self) -> Seq<u8> {
        self.buffer@
    }

    /// The offsets of the length-prefix slots still awaiting their backpatch,
    /// one per currently open container, innermost last.
    pub closed spec fn pending(self) -> Seq<usize> {
        self.offsets@
    }

    /// Every pending length slot lies wholly inside the buffer.
    pub open spec fn wf(self) -> bool {
        forall|j: int|
            0 <= j < self.pending().len() ==> self.pending()[j] + 4 <= self.buf().len()
    }

    /// A fresh encoder with an empty buffer and no open containers.
    pub fn new() -> (s: Self)
        ensures
            s.buf() == Seq::<u8>::empty(),
            s.pending() == Seq::<usize>::empty(),
    {
        BytesSerializer { buffer: Vec::new(), offsets: Vec::new() }
    }

    /// Appends the one-byte encoding of a boolean.
    pub fn serialize_bool(&mut self, v: bool)
        ensures
            final(self).buf() == old(self).buf() + encoding(SpecValue::Bool(v)),
            final(self).pending() == old(self).pending(),
    {
        self.buffer.push(if v { 1 } else { 0 });
    }

    /// Appends the raw byte of an 8-bit unsigned integer.
    pub fn serialize_u8(&mut self, v: u8)
        ensures
            final(self).buf() == old(self).buf() + encoding(SpecValue::U8(v)),
            final(self).pending() == old(self).pending(),
    {
        self.buffer.push(v);
    }

    /// Appends the four little-endian bytes of a 32-bit unsigned integer.
    pub fn serialize_u32(&mut self, v: u32)
        ensures
            final(self).buf() == old(self).buf() + encoding(SpecValue::U32(v)),
            final(self).pending() == old(self).pending(),
    {
        self.buffer.push((v % 256) as u8);
        self.buffer.push(((v / 256) % 256) as u8);
        self.buffer.push(((v / 65536) % 256) as u8);
        self.buffer.push(((v / 16777216) % 256) as u8);
        proof {
            assert(self.buf() =~= old(self).buf() + le32(v as int));
        }
    }

    /// Opens a container: reserves a 4-byte placeholder at the end of the
    /// buffer and remembers its offset for the later backpatch.
    pub fn start_bytelen_encoding(&mut self)
        ensures
            old(self).buf().len() <= usize::MAX,
            final(self).buf() == old(self).buf() + le32(0),
            final(self).pending() == old(self).pending().push(old(self).buf().len() as usize),
    {
        let off = self.buffer.len();
        self.offsets.push(off);
        self.buffer.push(0);
        self.buffer.push(0);
        self.buffer.push(0);
        self.buffer.push(0);
        proof {
            assert(self.buf() =~= old(self).buf() + le32(0));
        }
    }

    /// Closes the innermost open container: pops its placeholder offset and
    /// overwrites the placeholder with the byte length of what was produced
    /// after it. Fails, leaving the state untouched, only when that payload
    /// is longer than a 4-byte prefix can measure.
    pub fn end_bytelen_encoding(&mut self) -> (r: Result<(), Error>)
        requires
            old(self).wf(),
            old(self).pending().len() > 0,
        ensures
            final(self).wf(),
            match r {
                Ok(u) => {
                    let off = old(self).pending().last() as int;
                    let len = old(self).buf().len() - off - 4;
                    &&& len <= u32::MAX
                    &&& final(self).buf() == old(self).buf().subrange(0, off) + le32(len) + old(
                        self,
                    ).buf().subrange(off + 4, old(self).buf().len() as int)
                    &&& final(self).pending() == old(self).pending().drop_last()
                },
                Err(e) => {
                    &&& old(self).buf().len() - old(self).pending().last() - 4 > u32::MAX
                    &&& e matches Error::Custom(_)
                    &&& *final(self) == *old(self)
                },
            },
    {
        let n = self.offsets.len();
        let off = self.offsets[n - 1];
        let total = self.buffer.len();
        let len = total - off - 4;
        if len > u32::MAX as usize {
            return Err(Error::Custom("Payload too long for a 4-byte length prefix".to_owned()));
        }
        let _ = self.offsets.pop();
        let len32 = len as u32;
        self.buffer[off] = (len32 % 256) as u8;
        self.buffer[off + 1] = ((len32 / 256) % 256) as u8;
        self.buffer[off + 2] = ((len32 / 65536) % 256) as u8;
        self.buffer[off + 3] = ((len32 / 16777216) % 256) as u8;
        proof {
            assert(self.buf() =~= old(self).buf().subrange(0, off as int) + le32(len as int) + old(
                self,
            ).buf().subrange(off + 4, old(self).buf().len() as int));
            assert(self.pending() =~= old(self).pending().drop_last());
        }
        Ok(())
    }

    /// Appends the encodings of `fields` one after another, with no framing
    /// of its own: a variant's fields share the variant's outer prefix.
    fn encode_concat(&mut self, fields: &Vec<Value>) -> (r: Result<(), Error>)
        requires
            old(self).wf(),
        ensures
            final(self).wf(),
            match r {
                Ok(u) => {
                    &&& encode_fault_seq(values_view(fields@)) is None
                    &&& final(self).buf() == old(self).buf() + encoding_seq(values_view(fields@))
                    &&& final(self).pending() == old(self).pending()
                },
                Err(e) => (encode_fault_seq(values_view(fields@)) matches Some(f)
                    && encode_error_matches(f, e)),
            },
        decreases fields, 0int,
    {
        let ghost vs = values_view(fields@);
        let ghost base = old(self).buf();
        let ghost pend = old(self).pending();
        proof {
            crate::value::lemma_values_view(fields@);
        }
        let mut k: usize = 0;
        while k < fields.len()
            invariant
                self.wf(),
                k <= fields@.len(),
                vs == values_view(fields@),
                vs.len() == fields@.len(),
                forall|i: int| 0 <= i < fields@.len() ==> vs[i] == value_view(fields@[i]),
                encode_fault_seq(vs.take(k as int)) is None,
                self.buf() == base + encoding_seq(vs.take(k as int)),
                self.pending() == pend,
            decreases fields@.len() - k,
        {
            let ghost taken = vs.take(k as int);
            match self.encode_value(&fields[k]) {
                Ok(u) => {},
                Err(e) => {
                    proof {
                        assert(vs =~= taken + vs.skip(k as int));
                        lemma_encode_fault_seq_cat(taken, vs.skip(k as int));
                        assert(vs.skip(k as int)[0] == vs[k as int]);
                    }
                    return Err(e);
                },
            }
            proof {
                assert(vs.take(k as int + 1) =~= taken.push(vs[k as int]));
                lemma_encoding_seq_push(taken, vs[k as int]);
                lemma_encode_fault_seq_push(taken, vs[k as int]);
                assert(base + encoding_seq(taken) + encoding(vs[k as int]) =~= base + (encoding_seq(
                    taken,
                ) + encoding(vs[k as int])));
            }
            k = k + 1;
        }
        proof {
            assert(vs.take(fields@.len() as int) =~= vs);
        }
        Ok(())
    }

    /// Appends the encodings of map entries, key then value, with no framing
    /// of its own.
    fn encode_pairs_concat(&mut self, pairs: &Vec<(Value, Value)>) -> (r: Result<(), Error>)
        requires
            old(self).wf(),
        ensures
            final(self).wf(),
            match r {
                Ok(u) => {
                    &&& encode_fault_pairs(pairs_view(pairs@)) is None
                    &&& final(self).buf() == old(self).buf() + encoding_pairs(pairs_view(pairs@))
                    &&& final(self).pending() == old(self).pending()
                },
                Err(e) => (encode_fault_pairs(pairs_view(pairs@)) matches Some(f)
                    && encode_error_matches(f, e)),
            },
        decreases pairs, 0int,
    {
        let ghost ps = pairs_view(pairs@);
        let ghost base = old(self).buf();
        let ghost pend = old(self).pending();
        proof {
            crate::value::lemma_pairs_view(pairs@);
        }
        let mut k: usize = 0;
        while k < pairs.len()
            invariant
                self.wf(),
                k <= pairs@.len(),
                ps == pairs_view(pairs@),
                ps.len() == pairs@.len(),
                forall|i: int| 0 <= i < pairs@.len() ==> ps[i] == (
                    value_view(pairs@[i].0),
                    value_view(pairs@[i].1),
                ),
                encode_fault_pairs(ps.take(k as int)) is None,
                self.buf() == base + encoding_pairs(ps.take(k as int)),
                self.pending() == pend,
            decreases pairs@.len() - k,
        {
            let ghost taken = ps.take(k as int);
            proof {
                assert(ps =~= taken + ps.skip(k as int));
                assert(ps.skip(k as int)[0] == ps[k as int]);
            }
            match self.encode_value(&pairs[k].0) {
                Ok(u) => {},
                Err(e) => {
                    proof {
                        lemma_encode_fault_pairs_cat(taken, ps.skip(k as int));
                    }
                    return Err(e);
                },
            }
            match self.encode_value(&pairs[k].1) {
                Ok(u) => {},
                Err(e) => {
                    proof {
                        lemma_encode_fault_pairs_cat(taken, ps.skip(k as int));
                    }
                    return Err(e);
                },
            }
            proof {
                assert(ps.take(k as int + 1) =~= taken.push(ps[k as int]));
                lemma_encoding_pairs_push(taken, ps[k as int]);
                lemma_encode_fault_pairs_push(taken, ps[k as int]);
                assert(base + encoding_pairs(taken) + encoding(ps[k as int].0) + encoding(
                    ps[k as int].1,
                ) =~= base + (encoding_pairs(taken) + encoding(ps[k as int].0) + encoding(
                    ps[k as int].1,
                )));
            }
            k = k + 1;
        }
        proof {
            assert(ps.take(pairs@.len() as int) =~= ps);
        }
        Ok(())
    }

    /// Encodes one framed container: reserves the prefix, appends the
    /// element encodings, and backpatches the prefix with their byte length.
    fn encode_list(&mut self, elems: &Vec<Value>) -> (r: Result<(), Error>)
        requires
            old(self).wf(),
        ensures
            final(self).wf(),
            match r {
                Ok(u) => {
                    let payload = encoding_seq(values_view(elems@));
                    &&& encode_fault_seq(values_view(elems@)) is None
                    &&& payload.len() <= u32::MAX
                    &&& final(self).buf() == old(self).buf() + le32(payload.len() as int) + payload
                    &&& final(self).pending() == old(self).pending()
                },
                Err(e) => match encode_fault_seq(values_view(elems@)) {
                    Some(f) => encode_error_matches(f, e),
                    None => encoding_seq(values_view(elems@)).len() > u32::MAX && (e
                        matches Error::Custom(_)),
                },
            },
        decreases elems, 1int,
    {
        let ghost base = old(self).buf();
        let ghost payload = encoding_seq(values_view(elems@));
        self.start_bytelen_encoding();
        match self.encode_concat(elems) {
            Ok(u) => {},
            Err(e) => {
                return Err(e);
            },
        }
        proof {
            assert(self.pending().last() == base.len());
            assert(self.buf() =~= base + le32(0) + payload);
        }
        match self.end_bytelen_encoding() {
            Ok(u) => {
                proof {
                    assert(self.buf().subrange(0, base.len() as int) =~= base);
                    assert((base + le32(0) + payload).subrange(0, base.len() as int) =~= base);
                    assert((base + le32(0) + payload).subrange(
                        base.len() as int + 4,
                        (base + le32(0) + payload).len() as int,
                    ) =~= payload);
                    assert(self.buf() =~= base + le32(payload.len() as int) + payload);
                    assert(self.pending() =~= old(self).pending());
                }
                Ok(())
            },
            Err(e) => {
                proof {
                    assert((base + le32(0) + payload).len() - base.len() - 4 == payload.len());
                }
                Err(e)
            },
        }
    }

    /// Encodes one framed map: reserves the prefix, appends the entry
    /// encodings, and backpatches the prefix with their byte length.
    fn encode_table(&mut self, pairs: &Vec<(Value, Value)>) -> (r: Result<(), Error>)
        requires
            old(self).wf(),
        ensures
            final(self).wf(),
            match r {
                Ok(u) => {
                    let payload = encoding_pairs(pairs_view(pairs@));
                    &&& encode_fault_pairs(pairs_view(pairs@)) is None
                    &&& payload.len() <= u32::MAX
                    &&& final(self).buf() == old(self).buf() + le32(payload.len() as int) + payload
                    &&& final(self).pending() == old(self).pending()
                },
                Err(e) => match encode_fault_pairs(pairs_view(pairs@)) {
                    Some(f) => encode_error_matches(f, e),
                    None => encoding_pairs(pairs_view(pairs@)).len() > u32::MAX && (e
                        matches Error::Custom(_)),
                },
            },
        decreases pairs, 1int,
    {
        let ghost base = old(self).buf();
        let ghost payload = encoding_pairs(pairs_view(pairs@));
        self.start_bytelen_encoding();
        match self.encode_pairs_concat(pairs) {
            Ok(u) => {},
            Err(e) => {
                return Err(e);
            },
        }
        proof {
            assert(self.pending().last() == base.len());
            assert(self.buf() =~= base + le32(0) + payload);
        }
        match self.end_bytelen_encoding() {
            Ok(u) => {
                proof {
                    assert(self.buf().subrange(0, base.len() as int) =~= base);
                    assert((base + le32(0) + payload).subrange(0, base.len() as int) =~= base);
                    assert((base + le32(0) + payload).subrange(
                        base.len() as int + 4,
                        (base + le32(0) + payload).len() as int,
                    ) =~= payload);
                    assert(self.buf() =~= base + le32(payload.len() as int) + payload);
                    assert(self.pending() =~= old(self).pending());
                }
                Ok(())
            },
            Err(e) => {
                proof {
                    assert((base + le32(0) + payload).len() - base.len() - 4 == payload.len());
                }
                Err(e)
            },
        }
    }

    /// Encodes `value` into a freshly produced byte sequence, leaving the
    /// encoder empty again for the next top-level call.
    ///
    /// Returns the bytes of `encoding(value@)` exactly when the value has no
    /// encode fault; otherwise the error that `encode_fault(value@)` names.
    pub fn to_bytes(&mut self, value: &Value) -> (r: Result<Vec<u8>, Error>)
        requires
            old(self).buf().len() == 0,
            old(self).pending().len() == 0,
        ensures
            match r {
                Ok(bytes) => {
                    &&& encode_fault(value@) is None
                    &&& bytes@ == encoding(value@)
                },
                Err(e) => (encode_fault(value@) matches Some(f) && encode_error_matches(f, e)),
            },
    {
        match self.encode_value(value) {
            Ok(u) => {},
            Err(e) => {
                return Err(e);
            },
        }
        let mut out: Vec<u8> = Vec::new();
        core::mem::swap(&mut out, &mut self.buffer);
        proof {
            assert(out@ =~= encoding(value@));
        }
        Ok(out)
    }

    /// Encodes one shape-described value, appending its bytes to the buffer.
    ///
    /// On success the buffer has grown by exactly `encoding(v@)` and the
    /// stack of open containers is as it was. On failure the reported error
    /// is the one `encode_fault(v@)` names; an unsupported scalar is
    /// rejected before anything is written.
    pub fn encode_value(&mut self, v: &Value) -> (r: Result<(), Error>)
        requires
            old(self).wf(),
        ensures
            final(self).wf(),
            match r {
                Ok(u) => {
                    &&& encode_fault(v@) is None
                    &&& final(self).buf() == old(self).buf() + encoding(v@)
                    &&& final(self).pending() == old(self).pending()
                },
                Err(e) => {
                    &&& (encode_fault(v@) matches Some(f) && encode_error_matches(f, e))
                    &&& (v@ matches SpecValue::Unsupported(_) ==> *final(self) == *old(self))
                },
            },
        decreases v, 2int,
    {
        match v {
            Value::Bool(x) => {
                self.serialize_bool(*x);
                Ok(())
            },
            Value::U8(x) => {
                self.serialize_u8(*x);
                Ok(())
            },
            Value::U32(x) => {
                self.serialize_u32(*x);
                Ok(())
            },
            Value::Optional(opt) => match opt {
                Option::None => {
                    self.buffer.push(0);
                    proof {
                        assert(self.buf() =~= old(self).buf() + encoding(v@));
                    }
                    Ok(())
                },
                Option::Some(inner) => {
                    self.buffer.push(1);
                    proof {
                        assert forall|j: int|
                            0 <= j < self.pending().len() implies self.pending()[j] + 4
                            <= self.buf().len() by {
                            assert(old(self).pending()[j] + 4 <= old(self).buf().len());
                        }
                    }
                    match self.encode_value(&**inner) {
                        Ok(u) => {
                            proof {
                                assert(self.buf() =~= old(self).buf() + (seq![1u8] + encoding(
                                    value_view(**inner),
                                )));
                            }
                            Ok(())
                        },
                        Err(e) => Err(e),
                    }
                },
            },
            Value::Unit => {
                self.buffer.push(0);
                proof {
                    assert(self.buf() =~= old(self).buf() + encoding(v@));
                }
                Ok(())
            },
            Value::Newtype(inner) => self.encode_value(&**inner),
            Value::Sequence(elems) => self.encode_list(elems),
            Value::Record(fields) => self.encode_list(fields),
            Value::Table(pairs) => self.encode_table(pairs),
            Value::Variant(idx, data) => {
                let ghost base = old(self).buf();
                let ghost pbytes = crate::format::encoding_payload(crate::value::payload_view(
                    *data,
                ));
                self.start_bytelen_encoding();
                if *idx > 255 {
                    return Err(Error::InvalidData);
                }
                self.buffer.push(*idx as u8);
                proof {
                    assert forall|j: int|
                        0 <= j < self.pending().len() implies self.pending()[j] + 4
                        <= self.buf().len() by {
                        if j < self.pending().len() - 1 {
                            assert(old(self).pending()[j] + 4 <= old(self).buf().len());
                        }
                    }
                }
                match data {
                    VariantPayload::Unit => {},
                    VariantPayload::Newtype(inner) => match self.encode_value(&**inner) {
                        Ok(u) => {},
                        Err(e) => {
                            proof {
                                assert(crate::format::encode_fault_payload(
                                    crate::value::payload_view(*data),
                                ) == encode_fault(value_view(**inner)));
                                assert(encode_fault(v@) == encode_fault(value_view(**inner)));
                            }
                            return Err(e);
                        },
                    },
                    VariantPayload::Fields(fields) => match self.encode_concat(fields) {
                        Ok(u) => {},
                        Err(e) => {
                            proof {
                                assert(crate::format::encode_fault_payload(
                                    crate::value::payload_view(*data),
                                ) == encode_fault_seq(values_view(fields@)));
                                assert(encode_fault(v@) == encode_fault_seq(values_view(fields@)));
                            }
                            return Err(e);
                        },
                    },
                }
                proof {
                    assert(self.pending().last() == base.len());
                    assert(self.buf() =~= base + le32(0) + (seq![(idx as u8)] + pbytes));
                }
                match self.end_bytelen_encoding() {
                    Ok(u) => {
                        proof {
                            let inner = seq![(idx as u8)] + pbytes;
                            assert((base + le32(0) + inner).subrange(0, base.len() as int)
                                =~= base);
                            assert((base + le32(0) + inner).subrange(
                                base.len() as int + 4,
                                (base + le32(0) + inner).len() as int,
                            ) =~= inner);
                            assert(self.buf() =~= base + le32(1 + pbytes.len() as int) + seq![
                                (idx as u8),
                            ] + pbytes);
                            assert(self.pending() =~= old(self).pending());
                        }
                        Ok(())
                    },
                    Err(e) => {
                        proof {
                            let inner = seq![(idx as u8)] + pbytes;
                            assert((base + le32(0) + inner).len() - base.len() - 4 == 1
                                + pbytes.len());
                        }
                        Err(e)
                    },
                }
            },
            Value::Unsupported(_) => Err(Error::Unimplemented),
        }
    }
}

/// Encodes one shape-described value on a fresh encoder.
///
/// Returns the bytes of `encoding(value@)` exactly when the value has no
/// encode fault; otherwise the error that `encode_fault(value@)` names.
pub fn to_bytes(value: &Value) -> (r: Result<Vec<u8>, Error>)
    ensures
        match r {
            Ok(bytes) => {
                &&& encode_fault(value@) is None
                &&& bytes@ == encoding(value@)
            },
            Err(e) => (encode_fault(value@) matches Some(f) && encode_error_matches(f, e)),
        },
{
    let mut ser = BytesSerializer::new();
    ser.to_bytes(value)
}

} // verus!
