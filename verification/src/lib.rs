//! A compact binary codec for shape-described values.
//!
//! Values are scalars (booleans, bytes, 32-bit words), optionals, unit-like
//! values, newtype wrappers, sequences, records, maps and tagged variants.
//! Containers are framed by a 4-byte little-endian byte-length prefix and are
//! self-delimiting: the decoder consumes elements until the declared byte
//! budget is exhausted. The wire format is specified by the spec functions in
//! [`format`], the encoder and decoder are proved against them, and the
//! round-trip and framing laws live in [`laws`].

pub mod de;
pub mod error;
pub mod format;
pub mod laws;
pub mod ser;
pub mod value;

pub use de::from_bytes;
pub use error::Error;
pub use ser::to_bytes;

use vstd::prelude::*;

use crate::error::{decode_error_matches, encode_error_matches};
use crate::format::{decode_len, encode_fault, encoding, fits};
use crate::value::{Shape, Value};

verus! {

/// Decodes a value of `shape` from a prefix of `data`, sizing the prefix by
/// the encoding of a default value of the same shape.
///
/// The caller supplies `default`, a representative value whose encoded
/// length equals the length of every value of the target shape; that is only
/// true of shapes without variable-length containers, and the choice is the
/// caller's. The default's encoding is produced only to learn that length;
/// `data` is then truncated to it and decoded.
pub fn load(data: Vec<u8>, default: &Value, shape: &Shape) -> (r: Result<Value, Error>)
    requires
        encode_fault(default@) is None ==> encoding(default@).len() <= data@.len(),
    ensures
        match encode_fault(default@) {
            Some(f) => (r matches Err(e) && encode_error_matches(f, e)),
            None => {
                let prefix = data@.subrange(0, encoding(default@).len() as int);
                match r {
                    Ok(v) => {
                        &&& decode_len(prefix, 0, shape@) is Ok
                        &&& fits(v@, shape@)
                        &&& encode_fault(v@) is None
                        &&& (decode_len(prefix, 0, shape@) matches Ok(n) && encoding(v@)
                            == prefix.subrange(0, n))
                    },
                    Err(e) => (decode_len(prefix, 0, shape@) matches Err(f)
                        && decode_error_matches(f, e)),
                }
            },
        },
{
    let encoded = match crate::ser::to_bytes(default) {
        Ok(encoded) => encoded,
        Err(e) => {
            return Err(e);
        },
    };
    let mut prefix: Vec<u8> = Vec::new();
    let mut i: usize = 0;
    while i < encoded.len()
        invariant
            i <= encoded@.len(),
            encoded@.len() <= data@.len(),
            prefix@ == data@.subrange(0, i as int),
        decreases encoded@.len() - i,
    {
        prefix.push(data[i]);
        i = i + 1;
    }
    proof {
        assert(prefix@ =~= data@.subrange(0, encoding(default@).len() as int));
    }
    crate::de::from_bytes(prefix.as_slice(), shape)
}

} // verus!
