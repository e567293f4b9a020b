//! Serialization of tagged text documents into a fixed/variable binary
//! encoding: a typed value model reconstructed from a generic document tree,
//! and a recursive serializer that decides at every node whether the node's
//! byte form is fixed-width or carries a little-endian length prefix.

pub mod bytes;
pub mod de;
pub mod doc;
pub mod num;
pub mod ser;
pub mod value;

use vstd::prelude::*;

use crate::bytes::{le_bytes, prefixed, with_len_prefix};
use crate::de::{MalformedValue, reconstruct, spec_reconstruct};
use crate::doc::DocNode;
use crate::ser::{encoding, serialize};

verus! {

/// Encodes a raw byte string the way a variable-length value is framed:
/// a 4-byte little-endian byte-length prefix followed by the bytes.
pub fn binary_to_ssz(data: Vec<u8>) -> (r: Vec<u8>)
    ensures
        r@ == with_len_prefix(data@),
        r@ == le_bytes(data@.len() as int, 4) + data@,
{
    prefixed(data)
}

/// The whole pipeline: reconstructs a typed value from a generic document
/// tree and serializes it. The bytes are fully determined by the document,
/// so one document always yields one byte string; a document violating the
/// reconstruction rules yields exactly the error `spec_reconstruct` names.
pub fn document_to_ssz(n: &DocNode) -> (r: Result<Vec<u8>, MalformedValue>)
    ensures
        (r matches Ok(bytes) && spec_reconstruct(n@) matches Ok(v) && bytes@ == encoding(v)) || (
        r matches Err(e) && spec_reconstruct(n@) matches Err(e2) && e@ == e2),
{
    match reconstruct(n) {
        Ok(v) => Ok(serialize(&v)),
        Err(e) => Err(e),
    }
}

} // verus!
