//! The encoding of values, done by `bincode`. Keys and values reach the store
//! as bytes that are encoded already; the store itself encodes one value
//! only, the tombstone.

use vstd::prelude::*;

verus! {

/// The `n` low-order bytes of `x`, least significant byte first.
pub open spec fn le_bytes(x: nat, n: nat) -> Seq<u8>
    decreases n,
{
    if n == 0 {
        Seq::empty()
    } else {
        seq![(x % 256) as u8] + le_bytes(x / 256, (n - 1) as nat)
    }
}

/// The encoding of a byte string: its length in eight bytes, least
/// significant first, and then its bytes.
pub open spec fn encoded(data: Seq<u8>) -> Seq<u8> {
    le_bytes(data.len(), 8) + data
}

/// `bincode::serialize` on a byte slice. It writes the slice as a sequence:
/// the length as a `u64`, little-endian, then one byte for each byte. It puts
/// no limit on the size and writes into a vector, so it does not fail.
#[verifier::external_body]
pub(crate) fn serialize_bytes(data: &[u8]) -> (bytes: Result<Vec<u8>, Box<bincode::ErrorKind>>)
    ensures
        bytes is Ok,
        bytes matches Ok(v) ==> v@ == encoded(data@),
{
    bincode::serialize(data)
}

} // verus!
