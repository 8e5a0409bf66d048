//! Content-addressed unit identifiers.
//!
//! A unit's identifier is the SHA3-256 digest of a length-prefixed encoding of
//! the pair `(parent payload, payload)`. The genesis unit uses a fixed
//! sentinel byte string for both components, so its identifier is the same on
//! every peer.

use vstd::prelude::*;

verus! {

/// The SHA3-256 digest of a byte string, named but not written out: the
/// digest is a function of the input bytes alone.
pub uninterp spec fn sha3_of(bytes: Seq<u8>) -> Seq<u8>;

/// Relies on tiny_keccak::sha3_256: the SHA3-256 digest of the input, 32
/// bytes, depending on the input bytes alone.
#[verifier::external_body]
fn sha3_256_bytes(bytes: &Vec<u8>) -> (r: Vec<u8>)
    ensures
        r@ == sha3_of(bytes@),
        r@.len() == 32,
{
    tiny_keccak::sha3_256(bytes.as_slice()).to_vec()
}

/// The little-endian bytes of a 64-bit value, low byte first.
pub open spec fn le_bytes8(n: u64) -> Seq<u8> {
    seq![
        (n % 256) as u8,
        ((n / 256) % 256) as u8,
        ((n / 65536) % 256) as u8,
        ((n / 16777216) % 256) as u8,
        ((n / 4294967296) % 256) as u8,
        ((n / 1099511627776) % 256) as u8,
        ((n / 281474976710656) % 256) as u8,
        ((n / 72057594037927936) % 256) as u8,
    ]
}

/// The deterministic encoding of a pair of byte strings: each component is
/// preceded by its length as 8 little-endian bytes.
pub open spec fn encode_pair(a: Seq<u8>, b: Seq<u8>) -> Seq<u8> {
    le_bytes8(a.len() as u64) + a + le_bytes8(b.len() as u64) + b
}

/// The identifier of a unit, as a function of its parent's payload and its
/// own payload.
pub open spec fn unit_id_of(parent_payload: Seq<u8>, payload: Seq<u8>) -> Seq<u8> {
    sha3_of(encode_pair(parent_payload, payload))
}

/// The sentinel byte string: parent and payload of the genesis unit.
pub open spec fn sentinel() -> Seq<u8> {
    seq![0u8, 0u8, 0u8]
}

/// The identifier of the genesis unit, identical on every peer.
pub open spec fn genesis_identifier() -> Seq<u8> {
    unit_id_of(sentinel(), sentinel())
}

fn push_le_bytes8(out: &mut Vec<u8>, n: u64)
    ensures
        final(out)@ == old(out)@ + le_bytes8(n),
{
    out.push((n % 256) as u8);
    out.push(((n / 256) % 256) as u8);
    out.push(((n / 65536) % 256) as u8);
    out.push(((n / 16777216) % 256) as u8);
    out.push(((n / 4294967296) % 256) as u8);
    out.push(((n / 1099511627776) % 256) as u8);
    out.push(((n / 281474976710656) % 256) as u8);
    out.push(((n / 72057594037927936) % 256) as u8);
    proof {
        assert(out@ =~= old(out)@ + le_bytes8(n));
    }
}

fn push_bytes(out: &mut Vec<u8>, bytes: &Vec<u8>)
    ensures
        final(out)@ == old(out)@ + bytes@,
{
    let mut i: usize = 0;
    while i < bytes.len()
        invariant
            i <= bytes@.len(),
            out@ == old(out)@ + bytes@.take(i as int),
        decreases bytes@.len() - i,
    {
        out.push(bytes[i]);
        proof {
            assert(out@ =~= old(out)@ + bytes@.take(i + 1));
        }
        i += 1;
    }
    proof {
        assert(bytes@.take(bytes@.len() as int) =~= bytes@);
    }
}

/// Build the encoding of a pair of byte strings.
fn encode_pair_bytes(a: &Vec<u8>, b: &Vec<u8>) -> (r: Vec<u8>)
    ensures
        r@ == encode_pair(a@, b@),
{
    let mut out: Vec<u8> = Vec::new();
    push_le_bytes8(&mut out, a.len() as u64);
    push_bytes(&mut out, a);
    push_le_bytes8(&mut out, b.len() as u64);
    push_bytes(&mut out, b);
    proof {
        assert(out@ =~= encode_pair(a@, b@));
    }
    out
}

/// Compute the identifier of a unit from its parent's payload and its own.
pub fn compute_unit_id(parent_payload: &Vec<u8>, payload: &Vec<u8>) -> (r: Vec<u8>)
    ensures
        r@ == unit_id_of(parent_payload@, payload@),
        r@.len() == 32,
{
    let encoded = encode_pair_bytes(parent_payload, payload);
    sha3_256_bytes(&encoded)
}

/// Build the sentinel byte string.
pub fn sentinel_bytes() -> (r: Vec<u8>)
    ensures
        r@ == sentinel(),
{
    let mut v: Vec<u8> = Vec::new();
    v.push(0u8);
    v.push(0u8);
    v.push(0u8);
    proof {
        assert(v@ =~= sentinel());
    }
    v
}
} // verus!
