//! The record framer: a payload wrapped as length, digest, payload, giving
//! torn-write detection on disk without a separate journal.

use vstd::prelude::*;

verus! {

/// Integrity failures of a framed record.
#[derive(Debug)]
pub enum IOError {
    HashMismatch,
    FileSizeMismatch,
}

/// The digest of a byte sequence. The digest is a function of the bytes
/// alone, 64 bytes long.
pub uninterp spec fn sha512_of(data: Seq<u8>) -> Seq<u8>;

/// Relies on sha2's Sha512 digest: a fixed 64-byte digest computed from the
/// input bytes alone.
#[verifier::external_body]
fn sha512(data: &Vec<u8>) -> (r: Vec<u8>)
    ensures
        r@ == sha512_of(data@),
        r@.len() == 64,
{
    <sha2::Sha512 as sha2::Digest>::digest(data.as_slice()).to_vec()
}

/// The eight little-endian bytes of a length.
pub open spec fn le64(n: u64) -> Seq<u8> {
    seq![
        n as u8,
        (n >> 8) as u8,
        (n >> 16) as u8,
        (n >> 24) as u8,
        (n >> 32) as u8,
        (n >> 40) as u8,
        (n >> 48) as u8,
        (n >> 56) as u8,
    ]
}

/// The length read back from eight little-endian bytes.
pub open spec fn le64_decode(b: Seq<u8>) -> u64
    recommends
        b.len() == 8,
{
    ((b[0] as u64) | ((b[1] as u64) << 8) | ((b[2] as u64) << 16) | ((b[3] as u64) << 24) | ((
    b[4] as u64) << 32) | ((b[5] as u64) << 40) | ((b[6] as u64) << 48) | ((b[7] as u64) << 56))
}

/// Little-endian length encoding reads back to the length.
pub proof fn lemma_le64_round_trip(n: u64)
    ensures
        le64_decode(le64(n)) == n,
{
    let b = le64(n);
    assert(b[0] == n as u8 && b[1] == (n >> 8) as u8 && b[2] == (n >> 16) as u8 && b[3] == (n
        >> 24) as u8 && b[4] == (n >> 32) as u8 && b[5] == (n >> 40) as u8 && b[6] == (n >> 48) as u8
        && b[7] == (n >> 56) as u8);
    assert((((n as u8) as u64) | ((((n >> 8) as u8) as u64) << 8) | ((((n >> 16) as u8) as u64)
        << 16) | ((((n >> 24) as u8) as u64) << 24) | ((((n >> 32) as u8) as u64) << 32) | ((((n
        >> 40) as u8) as u64) << 40) | ((((n >> 48) as u8) as u64) << 48) | ((((n
        >> 56) as u8) as u64) << 56)) == n) by (bit_vector);
}

/// The framed form of a payload: length, digest, payload.
pub open spec fn frame_spec(payload: Seq<u8>) -> Seq<u8> {
    le64(payload.len() as u64) + sha512_of(payload) + payload
}

/// What reading a framed record yields: the payload when the length and the
/// digest both check out, the matching integrity failure otherwise. A record
/// shorter than its fixed header cannot carry any length, and counts as a
/// size mismatch.
pub open spec fn unframe_spec(bytes: Seq<u8>) -> Result<Seq<u8>, IOError> {
    if bytes.len() < 72 {
        Err(IOError::FileSizeMismatch)
    } else if bytes.len() - 72 != le64_decode(bytes.subrange(0, 8)) as int {
        Err(IOError::FileSizeMismatch)
    } else if sha512_of(bytes.skip(72)) != bytes.subrange(8, 72) {
        Err(IOError::HashMismatch)
    } else {
        Ok(bytes.skip(72))
    }
}

/// A framed payload always reads back intact.
pub proof fn lemma_frame_round_trip(payload: Seq<u8>)
    requires
        payload.len() <= u64::MAX,
        sha512_of(payload).len() == 64,
    ensures
        unframe_spec(frame_spec(payload)) == Ok::<Seq<u8>, IOError>(payload),
{
    let f = frame_spec(payload);
    lemma_le64_round_trip(payload.len() as u64);
    assert(f.subrange(0, 8) =~= le64(payload.len() as u64));
    assert(f.subrange(8, 72) =~= sha512_of(payload));
    assert(f.skip(72) =~= payload);
}

/// Wrap a payload in the framed form.
pub fn frame(payload: &Vec<u8>) -> (r: Vec<u8>)
    requires
        payload@.len() <= u64::MAX,
    ensures
        r@ == frame_spec(payload@),
        sha512_of(payload@).len() == 64,
{
    let n = payload.len() as u64;
    let mut out: Vec<u8> = Vec::new();
    out.push(n as u8);
    out.push((n >> 8) as u8);
    out.push((n >> 16) as u8);
    out.push((n >> 24) as u8);
    out.push((n >> 32) as u8);
    out.push((n >> 40) as u8);
    out.push((n >> 48) as u8);
    out.push((n >> 56) as u8);
    proof {
        assert(out@ =~= le64(n));
    }
    let mut digest = sha512(payload);
    out.append(&mut digest);
    let mut i: usize = 0;
    let ghost mid = out@;
    while i < payload.len()
        invariant
            0 <= i <= payload@.len(),
            out@.len() == mid.len() + i,
            out@ =~= mid + payload@.take(i as int),
        decreases payload@.len() - i,
    {
        out.push(payload[i]);
        proof {
            assert(out@ =~= mid + payload@.take(i + 1));
        }
        i = i + 1;
    }
    proof {
        assert(payload@.take(payload@.len() as int) =~= payload@);
        assert(out@ =~= frame_spec(payload@));
    }
    out
}

/// Read a framed record back: check the length, check the digest, hand out
/// the payload.
pub fn unframe(bytes: &Vec<u8>) -> (r: Result<Vec<u8>, IOError>)
    ensures
        (match r {
            Ok(p) => unframe_spec(bytes@) == Ok::<Seq<u8>, IOError>(p@),
            Err(e) => unframe_spec(bytes@) == Err::<Seq<u8>, IOError>(e),
        }),
{
    if bytes.len() < 72 {
        return Err(IOError::FileSizeMismatch);
    }
    let n: u64 = (bytes[0] as u64) | ((bytes[1] as u64) << 8) | ((bytes[2] as u64) << 16) | ((
    bytes[3] as u64) << 24) | ((bytes[4] as u64) << 32) | ((bytes[5] as u64) << 40) | ((
    bytes[6] as u64) << 48) | ((bytes[7] as u64) << 56);
    proof {
        assert(bytes@.subrange(0, 8)[0] == bytes@[0]);
        assert(n == le64_decode(bytes@.subrange(0, 8)));
    }
    let payload_len = bytes.len() - 72;
    if !(payload_len as u64 == n) {
        proof {
            assert(bytes@.len() - 72 != le64_decode(bytes@.subrange(0, 8)) as int);
        }
        return Err(IOError::FileSizeMismatch);
    }
    proof {
        assert(bytes@.len() - 72 == le64_decode(bytes@.subrange(0, 8)) as int);
    }
    let mut payload: Vec<u8> = Vec::new();
    let mut i: usize = 0;
    while i < payload_len
        invariant
            bytes@.len() == payload_len + 72,
            payload_len + 72 <= usize::MAX,
            bytes@.len() - 72 == le64_decode(bytes@.subrange(0, 8)) as int,
            0 <= i <= payload_len,
            payload@ =~= bytes@.subrange(72, 72 + i as int),
        decreases payload_len - i,
    {
        payload.push(bytes[72 + i]);
        proof {
            assert(payload@ =~= bytes@.subrange(72, 72 + i + 1));
        }
        i = i + 1;
    }
    proof {
        assert(payload@ =~= bytes@.skip(72));
    }
    let digest = sha512(&payload);
    let mut j: usize = 0;
    while j < 64
        invariant
            0 <= j <= 64,
            digest@.len() == 64,
            bytes@.len() >= 72,
            bytes@.len() - 72 == le64_decode(bytes@.subrange(0, 8)) as int,
            digest@ == sha512_of(bytes@.skip(72)),
            forall|j2: int| 0 <= j2 < j ==> digest@[j2] == bytes@[8 + j2],
        decreases 64 - j,
    {
        if !(digest[j] == bytes[8 + j]) {
            proof {
                assert(digest@[j as int] != bytes@.subrange(8, 72)[j as int]);
                assert(sha512_of(bytes@.skip(72)) != bytes@.subrange(8, 72));
            }
            return Err(IOError::HashMismatch);
        }
        j = j + 1;
    }
    proof {
        assert(sha512_of(bytes@.skip(72)) =~= bytes@.subrange(8, 72));
    }
    Ok(payload)
}

} // verus!
