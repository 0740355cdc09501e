//! Checked base-58: the payload, optionally led by a version byte, is framed
//! with the first four bytes of its double SHA-256 digest before encoding,
//! and the frame is verified and stripped again on decoding.

use vstd::prelude::*;

verus! {

use crate::alphabet::Alphabet;
use crate::codec::DecodeError;
use crate::codec::all_symbols_valid;
use crate::codec::b58decode;
use crate::codec::b58encode;
use crate::codec::decoded;
use crate::codec::encoded;

/// What SHA-256 returns on `data`; left unspecified but for what the trusted
/// wrapper below states of it.
pub uninterp spec fn sha256_of(data: Seq<u8>) -> Seq<u8>;

/// Relies on sha2::Sha256 through Digest::digest: a 32-byte digest that is a
/// function of the input bytes alone.
#[verifier::external_body]
fn sha256(data: &[u8]) -> (r: Vec<u8>)
    ensures
        r@ == sha256_of(data@),
        r@.len() == 32,
{
    <sha2::Sha256 as sha2::Digest>::digest(data).to_vec()
}

/// The first four bytes of `s`, zero-padded should `s` be shorter. The
/// digests it is applied to always hold 32 bytes, so the padding never
/// shows; it only keeps the length fixed at four.
pub open spec fn first_four(s: Seq<u8>) -> Seq<u8> {
    Seq::new(4, |i: int| if i < s.len() { s[i] } else { 0u8 })
}

/// The integrity trailer: the first four bytes of the double digest.
pub open spec fn checksum_of(data: Seq<u8>) -> Seq<u8> {
    first_four(sha256_of(sha256_of(data)))
}

/// The framed buffer whose plain encoding is the checked encoding: the
/// version byte if one is given, the payload, then the checksum over both.
pub open spec fn check_framed(payload: Seq<u8>, version: Option<u8>) -> Seq<u8> {
    let ext = match version {
        Some(v) => seq![v] + payload,
        None => payload,
    };
    ext + checksum_of(ext)
}

/// How many decoded bytes the frame needs before it can be split.
pub open spec fn check_min_len(version: Option<u8>) -> nat {
    match version {
        Some(_) => 5,
        None => 4,
    }
}

/// All but the trailing checksum of a checked decoding.
pub open spec fn checked_body(s: Seq<u8>, a: Alphabet) -> Seq<u8> {
    decoded(s, a).take(decoded(s, a).len() - 4)
}

/// The trailing four checksum bytes of a checked decoding.
pub open spec fn claimed_checksum(s: Seq<u8>, a: Alphabet) -> Seq<u8> {
    decoded(s, a).skip(decoded(s, a).len() - 4)
}

/// Compute the four-byte checksum of `data`.
fn checksum(data: &[u8]) -> (c: Vec<u8>)
    ensures
        c@ == checksum_of(data@),
{
    let h1 = sha256(data);
    let h2 = sha256(h1.as_slice());
    let mut c: Vec<u8> = Vec::new();
    c.push(h2[0]);
    c.push(h2[1]);
    c.push(h2[2]);
    c.push(h2[3]);
    proof {
        assert(c@ =~= checksum_of(data@));
    }
    c
}

/// Encode bytes with a checksum and, if given, a leading version byte.
pub fn b58encode_check(val: &[u8], alphabet: &Alphabet, expected_ver: Option<u8>) -> (r: Vec<u8>)
    requires
        alphabet.wf(),
    ensures
        r@ == encoded(check_framed(val@, expected_ver), *alphabet),
{
    let mut ext: Vec<u8> = Vec::new();
    if let Some(v) = expected_ver {
        ext.push(v);
    }
    let mut i: usize = 0;
    while i < val.len()
        invariant
            i <= val@.len(),
            ext@.len() == i + check_min_len(expected_ver) - 4,
            ext@ =~= (match expected_ver {
                Some(v) => seq![v] + val@.subrange(0, i as int),
                None => val@.subrange(0, i as int),
            }),
        decreases val@.len() - i,
    {
        ext.push(val[i]);
        i += 1;
    }
    let ghost framed_input = ext@;
    let c = checksum(ext.as_slice());
    let mut k: usize = 0;
    while k < c.len()
        invariant
            k <= c@.len(),
            ext@ =~= framed_input + c@.subrange(0, k as int),
        decreases c@.len() - k,
    {
        ext.push(c[k]);
        k += 1;
    }
    proof {
        assert(c@.subrange(0, c@.len() as int) =~= c@);
        assert(ext@ =~= framed_input + c@);
        assert(framed_input =~= (match expected_ver {
            Some(v) => seq![v] + val@,
            None => val@,
        }));
        assert(ext@ =~= check_framed(val@, expected_ver));
    }
    b58encode(ext.as_slice(), alphabet)
}

/// Decode a checked encoding: propagate any invalid symbol, demand enough
/// bytes for the frame, verify the checksum, then verify and strip the
/// version byte if one is expected.
pub fn b58decode_check(val: &[u8], alphabet: &Alphabet, expected_ver: Option<u8>) -> (r: Result<
    Vec<u8>,
    DecodeError,
>)
    requires
        alphabet.wf(),
    ensures
        !all_symbols_valid(val@, *alphabet) ==> (r matches Err(
            DecodeError::InvalidCharacter { position, byte },
        ) && position < val@.len() && !alphabet.spec_contains(val@[position as int]) && (
        forall|k: int| 0 <= k < position ==> alphabet.spec_contains(#[trigger] val@[k]))
            && byte == val@[position as int]),
        all_symbols_valid(val@, *alphabet) && decoded(val@, *alphabet).len() < check_min_len(
            expected_ver,
        ) ==> (r matches Err(DecodeError::BufferTooShort { actual, required })
            && actual == decoded(val@, *alphabet).len() && required == check_min_len(expected_ver)),
        all_symbols_valid(val@, *alphabet) && decoded(val@, *alphabet).len() >= check_min_len(
            expected_ver,
        ) && claimed_checksum(val@, *alphabet) != checksum_of(checked_body(val@, *alphabet)) ==> (
        r matches Err(DecodeError::ChecksumMismatch { expected, actual })
            && expected@ == checksum_of(checked_body(val@, *alphabet))
            && actual@ == claimed_checksum(val@, *alphabet)),
        all_symbols_valid(val@, *alphabet) && decoded(val@, *alphabet).len() >= check_min_len(
            expected_ver,
        ) && claimed_checksum(val@, *alphabet) == checksum_of(checked_body(val@, *alphabet))
            ==> (match expected_ver {
            Some(vb) => {
                if checked_body(val@, *alphabet)[0] == vb {
                    r matches Ok(out) && out@ == checked_body(val@, *alphabet).skip(1)
                } else {
                    r matches Err(DecodeError::VersionMismatch { expected, actual })
                        && expected == vb && actual == checked_body(val@, *alphabet)[0]
                }
            },
            None => r matches Ok(out) && out@ == checked_body(val@, *alphabet),
        }),
{
    let buf = match b58decode(val, alphabet) {
        Ok(v) => v,
        Err(e) => {
            return Err(e);
        },
    };
    let required: usize = match expected_ver {
        Some(_) => 5,
        None => 4,
    };
    if buf.len() < required {
        return Err(DecodeError::BufferTooShort { actual: buf.len(), required });
    }
    let n = buf.len();
    let mut body: Vec<u8> = Vec::new();
    let mut i: usize = 0;
    while i < n - 4
        invariant
            n == buf@.len(),
            n >= 4,
            i <= n - 4,
            body@ =~= buf@.subrange(0, i as int),
        decreases n - 4 - i,
    {
        body.push(buf[i]);
        i += 1;
    }
    proof {
        assert(body@ =~= checked_body(val@, *alphabet));
    }
    let tail: [u8; 4] = [buf[n - 4], buf[n - 3], buf[n - 2], buf[n - 1]];
    proof {
        assert(tail@ =~= claimed_checksum(val@, *alphabet));
    }
    let expect = checksum(body.as_slice());
    let expected: [u8; 4] = [expect[0], expect[1], expect[2], expect[3]];
    proof {
        assert(expected@ =~= checksum_of(checked_body(val@, *alphabet)));
    }
    if !(expected[0] == tail[0] && expected[1] == tail[1] && expected[2] == tail[2] && expected[3]
        == tail[3]) {
        return Err(DecodeError::ChecksumMismatch { expected, actual: tail });
    }
    proof {
        assert(expected@ =~= tail@);
    }
    match expected_ver {
        Some(vb) => {
            if body[0] != vb {
                return Err(DecodeError::VersionMismatch { expected: vb, actual: body[0] });
            }
            let mut out: Vec<u8> = Vec::new();
            let mut k: usize = 1;
            while k < body.len()
                invariant
                    1 <= k <= body@.len(),
                    out@ =~= body@.subrange(1, k as int),
                decreases body@.len() - k,
            {
                out.push(body[k]);
                k += 1;
            }
            proof {
                assert(out@ =~= checked_body(val@, *alphabet).skip(1));
            }
            Ok(out)
        },
        None => Ok(body),
    }
}

/// Checked round trip: for every payload, well-formed alphabet and optional
/// version byte, the checked encoding decodes cleanly — the frame is long
/// enough, the checksum agrees, the version byte agrees — and the body it
/// yields, once the version byte is stripped, is exactly the payload.
pub proof fn lemma_check_round_trip(p: Seq<u8>, a: Alphabet, version: Option<u8>)
    requires
        a.wf(),
    ensures
        all_symbols_valid(encoded(check_framed(p, version), a), a),
        decoded(encoded(check_framed(p, version), a), a).len() >= check_min_len(version),
        claimed_checksum(encoded(check_framed(p, version), a), a) == checksum_of(
            checked_body(encoded(check_framed(p, version), a), a),
        ),
        match version {
            Some(vb) => checked_body(encoded(check_framed(p, version), a), a)[0] == vb
                && checked_body(encoded(check_framed(p, version), a), a).skip(1) == p,
            None => checked_body(encoded(check_framed(p, version), a), a) == p,
        },
{
    let framed = check_framed(p, version);
    let s = encoded(framed, a);
    crate::codec::lemma_round_trip(framed, a);
    assert(decoded(s, a) == framed);
    let ext = match version {
        Some(v) => seq![v] + p,
        None => p,
    };
    assert(checksum_of(ext).len() == 4);
    assert(framed.len() == ext.len() + 4);
    assert(checked_body(s, a) =~= ext);
    assert(claimed_checksum(s, a) =~= checksum_of(ext));
    match version {
        Some(vb) => {
            assert(ext[0] == vb);
            assert(ext.skip(1) =~= p);
        },
        None => {},
    }
}

} // verus!
