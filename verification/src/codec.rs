//! Plain base-58 conversion: a byte buffer is read as a big-endian base-256
//! number and re-expressed in base 58, with every leading zero byte kept as
//! one leading zero-digit symbol, and back.

use vstd::prelude::*;

verus! {

use crate::alphabet::Alphabet;
use crate::alphabet::NO_DIGIT;
use crate::digits::digits_below;
use crate::digits::change_base;
use crate::digits::leading_zeros;
use crate::digits::lemma_leading_zeros_prepend;
use crate::digits::lemma_leading_zeros_props;
use crate::digits::lemma_repr_of_val;
use crate::digits::lemma_repr_props;
use crate::digits::lemma_val_prepend_zeros;
use crate::digits::radix_repr;
use crate::digits::radix_val;
use crate::digits::zero_seq;

/// Why decoding failed. Every failure is detected at the point of violation
/// and returned at once; no partial result is handed out.
#[derive(Debug, Clone, PartialEq, Eq)]
pub enum DecodeError {
    /// `byte`, at index `position`, is not a symbol of the active alphabet;
    /// `position` is the first such index.
    InvalidCharacter { position: usize, byte: u8 },
    /// The decoded buffer held `actual` bytes where the checksum frame needs
    /// at least `required`.
    BufferTooShort { actual: usize, required: usize },
    /// The checksum recomputed over the body (`expected`) differs from the
    /// trailing four bytes (`actual`).
    ChecksumMismatch { expected: [u8; 4], actual: [u8; 4] },
    /// The first body byte (`actual`) is not the version the caller asked for.
    VersionMismatch { expected: u8, actual: u8 },
}

/// The digit string an input encodes to: one zero digit per leading zero
/// byte, then the minimal base-58 representation of the input's value.
pub open spec fn encode_digits(x: Seq<u8>) -> Seq<u8> {
    zero_seq(leading_zeros(x)) + radix_repr(radix_val(x, 256), 58)
}

/// The full encoding of `x` under alphabet `a`: its digit string, symbol by
/// symbol.
pub open spec fn encoded(x: Seq<u8>, a: Alphabet) -> Seq<u8> {
    encode_digits(x).map_values(|d: u8| a.spec_symbol(d as int))
}

/// Each input byte read back as a digit value through the alphabet.
pub open spec fn symbol_digits(s: Seq<u8>, a: Alphabet) -> Seq<u8> {
    s.map_values(|c: u8| a.spec_digit(c))
}

/// Every byte of `s` is a symbol of `a`.
pub open spec fn all_symbols_valid(s: Seq<u8>, a: Alphabet) -> bool {
    forall|i: int| 0 <= i < s.len() ==> a.spec_contains(#[trigger] s[i])
}

/// The byte string a valid input decodes to: one zero byte per leading zero
/// digit, then the minimal base-256 representation of the digits' value.
pub open spec fn decoded(s: Seq<u8>, a: Alphabet) -> Seq<u8> {
    let d = symbol_digits(s, a);
    zero_seq(leading_zeros(d)) + radix_repr(radix_val(d, 58), 256)
}

/// Encode bytes into base-58.
pub fn b58encode(val: &[u8], alphabet: &Alphabet) -> (r: Vec<u8>)
    requires
        alphabet.wf(),
    ensures
        r@ == encoded(val@, *alphabet),
{
    let mut work: Vec<u8> = Vec::new();
    let mut i: usize = 0;
    while i < val.len()
        invariant
            i <= val@.len(),
            work@ =~= val@.subrange(0, i as int),
        decreases val@.len() - i,
    {
        work.push(val[i]);
        i += 1;
    }
    assert(work@ =~= val@);
    let mut lz: usize = 0;
    while lz < val.len() && val[lz] == 0
        invariant
            lz <= val@.len(),
            forall|k: int| 0 <= k < lz ==> val@[k] == 0,
        decreases val@.len() - lz,
    {
        lz += 1;
    }
    proof {
        lemma_leading_zeros_props(val@);
        assert(lz == leading_zeros(val@)) by {
            if lz < leading_zeros(val@) {
                assert(val@[lz as int] == 0);
            }
            if leading_zeros(val@) < lz {
                assert(val@[leading_zeros(val@) as int] == 0);
            }
        }
    }
    let digits = change_base(&work, 256, 58);
    let ghost dg = encode_digits(val@);
    proof {
        lemma_repr_props(radix_val(val@, 256), 58);
    }
    let mut r: Vec<u8> = Vec::new();
    let zero_symbol = alphabet.symbol(0);
    let mut k: usize = 0;
    while k < lz
        invariant
            k <= lz,
            r@.len() == k,
            forall|j: int| 0 <= j < k ==> r@[j] == alphabet.spec_symbol(0),
            zero_symbol == alphabet.spec_symbol(0),
        decreases lz - k,
    {
        r.push(zero_symbol);
        k += 1;
    }
    let mut m: usize = 0;
    while m < digits.len()
        invariant
            alphabet.wf(),
            m <= digits@.len(),
            digits_below(digits@, 58),
            r@.len() == lz + m,
            forall|j: int| 0 <= j < lz ==> r@[j] == alphabet.spec_symbol(0),
            forall|j: int| 0 <= j < m ==> r@[lz + j] == alphabet.spec_symbol(digits@[j] as int),
        decreases digits@.len() - m,
    {
        let d = digits[m];
        assert((digits@[m as int] as nat) < 58);
        r.push(alphabet.symbol(d as usize));
        m += 1;
    }
    proof {
        assert(dg.len() == lz + digits@.len());
        assert forall|j: int| 0 <= j < dg.len() implies r@[j] == alphabet.spec_symbol(dg[j] as int) by {
            if j < lz {
                assert(dg[j] == 0);
            } else {
                assert(dg[j] == digits@[j - lz]);
            }
        }
        assert(r@ =~= encoded(val@, *alphabet));
    }
    r
}

/// Decode a base-58 value.
pub fn b58decode(val: &[u8], alphabet: &Alphabet) -> (r: Result<Vec<u8>, DecodeError>)
    requires
        alphabet.wf(),
    ensures
        all_symbols_valid(val@, *alphabet) ==> (r matches Ok(out) && out@ == decoded(
            val@,
            *alphabet,
        )),
        !all_symbols_valid(val@, *alphabet) ==> (r matches Err(
            DecodeError::InvalidCharacter { position, byte },
        ) && position < val@.len() && !alphabet.spec_contains(val@[position as int]) && (
        forall|k: int| 0 <= k < position ==> alphabet.spec_contains(#[trigger] val@[k]))
            && byte == val@[position as int]),
{
    let ghost dg = symbol_digits(val@, *alphabet);
    let mut digits: Vec<u8> = Vec::new();
    let mut i: usize = 0;
    while i < val.len()
        invariant
            alphabet.wf(),
            i <= val@.len(),
            digits@.len() == i,
            forall|k: int| 0 <= k < i ==> alphabet.spec_contains(#[trigger] val@[k]),
            forall|k: int| 0 <= k < i ==> digits@[k] == alphabet.spec_digit(val@[k]),
        decreases val@.len() - i,
    {
        let d = alphabet.digit(val[i]);
        if d == NO_DIGIT {
            return Err(DecodeError::InvalidCharacter { position: i, byte: val[i] });
        }
        digits.push(d);
        i += 1;
    }
    proof {
        assert(digits@ =~= dg);
        assert(digits_below(digits@, 58));
    }
    let mut lz: usize = 0;
    while lz < digits.len() && digits[lz] == 0
        invariant
            lz <= digits@.len(),
            forall|k: int| 0 <= k < lz ==> digits@[k] == 0,
        decreases digits@.len() - lz,
    {
        lz += 1;
    }
    proof {
        lemma_leading_zeros_props(dg);
        assert(lz == leading_zeros(dg)) by {
            if lz < leading_zeros(dg) {
                assert(dg[lz as int] == 0);
            }
            if leading_zeros(dg) < lz {
                assert(dg[leading_zeros(dg) as int] == 0);
            }
        }
    }
    let bytes = change_base(&digits, 58, 256);
    let mut out: Vec<u8> = Vec::new();
    let mut k: usize = 0;
    while k < lz
        invariant
            k <= lz,
            out@.len() == k,
            forall|j: int| 0 <= j < k ==> out@[j] == 0,
        decreases lz - k,
    {
        out.push(0);
        k += 1;
    }
    let mut m: usize = 0;
    while m < bytes.len()
        invariant
            m <= bytes@.len(),
            out@.len() == lz + m,
            forall|j: int| 0 <= j < lz ==> out@[j] == 0,
            forall|j: int| 0 <= j < m ==> out@[lz + j] == bytes@[j],
        decreases bytes@.len() - m,
    {
        out.push(bytes[m]);
        m += 1;
    }
    proof {
        assert(out@ =~= decoded(val@, *alphabet));
    }
    Ok(out)
}

/// Round trip: whatever bytes are encoded, under whatever well-formed
/// alphabet, the encoding holds only symbols of that alphabet and decodes
/// back to exactly the input — leading zero bytes and the empty buffer
/// included.
pub proof fn lemma_round_trip(x: Seq<u8>, a: Alphabet)
    requires
        a.wf(),
    ensures
        all_symbols_valid(encoded(x, a), a),
        decoded(encoded(x, a), a) == x,
{
    let v = radix_val(x, 256);
    let rep = radix_repr(v, 58);
    let dg = encode_digits(x);
    let enc = encoded(x, a);
    lemma_repr_props(v, 58);
    lemma_leading_zeros_props(x);
    assert(digits_below(dg, 58)) by {
        assert(forall|i: int|
            0 <= i < dg.len() ==> dg[i] == (if i < leading_zeros(x) {
                0u8
            } else {
                rep[i - leading_zeros(x)]
            }));
    }
    assert forall|i: int| 0 <= i < enc.len() implies a.spec_contains(#[trigger] enc[i]) by {
        assert(enc[i] == a.spec_symbol(dg[i] as int));
        assert((dg[i] as nat) < 58);
        assert(a.spec_digit(a.spec_symbol(dg[i] as int)) == dg[i] as int);
    }
    assert(symbol_digits(enc, a) =~= dg) by {
        assert(forall|i: int|
            0 <= i < enc.len() ==> symbol_digits(enc, a)[i] == a.spec_digit(
                a.spec_symbol(dg[i] as int),
            ));
    }
    // The encoding's leading zero digits are exactly the input's leading zero bytes.
    lemma_leading_zeros_prepend(leading_zeros(x), rep);
    assert(leading_zeros(dg) == leading_zeros(x));
    // The digits' value is the input's value.
    lemma_val_prepend_zeros(leading_zeros(x), rep, 58);
    assert(radix_val(dg, 58) == v);
    // The value converts back to the input stripped of its leading zeros.
    let t = x.skip(leading_zeros(x) as int);
    assert(zero_seq(leading_zeros(x)) + t =~= x);
    lemma_val_prepend_zeros(leading_zeros(x), t, 256);
    assert(radix_val(t, 256) == v);
    assert(t.len() > 0 ==> t[0] != 0);
    lemma_repr_of_val(t, 256);
    assert(radix_repr(v, 256) == t);
    assert(decoded(enc, a) =~= x);
}

} // verus!
