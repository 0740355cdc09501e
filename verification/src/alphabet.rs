//! The 58-symbol alphabet: a validated, queryable table mapping digit values
//! to symbol bytes and back.

use vstd::prelude::*;

verus! {

/// Marker in the reverse lookup table for a byte that is not a symbol of the
/// alphabet. Digit values stop at 57, so it can never collide with one.
pub const NO_DIGIT: u8 = 255;

/// Why a caller-supplied symbol set was rejected.
#[derive(Debug, Clone, PartialEq, Eq)]
pub enum AlphabetError {
    /// The input did not hold exactly 58 bytes.
    WrongLength { actual: usize },
    /// A byte occurred twice; `value` is the first byte seen again.
    DuplicateByte { value: u8 },
}

/// An ordered set of 58 distinct symbol bytes; position `i` is the symbol for
/// digit value `i`. `lookup` is the derived 256-entry reverse table.
#[derive(Debug, Clone)]
pub struct Alphabet {
    /// The 58 symbols, digit value to symbol byte.
    pub symbols: Vec<u8>,
    /// Symbol byte to digit value, or `NO_DIGIT` for a byte outside the set.
    pub lookup: Vec<u8>,
}

/// `s[j]` repeats a byte that already occurred before position `j`.
pub open spec fn dup_at(s: Seq<u8>, j: int) -> bool {
    exists|i: int| 0 <= i < j && s[i] == s[j]
}

/// Some byte occurs twice in `s`.
pub open spec fn has_dup(s: Seq<u8>) -> bool {
    exists|j: int| 0 <= j < s.len() && dup_at(s, j)
}

/// `j` is the earliest position whose byte already occurred.
pub open spec fn is_first_dup(s: Seq<u8>, j: int) -> bool {
    &&& 0 <= j < s.len()
    &&& dup_at(s, j)
    &&& forall|k: int| 0 <= k < j ==> !dup_at(s, k)
}

/// Bitcoin's symbol set, the one used by Base58Check addresses; the default. The bytes of `"123456789ABCDEFGHJKLMNPQRSTUVWXYZabcdefghijkmnopqrstuvwxyz"`.
pub open spec fn bitcoin_symbols() -> Seq<u8> {
    seq![49, 50, 51, 52, 53, 54, 55, 56, 57, 65, 66, 67, 68, 69, 70, 71, 72, 74, 75, 76, 77, 78, 80, 81, 82, 83, 84, 85, 86, 87, 88, 89, 90, 97, 98, 99, 100, 101, 102, 103, 104, 105, 106, 107, 109, 110, 111, 112, 113, 114, 115, 116, 117, 118, 119, 120, 121, 122]
}

/// Monero's symbol set. The bytes of `"123456789ABCDEFGHJKLMNPQRSTUVWXYZabcdefghijkmnopqrstuvwxyz"`.
pub open spec fn monero_symbols() -> Seq<u8> {
    seq![49, 50, 51, 52, 53, 54, 55, 56, 57, 65, 66, 67, 68, 69, 70, 71, 72, 74, 75, 76, 77, 78, 80, 81, 82, 83, 84, 85, 86, 87, 88, 89, 90, 97, 98, 99, 100, 101, 102, 103, 104, 105, 106, 107, 109, 110, 111, 112, 113, 114, 115, 116, 117, 118, 119, 120, 121, 122]
}

/// Ripple's symbol set. The bytes of `"rpshnaf39wBUDNEGHJKLM4PQRST7VWXYZ2bcdeCg65jkm8oFqi1tuvAxyz"`.
pub open spec fn ripple_symbols() -> Seq<u8> {
    seq![114, 112, 115, 104, 110, 97, 102, 51, 57, 119, 66, 85, 68, 78, 69, 71, 72, 74, 75, 76, 77, 52, 80, 81, 82, 83, 84, 55, 86, 87, 88, 89, 90, 50, 98, 99, 100, 101, 67, 103, 54, 53, 106, 107, 109, 56, 111, 70, 113, 105, 49, 116, 117, 118, 65, 120, 121, 122]
}

/// Flickr's symbol set, used for short photo URLs. The bytes of `"123456789abcdefghijkmnopqrstuvwxyzABCDEFGHJKLMNPQRSTUVWXYZ"`.
pub open spec fn flickr_symbols() -> Seq<u8> {
    seq![49, 50, 51, 52, 53, 54, 55, 56, 57, 97, 98, 99, 100, 101, 102, 103, 104, 105, 106, 107, 109, 110, 111, 112, 113, 114, 115, 116, 117, 118, 119, 120, 121, 122, 65, 66, 67, 68, 69, 70, 71, 72, 74, 75, 76, 77, 78, 80, 81, 82, 83, 84, 85, 86, 87, 88, 89, 90]
}

/// Pairwise-distinct bytes have no duplicate.
pub proof fn lemma_pairwise_distinct_no_dup(s: Seq<u8>)
    requires
        forall|i: int, j: int| 0 <= i < j < s.len() ==> s[i] != s[j],
    ensures
        !has_dup(s),
{
    assert forall|j: int| 0 <= j < s.len() implies !dup_at(s, j) by {
        assert(forall|i: int| 0 <= i < j ==> s[i] != s[j]);
    }
}

/// Build an alphabet from 58 bytes already known to be distinct.
fn from_distinct(v: Vec<u8>) -> (a: Alphabet)
    requires
        v@.len() == 58,
        !has_dup(v@),
    ensures
        a.wf(),
        a.symbols@ == v@,
{
    match Alphabet::new(v.as_slice()) {
        Ok(a) => a,
        Err(_) => unreached(),
    }
}

impl Alphabet {
    /// The two tables agree: 58 symbols, each found again under its digit
    /// value, and every lookup entry either refuses the byte or points back
    /// at it.
    pub open spec fn wf(&self) -> bool {
        &&& self.symbols@.len() == 58
        &&& self.lookup@.len() == 256
        &&& forall|d: int|
            0 <= d < 58 ==> self.lookup@[#[trigger] self.symbols@[d] as int] == d
        &&& forall|b: int|
            0 <= b < 256 ==> (#[trigger] self.lookup@[b] == NO_DIGIT || (self.lookup@[b] < 58
                && self.symbols@[self.lookup@[b] as int] == b))
    }

    /// The symbol byte for digit value `d`.
    pub open spec fn spec_symbol(&self, d: int) -> u8 {
        self.symbols@[d]
    }

    /// The digit value recorded for byte `b`, or `NO_DIGIT`.
    pub open spec fn spec_digit(&self, b: u8) -> u8 {
        self.lookup@[b as int]
    }

    /// Whether byte `b` is one of the 58 symbols.
    pub open spec fn spec_contains(&self, b: u8) -> bool {
        self.spec_digit(b) != NO_DIGIT
    }

    /// Validate a caller-supplied symbol set: exactly 58 bytes, all distinct.
    pub fn new(base: &[u8]) -> (r: Result<Alphabet, AlphabetError>)
        ensures
            base@.len() != 58 ==> (r matches Err(AlphabetError::WrongLength { actual })
                && actual == base@.len()),
            base@.len() == 58 && has_dup(base@) ==> (r matches Err(
                AlphabetError::DuplicateByte { value },
            ) && exists|j: int| is_first_dup(base@, j) && value == base@[j]),
            base@.len() == 58 && !has_dup(base@) ==> (r matches Ok(a) && a.wf()
                && a.symbols@ == base@),
    {
        if base.len() != 58 {
            return Err(AlphabetError::WrongLength { actual: base.len() });
        }
        let mut lookup: Vec<u8> = Vec::new();
        let mut b: usize = 0;
        while b < 256
            invariant
                b <= 256,
                lookup@.len() == b,
                forall|k: int| 0 <= k < b ==> lookup@[k] == NO_DIGIT,
            decreases 256 - b,
        {
            lookup.push(NO_DIGIT);
            b += 1;
        }
        let mut symbols: Vec<u8> = Vec::new();
        let mut d: usize = 0;
        while d < 58
            invariant
                base@.len() == 58,
                d <= 58,
                symbols@ =~= base@.subrange(0, d as int),
                lookup@.len() == 256,
                forall|k: int|
                    0 <= k < d ==> lookup@[#[trigger] base@[k] as int] == k,
                forall|bb: int|
                    0 <= bb < 256 ==> (#[trigger] lookup@[bb] == NO_DIGIT || (lookup@[bb] < d
                        && base@[lookup@[bb] as int] == bb)),
                forall|j: int| 0 <= j < d ==> !dup_at(base@, j),
            decreases 58 - d,
        {
            let c = base[d];
            if lookup[c as usize] != NO_DIGIT {
                proof {
                    assert(lookup@[c as int] < d && base@[lookup@[c as int] as int] == c as int);
                    assert(dup_at(base@, d as int));
                    assert(is_first_dup(base@, d as int));
                }
                return Err(AlphabetError::DuplicateByte { value: c });
            }
            proof {
                assert forall|i: int| 0 <= i < d implies base@[i] != base@[d as int] by {
                    assert(lookup@[base@[i] as int] == i);
                }
                assert(!dup_at(base@, d as int));
            }
            symbols.push(c);
            lookup.set(c as usize, d as u8);
            d += 1;
        }
        proof {
            assert(symbols@ =~= base@);
            assert(!has_dup(base@));
        }
        Ok(Alphabet { symbols, lookup })
    }

    /// The symbol byte for digit value `d`.
    pub fn symbol(&self, d: usize) -> (b: u8)
        requires
            d < self.symbols@.len(),
        ensures
            b == self.spec_symbol(d as int),
    {
        self.symbols[d]
    }

    /// The digit value for byte `b`, or `NO_DIGIT` if `b` is not a symbol.
    pub fn digit(&self, b: u8) -> (d: u8)
        requires
            self.lookup@.len() == 256,
        ensures
            d == self.spec_digit(b),
    {
        self.lookup[b as usize]
    }
    /// Bitcoin's symbol set, the one used by Base58Check addresses; the default.
    pub fn bitcoin() -> (a: Alphabet)
        ensures
            a.wf(),
            a.symbols@ == bitcoin_symbols(),
    {
        let v: Vec<u8> = vec![49, 50, 51, 52, 53, 54, 55, 56, 57, 65, 66, 67, 68, 69, 70, 71, 72, 74, 75, 76, 77, 78, 80, 81, 82, 83, 84, 85, 86, 87, 88, 89, 90, 97, 98, 99, 100, 101, 102, 103, 104, 105, 106, 107, 109, 110, 111, 112, 113, 114, 115, 116, 117, 118, 119, 120, 121, 122];
        proof {
            assert(v@ =~= bitcoin_symbols());
            assert(forall|i: int, j: int| 0 <= i < j < 58 ==> bitcoin_symbols()[i] != bitcoin_symbols()[j]);
            lemma_pairwise_distinct_no_dup(v@);
        }
        from_distinct(v)
    }

    /// Monero's symbol set.
    pub fn monero() -> (a: Alphabet)
        ensures
            a.wf(),
            a.symbols@ == monero_symbols(),
    {
        let v: Vec<u8> = vec![49, 50, 51, 52, 53, 54, 55, 56, 57, 65, 66, 67, 68, 69, 70, 71, 72, 74, 75, 76, 77, 78, 80, 81, 82, 83, 84, 85, 86, 87, 88, 89, 90, 97, 98, 99, 100, 101, 102, 103, 104, 105, 106, 107, 109, 110, 111, 112, 113, 114, 115, 116, 117, 118, 119, 120, 121, 122];
        proof {
            assert(v@ =~= monero_symbols());
            assert(forall|i: int, j: int| 0 <= i < j < 58 ==> monero_symbols()[i] != monero_symbols()[j]);
            lemma_pairwise_distinct_no_dup(v@);
        }
        from_distinct(v)
    }

    /// Ripple's symbol set.
    pub fn ripple() -> (a: Alphabet)
        ensures
            a.wf(),
            a.symbols@ == ripple_symbols(),
    {
        let v: Vec<u8> = vec![114, 112, 115, 104, 110, 97, 102, 51, 57, 119, 66, 85, 68, 78, 69, 71, 72, 74, 75, 76, 77, 52, 80, 81, 82, 83, 84, 55, 86, 87, 88, 89, 90, 50, 98, 99, 100, 101, 67, 103, 54, 53, 106, 107, 109, 56, 111, 70, 113, 105, 49, 116, 117, 118, 65, 120, 121, 122];
        proof {
            assert(v@ =~= ripple_symbols());
            assert(forall|i: int, j: int| 0 <= i < j < 58 ==> ripple_symbols()[i] != ripple_symbols()[j]);
            lemma_pairwise_distinct_no_dup(v@);
        }
        from_distinct(v)
    }

    /// Flickr's symbol set, used for short photo URLs.
    pub fn flickr() -> (a: Alphabet)
        ensures
            a.wf(),
            a.symbols@ == flickr_symbols(),
    {
        let v: Vec<u8> = vec![49, 50, 51, 52, 53, 54, 55, 56, 57, 97, 98, 99, 100, 101, 102, 103, 104, 105, 106, 107, 109, 110, 111, 112, 113, 114, 115, 116, 117, 118, 119, 120, 121, 122, 65, 66, 67, 68, 69, 70, 71, 72, 74, 75, 76, 77, 78, 80, 81, 82, 83, 84, 85, 86, 87, 88, 89, 90];
        proof {
            assert(v@ =~= flickr_symbols());
            assert(forall|i: int, j: int| 0 <= i < j < 58 ==> flickr_symbols()[i] != flickr_symbols()[j]);
            lemma_pairwise_distinct_no_dup(v@);
        }
        from_distinct(v)
    }

}

impl Default for Alphabet {
    /// The alphabet used when none is given: Bitcoin's.
    fn default() -> (a: Alphabet)
        ensures
            a.wf(),
            a.symbols@ == bitcoin_symbols(),
    {
        Alphabet::bitcoin()
    }
}

} // verus!
