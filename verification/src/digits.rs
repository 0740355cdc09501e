//! Arbitrary-precision positional numerals over byte digits: the value of a
//! big-endian digit string, the minimal representation of a number in a given
//! base, and the executable long division that converts between bases.

use vstd::prelude::*;

verus! {

use vstd::arithmetic::div_mod::lemma_fundamental_div_mod;
use vstd::arithmetic::div_mod::lemma_fundamental_div_mod_converse;
use vstd::arithmetic::div_mod::lemma_div_is_strictly_smaller;
use vstd::arithmetic::div_mod::lemma_multiply_divide_lt;
use vstd::arithmetic::div_mod::lemma_mod_division_less_than_divisor;

broadcast use vstd::arithmetic::mul::group_mul_basics;

/// Value of the big-endian digit string `s` read in base `radix`.
pub open spec fn radix_val(s: Seq<u8>, radix: nat) -> nat
    decreases s.len(),
{
    if s.len() == 0 {
        0
    } else {
        radix_val(s.drop_last(), radix) * radix + (s.last() as nat)
    }
}

/// Minimal (no leading zero digit) big-endian representation of `n` in base `radix`.
pub open spec fn radix_repr(n: nat, radix: nat) -> Seq<u8>
    decreases n,
        when radix >= 2
        via radix_repr_decreases
{
    if n == 0 {
        Seq::<u8>::empty()
    } else {
        radix_repr(n / radix, radix).push((n % radix) as u8)
    }
}

#[via_fn]
proof fn radix_repr_decreases(n: nat, radix: nat) {
    if n > 0 {
        lemma_div_is_strictly_smaller(n as int, radix as int);
    }
}

/// A run of `n` zero digits.
pub open spec fn zero_seq(n: nat) -> Seq<u8> {
    Seq::new(n, |i: int| 0u8)
}

/// How many zero digits stand at the front of `s`.
pub open spec fn leading_zeros(s: Seq<u8>) -> nat
    decreases s.len(),
{
    if s.len() == 0 || s[0] != 0 {
        0
    } else {
        1 + leading_zeros(s.drop_first())
    }
}

/// A zero value means every digit is zero, and conversely.
pub proof fn lemma_val_zero_iff(s: Seq<u8>, radix: nat)
    requires
        radix >= 1,
    ensures
        radix_val(s, radix) == 0 <==> (forall|i: int| 0 <= i < s.len() ==> s[i] == 0),
    decreases s.len(),
{
    if s.len() > 0 {
        let d = s.drop_last();
        lemma_val_zero_iff(d, radix);
        assert(radix_val(d, radix) * radix >= radix_val(d, radix) * 1 == radix_val(d, radix))
            by (nonlinear_arith)
            requires radix >= 1;
        if radix_val(s, radix) == 0 {
            assert(radix_val(d, radix) == 0 && s.last() == 0);
            assert forall|i: int| 0 <= i < s.len() implies s[i] == 0 by {
                if i < s.len() - 1 {
                    assert(d[i] == 0);
                }
            }
        } else {
            if forall|i: int| 0 <= i < s.len() ==> s[i] == 0 {
                assert(forall|i: int| 0 <= i < d.len() ==> d[i] == 0);
                assert(radix_val(d, radix) == 0);
                assert(s.last() == s[s.len() - 1] == 0);
                assert(radix_val(s, radix) == 0);
            }
        }
    }
}

/// The representation of `n` evaluates back to `n`; it is minimal and its
/// digits are all below the base.
pub proof fn lemma_repr_props(n: nat, radix: nat)
    requires
        2 <= radix <= 256,
    ensures
        radix_val(radix_repr(n, radix), radix) == n,
        radix_repr(n, radix).len() > 0 ==> radix_repr(n, radix)[0] != 0,
        forall|i: int| 0 <= i < radix_repr(n, radix).len() ==> (radix_repr(n, radix)[i] as nat) < radix,
    decreases n,
{
    if n > 0 {
        let q = n / radix;
        let r = n % radix;
        lemma_div_is_strictly_smaller(n as int, radix as int);
        lemma_mod_division_less_than_divisor(n as int, radix as int);
        lemma_fundamental_div_mod(n as int, radix as int);
        lemma_repr_props(q, radix);
        let rq = radix_repr(q, radix);
        let rn = radix_repr(n, radix);
        assert(r < 256);
        assert(rn == rq.push((r as u8)));
        assert(rn.drop_last() =~= rq);
        assert(rn.last() as nat == r);
        assert(radix_val(rn, radix) == radix_val(rq, radix) * radix + r);
        assert(q * radix + r == n) by (nonlinear_arith)
            requires n as int == radix as int * (n as int / radix as int) + n as int % radix as int, q == n / radix, r == n % radix;
        if q == 0 {
            assert(rq.len() == 0);
            assert(rn[0] == r as u8);
            assert(r == n) by (nonlinear_arith)
                requires q * radix + r == n, q == 0;
        } else {
            assert(rq.len() > 0);
            assert(rn[0] == rq[0]);
        }
        assert forall|i: int| 0 <= i < rn.len() implies (rn[i] as nat) < radix by {
            if i < rn.len() - 1 {
                assert(rn[i] == rq[i]);
            }
        }
    }
}

/// A minimal digit string is the representation of its own value.
pub proof fn lemma_repr_of_val(s: Seq<u8>, radix: nat)
    requires
        radix >= 2,
        s.len() > 0 ==> s[0] != 0,
        forall|i: int| 0 <= i < s.len() ==> (s[i] as nat) < radix,
    ensures
        radix_repr(radix_val(s, radix), radix) == s,
    decreases s.len(),
{
    if s.len() > 0 {
        let d = s.drop_last();
        let v = radix_val(s, radix);
        lemma_val_zero_iff(s, radix);
        assert(s[0] != 0);
        assert(v > 0);
        assert(v == radix_val(d, radix) * radix + (s.last() as nat));
        lemma_fundamental_div_mod_converse(
            v as int,
            radix as int,
            radix_val(d, radix) as int,
            s.last() as int,
        );
        assert(v / radix == radix_val(d, radix));
        assert(v % radix == s.last() as nat);
        assert(forall|i: int| 0 <= i < d.len() ==> d[i] == s[i]);
        lemma_repr_of_val(d, radix);
        assert(radix_repr(v, radix) == radix_repr(radix_val(d, radix), radix).push(s.last()));
        assert(d.push(s.last()) =~= s);
    }
}

/// A run of zeros has value zero.
pub proof fn lemma_val_zero_seq(k: nat, radix: nat)
    requires
        radix >= 1,
    ensures
        radix_val(zero_seq(k), radix) == 0,
{
    lemma_val_zero_iff(zero_seq(k), radix);
}

/// Leading zero digits do not change the value.
pub proof fn lemma_val_prepend_zeros(k: nat, s: Seq<u8>, radix: nat)
    requires
        radix >= 1,
    ensures
        radix_val(zero_seq(k) + s, radix) == radix_val(s, radix),
    decreases s.len(),
{
    if s.len() == 0 {
        assert(zero_seq(k) + s =~= zero_seq(k));
        lemma_val_zero_seq(k, radix);
    } else {
        let d = s.drop_last();
        assert((zero_seq(k) + s).drop_last() =~= zero_seq(k) + d);
        assert((zero_seq(k) + s).last() == s.last());
        lemma_val_prepend_zeros(k, d, radix);
    }
}

/// The count of leading zeros is sound: everything before it is zero and the
/// digit at it, if any, is not.
pub proof fn lemma_leading_zeros_props(s: Seq<u8>)
    ensures
        leading_zeros(s) <= s.len(),
        forall|i: int| 0 <= i < leading_zeros(s) ==> s[i] == 0,
        leading_zeros(s) < s.len() ==> s[leading_zeros(s) as int] != 0,
    decreases s.len(),
{
    if s.len() > 0 && s[0] == 0 {
        let d = s.drop_first();
        lemma_leading_zeros_props(d);
        assert(forall|i: int| 0 <= i < d.len() ==> d[i] == s[i + 1]);
        assert forall|i: int| 0 <= i < leading_zeros(s) implies s[i] == 0 by {
            if i > 0 {
                assert(d[i - 1] == 0);
                assert(s[i] == d[i - 1]);
            }
        }
    }
}

/// Prepending `k` zeros to a string that does not start with zero yields
/// exactly `k` leading zeros.
pub proof fn lemma_leading_zeros_prepend(k: nat, t: Seq<u8>)
    requires
        t.len() > 0 ==> t[0] != 0,
    ensures
        leading_zeros(zero_seq(k) + t) == k,
    decreases k,
{
    let s = zero_seq(k) + t;
    if k == 0 {
        assert(s =~= t);
    } else {
        assert(s[0] == 0);
        assert(s.len() > 0);
        assert(s.drop_first() =~= zero_seq((k - 1) as nat) + t);
        lemma_leading_zeros_prepend((k - 1) as nat, t);
    }
}

/// All digits of `s` lie below `radix`.
pub open spec fn digits_below(s: Seq<u8>, radix: nat) -> bool {
    forall|i: int| 0 <= i < s.len() ==> (#[trigger] s[i] as nat) < radix
}

/// Whether every digit is zero, i.e. the string's value is zero.
pub fn is_zero_digits(v: &Vec<u8>) -> (r: bool)
    ensures
        r <==> (forall|i: int| 0 <= i < v@.len() ==> v@[i] == 0),
{
    let mut i: usize = 0;
    while i < v.len()
        invariant
            i <= v@.len(),
            forall|j: int| 0 <= j < i ==> v@[j] == 0,
        decreases v@.len() - i,
    {
        if v[i] != 0 {
            return false;
        }
        i += 1;
    }
    true
}

/// One step of long division: divide the big-endian base-`radix` string `v`
/// by `d`, returning the quotient string (same length) and the remainder.
fn div_rem(v: Vec<u8>, radix: u32, d: u32) -> (res: (Vec<u8>, u8))
    requires
        2 <= radix <= 256,
        2 <= d <= 256,
        digits_below(v@, radix as nat),
    ensures
        res.0@.len() == v@.len(),
        digits_below(res.0@, radix as nat),
        radix_val(res.0@, radix as nat) == radix_val(v@, radix as nat) / (d as nat),
        (res.1 as nat) == radix_val(v@, radix as nat) % (d as nat),
{
    let ghost orig = v@;
    let mut v = v;
    let ghost rn = radix as nat;
    let ghost dn = d as nat;
    let mut r: u32 = 0;
    let mut i: usize = 0;
    while i < v.len()
        invariant
            2 <= radix <= 256,
            2 <= d <= 256,
            i <= v@.len(),
            v@.len() == orig.len(),
            r < d,
            digits_below(orig, rn),
            rn == radix as nat,
            dn == d as nat,
            forall|j: int| i <= j < orig.len() ==> #[trigger] v@[j] == orig[j],
            forall|j: int| 0 <= j < i ==> (#[trigger] v@[j] as nat) < rn,
            radix_val(v@.subrange(0, i as int), rn) * dn + (r as nat)
                == radix_val(orig.subrange(0, i as int), rn),
        decreases v@.len() - i,
    {
        assert((v@[i as int] as nat) < rn);
        assert(r * radix + (v@[i as int] as u32) < d * radix <= 65536) by (nonlinear_arith)
            requires
                r < d,
                (v@[i as int] as u32) < radix,
                radix <= 256,
                d <= 256;
        let cur: u32 = r * radix + (v[i] as u32);
        let q: u32 = cur / d;
        let newr: u32 = cur % d;
        proof {
            lemma_fundamental_div_mod(cur as int, d as int);
            lemma_mod_division_less_than_divisor(cur as int, d as int);
            lemma_multiply_divide_lt(cur as int, d as int, radix as int);
            assert(q < radix);
            let ghost pv = radix_val(v@.subrange(0, i as int), rn);
            let ghost ov = radix_val(orig.subrange(0, i as int), rn);
            assert((q as nat) * dn + (newr as nat) == (cur as nat)) by (nonlinear_arith)
                requires
                    cur as int == d as int * (cur as int / d as int) + cur as int % d as int,
                    q == cur / d,
                    newr == cur % d,
                    dn == d as nat;
            assert((pv * rn + q as nat) * dn + newr as nat == ov * rn + (orig[i as int] as nat))
                by (nonlinear_arith)
                requires
                    pv * dn + (r as nat) == ov,
                    (q as nat) * dn + (newr as nat) == (cur as nat),
                    (cur as nat) == (r as nat) * rn + (orig[i as int] as nat),
                    rn == radix as nat,
                    dn == d as nat,
                    cur == r * radix + (v@[i as int] as u32),
                    v@[i as int] == orig[i as int];
        }
        let ghost prev = v@;
        v.set(i, q as u8);
        proof {
            assert(v@.subrange(0, i as int) =~= prev.subrange(0, i as int));
            assert(v@.subrange(0, i as int + 1).drop_last() =~= v@.subrange(0, i as int));
            assert(v@.subrange(0, i as int + 1).last() == q as u8);
            assert(orig.subrange(0, i as int + 1).drop_last() =~= orig.subrange(0, i as int));
            assert(orig.subrange(0, i as int + 1).last() == orig[i as int]);
            assert(radix_val(v@.subrange(0, i as int + 1), rn)
                == radix_val(v@.subrange(0, i as int), rn) * rn + (q as nat));
            assert(radix_val(orig.subrange(0, i as int + 1), rn)
                == radix_val(orig.subrange(0, i as int), rn) * rn + (orig[i as int] as nat));
        }
        r = newr;
        i += 1;
    }
    proof {
        assert(v@.subrange(0, i as int) =~= v@);
        assert(orig.subrange(0, i as int) =~= orig);
        lemma_fundamental_div_mod_converse(
            radix_val(orig, rn) as int,
            dn as int,
            radix_val(v@, rn) as int,
            r as int,
        );
    }
    assert(r < 256);
    (v, r as u8)
}

/// Re-express the big-endian base-`from` string `digits` in base `to`,
/// dropping any leading zeros: the result is the minimal representation of
/// the input's value.
pub fn change_base(digits: &Vec<u8>, from: u32, to: u32) -> (out: Vec<u8>)
    requires
        2 <= from <= 256,
        2 <= to <= 256,
        digits_below(digits@, from as nat),
    ensures
        out@ == radix_repr(radix_val(digits@, from as nat), to as nat),
{
    let ghost fin = from as nat;
    let ghost ton = to as nat;
    let mut work: Vec<u8> = Vec::new();
    let mut i: usize = 0;
    while i < digits.len()
        invariant
            i <= digits@.len(),
            work@ =~= digits@.subrange(0, i as int),
        decreases digits@.len() - i,
    {
        work.push(digits[i]);
        i += 1;
    }
    assert(work@ =~= digits@);
    let ghost v0 = radix_val(digits@, fin);
    let mut rev_digits: Vec<u8> = Vec::new();
    loop
        invariant
            2 <= from <= 256,
            2 <= to <= 256,
            fin == from as nat,
            ton == to as nat,
            digits_below(work@, fin),
            radix_repr(v0, ton) =~= radix_repr(radix_val(work@, fin), ton) + rev_digits@.reverse(),
        ensures
            radix_val(work@, fin) == 0,
            radix_repr(v0, ton) =~= radix_repr(radix_val(work@, fin), ton) + rev_digits@.reverse(),
        decreases radix_val(work@, fin),
    {
        if is_zero_digits(&work) {
            proof {
                lemma_val_zero_iff(work@, fin);
            }
            break;
        }
        let ghost wv = radix_val(work@, fin);
        proof {
            lemma_val_zero_iff(work@, fin);
            assert(wv > 0);
            lemma_div_is_strictly_smaller(wv as int, ton as int);
        }
        let (new_work, rem) = div_rem(work, from, to);
        work = new_work;
        rev_digits.push(rem);
        proof {
            assert(radix_repr(wv, ton)
                == radix_repr(wv / ton, ton).push((wv % ton) as u8));
            assert(rev_digits@.reverse() =~= seq![rem] + rev_digits@.drop_last().reverse());
            assert(radix_repr(wv / ton, ton).push((wv % ton) as u8)
                + rev_digits@.drop_last().reverse()
                =~= radix_repr(wv / ton, ton) + (seq![(wv % ton) as u8] + rev_digits@.drop_last().reverse()));
            assert((wv % ton) as u8 == rem);
        }
    }
    proof {
        assert(radix_repr(radix_val(work@, fin), ton) =~= Seq::<u8>::empty());
        assert(radix_repr(v0, ton) =~= rev_digits@.reverse());
    }
    let mut out: Vec<u8> = Vec::new();
    let mut j: usize = rev_digits.len();
    while j > 0
        invariant
            j <= rev_digits@.len(),
            out@.len() == rev_digits@.len() - j,
            forall|k: int| 0 <= k < out@.len() ==> out@[k] == rev_digits@[rev_digits@.len() - 1 - k],
        decreases j,
    {
        j -= 1;
        out.push(rev_digits[j]);
    }
    proof {
        assert(out@ =~= rev_digits@.reverse());
    }
    out
}

} // verus!
