//! Decimal numerals: the one spelling that bencode allows for a length or an
//! integer, and the arithmetic that ties a spelling to its number.
use vstd::prelude::*;

verus! {

/// An ASCII decimal digit.
pub open spec fn is_digit(b: u8) -> bool {
    48 <= b <= 57
}

/// The decimal spelling of `n`, most significant digit first, with no
/// leading zero.
pub open spec fn decimal(n: nat) -> Seq<u8>
    decreases n,
{
    if n < 10 {
        seq![(48 + n) as u8]
    } else {
        decimal(n / 10).push((48 + n % 10) as u8)
    }
}

/// The number that a run of digits spells.
pub open spec fn digits_value(t: Seq<u8>) -> nat
    decreases t.len(),
{
    if t.len() == 0 {
        0
    } else {
        digits_value(t.drop_last()) * 10 + (t.last() - 48) as nat
    }
}

pub open spec fn all_digits(t: Seq<u8>) -> bool {
    forall|i: int| 0 <= i < t.len() ==> is_digit(#[trigger] t[i])
}

/// A non-empty run of digits with no leading zero (the numeral `0` itself is
/// allowed).
pub open spec fn canonical_digits(t: Seq<u8>) -> bool {
    &&& t.len() > 0
    &&& all_digits(t)
    &&& (t.len() == 1 || t[0] != 48)
}

/// The spelling of a signed integer: an optional `-` and its magnitude.
pub open spec fn int_text(n: int) -> Seq<u8> {
    if n < 0 {
        seq![45u8] + decimal((-n) as nat)
    } else {
        decimal(n as nat)
    }
}

/// A canonical spelling of a signed integer: no leading zero and no `-0`.
pub open spec fn canonical_int_text(t: Seq<u8>) -> bool {
    if t.len() > 0 && t[0] == 45 {
        canonical_digits(t.drop_first()) && t[1] != 48
    } else {
        canonical_digits(t)
    }
}

/// The number that an integer spelling denotes.
pub open spec fn int_value(t: Seq<u8>) -> int {
    if t.len() > 0 && t[0] == 45 {
        -(digits_value(t.drop_first()) as int)
    } else {
        digits_value(t) as int
    }
}

pub open spec fn fits_i64(n: int) -> bool {
    i64::MIN <= n <= i64::MAX
}

/// What an integer body must be to decode: canonical, and within 64 bits.
pub open spec fn valid_int_text(t: Seq<u8>) -> bool {
    canonical_int_text(t) && fits_i64(int_value(t))
}

proof fn lemma_decimal_first(n: nat)
    ensures
        decimal(n).len() > 0,
        all_digits(decimal(n)),
        n > 0 ==> decimal(n)[0] != 48,
        n == 0 ==> decimal(n) == seq![48u8],
    decreases n,
{
    if n >= 10 {
        lemma_decimal_first(n / 10);
        let d = decimal(n / 10);
        assert(decimal(n) == d.push((48 + n % 10) as u8));
        assert forall|i: int| 0 <= i < decimal(n).len() implies is_digit(#[trigger] decimal(n)[i]) by {
            if i < d.len() {
                assert(decimal(n)[i] == d[i]);
            }
        }
    }
}

/// The decimal spelling is canonical and spells its number back.
pub proof fn lemma_decimal_canonical(n: nat)
    ensures
        canonical_digits(decimal(n)),
        digits_value(decimal(n)) == n,
    decreases n,
{
    lemma_decimal_first(n);
    if n >= 10 {
        lemma_decimal_canonical(n / 10);
        let d = decimal(n / 10);
        assert(decimal(n).drop_last() =~= d);
        assert(decimal(n).last() - 48 == n % 10);
        assert(digits_value(decimal(n)) == digits_value(d) * 10 + (decimal(n).last() - 48) as nat);
        assert(n == (n / 10) * 10 + n % 10);
    } else {
        assert(decimal(n).drop_last() =~= Seq::<u8>::empty());
        assert(decimal(n).last() - 48 == n);
        assert(digits_value(Seq::<u8>::empty()) == 0);
    }
}

proof fn lemma_leading_nonzero(t: Seq<u8>)
    requires
        t.len() > 0,
        all_digits(t),
        t[0] != 48,
    ensures
        digits_value(t) >= 1,
    decreases t.len(),
{
    if t.len() > 1 {
        let u = t.drop_last();
        assert(u[0] == t[0]);
        assert forall|i: int| 0 <= i < u.len() implies is_digit(#[trigger] u[i]) by {
            assert(u[i] == t[i]);
        }
        lemma_leading_nonzero(u);
    }
}

/// A canonical run of digits is the decimal spelling of its number.
pub proof fn lemma_canonical_is_decimal(t: Seq<u8>)
    requires
        canonical_digits(t),
    ensures
        decimal(digits_value(t)) == t,
    decreases t.len(),
{
    let v = digits_value(t);
    if t.len() == 1 {
        assert(t.drop_last() =~= Seq::<u8>::empty());
        assert(is_digit(t[0]));
        assert(digits_value(Seq::<u8>::empty()) == 0);
        assert(v == t[0] - 48);
        assert(decimal(v) == seq![t[0]]);
        assert(decimal(v) =~= t);
    } else {
        let u = t.drop_last();
        assert(u[0] == t[0]);
        assert forall|i: int| 0 <= i < u.len() implies is_digit(#[trigger] u[i]) by {
            assert(u[i] == t[i]);
        }
        assert(is_digit(t[t.len() - 1]));
        lemma_leading_nonzero(u);
        lemma_canonical_is_decimal(u);
        let w = digits_value(u);
        let d = (t.last() - 48) as nat;
        assert(v == w * 10 + d);
        assert(v / 10 == w && v % 10 == d) by (nonlinear_arith)
            requires
                v == w * 10 + d,
                d < 10,
        ;
        assert(decimal(v) == decimal(w).push((48 + d) as u8));
        assert(decimal(v) =~= t);
    }
}

/// The spelling of a signed integer is canonical and denotes that integer.
pub proof fn lemma_int_text_canonical(n: int)
    ensures
        canonical_int_text(int_text(n)),
        int_value(int_text(n)) == n,
{
    if n < 0 {
        let m = (-n) as nat;
        lemma_decimal_canonical(m);
        lemma_decimal_first(m);
        let t = int_text(n);
        assert(t.drop_first() =~= decimal(m));
        assert(t[1] == decimal(m)[0]);
    } else {
        lemma_decimal_canonical(n as nat);
        lemma_decimal_first(n as nat);
    }
}

/// A canonical integer spelling is the spelling of its number.
pub proof fn lemma_canonical_is_int_text(t: Seq<u8>)
    requires
        canonical_int_text(t),
    ensures
        int_text(int_value(t)) == t,
{
    if t.len() > 0 && t[0] == 45 {
        let u = t.drop_first();
        assert(u[0] == t[1]);
        lemma_leading_nonzero(u);
        lemma_canonical_is_decimal(u);
        assert(seq![45u8] + u =~= t);
    } else {
        lemma_canonical_is_decimal(t);
    }
}

/// Appends the decimal spelling of `n`.
pub fn push_decimal(n: u64, out: &mut Vec<u8>)
    ensures
        final(out)@ == old(out)@ + decimal(n as nat),
    decreases n,
{
    if n >= 10 {
        push_decimal(n / 10, out);
    }
    let d: u64 = n % 10;
    out.push((48 + d) as u8);
    proof {
        if n >= 10 {
            assert(old(out)@ + decimal(n as nat) =~= (old(out)@ + decimal((n / 10) as nat)).push(
                (48 + d) as u8,
            ));
        } else {
            assert(old(out)@ + decimal(n as nat) =~= old(out)@.push((48 + d) as u8));
        }
    }
}

/// Appends the spelling of a signed integer.
pub fn push_int_text(n: i64, out: &mut Vec<u8>)
    ensures
        final(out)@ == old(out)@ + int_text(n as int),
{
    if n < 0 {
        out.push(45u8);
        let m: u64 = (-(n as i128)) as u64;
        push_decimal(m, out);
        assert(final(out)@ =~= old(out)@ + int_text(n as int));
    } else {
        push_decimal(n as u64, out);
    }
}

} // verus!
