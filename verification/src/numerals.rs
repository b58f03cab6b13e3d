//! Numerals say which number they stand for.
use vstd::arithmetic::div_mod::{lemma_div_decreases, lemma_fundamental_div_mod};
use vstd::prelude::*;

use crate::text::{decimal, digit_char, digits_in, hexadecimal, padded_hex, signed_decimal};

verus! {

/// The value of a digit, up to fifteen.
pub open spec fn digit_value(c: char) -> int {
    if '0' <= c && c <= '9' {
        c as int - '0' as int
    } else {
        c as int - 'a' as int + 10
    }
}

/// The number that a numeral stands for.
pub open spec fn number_of(t: Seq<char>, base: int) -> int
    decreases t.len(),
{
    if t.len() == 0 {
        0
    } else {
        number_of(t.drop_last(), base) * base + digit_value(t.last())
    }
}

/// A digit of the base: 0 to 9, or a to f.
pub open spec fn is_digit(c: char, base: int) -> bool {
    &&& '0' <= c && c <= '9' || 'a' <= c && c <= 'f'
    &&& 0 <= digit_value(c) < base
}

proof fn lemma_digit(d: nat)
    requires
        d < 16,
    ensures
        digit_value(digit_char(d)) == d,
        d < 10 ==> '0' <= digit_char(d) && digit_char(d) <= '9',
        d >= 10 ==> 'a' <= digit_char(d) && digit_char(d) <= 'f',
        digit_char(d) == '0' <==> d == 0,
{
}

/// A numeral stands for its number, is made of digits of its base, and has no leading zero unless
/// it is zero.
pub proof fn lemma_numeral(n: nat, base: nat)
    requires
        2 <= base <= 16,
    ensures
        number_of(digits_in(n, base), base as int) == n,
        digits_in(n, base).len() > 0,
        forall|i: int|
            0 <= i < digits_in(n, base).len() ==> is_digit(
                #[trigger] digits_in(n, base)[i],
                base as int,
            ),
        digits_in(n, base)[0] == '0' <==> n == 0,
        n == 0 ==> digits_in(n, base).len() == 1,
    decreases n,
{
    if n < base {
        lemma_digit(n);
        let t = seq![digit_char(n)];
        assert(t.drop_last() =~= Seq::empty());
        assert(number_of(t.drop_last(), base as int) == 0);
    } else {
        lemma_div_decreases(n as int, base as int);
        let q = n / base;
        let d = n % base;
        let before = digits_in(q, base);
        let t = digits_in(n, base);
        lemma_numeral(q, base);
        lemma_digit(d);
        lemma_fundamental_div_mod(n as int, base as int);
        assert(base * q == q * base) by (nonlinear_arith);
        assert(t == before.push(digit_char(d)));
        assert(t.drop_last() =~= before);
        assert(t[0] == before[0]);
        assert(q > 0) by (nonlinear_arith)
            requires
                n >= base,
                base > 0,
                q == n / base,
        ;
    }
}

/// Decimal and hexadecimal numerals stand for their numbers, in their bases.
pub proof fn lemma_numerals(n: nat, v: int)
    ensures
        number_of(decimal(n), 10) == n,
        number_of(hexadecimal(n), 16) == n,
        v >= 0 ==> signed_decimal(v) == decimal(v as nat),
        v < 0 ==> signed_decimal(v).len() > 1 && signed_decimal(v)[0] == '-' && number_of(
            signed_decimal(v).skip(1),
            10,
        ) == -v,
{
    lemma_numeral(n, 10);
    lemma_numeral(n, 16);
    if v < 0 {
        reveal_strlit("-");
        lemma_numeral((-v) as nat, 10);
        assert(signed_decimal(v).skip(1) =~= decimal((-v) as nat));
    }
}

proof fn lemma_zeros(k: nat, t: Seq<char>, base: int)
    ensures
        number_of(Seq::new(k, |i: int| '0') + t, base) == number_of(t, base),
    decreases k + t.len(),
{
    let z = Seq::new(k, |i: int| '0');
    if t.len() > 0 {
        assert((z + t).drop_last() =~= z + t.drop_last());
        lemma_zeros(k, t.drop_last(), base);
    } else if k > 0 {
        let y = Seq::new((k - 1) as nat, |i: int| '0');
        assert((z + t).drop_last() =~= y + t);
        lemma_zeros((k - 1) as nat, t, base);
        assert((z + t).last() == '0');
        assert(number_of(z + t, base) == 0 * base + 0);
    } else {
        assert(z + t =~= t);
    }
}

/// A padded numeral stands for its number, has sixteen digits or more, and just zeros in front.
pub proof fn lemma_padded(n: nat)
    ensures
        number_of(padded_hex(n), 16) == n,
        padded_hex(n).len() >= 16,
        padded_hex(n).len() > 16 ==> padded_hex(n) == hexadecimal(n),
{
    lemma_numeral(n, 16);
    let t = hexadecimal(n);
    if t.len() < 16 {
        lemma_zeros((16 - t.len()) as nat, t, 16);
    }
}

} // verus!
