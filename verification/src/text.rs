//! Numbers and characters as text.
use vstd::prelude::*;

verus! {

/// The digit for a value below 16.
pub open spec fn digit_char(d: nat) -> char {
    seq!['0', '1', '2', '3', '4', '5', '6', '7', '8', '9', 'a', 'b', 'c', 'd', 'e', 'f'][d as int]
}

/// A number in the given base, without leading zeros.
pub open spec fn digits_in(n: nat, base: nat) -> Seq<char>
    decreases n,
{
    if base < 2 || n < base {
        seq![digit_char(n)]
    } else {
        proof {
            vstd::arithmetic::div_mod::lemma_div_decreases(n as int, base as int);
        }
        digits_in(n / base, base).push(digit_char(n % base))
    }
}

/// A natural number in decimal.
pub open spec fn decimal(n: nat) -> Seq<char> {
    digits_in(n, 10)
}

/// A natural number in lower-case hexadecimal.
pub open spec fn hexadecimal(n: nat) -> Seq<char> {
    digits_in(n, 16)
}

/// An integer in decimal, with a minus sign where it is negative.
pub open spec fn signed_decimal(v: int) -> Seq<char> {
    if v < 0 {
        "-"@ + decimal((-v) as nat)
    } else {
        decimal(v as nat)
    }
}

/// `String::push` appends one character.
pub assume_specification[ String::push ](s: &mut String, c: char)
    ensures
        final(s)@ == old(s)@.push(c),
;

/// What `char::is_alphanumeric` returns.
pub uninterp spec fn alphanumeric(c: char) -> bool;

/// `char::is_alphanumeric` depends on the character alone. It follows the Unicode properties of
/// letters and numbers; among the ASCII characters these are the letters and the digits.
pub assume_specification[ char::is_alphanumeric ](c: char) -> (yes: bool)
    ensures
        yes == alphanumeric(c),
        c as u32 <= 127 ==> (yes <==> '0' <= c <= '9' || 'A' <= c <= 'Z' || 'a' <= c <= 'z'),
;

fn digit(d: u64) -> (c: char)
    requires
        d < 16,
    ensures
        c == digit_char(d as nat),
{
    match d {
        0 => '0',
        1 => '1',
        2 => '2',
        3 => '3',
        4 => '4',
        5 => '5',
        6 => '6',
        7 => '7',
        8 => '8',
        9 => '9',
        10 => 'a',
        11 => 'b',
        12 => 'c',
        13 => 'd',
        14 => 'e',
        _ => 'f',
    }
}

fn push_digits(n: u64, base: u64, out: &mut String)
    requires
        2 <= base <= 16,
    ensures
        final(out)@ == old(out)@ + digits_in(n as nat, base as nat),
    decreases n,
{
    if n >= base {
        assert(n / base < n) by (nonlinear_arith)
            requires
                n >= base,
                base >= 2,
        ;
        push_digits(n / base, base, out);
        out.push(digit(n % base));
    } else {
        out.push(digit(n));
    }
    assert(out@ =~= old(out)@ + digits_in(n as nat, base as nat));
}

/// The number in decimal.
pub fn decimal_of_u64(n: u64) -> (text: String)
    ensures
        text@ == decimal(n as nat),
{
    let mut text = String::new();
    push_digits(n, 10, &mut text);
    assert(text@ =~= decimal(n as nat));
    text
}

/// The number in decimal.
pub fn decimal_of_u32(n: u32) -> (text: String)
    ensures
        text@ == decimal(n as nat),
{
    decimal_of_u64(n as u64)
}

/// The number in decimal, with a minus sign where it is negative.
pub fn decimal_of_i64(v: i64) -> (text: String)
    ensures
        text@ == signed_decimal(v as int),
{
    if v < 0 {
        let mut text = "-".to_string();
        let magnitude: u64 = (-(v + 1)) as u64 + 1;
        push_digits(magnitude, 10, &mut text);
        text
    } else {
        decimal_of_u64(v as u64)
    }
}

/// The number in lower-case hexadecimal.
pub fn hex_of_u64(n: u64) -> (text: String)
    ensures
        text@ == hexadecimal(n as nat),
{
    let mut text = String::new();
    push_digits(n, 16, &mut text);
    assert(text@ =~= hexadecimal(n as nat));
    text
}

/// The number in lower-case hexadecimal with leading zeros, at least sixteen digits.
pub open spec fn padded_hex(n: nat) -> Seq<char> {
    let digits = hexadecimal(n);
    if digits.len() < 16 {
        Seq::new((16 - digits.len()) as nat, |i: int| '0') + digits
    } else {
        digits
    }
}

/// The number in lower-case hexadecimal with leading zeros, at least sixteen digits.
pub fn padded_hex_of_u64(n: u64) -> (text: String)
    ensures
        text@ == padded_hex(n as nat),
{
    let digits = hex_of_u64(n);
    let len = digits.as_str().unicode_len();
    let mut text = String::new();
    let mut i: usize = len;
    while i < 16
        invariant
            len <= i,
            i <= 16 || len > 16 && i == len,
            text@ == Seq::new((i - len) as nat, |j: int| '0'),
        decreases 16 - i,
    {
        text.push('0');
        assert(text@ =~= Seq::new((i + 1 - len) as nat, |j: int| '0'));
        i = i + 1;
    }
    text.append(digits.as_str());
    assert(text@ =~= padded_hex(n as nat));
    text
}

/// `part` stands in `whole` at position `i`.
pub open spec fn stands_at(whole: Seq<char>, part: Seq<char>, i: int) -> bool {
    0 <= i && i + part.len() <= whole.len() && whole.subrange(i, i + part.len()) == part
}

/// `part` stands somewhere in `whole`.
pub open spec fn contains_text(whole: Seq<char>, part: Seq<char>) -> bool {
    exists|i: int| stands_at(whole, part, i)
}

/// The characters of a text.
pub fn chars_of_text(text: &str) -> (chars: Vec<char>)
    ensures
        chars@ == text@,
{
    let mut chars: Vec<char> = Vec::new();
    let it = text.chars();
    let ghost all = text@;
    for c in iter: it
        invariant
            iter.seq() == all,
            chars@.len() == iter.index(),
            forall|i: int| 0 <= i < chars@.len() ==> chars@[i] == all[i],
    {
        chars.push(c);
    }
    assert(chars@ =~= text@);
    chars
}

fn matches_at(whole: &Vec<char>, part: &Vec<char>, i: usize) -> (yes: bool)
    requires
        i + part@.len() <= whole@.len(),
    ensures
        yes == stands_at(whole@, part@, i as int),
{
    let n = part.len();
    let total = whole.len();
    assert(i + n <= total);
    let mut j: usize = 0;
    while j < n
        invariant
            j <= n,
            n == part@.len(),
            i + n <= whole@.len(),
            total == whole@.len(),
            forall|k: int| 0 <= k < j ==> whole@[i + k] == part@[k],
        decreases n - j,
    {
        if whole[i + j] != part[j] {
            proof {
                let sub = whole@.subrange(i as int, i + n);
                assert(sub[j as int] == whole@[i + j]);
                assert(sub != part@);
            }
            return false;
        }
        j = j + 1;
    }
    assert(whole@.subrange(i as int, i + n) =~= part@);
    true
}

/// Does `part` stand somewhere in `whole`?
pub fn has_part(whole: &str, part: &str) -> (yes: bool)
    ensures
        yes == contains_text(whole@, part@),
{
    let w = chars_of_text(whole);
    let p = chars_of_text(part);
    let n = w.len();
    let m = p.len();
    if m > n {
        assert forall|i: int| !stands_at(whole@, part@, i) by {}
        return false;
    }
    let mut i: usize = 0;
    while i <= n - m
        invariant
            m <= n,
            i <= n - m + 1,
            n == w@.len(),
            m == p@.len(),
            w@ == whole@,
            p@ == part@,
            forall|j: int| 0 <= j < i ==> !stands_at(whole@, part@, j),
        decreases n - m + 1 - i,
    {
        if matches_at(&w, &p, i) {
            return true;
        }
        if i == n - m {
            assert forall|j: int| !stands_at(whole@, part@, j) by {}
            return false;
        }
        i = i + 1;
    }
    false
}

} // verus!
