//! ASCII text as bytes.

use bytes::Bytes;
use vstd::prelude::*;
use vstd::string::*;

use crate::buffer::bytes_view;

verus! {

/// The bytes of ASCII text, one for each character.
pub open spec fn ascii(s: Seq<char>) -> Seq<u8> {
    Seq::new(s.len(), |i: int| s[i] as u8)
}

/// Texts, character for character.
pub open spec fn texts(args: Seq<String>) -> Seq<Seq<char>> {
    args.map_values(|a: String| a@)
}

/// The digits of `n` in base ten, without leading zeros.
pub open spec fn decimal(n: nat) -> Seq<u8>
    decreases n,
{
    if n < 10 {
        seq![(48 + n) as u8]
    } else {
        decimal(n / 10).push((48 + n % 10) as u8)
    }
}

/// A buffer that holds the bytes of a text.
pub fn text_bytes(s: &'static str) -> (r: Bytes)
    requires
        s.is_ascii(),
    ensures
        bytes_view(r) == ascii(s@),
{
    let raw: &'static [u8] = s.as_bytes();
    assert(s.spec_bytes() =~= ascii(s@));
    Bytes::from_static(raw)
}

/// Appends the bytes of a text.
pub fn push_text(out: &mut Vec<u8>, s: &str)
    requires
        s.is_ascii(),
    ensures
        final(out)@ == old(out)@ + ascii(s@),
{
    assert(s.spec_bytes() =~= ascii(s@));
    out.extend_from_slice(s.as_bytes());
    assert(out@ =~= old(out)@ + ascii(s@));
}

/// Appends the digits of `n` in base ten.
pub fn push_decimal(out: &mut Vec<u8>, n: u64)
    ensures
        final(out)@ == old(out)@ + decimal(n as nat),
    decreases n,
{
    if n < 10 {
        out.push(48 + n as u8);
    } else {
        push_decimal(out, n / 10);
        out.push(48 + (n % 10) as u8);
    }
    assert(out@ =~= old(out)@ + decimal(n as nat));
}

/// Whether a string spells a text.
pub fn same_text(s: &String, text: &str) -> (same: bool)
    ensures
        same == (s@ == text@),
{
    *s == text.to_owned()
}

/// Whether two slices hold the same bytes.
pub fn same_bytes(a: &[u8], b: &[u8]) -> (same: bool)
    ensures
        same == (a@ == b@),
{
    if a.len() != b.len() {
        return false;
    }
    let mut i: usize = 0;
    while i < a.len()
        invariant
            i <= a.len(),
            a.len() == b.len(),
            forall|j: int| 0 <= j < i ==> a@[j] == b@[j],
        decreases a.len() - i,
    {
        if a[i] != b[i] {
            return false;
        }
        i = i + 1;
    }
    assert(a@ =~= b@);
    true
}

/// Whether a byte is a decimal digit.
pub open spec fn is_digit(c: u8) -> bool {
    48 <= c <= 57
}

/// The number that digits spell in base ten.
pub open spec fn digits_value(s: Seq<u8>) -> nat
    decreases s.len(),
{
    if s.len() == 0 {
        0
    } else {
        (digits_value(s.drop_last()) * 10 + (s.last() - 48)) as nat
    }
}

/// The number up to `max` that one digit or more spell.
pub open spec fn digits_number(s: Seq<u8>, max: nat) -> Option<nat> {
    if s.len() > 0 && (forall|i: int| 0 <= i < s.len() ==> is_digit(#[trigger] s[i]))
        && digits_value(s) <= max {
        Some(digits_value(s))
    } else {
        None
    }
}

/// The number that a text spells, if it spells one up to `max`: one digit or
/// more, after a plus sign or not.
pub open spec fn unsigned(s: Seq<u8>, max: nat) -> Option<nat> {
    if s.len() > 0 && s[0] == 43 {
        digits_number(s.skip(1), max)
    } else {
        digits_number(s, max)
    }
}

/// Reads an unsigned number up to `max`.
pub fn parse_unsigned(s: &[u8], max: u64) -> (r: Option<u64>)
    ensures
        match r {
            Some(n) => unsigned(s@, max as nat) == Some(n as nat),
            None => unsigned(s@, max as nat) is None,
        },
{
    let start: usize = if s.len() > 0 && s[0] == 43 {
        1
    } else {
        0
    };
    if start >= s.len() {
        return None;
    }
    let ghost digits = s@.skip(start as int);
    assert(start == 0 ==> digits =~= s@);
    let mut n: u64 = 0;
    let mut i: usize = start;
    while i < s.len()
        invariant
            start <= i <= s.len(),
            digits == s@.skip(start as int),
            forall|j: int| 0 <= j < i - start ==> is_digit(#[trigger] digits[j]),
            n == digits_value(digits.take(i - start)),
            n <= max,
            unsigned(s@, max as nat) == digits_number(digits, max as nat),
            digits.len() > 0,
        decreases s.len() - i,
    {
        let c: u8 = s[i];
        assert(digits[i - start] == c);
        if c < 48 || c > 57 {
            return None;
        }
        let d: u64 = (c - 48) as u64;
        proof {
            assert(digits.take(i + 1 - start).drop_last() =~= digits.take(i - start));
            assert(digits.take(i + 1 - start).last() == c);
            assert(digits_value(digits.take(i + 1 - start)) == n * 10 + d);
        }
        if n > max / 10 || d > max || n * 10 > max - d {
            proof {
                if forall|j: int| 0 <= j < digits.len() ==> is_digit(#[trigger] digits[j]) {
                    lemma_more_digits(digits, (i + 1 - start) as nat);
                }
            }
            return None;
        }
        n = n * 10 + d;
        i = i + 1;
    }
    assert(digits.take(digits.len() as int) =~= digits);
    Some(n)
}

/// More digits spell no smaller number.
proof fn lemma_more_digits(s: Seq<u8>, k: nat)
    requires
        k <= s.len(),
        forall|i: int| 0 <= i < s.len() ==> is_digit(#[trigger] s[i]),
    ensures
        digits_value(s.take(k as int)) <= digits_value(s),
    decreases s.len(),
{
    if k == s.len() {
        assert(s.take(k as int) =~= s);
    } else {
        let t = s.drop_last();
        assert forall|i: int| 0 <= i < t.len() implies is_digit(#[trigger] t[i]) by {
            assert(is_digit(s[i]));
        }
        lemma_more_digits(t, k);
        assert(t.take(k as int) =~= s.take(k as int));
        assert(is_digit(s[s.len() - 1]));
    }
}

/// Numbers are read as they are written.
pub proof fn law_decimal_round_trip(n: nat, max: nat)
    requires
        n <= max,
    ensures
        unsigned(decimal(n), max) == Some(n),
{
    lemma_decimal(n);
    assert(is_digit(decimal(n)[0]));
}

/// The digits of `n` are digits, at least one, and spell `n`.
proof fn lemma_decimal(n: nat)
    ensures
        decimal(n).len() > 0,
        forall|i: int| 0 <= i < decimal(n).len() ==> is_digit(#[trigger] decimal(n)[i]),
        digits_value(decimal(n)) == n,
    decreases n,
{
    let s = decimal(n);
    if n < 10 {
        assert(s.drop_last() =~= Seq::empty());
        assert(digits_value(s.drop_last()) == 0);
        assert(s.last() == 48 + n);
    } else {
        lemma_decimal(n / 10);
        let front = decimal(n / 10);
        assert(s.drop_last() =~= front);
        assert(s.last() == 48 + n % 10);
        assert forall|i: int| 0 <= i < s.len() implies is_digit(#[trigger] s[i]) by {
            if i < front.len() {
                assert(is_digit(front[i]));
            }
        }
    }
}

/// ASCII text is one byte for each character, with the character's code.
pub proof fn law_ascii_is_the_codes(s: Seq<char>)
    ensures
        ascii(s).len() == s.len(),
        forall|i: int| 0 <= i < s.len() ==> #[trigger] ascii(s)[i] == s[i] as u8,
{
}

/// A number is written in base ten: its last digit, `'0'` for zero, behind those
/// of its tenth, and none of them for a tenth of zero.
pub proof fn law_decimal_digits(n: nat)
    ensures
        decimal(n).len() > 0,
        decimal(n).last() == 48 + n % 10,
        n < 10 ==> decimal(n).len() == 1,
        n >= 10 ==> decimal(n).drop_last() == decimal(n / 10),
{
    if n >= 10 {
        assert(decimal(n).drop_last() =~= decimal(n / 10));
    }
}

/// Digits spell a number in base ten: one digit more is ten times the number and
/// the digit.
pub proof fn law_digits_spell_their_number(s: Seq<u8>, d: u8)
    requires
        48 <= d <= 57,
    ensures
        digits_value(Seq::empty()) == 0,
        digits_value(s.push(d)) == 10 * digits_value(s) + (d - 48),
{
    assert(s.push(d).drop_last() =~= s);
}

/// Digits are read as the number that they spell, with a plus sign in front or
/// not, unless that is above the limit.
pub proof fn law_unsigned_reads_digits(digits: Seq<u8>, max: nat)
    requires
        digits.len() > 0,
        forall|i: int| 0 <= i < digits.len() ==> 48 <= #[trigger] digits[i] <= 57,
    ensures
        digits_value(digits) <= max ==> unsigned(digits, max) == Some(digits_value(digits)),
        digits_value(digits) <= max ==> unsigned(seq![43u8] + digits, max) == Some(
            digits_value(digits),
        ),
        digits_value(digits) > max ==> unsigned(digits, max) is None,
        digits_value(digits) > max ==> unsigned(seq![43u8] + digits, max) is None,
{
    assert(48 <= digits[0] <= 57);
    assert((seq![43u8] + digits).skip(1) =~= digits);
    assert forall|i: int| 0 <= i < digits.len() implies is_digit(#[trigger] digits[i]) by {}
}

/// Nothing else is read as a number: no empty text, no lone plus sign, and nothing
/// with a byte in it that is no digit, but for a plus sign in front.
pub proof fn law_unsigned_refuses_the_rest(s: Seq<u8>, max: nat, i: int)
    requires
        s.len() == 0 || s == seq![43u8] || (0 <= i < s.len() && !(48 <= s[i] <= 57) && !(i == 0
            && s[0] == 43)),
    ensures
        unsigned(s, max) is None,
{
    if s.len() > 1 && s[0] == 43 {
        assert(s.skip(1)[i - 1] == s[i]);
        assert(!is_digit(s.skip(1)[i - 1]));
    } else if s.len() > 0 && s[0] != 43 {
        assert(!is_digit(s[i]));
    }
}

/// Texts stay in order, each with its characters.
pub proof fn law_texts_are_the_characters(args: Seq<String>)
    ensures
        texts(args).len() == args.len(),
        forall|i: int| 0 <= i < args.len() ==> #[trigger] texts(args)[i] == args[i]@,
{
}

} // verus!
