//! Text handling shared by the message formats: lossy UTF-8 decoding, trimming
//! of surrounding whitespace, and decimal rendering of numbers.
use vstd::prelude::*;
use vstd::utf8::*;

verus! {

/// True for the characters that carry the Unicode `White_Space` property,
/// which is what `char::is_whitespace` and `str::trim` go by.
pub open spec fn is_white_space(c: char) -> bool {
    let u = c as u32;
    ||| 0x09 <= u <= 0x0d
    ||| u == 0x20
    ||| u == 0x85
    ||| u == 0xa0
    ||| u == 0x1680
    ||| 0x2000 <= u <= 0x200a
    ||| u == 0x2028
    ||| u == 0x2029
    ||| u == 0x202f
    ||| u == 0x205f
    ||| u == 0x3000
}

/// `s` without its leading whitespace.
pub open spec fn trim_start_chars(s: Seq<char>) -> Seq<char>
    decreases s.len(),
{
    if s.len() > 0 && is_white_space(s[0]) {
        trim_start_chars(s.drop_first())
    } else {
        s
    }
}

/// `s` without its trailing whitespace.
pub open spec fn trim_end_chars(s: Seq<char>) -> Seq<char>
    decreases s.len(),
{
    if s.len() > 0 && is_white_space(s.last()) {
        trim_end_chars(s.drop_last())
    } else {
        s
    }
}

/// `s` without leading and trailing whitespace.
pub open spec fn trim_chars(s: Seq<char>) -> Seq<char> {
    trim_end_chars(trim_start_chars(s))
}

/// What `String::from_utf8_lossy` makes of `bytes`: the decoded text, each
/// invalid sequence replaced by U+FFFD.
pub uninterp spec fn utf8_lossy(bytes: Seq<u8>) -> Seq<char>;

/// The text that a received payload stands for: decoded lossily, then trimmed.
pub open spec fn payload_text(bytes: Seq<u8>) -> Seq<char> {
    trim_chars(utf8_lossy(bytes))
}

/// `String::from_utf8_lossy`, made owned.  Its result is named
/// [`utf8_lossy`]; where `bytes` is valid UTF-8 the documentation promises
/// the decoded text itself, and so does this contract.  What an invalid
/// sequence turns into is left to the name.
#[verifier::external_body]
pub(crate) fn decode_lossy(bytes: &[u8]) -> (r: String)
    ensures
        r@ == utf8_lossy(bytes@),
        valid_utf8(bytes@) ==> r@ == decode_utf8(bytes@),
{
    String::from_utf8_lossy(bytes).into_owned()
}

/// `str::trim`, made owned: the text without leading and trailing
/// `White_Space` characters.
#[verifier::external_body]
pub(crate) fn trim_owned(s: &str) -> (r: String)
    ensures
        r@ == trim_chars(s@),
{
    s.trim().to_string()
}

/// `String::push`: appends one character.
#[verifier::external_body]
pub(crate) fn push_char(s: &mut String, c: char)
    ensures
        final(s)@ == old(s)@.push(c),
{
    s.push(c)
}

/// `String::push_str`: appends a string slice.
#[verifier::external_body]
pub(crate) fn push_str(s: &mut String, t: &str)
    ensures
        final(s)@ == old(s)@ + t@,
{
    s.push_str(t)
}

/// The character of a decimal digit.
pub open spec fn digit_char(d: nat) -> char {
    ((48 + d) as u8) as char
}

/// The decimal digits of `n`, most significant first, without leading zeros
/// (a single `0` for zero).
pub open spec fn decimal(n: nat) -> Seq<char>
    decreases n,
{
    if n < 10 {
        seq![digit_char(n)]
    } else {
        decimal(n / 10).push(digit_char(n % 10))
    }
}

/// The decimal rendering of a signed number: a minus sign before the digits
/// of its magnitude when it is negative.
pub open spec fn signed_decimal(n: int) -> Seq<char> {
    if n < 0 {
        seq!['-'] + decimal((-n) as nat)
    } else {
        decimal(n as nat)
    }
}

/// True when every character of `s` is an ASCII decimal digit.
pub open spec fn all_digits(s: Seq<char>) -> bool {
    forall|i: int| 0 <= i < s.len() ==> '0' <= #[trigger] s[i] <= '9'
}

/// The number that a string of decimal digits stands for: each digit's
/// value times the power of ten of its place.
pub open spec fn digits_value(s: Seq<char>) -> int
    decreases s.len(),
{
    if s.len() == 0 {
        0
    } else {
        digits_value(s.drop_last()) * 10 + (s.last() as int - 48)
    }
}

/// True when `s` is how `n` is written in decimal: digits only, at least
/// one, no leading zero unless `n` is zero, reading back as `n`.
pub open spec fn writes_decimal(s: Seq<char>, n: int) -> bool {
    &&& s.len() >= 1
    &&& all_digits(s)
    &&& digits_value(s) == n
    &&& (s[0] == '0' ==> n == 0)
}

proof fn lemma_digit_char(d: nat)
    requires
        d < 10,
    ensures
        digit_char(d) as int == 48 + d,
        '0' <= digit_char(d) <= '9',
{
    let b: u8 = (48 + d) as u8;
    assert(b as int == 48 + d);
    assert((b as char) as u32 == b as u32);
}

/// The decimal rendering of every number is faithful: its digits read back
/// as the number, and it has no leading zero.
pub proof fn lemma_decimal_faithful(n: nat)
    ensures
        writes_decimal(decimal(n), n as int),
    decreases n,
{
    if n < 10 {
        lemma_digit_char(n);
        let s = decimal(n);
        assert(s.drop_last() =~= Seq::<char>::empty());
        assert(digits_value(s.drop_last()) == 0);
        assert(s.last() == digit_char(n));
        assert(digits_value(s) == n);
        assert(all_digits(s));
    } else {
        lemma_decimal_faithful(n / 10);
        lemma_digit_char(n % 10);
        let s = decimal(n);
        let prefix = decimal(n / 10);
        assert(s.drop_last() =~= prefix);
        assert(s[0] == prefix[0]);
        assert(n == (n / 10) * 10 + n % 10) by (nonlinear_arith);
        assert(s.last() == digit_char(n % 10));
        assert(digits_value(s) == digits_value(prefix) * 10 + (n % 10));
        assert(n / 10 > 0);
        assert forall|i: int| 0 <= i < s.len() implies '0' <= #[trigger] s[i] <= '9' by {
            if i < prefix.len() {
                assert(s[i] == prefix[i]);
            }
        }
    }
}

/// The rendering of a signed number is faithful: a minus sign and then the
/// digits of the magnitude for a negative number, the digits of the number
/// otherwise.
pub proof fn lemma_signed_decimal_faithful(n: int)
    ensures
        n < 0 ==> signed_decimal(n)[0] == '-' && writes_decimal(signed_decimal(n).drop_first(), -n),
        n >= 0 ==> writes_decimal(signed_decimal(n), n),
{
    if n < 0 {
        lemma_decimal_faithful((-n) as nat);
        assert(signed_decimal(n).drop_first() =~= decimal((-n) as nat));
    } else {
        lemma_decimal_faithful(n as nat);
    }
}

/// Appends the decimal digits of `n` to `s`.
pub fn push_decimal(s: &mut String, n: u64)
    ensures
        final(s)@ == old(s)@ + decimal(n as nat),
    decreases n,
{
    if n >= 10 {
        push_decimal(s, n / 10);
    }
    let d: u8 = (n % 10) as u8;
    push_char(s, (48u8 + d) as char);
    assert(old(s)@ + decimal(n as nat) =~= s@);
}

/// Appends the decimal rendering of the signed `n` to `s`.
pub fn push_signed_decimal(s: &mut String, n: i64)
    ensures
        final(s)@ == old(s)@ + signed_decimal(n as int),
{
    if n < 0 {
        push_char(s, '-');
        let magnitude: u64 = ((-(n + 1)) as u64) + 1;
        push_decimal(s, magnitude);
        assert(s@ =~= old(s)@ + signed_decimal(n as int));
    } else {
        push_decimal(s, n as u64);
    }
}

} // verus!
