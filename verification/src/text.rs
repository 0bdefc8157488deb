//! Character and string helpers shared by the compiler stages.

use vstd::prelude::*;
use vstd::utf8::*;
use vstd::string::*;

verus! {

broadcast use vstd::utf8::group_utf8_lib;

/// The characters of `bytes`, each byte read on its own.
pub open spec fn bytes_as_chars(bytes: Seq<u8>) -> Seq<char> {
    bytes.map_values(|b: u8| b as char)
}

/// ASCII whitespace as `u8::is_ascii_whitespace` defines it: space, tab,
/// line feed, form feed and carriage return.
pub open spec fn is_ws_byte(b: u8) -> bool {
    b == 0x20u8 || b == 0x09u8 || b == 0x0Au8 || b == 0x0Cu8 || b == 0x0Du8
}

pub open spec fn is_digit_byte(b: u8) -> bool {
    0x30u8 <= b <= 0x39u8
}

pub open spec fn is_alpha_byte(b: u8) -> bool {
    (0x41u8 <= b <= 0x5Au8) || (0x61u8 <= b <= 0x7Au8)
}

pub open spec fn is_alnum_byte(b: u8) -> bool {
    is_alpha_byte(b) || is_digit_byte(b)
}

pub open spec fn is_ascii_ws_char(c: char) -> bool {
    c == ' ' || c == '\t' || c == '\n' || c == '\x0C' || c == '\r'
}

pub open spec fn is_ascii_digit_char(c: char) -> bool {
    '0' <= c <= '9'
}

pub fn is_ws(b: u8) -> (r: bool)
    ensures
        r == is_ws_byte(b),
{
    b == 0x20u8 || b == 0x09u8 || b == 0x0Au8 || b == 0x0Cu8 || b == 0x0Du8
}

pub fn is_digit(b: u8) -> (r: bool)
    ensures
        r == is_digit_byte(b),
{
    0x30u8 <= b && b <= 0x39u8
}

pub fn is_alpha(b: u8) -> (r: bool)
    ensures
        r == is_alpha_byte(b),
{
    (0x41u8 <= b && b <= 0x5Au8) || (0x61u8 <= b && b <= 0x7Au8)
}

pub fn is_alnum(b: u8) -> (r: bool)
    ensures
        r == is_alnum_byte(b),
{
    is_alpha(b) || is_digit(b)
}

/// Whether `c` has the Unicode `Alphabetic` or `Numeric` property, the
/// result of `char::is_alphanumeric`.
pub uninterp spec fn unicode_alphanumeric(c: char) -> bool;

/// Whether `c` has the Unicode `White_Space` property, the result of
/// `char::is_whitespace`.
pub uninterp spec fn unicode_white_space(c: char) -> bool;

/// Calls `char::is_alphanumeric`. The contract names its result
/// `unicode_alphanumeric(c)` and adds what std's documentation states for
/// ASCII: there the letters and the digits are exactly the alphanumeric
/// characters.
#[verifier::external_body]
pub(crate) fn char_is_alphanumeric(c: char) -> (r: bool)
    ensures
        r == unicode_alphanumeric(c),
        (c as u32) < 128 ==> (r <==> (('a' <= c <= 'z') || ('A' <= c <= 'Z') || ('0' <= c
            <= '9'))),
{
    c.is_alphanumeric()
}

/// Calls `char::is_whitespace`. The contract names its result
/// `unicode_white_space(c)` and adds what std's documentation states for
/// ASCII: the five ASCII whitespace characters have the property, and the
/// other ASCII characters but U+000B do not.
#[verifier::external_body]
pub(crate) fn char_is_whitespace(c: char) -> (r: bool)
    ensures
        r == unicode_white_space(c),
        is_ascii_ws_char(c) ==> r,
        (c as u32) < 128 && !is_ascii_ws_char(c) && c != '\x0B' ==> !r,
{
    c.is_whitespace()
}

/// Calls `String::push`: the string gains `c` at its end.
#[verifier::external_body]
pub(crate) fn push_char(s: &mut String, c: char)
    ensures
        final(s)@ == old(s)@.push(c),
{
    s.push(c)
}

/// A new string holding the characters of `s`.
pub fn string_of(s: &str) -> (r: String)
    ensures
        r@ == s@,
{
    s.to_owned()
}

/// A new string holding the characters of `a` followed by those of `b`.
pub fn concat2(a: &str, b: &str) -> (r: String)
    ensures
        r@ == a@ + b@,
{
    let mut r = a.to_owned();
    r.append(b);
    r
}

/// A new string holding `a`, `b` and `c` one after another.
pub fn concat3(a: &str, b: &str, c: &str) -> (r: String)
    ensures
        r@ == a@ + b@ + c@,
{
    let mut r = a.to_owned();
    r.append(b);
    r.append(c);
    r
}

/// The string whose characters are `bytes[lo..hi]`, each byte read on its own.
pub fn string_from_bytes(bytes: &[u8], lo: usize, hi: usize) -> (r: String)
    requires
        lo <= hi <= bytes@.len(),
    ensures
        r@ == bytes_as_chars(bytes@.subrange(lo as int, hi as int)),
{
    let mut r = String::new();
    let mut i = lo;
    while i < hi
        invariant
            lo <= i <= hi <= bytes@.len(),
            r@ == bytes_as_chars(bytes@.subrange(lo as int, i as int)),
        decreases hi - i,
    {
        push_char(&mut r, bytes[i] as char);
        i = i + 1;
        assert(bytes_as_chars(bytes@.subrange(lo as int, i as int)) =~= bytes_as_chars(
            bytes@.subrange(lo as int, (i - 1) as int),
        ).push(bytes@[i - 1] as char));
    }
    r
}

/// The characters of `s`, in order.
pub fn chars_of(s: &str) -> (v: Vec<char>)
    ensures
        v@ == s@,
{
    let n = s.unicode_len();
    let mut v: Vec<char> = Vec::new();
    let mut i: usize = 0;
    while i < n
        invariant
            n == s@.len(),
            i <= n,
            v@ == s@.subrange(0, i as int),
        decreases n - i,
    {
        let c = s.get_char(i);
        v.push(c);
        i = i + 1;
        assert(v@ =~= s@.subrange(0, i as int));
    }
    assert(v@ =~= s@);
    v
}

/// A position right after an ASCII byte of a valid UTF-8 sequence is a
/// character boundary.
pub proof fn lemma_boundary_after_ascii(bytes: Seq<u8>, i: int)
    requires
        valid_utf8(bytes),
        0 <= i < bytes.len(),
        bytes[i] < 0x80u8,
    ensures
        is_char_boundary(bytes, i + 1),
    decreases bytes.len(),
{
    let b = bytes[i];
    assert(!is_continuation_byte(b) && is_leading_byte_width_1(b)) by (bit_vector)
        requires
            b < 0x80u8,
    ;
    assert(is_char_boundary(bytes, i));
    if i == 0 {
        assert(length_of_first_scalar(bytes) == 1);
        reveal_with_fuel(is_char_boundary, 2);
    } else {
        let l = length_of_first_scalar(bytes);
        let rest = pop_first_scalar(bytes);
        reveal_with_fuel(is_char_boundary, 2);
        assert(is_char_boundary(rest, i - l));
        if i - l == rest.len() {
        } else {
            assert(rest[i - l] == bytes[i]);
            lemma_boundary_after_ascii(rest, i - l);
        }
    }
}

/// The string slice `s[lo..hi]`, cut at byte positions that are character
/// boundaries.
pub fn str_slice(s: &str, lo: usize, hi: usize) -> (r: &str)
    requires
        lo <= hi <= s.spec_bytes().len(),
        is_char_boundary(s.spec_bytes(), lo as int),
        is_char_boundary(s.spec_bytes(), hi as int),
    ensures
        r.spec_bytes() == s.spec_bytes().subrange(lo as int, hi as int),
        r@ == decode_utf8(s.spec_bytes().subrange(lo as int, hi as int)),
{
    let (_, tail) = s.split_at(lo);
    proof {
        let tb = tail.spec_bytes();
        let sb = s.spec_bytes();
        let k = hi - lo;
        encode_utf8_valid_utf8(tail@);
        encode_utf8_valid_utf8(s@);
        assert(tb =~= sb.subrange(lo as int, sb.len() as int));
        if k == tb.len() {
            is_char_boundary_start_end_of_seq(tb);
        } else {
            assert(tb[k as int] == sb[hi as int]);
            is_char_boundary_iff_not_is_continuation_byte(tb, k as int);
            is_char_boundary_iff_not_is_continuation_byte(sb, hi as int);
        }
    }
    let (r, _) = tail.split_at(hi - lo);
    proof {
        assert(r.spec_bytes() =~= s.spec_bytes().subrange(lo as int, hi as int));
    }
    r
}

/// The character of the decimal digit `d`.
pub open spec fn digit_char(d: nat) -> char {
    ((d + 48) as u8) as char
}

/// The decimal representation of `n`, without leading zeros.
pub open spec fn nat_decimal(n: nat) -> Seq<char>
    decreases n,
{
    if n < 10 {
        seq![digit_char(n)]
    } else {
        nat_decimal(n / 10).push(digit_char(n % 10))
    }
}

pub open spec fn decimal_chars(n: u32) -> Seq<char> {
    nat_decimal(n as nat)
}

/// Appends the decimal representation of `n` to `s`.
pub fn push_decimal(s: &mut String, n: u64)
    ensures
        final(s)@ == old(s)@ + nat_decimal(n as nat),
    decreases n,
{
    if n >= 10 {
        push_decimal(s, n / 10);
    }
    let d = (n % 10) as u8;
    push_char(s, (d + 48u8) as char);
    assert(final(s)@ =~= old(s)@ + nat_decimal(n as nat));
}

/// The decimal representation of `n`.
pub fn u32_to_string(n: u32) -> (r: String)
    ensures
        r@ == decimal_chars(n),
{
    let mut s = String::new();
    push_decimal(&mut s, n as u64);
    assert(s@ =~= decimal_chars(n));
    s
}

} // verus!
