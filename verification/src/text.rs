//! Text inside fixed-width byte fields: padding, terminators, digits,
//! decimal numbers and UTF-8.

use vstd::prelude::*;
use vstd::slice::slice_subrange;
use vstd::string::StringSliceAdditionalSpecFns;
use vstd::utf8::{
    decode_utf8, encode_utf8, encode_utf8_decode_utf8, encode_utf8_valid_utf8,
    is_ascii_chars, is_ascii_chars_encode_utf8, valid_utf8,
};

verus! {

/// ASCII whitespace: space, tab, line feed, vertical tab, form feed and
/// carriage return.
pub open spec fn is_space(b: u8) -> bool {
    b == 0x20 || (0x09 <= b && b <= 0x0d)
}

/// `s` without its leading whitespace.
pub open spec fn trim_start(s: Seq<u8>) -> Seq<u8>
    decreases s.len(),
{
    if s.len() > 0 && is_space(s[0]) {
        trim_start(s.drop_first())
    } else {
        s
    }
}

/// `s` without its trailing whitespace.
pub open spec fn trim_end(s: Seq<u8>) -> Seq<u8>
    decreases s.len(),
{
    if s.len() > 0 && is_space(s.last()) {
        trim_end(s.drop_last())
    } else {
        s
    }
}

/// `s` without the whitespace at either end.
pub open spec fn trimmed(s: Seq<u8>) -> Seq<u8> {
    trim_end(trim_start(s))
}

/// The number of bytes of `s` before its first zero byte, or the length of
/// `s` if it has none.
pub open spec fn nul_position(s: Seq<u8>) -> int
    decreases s.len(),
{
    if s.len() == 0 || s[0] == 0 {
        0
    } else {
        1 + nul_position(s.drop_first())
    }
}

/// The bytes of `s` before its first zero byte; all of `s` if it has none.
pub open spec fn until_nul(s: Seq<u8>) -> Seq<u8> {
    s.take(nul_position(s))
}

/// What `trim_start` drops is whitespace, and it stops at the first byte
/// that is none. The number of bytes dropped comes back.
pub proof fn lemma_trim_start(s: Seq<u8>) -> (dropped: int)
    ensures
        0 <= dropped <= s.len(),
        trim_start(s) == s.skip(dropped),
        forall|i: int| 0 <= i < dropped ==> is_space(#[trigger] s[i]),
        dropped < s.len() ==> !is_space(s[dropped]),
    decreases s.len(),
{
    if s.len() > 0 && is_space(s[0]) {
        let rest = s.drop_first();
        let inner = lemma_trim_start(rest);
        assert(rest.skip(inner) =~= s.skip(inner + 1));
        assert forall|i: int| 0 <= i < inner + 1 implies is_space(#[trigger] s[i]) by {
            if i > 0 {
                assert(s[i] == rest[i - 1]);
            }
        }
        if inner + 1 < s.len() {
            assert(s[inner + 1] == rest[inner]);
        }
        inner + 1
    } else {
        assert(s.skip(0) =~= s);
        0
    }
}

/// What `trim_end` drops is whitespace, and it stops at the last byte that
/// is none. The number of bytes kept comes back.
pub proof fn lemma_trim_end(s: Seq<u8>) -> (kept: int)
    ensures
        0 <= kept <= s.len(),
        trim_end(s) == s.take(kept),
        forall|i: int| kept <= i < s.len() ==> is_space(#[trigger] s[i]),
        kept > 0 ==> !is_space(s[kept - 1]),
    decreases s.len(),
{
    if s.len() > 0 && is_space(s.last()) {
        let front = s.drop_last();
        let inner = lemma_trim_end(front);
        assert(front.take(inner) =~= s.take(inner));
        assert forall|i: int| inner <= i < s.len() implies is_space(#[trigger] s[i]) by {
            if i < s.len() - 1 {
                assert(s[i] == front[i]);
            }
        }
        if inner > 0 {
            assert(s[inner - 1] == front[inner - 1]);
        }
        inner
    } else {
        assert(s.take(s.len() as int) =~= s);
        s.len() as int
    }
}

/// Trimming cuts a range out of the sequence: all before it and all behind
/// it is whitespace, and where it is not empty it starts and ends with a
/// byte that is none. The range comes back.
pub proof fn lemma_trimmed(s: Seq<u8>) -> (range: (int, int))
    ensures
        0 <= range.0 <= range.1 <= s.len(),
        trimmed(s) == s.subrange(range.0, range.1),
        forall|i: int| 0 <= i < range.0 ==> is_space(#[trigger] s[i]),
        forall|i: int| range.1 <= i < s.len() ==> is_space(#[trigger] s[i]),
        range.0 < range.1 ==> !is_space(s[range.0]) && !is_space(s[range.1 - 1]),
{
    let start = lemma_trim_start(s);
    let tail = s.skip(start);
    let kept = lemma_trim_end(tail);
    assert(tail.take(kept) =~= s.subrange(start, start + kept));
    assert forall|i: int| start + kept <= i < s.len() implies is_space(#[trigger] s[i]) by {
        assert(s[i] == tail[i - start]);
    }
    if kept > 0 {
        assert(s[start + kept - 1] == tail[kept - 1]);
    }
    (start, start + kept)
}

/// `nul_position` is where the first zero byte stands, or the length of
/// the sequence if it holds none.
pub proof fn lemma_nul_position(s: Seq<u8>)
    ensures
        0 <= nul_position(s) <= s.len(),
        forall|i: int| 0 <= i < nul_position(s) ==> #[trigger] s[i] != 0,
        nul_position(s) < s.len() ==> s[nul_position(s)] == 0,
    decreases s.len(),
{
    if s.len() > 0 && s[0] != 0 {
        let rest = s.drop_first();
        lemma_nul_position(rest);
        assert forall|i: int| 0 <= i < nul_position(s) implies #[trigger] s[i] != 0 by {
            if i > 0 {
                assert(s[i] == rest[i - 1]);
            }
        }
        if nul_position(s) < s.len() {
            assert(s[nul_position(s)] == rest[nul_position(rest)]);
        }
    }
}

fn space(b: u8) -> (r: bool)
    ensures
        r == is_space(b),
{
    b == 0x20 || (0x09 <= b && b <= 0x0d)
}

/// The sub-slice of `bytes` between its leading and trailing whitespace.
pub fn trim(bytes: &[u8]) -> (r: &[u8])
    ensures
        r@ == trimmed(bytes@),
{
    let len = bytes.len();
    let mut start: usize = 0;
    assert(bytes@.skip(0) =~= bytes@);
    while start < len && space(bytes[start])
        invariant
            len == bytes@.len(),
            start <= len,
            trim_start(bytes@) == trim_start(bytes@.skip(start as int)),
        decreases len - start,
    {
        assert(bytes@.skip(start as int).drop_first() =~= bytes@.skip(start as int + 1));
        start += 1;
    }
    assert(trim_start(bytes@) == bytes@.skip(start as int));
    let mut end: usize = len;
    while end > start && space(bytes[end - 1])
        invariant
            len == bytes@.len(),
            start <= end <= len,
            trimmed(bytes@) == trim_end(bytes@.subrange(start as int, end as int)),
        decreases end,
    {
        assert(bytes@.subrange(start as int, end as int).drop_last() =~= bytes@.subrange(
            start as int,
            end as int - 1,
        ));
        end -= 1;
    }
    slice_subrange(bytes, start, end)
}

/// The sub-slice of `bytes` before its first zero byte.
pub fn nul_terminated(bytes: &[u8]) -> (r: &[u8])
    ensures
        r@ == until_nul(bytes@),
{
    let len = bytes.len();
    let mut end: usize = 0;
    assert(bytes@.skip(0) =~= bytes@);
    while end < len && bytes[end] != 0
        invariant
            len == bytes@.len(),
            end <= len,
            nul_position(bytes@) == end + nul_position(bytes@.skip(end as int)),
        decreases len - end,
    {
        assert(bytes@.skip(end as int).drop_first() =~= bytes@.skip(end as int + 1));
        end += 1;
    }
    slice_subrange(bytes, 0, end)
}

/// An ASCII decimal digit, `0` (0x30) to `9` (0x39).
pub open spec fn is_digit(b: u8) -> bool {
    0x30 <= b && b <= 0x39
}

/// The number that the digit `b` stands for.
pub open spec fn digit_value(b: u8) -> int {
    b - 0x30
}

/// Where the longest run of digits that starts at `from` ends.
pub open spec fn digit_run(s: Seq<u8>, from: int) -> int
    decreases s.len() - from,
{
    if 0 <= from < s.len() && is_digit(s[from]) {
        digit_run(s, from + 1)
    } else {
        from
    }
}

/// 1 if a plus or minus sign stands at `at`, else 0.
pub open spec fn sign_len(s: Seq<u8>, at: int) -> int {
    // '+' is 0x2b, '-' is 0x2d
    if 0 <= at < s.len() && (s[at] == 0x2b || s[at] == 0x2d) {
        1
    } else {
        0
    }
}

/// `b` is the capital letter `upper` or its small form.
pub open spec fn is_letter(b: u8, upper: u8) -> bool {
    b == upper || b == upper + 0x20
}

/// `s` spells `inf`, `infinity` or `nan`, in capital or small letters.
pub open spec fn is_special_number(s: Seq<u8>) -> bool {
    // I N F
    ||| s.len() == 3 && is_letter(s[0], 0x49) && is_letter(s[1], 0x4e) && is_letter(s[2], 0x46)
    // N A N
    ||| s.len() == 3 && is_letter(s[0], 0x4e) && is_letter(s[1], 0x41) && is_letter(s[2], 0x4e)
    // I N F I N I T Y
    ||| s.len() == 8 && is_letter(s[0], 0x49) && is_letter(s[1], 0x4e) && is_letter(s[2], 0x46)
        && is_letter(s[3], 0x49) && is_letter(s[4], 0x4e) && is_letter(s[5], 0x49)
        && is_letter(s[6], 0x54) && is_letter(s[7], 0x59)
}

/// From `at` to its end `s` is an exponent: the letter `e`, an optional
/// sign, and one digit or more.
pub open spec fn is_exponent(s: Seq<u8>, at: int) -> bool {
    let digits = at + 1 + sign_len(s, at + 1);
    &&& 0 <= at < s.len()
    // E
    &&& is_letter(s[at], 0x45)
    &&& digits < s.len()
    &&& digit_run(s, digits) == s.len()
}

/// From `at` to its end `s` is digits with at most one decimal point among
/// them, at least one digit in all, and then an optional exponent.
pub open spec fn is_plain_number(s: Seq<u8>, at: int) -> bool {
    let whole_end = digit_run(s, at);
    // '.' is 0x2e
    let has_point = whole_end < s.len() && s[whole_end] == 0x2e;
    let fraction_end = if has_point {
        digit_run(s, whole_end + 1)
    } else {
        whole_end
    };
    let digits = if has_point {
        fraction_end - at - 1
    } else {
        fraction_end - at
    };
    digits > 0 && (fraction_end == s.len() || is_exponent(s, fraction_end))
}

/// `s` is a decimal floating-point number: an optional sign, and then
/// either a plain number or one of the words for infinity and
/// not-a-number.
pub open spec fn is_decimal_number(s: Seq<u8>) -> bool {
    let body = sign_len(s, 0);
    body < s.len() && (is_plain_number(s, body) || is_special_number(s.skip(body)))
}

/// Every byte of `s` is below 0x80.
pub open spec fn is_ascii_bytes(s: Seq<u8>) -> bool {
    forall|i: int| 0 <= i < s.len() ==> #[trigger] s[i] < 0x80
}

/// The characters whose code points are the bytes of `s`.
pub open spec fn ascii_text(s: Seq<u8>) -> Seq<char> {
    Seq::new(s.len(), |i: int| s[i] as char)
}

/// ASCII bytes are valid UTF-8 and decode byte by byte.
pub proof fn lemma_ascii_is_utf8(s: Seq<u8>)
    requires
        is_ascii_bytes(s),
    ensures
        valid_utf8(s),
        decode_utf8(s) == ascii_text(s),
{
    let chars = ascii_text(s);
    assert(is_ascii_chars(chars));
    is_ascii_chars_encode_utf8(chars);
    assert(encode_utf8(chars) =~= s);
    encode_utf8_valid_utf8(chars);
    encode_utf8_decode_utf8(chars);
}

/// A run of digits lies inside the sequence, holds digits only, and stops
/// at the first byte that is none.
pub proof fn lemma_digit_run(s: Seq<u8>, from: int)
    requires
        0 <= from <= s.len(),
    ensures
        from <= digit_run(s, from) <= s.len(),
        forall|i: int| from <= i < digit_run(s, from) ==> is_digit(#[trigger] s[i]),
        digit_run(s, from) < s.len() ==> !is_digit(s[digit_run(s, from)]),
    decreases s.len() - from,
{
    if from < s.len() && is_digit(s[from]) {
        lemma_digit_run(s, from + 1);
    }
}

/// A decimal number is written in ASCII.
pub proof fn lemma_decimal_number_is_ascii(s: Seq<u8>)
    requires
        is_decimal_number(s),
    ensures
        is_ascii_bytes(s),
{
    let body = sign_len(s, 0);
    if is_plain_number(s, body) {
        let whole_end = digit_run(s, body);
        lemma_digit_run(s, body);
        if whole_end < s.len() && s[whole_end] == 0x2e {
            lemma_digit_run(s, whole_end + 1);
        }
        let fraction_end = if whole_end < s.len() && s[whole_end] == 0x2e {
            digit_run(s, whole_end + 1)
        } else {
            whole_end
        };
        if fraction_end < s.len() {
            lemma_digit_run(s, fraction_end + 1 + sign_len(s, fraction_end + 1));
        }
        assert forall|i: int| 0 <= i < s.len() implies #[trigger] s[i] < 0x80 by {
            if i < body {
            } else if i < whole_end {
            } else if i < fraction_end {
            } else if i == fraction_end {
            } else if i < fraction_end + 1 + sign_len(s, fraction_end + 1) {
            } else {
            }
        }
    } else {
        let word = s.skip(body);
        assert forall|i: int| 0 <= i < s.len() implies #[trigger] s[i] < 0x80 by {
            if i >= body {
                assert(s[i] == word[i - body]);
            }
        }
    }
}

fn digit(b: u8) -> (r: bool)
    ensures
        r == is_digit(b),
{
    0x30 <= b && b <= 0x39
}

fn letter(b: u8, upper: u8) -> (r: bool)
    requires
        upper < 0x80,
    ensures
        r == is_letter(b, upper),
{
    b == upper || b == upper + 0x20
}

fn skip_digits(bytes: &[u8], from: usize) -> (end: usize)
    requires
        from <= bytes.len(),
    ensures
        end as int == digit_run(bytes@, from as int),
        from <= end <= bytes.len(),
{
    let mut end = from;
    while end < bytes.len() && digit(bytes[end])
        invariant
            from <= end <= bytes.len(),
            digit_run(bytes@, from as int) == digit_run(bytes@, end as int),
        decreases bytes.len() - end,
    {
        end += 1;
    }
    end
}

fn skip_sign(bytes: &[u8], at: usize) -> (next: usize)
    requires
        at <= bytes.len(),
    ensures
        next as int == at + sign_len(bytes@, at as int),
        next <= bytes.len(),
{
    if at < bytes.len() && (bytes[at] == 0x2b || bytes[at] == 0x2d) {
        at + 1
    } else {
        at
    }
}

fn special_number(bytes: &[u8], at: usize) -> (r: bool)
    requires
        at <= bytes.len(),
    ensures
        r == is_special_number(bytes@.skip(at as int)),
{
    let len = bytes.len() - at;
    if len == 3 {
        (letter(bytes[at], 0x49) && letter(bytes[at + 1], 0x4e) && letter(bytes[at + 2], 0x46))
            || (letter(bytes[at], 0x4e) && letter(bytes[at + 1], 0x41)
            && letter(bytes[at + 2], 0x4e))
    } else if len == 8 {
        letter(bytes[at], 0x49) && letter(bytes[at + 1], 0x4e) && letter(bytes[at + 2], 0x46)
            && letter(bytes[at + 3], 0x49) && letter(bytes[at + 4], 0x4e)
            && letter(bytes[at + 5], 0x49) && letter(bytes[at + 6], 0x54)
            && letter(bytes[at + 7], 0x59)
    } else {
        false
    }
}

fn exponent(bytes: &[u8], at: usize) -> (r: bool)
    requires
        at < bytes.len(),
    ensures
        r == is_exponent(bytes@, at as int),
{
    if !letter(bytes[at], 0x45) {
        return false;
    }
    let digits = skip_sign(bytes, at + 1);
    digits < bytes.len() && skip_digits(bytes, digits) == bytes.len()
}

fn plain_number(bytes: &[u8], at: usize) -> (r: bool)
    requires
        at <= bytes.len(),
    ensures
        r == is_plain_number(bytes@, at as int),
{
    let whole_end = skip_digits(bytes, at);
    let has_point = whole_end < bytes.len() && bytes[whole_end] == 0x2e;
    let fraction_end = if has_point {
        skip_digits(bytes, whole_end + 1)
    } else {
        whole_end
    };
    let digits = if has_point {
        fraction_end - at - 1
    } else {
        fraction_end - at
    };
    digits > 0 && (fraction_end == bytes.len() || exponent(bytes, fraction_end))
}

/// Whether `bytes` spell a decimal floating-point number.
pub fn decimal_number(bytes: &[u8]) -> (r: bool)
    ensures
        r == is_decimal_number(bytes@),
{
    let body = skip_sign(bytes, 0);
    body < bytes.len() && (plain_number(bytes, body) || special_number(bytes, body))
}

/// Whether two strings hold the same characters.
pub fn same_text(a: &str, b: &str) -> (r: bool)
    ensures
        r == (a@ == b@),
{
    let left = a.as_bytes();
    let right = b.as_bytes();
    proof {
        encode_utf8_decode_utf8(a@);
        encode_utf8_decode_utf8(b@);
    }
    if left.len() != right.len() {
        return false;
    }
    let mut i: usize = 0;
    while i < left.len()
        invariant
            i <= left.len(),
            left.len() == right.len(),
            left@ == a.spec_bytes(),
            right@ == b.spec_bytes(),
            forall|k: int| 0 <= k < i ==> left@[k] == right@[k],
        decreases left.len() - i,
    {
        if left[i] != right[i] {
            return false;
        }
        i += 1;
    }
    assert(left@ =~= right@);
    true
}

/// `core::str::from_utf8`: the string slice that lies in `bytes`, where
/// they are well-formed UTF-8, and nothing where they are not. The slice
/// that comes back holds the bytes that went in.
#[verifier::external_body]
fn utf8_str(bytes: &[u8]) -> (r: Option<&str>)
    ensures
        r is Some <==> valid_utf8(bytes@),
        r matches Some(text) ==> text.spec_bytes() == bytes@,
{
    match core::str::from_utf8(bytes) {
        Ok(text) => Some(text),
        Err(_) => None,
    }
}

/// The text that `bytes` encode in UTF-8, if they are well formed.
pub fn decode_text(bytes: &[u8]) -> (r: Option<String>)
    ensures
        r is Some <==> valid_utf8(bytes@),
        r matches Some(text) ==> text@ == decode_utf8(bytes@),
{
    match utf8_str(bytes) {
        Some(text) => {
            proof {
                encode_utf8_decode_utf8(text@);
            }
            Some(text.to_owned())
        },
        None => None,
    }
}

} // verus!
