//! Small helpers on text: comparison, case, trimming, octal numbers.

use vstd::prelude::*;
use vstd::string::StrSliceExecFns;

verus! {

/// Whether two pieces of text hold the same characters.
pub fn same_text(a: &str, b: &str) -> (same: bool)
    ensures
        same == (a@ == b@),
{
    let x = a.to_owned();
    let y = b.to_owned();
    x == y
}

/// Whether two optional pieces of text are both absent or hold the same characters.
pub fn same_optional_text(a: &Option<String>, b: &Option<String>) -> (same: bool)
    ensures
        same == (a.deep_view() == b.deep_view()),
{
    match (a, b) {
        (None, None) => true,
        (Some(x), Some(y)) => same_text(x.as_str(), y.as_str()),
        _ => false,
    }
}

/// Whether two lists of text hold the same entries in the same order.
pub fn same_text_list(a: &Vec<String>, b: &Vec<String>) -> (same: bool)
    ensures
        same == (a.deep_view() == b.deep_view()),
{
    if a.len() != b.len() {
        assert(a.deep_view().len() != b.deep_view().len());
        return false;
    }
    let mut i: usize = 0;
    while i < a.len()
        invariant
            i <= a.len(),
            a.len() == b.len(),
            forall|j: int| 0 <= j < i ==> a[j]@ == b[j]@,
        decreases a.len() - i,
    {
        if !same_text(a[i].as_str(), b[i].as_str()) {
            assert(a.deep_view()[i as int] != b.deep_view()[i as int]);
            return false;
        }
        i += 1;
    }
    assert(a.deep_view() =~= b.deep_view());
    true
}

/// The upper-case form that Unicode gives to a text.
pub uninterp spec fn uppercase_of(text: Seq<char>) -> Seq<char>;

/// `str::to_uppercase`: the result is the Unicode upper-case form of the
/// argument, a function of its characters alone.
#[verifier::external_body]
pub(crate) fn to_upper(text: &str) -> (upper: String)
    ensures
        upper@ == uppercase_of(text@),
{
    text.to_uppercase()
}

/// Whether `c` is white space: one of the code points that bear the
/// Unicode property `White_Space`.
pub open spec fn is_white_space(c: char) -> bool {
    let n = c as u32;
    ||| 0x09 <= n <= 0x0d
    ||| n == 0x20
    ||| n == 0x85
    ||| n == 0xa0
    ||| n == 0x1680
    ||| 0x2000 <= n <= 0x200a
    ||| n == 0x2028
    ||| n == 0x2029
    ||| n == 0x202f
    ||| n == 0x205f
    ||| n == 0x3000
}

/// A text without the white space at its beginning.
pub open spec fn without_leading_space(text: Seq<char>) -> Seq<char>
    decreases text.len(),
{
    if text.len() > 0 && is_white_space(text[0]) {
        without_leading_space(text.skip(1))
    } else {
        text
    }
}

/// A text without the white space at its end.
pub open spec fn without_trailing_space(text: Seq<char>) -> Seq<char>
    decreases text.len(),
{
    if text.len() > 0 && is_white_space(text.last()) {
        without_trailing_space(text.drop_last())
    } else {
        text
    }
}

/// A text without the white space at its two ends.
pub open spec fn trimmed_text(text: Seq<char>) -> Seq<char> {
    without_trailing_space(without_leading_space(text))
}

/// `str::trim`: the result is the argument without its leading and
/// trailing white space, which std defines by the Unicode property
/// `White_Space`.
#[verifier::external_body]
pub(crate) fn trim_text(text: &str) -> (trimmed: String)
    ensures
        trimmed@ == trimmed_text(text@),
{
    text.trim().to_owned()
}

/// The value of an octal digit, if `c` is one.
pub open spec fn octal_digit(c: char) -> Option<nat> {
    if '0' <= c && c <= '7' {
        Some((c as nat - '0' as nat) as nat)
    } else {
        None
    }
}

/// The number that a run of octal digits writes, most significant first.
pub open spec fn octal_value(digits: Seq<char>) -> nat
    decreases digits.len(),
{
    if digits.len() == 0 {
        0
    } else {
        8 * octal_value(digits.drop_last()) + octal_digit(digits.last()).unwrap_or(0)
    }
}

/// Whether every character is an octal digit.
pub open spec fn all_octal(digits: Seq<char>) -> bool {
    forall|i: int| 0 <= i < digits.len() ==> octal_digit(#[trigger] digits[i]) is Some
}

/// The digits of an octal numeral: the text itself, or what follows one leading `+`.
pub open spec fn octal_digits_of(text: Seq<char>) -> Seq<char> {
    if text.len() > 0 && text[0] == '+' {
        text.skip(1)
    } else {
        text
    }
}

/// What an octal numeral denotes as a 32-bit number: `None` when it has no
/// digits, holds a character that is no octal digit, or is too large.
pub open spec fn octal_number(text: Seq<char>) -> Option<u32> {
    let digits = octal_digits_of(text);
    if digits.len() > 0 && all_octal(digits) && octal_value(digits) <= u32::MAX {
        Some(octal_value(digits) as u32)
    } else {
        None
    }
}

/// Octal values never shrink when digits are appended.
proof fn lemma_octal_value_grows(digits: Seq<char>, n: int)
    requires
        0 <= n <= digits.len(),
    ensures
        octal_value(digits.take(n)) <= octal_value(digits),
    decreases digits.len() - n,
{
    if n == digits.len() {
        assert(digits.take(n) =~= digits);
    } else {
        lemma_octal_value_grows(digits, n + 1);
        assert(digits.take(n + 1).drop_last() =~= digits.take(n));
    }
}

/// Reads an octal numeral, with an optional leading `+`, as a 32-bit number.
pub fn parse_octal(text: &str) -> (number: Option<u32>)
    ensures
        number == octal_number(text@),
{
    let len = text.unicode_len();
    let start: usize = if len > 0 && text.get_char(0) == '+' { 1 } else { 0 };
    let ghost digits = octal_digits_of(text@);
    assert(digits == text@.skip(start as int)) by {
        if start == 0 {
            assert(text@.skip(0) =~= text@);
        }
    }
    if start == len {
        return None;
    }
    let mut value: u32 = 0;
    let mut i: usize = start;
    while i < len
        invariant
            start <= i <= len,
            len == text@.len(),
            digits == text@.skip(start as int),
            digits == octal_digits_of(text@),
            all_octal(digits.take(i - start)),
            value == octal_value(digits.take(i - start)),
        decreases len - i,
    {
        let c = text.get_char(i);
        let ghost before = digits.take(i - start);
        let ghost after = digits.take(i - start + 1);
        assert(after.drop_last() =~= before);
        assert(after.last() == c);
        assert(digits[i - start] == c);
        if !('0' <= c && c <= '7') {
            assert(octal_digit(digits[i - start]) is None);
            assert(!all_octal(digits));
            return None;
        }
        let d: u32 = (c as u32) - ('0' as u32);
        assert(octal_digit(c) == Some(d as nat));
        assert(octal_value(after) == 8 * value + d);
        if value > (u32::MAX - d) / 8 {
            proof {
                assert(octal_value(after) > u32::MAX);
                lemma_octal_value_grows(digits, i - start + 1);
            }
            return None;
        }
        value = value * 8 + d;
        i += 1;
        assert(all_octal(after)) by {
            assert forall|j: int| 0 <= j < after.len() implies octal_digit(
                #[trigger] after[j],
            ) is Some by {
                if j < before.len() {
                    assert(after[j] == before[j]);
                }
            }
        }
    }
    assert(digits.take(len - start) =~= digits);
    Some(value)
}

} // verus!
