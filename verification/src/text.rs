//! Text helpers: lossy decoding of dictionary bytes, lower-casing of
//! headwords, and the conversions between strings and character vectors.
use vstd::prelude::*;
use vstd::std_specs::iter::IteratorSpec;
use vstd::utf8::{decode_utf8, valid_utf8};

verus! {

broadcast use vstd::string::group_string_axioms;

/// The characters that std's lossy UTF-8 decoding yields for `bytes`:
/// valid sequences decoded, each maximal invalid part replaced by U+FFFD.
pub uninterp spec fn lossy_text(bytes: Seq<u8>) -> Seq<char>;

/// The characters that bytes are decoded to: those that they encode where
/// they are valid UTF-8, and what lossy decoding makes of them where they
/// are not.
pub open spec fn decoded(bytes: Seq<u8>) -> Seq<char> {
    if valid_utf8(bytes) {
        decode_utf8(bytes)
    } else {
        lossy_text(bytes)
    }
}

/// The lower-case form that std gives a string (Unicode, locale-free).
pub uninterp spec fn lowercase(s: Seq<char>) -> Seq<char>;

/// The Unicode replacement character, which lossy decoding puts in place of
/// bytes that are not UTF-8.
pub const REPLACEMENT: char = '\u{fffd}';

/// `s` without its replacement characters, the others in order.
pub open spec fn without_replacement(s: Seq<char>) -> Seq<char>
    decreases s.len(),
{
    if s.len() == 0 {
        Seq::empty()
    } else if s.last() == REPLACEMENT {
        without_replacement(s.drop_last())
    } else {
        without_replacement(s.drop_last()).push(s.last())
    }
}

/// The text that a run of dictionary bytes stands for: decoded lossily, the
/// replacement characters dropped.
pub open spec fn clean_text(bytes: Seq<u8>) -> Seq<char> {
    without_replacement(decoded(bytes))
}

/// Calls `String::from_utf8_lossy`. Trusted: the string holds the
/// characters of the lossy decoding, which for valid UTF-8 is the plain
/// decoding.
#[verifier::external_body]
pub(crate) fn lossy_string(buf: &[u8]) -> (s: String)
    ensures
        s@ == decoded(buf@),
        !valid_utf8(buf@) ==> s@ == lossy_text(buf@),
{
    String::from_utf8_lossy(buf).into_owned()
}

/// Calls `String::from_iter` on the characters. Trusted: the string holds
/// exactly these characters, in order.
#[verifier::external_body]
pub(crate) fn string_from_chars(chars: &Vec<char>) -> (s: String)
    ensures
        s@ == chars@,
{
    String::from_iter(chars.iter())
}

/// The characters of a string, one by one.
pub(crate) fn chars_of(s: &str) -> (chars: Vec<char>)
    ensures
        chars@ == s@,
{
    let mut chars: Vec<char> = Vec::new();
    let mut it = s.chars();
    let mut more = true;
    proof {
        assert(chars@ + it.remaining() =~= s@);
    }
    while more
        invariant
            it.obeys_prophetic_iter_laws(),
            it.decrease() is Some,
            more ==> chars@ + it.remaining() == s@,
            !more ==> chars@ == s@,
        decreases
            (if more {
                1int
            } else {
                0int
            }),
            it.decrease()->0,
    {
        let ghost before = it.remaining();
        let ghost taken = chars@;
        match it.next() {
            Some(c) => {
                chars.push(c);
                proof {
                    assert(chars@ + it.remaining() =~= taken + before);
                }
            },
            None => {
                more = false;
                proof {
                    assert(taken + before =~= taken);
                }
            },
        }
    }
    chars
}

/// Calls `str::to_lowercase`. Trusted: the result is the lower-case form,
/// which depends on the characters alone.
#[verifier::external_body]
pub(crate) fn lower(s: &str) -> (r: String)
    ensures
        r@ == lowercase(s@),
{
    s.to_lowercase()
}

/// Calls `String::from_utf8`. Trusted: it succeeds exactly on valid UTF-8
/// and then holds the decoded characters.
#[verifier::external_body]
pub(crate) fn utf8_string(bytes: Vec<u8>) -> (r: Option<String>)
    ensures
        r is Some <==> valid_utf8(bytes@),
        r is Some ==> r->0@ == decode_utf8(bytes@),
{
    String::from_utf8(bytes).ok()
}

/// Whether the character is one of the ten decimal digits.
pub open spec fn is_digit(c: char) -> bool {
    48 <= c as u32 <= 57
}

/// The number that a decimal digit stands for.
pub open spec fn digit_value(c: char) -> nat {
    if is_digit(c) {
        (c as u32 - 48) as nat
    } else {
        0
    }
}

/// The number that a run of decimal digits stands for.
pub open spec fn digits_value(s: Seq<char>) -> nat
    decreases s.len(),
{
    if s.len() == 0 {
        0
    } else {
        10 * digits_value(s.drop_last()) + digit_value(s.last())
    }
}

/// Whether every character is a decimal digit.
pub open spec fn all_digits(s: Seq<char>) -> bool {
    forall|i: int| 0 <= i < s.len() ==> is_digit(#[trigger] s[i])
}

/// The text without the plus sign that it may start with.
pub open spec fn without_sign(s: Seq<char>) -> Seq<char> {
    if s.len() > 0 && s[0] == '+' {
        s.subrange(1, s.len() as int)
    } else {
        s
    }
}

/// The number up to `max` that a text stands for, as std reads unsigned
/// numbers: an optional plus sign, then at least one decimal digit and
/// nothing else. `None` for every other text and for a larger number.
pub open spec fn parsed_unsigned(s: Seq<char>, max: nat) -> Option<nat> {
    let digits = without_sign(s);
    if digits.len() == 0 || !all_digits(digits) || digits_value(digits) > max {
        None
    } else {
        Some(digits_value(digits))
    }
}

/// A run of digits stands for no less than any of its beginnings.
pub proof fn digits_value_grows(s: Seq<char>, n: int)
    requires
        0 <= n <= s.len(),
    ensures
        digits_value(s.take(n)) <= digits_value(s),
    decreases s.len() - n,
{
    if n < s.len() {
        assert(s.take(n + 1).drop_last() =~= s.take(n));
        digits_value_grows(s, n + 1);
    } else {
        assert(s.take(n) =~= s);
    }
}

/// Reads an unsigned decimal number up to `max`.
pub fn parse_unsigned(s: &str, max: u64) -> (r: Option<u64>)
    ensures
        match r {
            Some(v) => parsed_unsigned(s@, max as nat) == Some(v as nat),
            None => parsed_unsigned(s@, max as nat) is None,
        },
{
    let chars = chars_of(s);
    let len: usize = chars.len();
    let start: usize = if len > 0 && chars[0] == '+' {
        1
    } else {
        0
    };
    if start == len {
        return None;
    }
    let ghost digits = without_sign(s@);
    let mut acc: u64 = 0;
    let mut i: usize = start;
    proof {
        assert(digits =~= chars@.subrange(start as int, len as int));
        assert(digits.take(0) =~= Seq::empty());
    }
    while i < len
        invariant
            start <= i <= len == chars@.len(),
            digits == chars@.subrange(start as int, len as int),
            digits == without_sign(s@),
            all_digits(digits.take(i - start)),
            acc == digits_value(digits.take(i - start)),
            acc <= max,
        decreases len - i,
    {
        let c = chars[i];
        let code: u32 = c as u32;
        proof {
            assert(digits[i - start] == c);
            assert(digits.take(i - start + 1).drop_last() =~= digits.take(i - start));
            assert(digits.take(i - start + 1).last() == c);
            digits_value_grows(digits, i - start + 1);
        }
        if code < 48 || code > 57 {
            proof {
                assert(!is_digit(digits[i - start]));
            }
            return None;
        }
        let d: u64 = (code - 48) as u64;
        proof {
            assert(digits_value(digits.take(i - start + 1)) == 10 * acc + d);
        }
        if d > max || acc > (max - d) / 10 {
            return None;
        }
        acc = acc * 10 + d;
        i = i + 1;
    }
    proof {
        assert(digits.take(len - start) =~= digits);
    }
    Some(acc)
}

/// Decodes bytes as text, dropping whatever is not valid UTF-8.
pub fn buf_to_string(buf: &[u8]) -> (s: String)
    ensures
        s@ == clean_text(buf@),
{
    let lossy = lossy_string(buf);
    let chars = chars_of(lossy.as_str());
    let mut kept: Vec<char> = Vec::new();
    let mut i: usize = 0;
    while i < chars.len()
        invariant
            i <= chars.len(),
            kept@ == without_replacement(chars@.take(i as int)),
        decreases chars.len() - i,
    {
        let c = chars[i];
        proof {
            assert(chars@.take(i + 1).drop_last() == chars@.take(i as int));
        }
        if c != REPLACEMENT {
            kept.push(c);
        }
        i = i + 1;
    }
    proof {
        assert(chars@.take(i as int) == chars@);
    }
    string_from_chars(&kept)
}

/// The number of characters from `pos` on that come before `stop` or the
/// end of `text`.
pub open spec fn chars_before(text: Seq<char>, pos: int, stop: char) -> nat
    decreases text.len() - pos,
{
    if pos < 0 || pos >= text.len() || text[pos] == stop {
        0
    } else {
        1 + chars_before(text, pos + 1, stop)
    }
}


/// Counting up to a stop gives the same in a text and in the part of
/// it that starts at `base`.
pub proof fn chars_before_shift(text: Seq<char>, base: int, pos: int, stop: char)
    requires
        0 <= base <= pos <= text.len(),
    ensures
        chars_before(text, pos, stop) == chars_before(
            text.subrange(base, text.len() as int),
            pos - base,
            stop,
        ),
    decreases text.len() - pos,
{
    if pos < text.len() && text[pos] != stop {
        chars_before_shift(text, base, pos + 1, stop);
    }
}

/// The place of the first `stop` in the characters from `pos` up to `end`,
/// or `end` where there is none.
pub(crate) fn find_char(text: &Vec<char>, pos: usize, end: usize, stop: char) -> (r: usize)
    requires
        pos <= end <= text@.len(),
    ensures
        pos <= r <= end,
        r - pos == chars_before(text@.subrange(0, end as int), pos as int, stop),
{
    let ghost part = text@.subrange(0, end as int);
    let mut i: usize = pos;
    while i < end && text[i] != stop
        invariant
            pos <= i <= end <= text@.len(),
            part == text@.subrange(0, end as int),
            (i - pos) + chars_before(part, i as int, stop) == chars_before(part, pos as int, stop),
        decreases end - i,
    {
        i = i + 1;
    }
    i
}

/// The characters from `from` up to `to`, as a string.
pub(crate) fn substring(text: &Vec<char>, from: usize, to: usize) -> (s: String)
    requires
        from <= to <= text@.len(),
    ensures
        s@ == text@.subrange(from as int, to as int),
{
    let mut part: Vec<char> = Vec::new();
    let mut i: usize = from;
    while i < to
        invariant
            from <= i <= to <= text@.len(),
            part@ == text@.subrange(from as int, i as int),
        decreases to - i,
    {
        part.push(text[i]);
        i = i + 1;
    }
    string_from_chars(&part)
}

} // verus!
