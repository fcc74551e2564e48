//! Character-level helpers the parsers share: equality of strings, ASCII
//! digits and case, and Unicode whitespace trimming.

use vstd::prelude::*;

verus! {

/// Whether `c` is an ASCII decimal digit.
pub open spec fn is_digit(c: char) -> bool {
    '0' <= c && c <= '9'
}

/// The value of a run of ASCII digits, read as a decimal number.
pub open spec fn digits_value(s: Seq<char>) -> int
    decreases s.len(),
{
    if s.len() == 0 {
        0
    } else {
        10 * digits_value(s.drop_last()) + (s.last() as int - '0' as int)
    }
}

/// Whether every character of `s` is an ASCII digit.
pub open spec fn all_digits(s: Seq<char>) -> bool {
    forall|i: int| 0 <= i < s.len() ==> is_digit(#[trigger] s[i])
}

/// The Unicode `White_Space` property, as `char::is_whitespace` reports it.
pub open spec fn is_space(c: char) -> bool {
    ||| c == '\t' || c == '\n' || c == '\u{0B}' || c == '\u{0C}' || c == '\r' || c == ' '
    ||| c == '\u{85}' || c == '\u{A0}' || c == '\u{1680}'
    ||| ('\u{2000}' <= c && c <= '\u{200A}')
    ||| c == '\u{2028}' || c == '\u{2029}' || c == '\u{202F}' || c == '\u{205F}'
    ||| c == '\u{3000}'
}

/// `c` folded to ASCII lower case (non-ASCII-letters unchanged).
pub open spec fn ascii_lower(c: char) -> char {
    if 'A' <= c && c <= 'Z' {
        ((c as u32) + 32) as char
    } else {
        c
    }
}

/// `s` folded to ASCII lower case, character by character.
pub open spec fn ascii_lower_seq(s: Seq<char>) -> Seq<char> {
    Seq::new(s.len(), |i: int| ascii_lower(s[i]))
}

/// The index of the first non-whitespace character (`s.len()` if none).
pub open spec fn trim_start_index(s: Seq<char>) -> int
    decreases s.len(),
{
    if s.len() == 0 {
        0
    } else if is_space(s[0]) {
        1 + trim_start_index(s.drop_first())
    } else {
        0
    }
}

/// One past the index of the last non-whitespace character (0 if none).
pub open spec fn trim_end_index(s: Seq<char>) -> int
    decreases s.len(),
{
    if s.len() == 0 {
        0
    } else if is_space(s.last()) {
        trim_end_index(s.drop_last())
    } else {
        s.len() as int
    }
}

/// `s` with leading whitespace removed, as `str::trim_start` does.
pub open spec fn trim_start(s: Seq<char>) -> Seq<char> {
    s.subrange(trim_start_index(s), s.len() as int)
}

/// `s` with trailing whitespace removed, as `str::trim_end` does.
pub open spec fn trim_end(s: Seq<char>) -> Seq<char> {
    s.subrange(0, trim_end_index(s))
}

/// `s` with whitespace removed from both ends, as `str::trim` does.
pub open spec fn trim(s: Seq<char>) -> Seq<char> {
    trim_start(trim_end(s))
}

proof fn lemma_trim_start_index_bounds(s: Seq<char>)
    ensures
        0 <= trim_start_index(s) <= s.len(),
        forall|i: int| 0 <= i < trim_start_index(s) ==> is_space(#[trigger] s[i]),
        trim_start_index(s) < s.len() ==> !is_space(s[trim_start_index(s)]),
    decreases s.len(),
{
    if s.len() > 0 && is_space(s[0]) {
        lemma_trim_start_index_bounds(s.drop_first());
        assert forall|i: int| 0 <= i < trim_start_index(s) implies is_space(#[trigger] s[i]) by {
            if i > 0 {
                assert(s[i] == s.drop_first()[i - 1]);
            }
        }
    }
}

proof fn lemma_trim_end_index_bounds(s: Seq<char>)
    ensures
        0 <= trim_end_index(s) <= s.len(),
        forall|i: int| trim_end_index(s) <= i < s.len() ==> is_space(#[trigger] s[i]),
        trim_end_index(s) > 0 ==> !is_space(s[trim_end_index(s) - 1]),
    decreases s.len(),
{
    if s.len() > 0 && is_space(s.last()) {
        lemma_trim_end_index_bounds(s.drop_last());
        assert forall|i: int| trim_end_index(s) <= i < s.len() implies is_space(#[trigger] s[i]) by {
            if i < s.len() - 1 {
                assert(s[i] == s.drop_last()[i]);
            }
        }
    }
}

/// Trimming what is already trimmed changes nothing.
pub proof fn lemma_trim_idempotent(s: Seq<char>)
    ensures
        trim(trim(s)) == trim(s),
{
    let te = trim_end(s);
    lemma_trim_end_index_bounds(s);
    lemma_trim_start_index_bounds(te);
    let t = trim(s);
    lemma_trim_end_index_bounds(t);
    lemma_trim_start_index_bounds(t);
    // `t` neither starts nor ends with whitespace (or is empty).
    if t.len() > 0 {
        assert(t[0] == te[trim_start_index(te)]);
        assert(t.last() == s[trim_end_index(s) - 1]);
        lemma_trim_end_index_of_clean(t);
        assert(trim_end(t) =~= t);
        lemma_trim_start_index_of_clean(t);
        assert(trim_start(t) =~= t);
    } else {
        assert(trim_end(t) =~= t);
        assert(trim(t) =~= t);
    }
}

proof fn lemma_trim_end_index_of_clean(t: Seq<char>)
    requires
        t.len() > 0,
        !is_space(t.last()),
    ensures
        trim_end_index(t) == t.len(),
{
}

proof fn lemma_trim_start_index_of_clean(t: Seq<char>)
    requires
        t.len() > 0,
        !is_space(t[0]),
    ensures
        trim_start_index(t) == 0,
{
}

/// Whether `c` is Unicode whitespace, as `char::is_whitespace` decides it.
pub fn char_is_space(c: char) -> (r: bool)
    ensures
        r == is_space(c),
{
    c == '\t' || c == '\n' || c == '\u{0B}' || c == '\u{0C}' || c == '\r' || c == ' '
        || c == '\u{85}' || c == '\u{A0}' || c == '\u{1680}' || ('\u{2000}' <= c && c
        <= '\u{200A}') || c == '\u{2028}' || c == '\u{2029}' || c == '\u{202F}' || c
        == '\u{205F}' || c == '\u{3000}'
}

/// The characters of `s`, in order.
pub fn chars_of(s: &str) -> (r: Vec<char>)
    ensures
        r@ == s@,
{
    let n = s.unicode_len();
    let mut out: Vec<char> = Vec::new();
    let mut i: usize = 0;
    while i < n
        invariant
            n == s@.len(),
            i <= n,
            out@ == s@.subrange(0, i as int),
        decreases n - i,
    {
        out.push(s.get_char(i));
        i += 1;
        assert(out@ =~= s@.subrange(0, i as int));
    }
    assert(out@ =~= s@);
    out
}

/// A `String` holding exactly the characters of `cs`.
pub fn string_of(cs: &[char]) -> (r: String)
    ensures
        r@ == cs@,
{
    let mut out = String::new();
    let mut i: usize = 0;
    while i < cs.len()
        invariant
            i <= cs@.len(),
            out@ == cs@.subrange(0, i as int),
        decreases cs@.len() - i,
    {
        push_char(&mut out, cs[i]);
        i += 1;
        assert(out@ =~= cs@.subrange(0, i as int));
    }
    assert(out@ =~= cs@);
    out
}

/// `String::push`: appends one character.
#[verifier::external_body]
fn push_char(s: &mut String, c: char)
    ensures
        final(s)@ == old(s)@.push(c),
{
    s.push(c);
}

/// A `String` copy of `s`.
pub fn owned(s: &str) -> (r: String)
    ensures
        r@ == s@,
{
    s.to_owned()
}

/// Whether two character sequences are equal.
pub fn chars_equal(a: &[char], b: &[char]) -> (r: bool)
    ensures
        r == (a@ == b@),
{
    if a.len() != b.len() {
        return false;
    }
    let mut i: usize = 0;
    while i < a.len()
        invariant
            a@.len() == b@.len(),
            i <= a@.len(),
            forall|j: int| 0 <= j < i ==> a@[j] == b@[j],
        decreases a@.len() - i,
    {
        if a[i] != b[i] {
            return false;
        }
        i += 1;
    }
    assert(a@ =~= b@);
    true
}

/// Whether two strings hold the same characters.
pub fn str_equal(a: &str, b: &str) -> (r: bool)
    ensures
        r == (a@ == b@),
{
    let ca = chars_of(a);
    let cb = chars_of(b);
    chars_equal(ca.as_slice(), cb.as_slice())
}

/// The characters of `s` with whitespace removed from both ends, as
/// `str::trim` leaves them.
pub fn trim_chars(s: &[char]) -> (r: Vec<char>)
    ensures
        r@ == trim(s@),
{
    let n = s.len();
    let mut end: usize = n;
    proof {
        lemma_trim_end_index_bounds(s@);
    }
    // Walk back over trailing whitespace.
    while end > 0 && char_is_space(s[end - 1])
        invariant
            n == s@.len(),
            trim_end_index(s@) <= end <= n,
            forall|i: int| trim_end_index(s@) <= i < s@.len() ==> is_space(#[trigger] s@[i]),
            trim_end_index(s@) > 0 ==> !is_space(s@[trim_end_index(s@) - 1]),
        decreases end,
    {
        end -= 1;
    }
    let ghost te = s@.subrange(0, end as int);
    assert(end as int == trim_end_index(s@));
    proof {
        lemma_trim_start_index_bounds(te);
    }
    let mut start: usize = 0;
    while start < end && char_is_space(s[start])
        invariant
            end == te.len(),
            end <= s@.len(),
            te == s@.subrange(0, end as int),
            0 <= start <= trim_start_index(te),
            forall|i: int| 0 <= i < trim_start_index(te) ==> is_space(#[trigger] te[i]),
            trim_start_index(te) < te.len() ==> !is_space(te[trim_start_index(te)]),
            0 <= trim_start_index(te) <= te.len(),
        decreases end - start,
    {
        assert(te[start as int] == s@[start as int]);
        start += 1;
    }
    if start < end {
        assert(te[start as int] == s@[start as int]);
    }
    assert(start as int == trim_start_index(te));
    let mut out: Vec<char> = Vec::new();
    let mut i: usize = start;
    while i < end
        invariant
            start <= i <= end,
            end <= s@.len(),
            out@ == s@.subrange(start as int, i as int),
        decreases end - i,
    {
        out.push(s[i]);
        i += 1;
        assert(out@ =~= s@.subrange(start as int, i as int));
    }
    assert(out@ =~= trim(s@));
    out
}

/// Parse a non-empty run of ASCII digits as a `u32`, or `None` when it is
/// empty, holds anything else, or exceeds `u32::MAX` — `str::parse::<u32>`
/// restricted to bare digits.
pub fn parse_u32_digits(s: &[char]) -> (r: Option<u32>)
    ensures
        r matches Some(v) ==> s@.len() > 0 && all_digits(s@) && v == digits_value(s@),
        r is None ==> s@.len() == 0 || !all_digits(s@) || digits_value(s@) > u32::MAX,
{
    if s.len() == 0 {
        return None;
    }
    let mut v: u64 = 0;
    let mut i: usize = 0;
    while i < s.len()
        invariant
            i <= s@.len(),
            all_digits(s@.subrange(0, i as int)),
            v == digits_value(s@.subrange(0, i as int)),
            v <= u32::MAX,
        decreases s@.len() - i,
    {
        let c = s[i];
        if !('0' <= c && c <= '9') {
            assert(!is_digit(s@[i as int]));
            return None;
        }
        let d = (c as u32 - '0' as u32) as u64;
        assert(s@.subrange(0, i as int + 1).drop_last() =~= s@.subrange(0, i as int));
        let nv = v * 10 + d;
        i += 1;
        assert(all_digits(s@.subrange(0, i as int))) by {
            assert forall|j: int| 0 <= j < i implies is_digit(
                #[trigger] s@.subrange(0, i as int)[j],
            ) by {
                if j < i - 1 {
                    assert(s@.subrange(0, i as int)[j] == s@.subrange(0, i - 1)[j]);
                }
            }
        }
        if nv > u32::MAX as u64 {
            proof {
                lemma_digits_value_prefix_grows(s@, i as int);
            }
            return None;
        }
        v = nv;
    }
    assert(s@.subrange(0, s@.len() as int) =~= s@);
    Some(v as u32)
}

/// `10` to the power `n`.
pub open spec fn pow10(n: nat) -> int
    decreases n,
{
    if n == 0 {
        1
    } else {
        10 * pow10((n - 1) as nat)
    }
}

/// A run of `n` digits is worth less than `10^n`.
pub proof fn lemma_digits_value_lt_pow10(s: Seq<char>)
    requires
        all_digits(s),
    ensures
        0 <= digits_value(s) < pow10(s.len()),
    decreases s.len(),
{
    if s.len() > 0 {
        assert(all_digits(s.drop_last())) by {
            assert forall|j: int| 0 <= j < s.len() - 1 implies is_digit(
                #[trigger] s.drop_last()[j],
            ) by {
                assert(s.drop_last()[j] == s[j]);
            }
        }
        lemma_digits_value_lt_pow10(s.drop_last());
        assert(is_digit(s[s.len() - 1]));
    }
}

/// A run of at most four digits always fits a `u32`.
pub proof fn lemma_short_digits_fit(s: Seq<char>)
    requires
        s.len() <= 4,
    ensures
        all_digits(s) ==> digits_value(s) <= u32::MAX,
{
    if all_digits(s) {
        lemma_digits_value_lt_pow10(s);
        assert(pow10(0) == 1);
        assert(pow10(1) == 10);
        assert(pow10(2) == 100);
        assert(pow10(3) == 1000);
        assert(pow10(4) == 10000);
    }
}

/// A digit run's value is never negative.
proof fn lemma_digits_value_nonneg(s: Seq<char>)
    requires
        all_digits(s),
    ensures
        digits_value(s) >= 0,
    decreases s.len(),
{
    if s.len() > 0 {
        assert(all_digits(s.drop_last())) by {
            assert forall|j: int| 0 <= j < s.len() - 1 implies is_digit(
                #[trigger] s.drop_last()[j],
            ) by {
                assert(s.drop_last()[j] == s[j]);
            }
        }
        lemma_digits_value_nonneg(s.drop_last());
        assert(is_digit(s[s.len() - 1]));
    }
}

/// A digit run's value never shrinks as it grows longer.
proof fn lemma_digits_value_prefix_grows(s: Seq<char>, i: int)
    requires
        0 <= i <= s.len(),
    ensures
        all_digits(s) ==> digits_value(s) >= digits_value(s.subrange(0, i)),
    decreases s.len() - i,
{
    if i < s.len() && all_digits(s) {
        assert(all_digits(s.subrange(0, i + 1)));
        assert(s.subrange(0, i + 1).drop_last() =~= s.subrange(0, i));
        assert(is_digit(s[i]));
        lemma_digits_value_nonneg(s.subrange(0, i));
        assert(s.subrange(0, i + 1).last() == s[i]);
        assert(digits_value(s.subrange(0, i + 1)) >= digits_value(s.subrange(0, i)));
        lemma_digits_value_prefix_grows(s, i + 1);
    } else if i == s.len() {
        assert(s.subrange(0, i) =~= s);
    }
}

/// What `str::to_lowercase` makes of a string: Unicode lower-casing, with
/// its multi-character expansions and context rules.
pub uninterp spec fn lowercase(s: Seq<char>) -> Seq<char>;

/// What `str::to_uppercase` makes of a string: Unicode upper-casing.
pub uninterp spec fn uppercase(s: Seq<char>) -> Seq<char>;

/// `str::to_lowercase`. The contract names the result `lowercase(s@)`: a
/// function of the characters alone, which the Unicode case tables decide and
/// which this library does not spell out.
#[verifier::external_body]
pub(crate) fn to_lowercase(s: &str) -> (r: String)
    ensures
        r@ == lowercase(s@),
{
    s.to_lowercase()
}

/// `str::to_uppercase`. The contract names the result `uppercase(s@)`, a
/// function of the characters alone (the Unicode case tables).
#[verifier::external_body]
pub(crate) fn to_uppercase(s: &str) -> (r: String)
    ensures
        r@ == uppercase(s@),
{
    s.to_uppercase()
}

/// `s` trimmed, as a new `String`.
pub fn trimmed(s: &str) -> (r: String)
    ensures
        r@ == trim(s@),
{
    let cs = chars_of(s);
    let t = trim_chars(cs.as_slice());
    string_of(t.as_slice())
}

/// `s` trimmed and lower-cased — the canonical form clubs and nationalities
/// are compared in.
pub fn trim_lower(s: &str) -> (r: String)
    ensures
        r@ == lowercase(trim(s@)),
{
    let t = trimmed(s);
    to_lowercase(t.as_str())
}

/// Whether `s` is empty or whitespace only.
pub fn is_blank(s: &str) -> (r: bool)
    ensures
        r == (trim(s@).len() == 0),
{
    let cs = chars_of(s);
    let t = trim_chars(cs.as_slice());
    t.len() == 0
}

/// `c` folded to ASCII lower case.
pub fn lower_ascii(c: char) -> (r: char)
    ensures
        r == ascii_lower(c),
{
    if 'A' <= c && c <= 'Z' {
        let b: u8 = c as u8;
        let l: u8 = b + 32;
        l as char
    } else {
        c
    }
}

/// The characters of `s` folded to ASCII lower case.
pub fn lower_ascii_chars(s: &[char]) -> (r: Vec<char>)
    ensures
        r@ == ascii_lower_seq(s@),
{
    let mut out: Vec<char> = Vec::new();
    let mut i: usize = 0;
    while i < s.len()
        invariant
            i <= s@.len(),
            out@ == ascii_lower_seq(s@.subrange(0, i as int)),
        decreases s@.len() - i,
    {
        let l = lower_ascii(s[i]);
        out.push(l);
        i += 1;
        assert(out@ =~= ascii_lower_seq(s@.subrange(0, i as int)));
    }
    assert(s@.subrange(0, s@.len() as int) =~= s@);
    out
}

} // verus!
