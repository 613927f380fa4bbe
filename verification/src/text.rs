//! Text as sequences of characters: searching, splitting, trimming and the
//! decimal notation, with the handful of `std` functions that the rest of the
//! library calls on strings.

use vstd::prelude::*;
use vstd::slice::slice_subrange;
use vstd::string::*;
use vstd::utf8::*;

verus! {

broadcast use vstd::string::group_string_axioms;

// ----------------------------------------------------------------------
// Calls into std
// ----------------------------------------------------------------------

/// `String::push` appends one character.
pub assume_specification[ String::push ](s: &mut String, c: char)
    ensures
        final(s)@ == old(s)@.push(c),
;

/// What `String::from_utf8_lossy` reads out of bytes.
pub uninterp spec fn utf8_lossy(bytes: Seq<u8>) -> Seq<char>;

/// `String::from_utf8_lossy`. On valid UTF-8 it is the decoded text; what
/// stands for the invalid parts of other bytes is left to the name.
#[verifier::external_body]
pub(crate) fn from_utf8_lossy(bytes: &[u8]) -> (text: String)
    ensures
        text@ == utf8_lossy(bytes@),
        valid_utf8(bytes@) ==> text@ == decode_utf8(bytes@),
{
    String::from_utf8_lossy(bytes).into_owned()
}

/// `str::from_utf8`: the decoded text of valid UTF-8, nothing otherwise.
#[verifier::external_body]
pub(crate) fn from_utf8(bytes: &[u8]) -> (text: Option<String>)
    ensures
        text is Some <==> valid_utf8(bytes@),
        text matches Some(t) ==> t@ == decode_utf8(bytes@),
{
    std::str::from_utf8(bytes).ok().map(String::from)
}

/// What `str::to_uppercase` makes of a text.
pub uninterp spec fn uppercase(text: Seq<char>) -> Seq<char>;

/// A character with a small ASCII letter made a capital.
pub open spec fn ascii_upper(c: char) -> char {
    if 'a' <= c <= 'z' {
        (c as int - 0x20) as char
    } else {
        c
    }
}

/// `str::to_uppercase`. In a text of ASCII characters the small letters become
/// capitals and nothing else changes; beyond that the Unicode case tables are
/// left to the name.
#[verifier::external_body]
pub(crate) fn to_uppercase(text: &str) -> (upper: String)
    ensures
        upper@ == uppercase(text@),
        (forall|i: int| 0 <= i < text@.len() ==> #[trigger] text@[i] < '\u{80}') ==> upper@
            == text@.map_values(|c: char| ascii_upper(c)),
{
    text.to_uppercase()
}

// ----------------------------------------------------------------------
// Strings and characters
// ----------------------------------------------------------------------

/// The characters of `text`.
pub fn chars_of(text: &str) -> (chars: Vec<char>)
    ensures
        chars@ == text@,
{
    let mut chars: Vec<char> = Vec::new();
    for c in it: text.chars()
        invariant
            chars@ == text@.take(it.index() as int),
            it.seq() == text@,
    {
        chars.push(c);
        assert(text@.take(it.index() as int).push(c) =~= text@.take(it.index() as int + 1));
    }
    assert(text@.take(text@.len() as int) =~= text@);
    chars
}

/// Appends `chars` to `text`.
pub fn push_chars(text: &mut String, chars: &[char])
    ensures
        final(text)@ == old(text)@ + chars@,
{
    for i in 0..chars.len()
        invariant
            text@ == old(text)@ + chars@.take(i as int),
    {
        text.push(chars[i]);
        assert(chars@.take(i as int + 1) =~= chars@.take(i as int).push(chars@[i as int]));
    }
    assert(chars@.take(chars@.len() as int) =~= chars@);
}

/// The string of `chars`.
pub fn string_of(chars: &[char]) -> (text: String)
    ensures
        text@ == chars@,
{
    let mut text: String = String::new();
    push_chars(&mut text, chars);
    assert(text@ =~= chars@);
    text
}

/// Whether two byte strings are the same.
pub fn bytes_equal(a: &[u8], b: &[u8]) -> (same: bool)
    ensures
        same == (a@ == b@),
{
    if a.len() != b.len() {
        return false;
    }
    for i in 0..a.len()
        invariant
            a@.len() == b@.len(),
            forall|j: int| 0 <= j < i ==> a@[j] == b@[j],
    {
        if a[i] != b[i] {
            return false;
        }
    }
    assert(a@ =~= b@);
    true
}

/// Whether two texts are the same.
pub fn str_equal(a: &str, b: &str) -> (same: bool)
    ensures
        same == (a@ == b@),
{
    proof {
        encode_utf8_decode_utf8(a@);
        encode_utf8_decode_utf8(b@);
    }
    bytes_equal(a.as_bytes(), b.as_bytes())
}

/// Whether `chars` spell `text`.
pub fn spells(chars: &[char], text: &str) -> (same: bool)
    ensures
        same == (chars@ == text@),
{
    let other: Vec<char> = chars_of(text);
    if chars.len() != other.len() {
        return false;
    }
    for i in 0..chars.len()
        invariant
            chars@.len() == other@.len(),
            other@ == text@,
            forall|j: int| 0 <= j < i ==> chars@[j] == other@[j],
    {
        if chars[i] != other[i] {
            assert(chars@[i as int] != text@[i as int]);
            return false;
        }
    }
    assert(chars@ =~= other@);
    true
}

/// The order of texts: character by character by code point, a proper prefix
/// before its extensions.
pub open spec fn text_less(a: Seq<char>, b: Seq<char>) -> bool
    decreases a.len(),
{
    if b.len() == 0 {
        false
    } else if a.len() == 0 {
        true
    } else if a[0] != b[0] {
        a[0] < b[0]
    } else {
        text_less(a.drop_first(), b.drop_first())
    }
}

/// Whether `a` comes before `b`.
pub fn str_less(a: &str, b: &str) -> (less: bool)
    ensures
        less == text_less(a@, b@),
{
    let x: Vec<char> = chars_of(a);
    let y: Vec<char> = chars_of(b);
    let mut i: usize = 0;
    assert(x@.skip(0) =~= x@);
    assert(y@.skip(0) =~= y@);
    while i < x.len() && i < y.len() && x[i] == y[i]
        invariant
            x@ == a@,
            y@ == b@,
            i <= x@.len(),
            i <= y@.len(),
            text_less(a@, b@) == text_less(x@.skip(i as int), y@.skip(i as int)),
        decreases x@.len() - i,
    {
        assert(x@.skip(i as int).drop_first() =~= x@.skip(i as int + 1));
        assert(y@.skip(i as int).drop_first() =~= y@.skip(i as int + 1));
        i += 1;
    }
    if i >= y.len() {
        false
    } else if i >= x.len() {
        true
    } else {
        x[i] < y[i]
    }
}

/// Text order is irreflexive and any two different texts are ordered.
pub proof fn text_order_is_total(a: Seq<char>, b: Seq<char>)
    ensures
        !text_less(a, a),
        a != b ==> (text_less(a, b) || text_less(b, a)),
        !(text_less(a, b) && text_less(b, a)),
    decreases a.len(),
{
    if a.len() > 0 {
        text_order_is_total(a.drop_first(), a.drop_first());
        if b.len() > 0 {
            text_order_is_total(a.drop_first(), b.drop_first());
            if a[0] == b[0] && a.drop_first() == b.drop_first() {
                assert(a =~= seq![a[0]] + a.drop_first());
                assert(b =~= seq![b[0]] + b.drop_first());
            }
        }
    } else if b.len() == 0 {
        assert(a =~= b);
    }
}

/// Text order is transitive.
pub proof fn text_order_is_transitive(a: Seq<char>, b: Seq<char>, c: Seq<char>)
    requires
        text_less(a, b),
        text_less(b, c),
    ensures
        text_less(a, c),
    decreases a.len(),
{
    if a.len() > 0 && a[0] == b[0] && b[0] == c[0] {
        text_order_is_transitive(a.drop_first(), b.drop_first(), c.drop_first());
    }
}

// ----------------------------------------------------------------------
// Searching
// ----------------------------------------------------------------------

/// The first place of `c` in `s` at or after `from`, or the length of `s`.
pub open spec fn find_from(s: Seq<char>, c: char, from: int) -> int
    decreases s.len() - from,
{
    if from >= s.len() {
        s.len() as int
    } else if s[from] == c {
        from
    } else {
        find_from(s, c, from + 1)
    }
}

/// The first place of `c` in `s`, or the length of `s`.
pub open spec fn find_first(s: Seq<char>, c: char) -> int {
    find_from(s, c, 0)
}

/// `find_from` is the least place of the character that is not before `from`.
pub proof fn find_from_is_first(s: Seq<char>, c: char, from: int)
    requires
        0 <= from <= s.len(),
    ensures
        from <= find_from(s, c, from) <= s.len(),
        find_from(s, c, from) < s.len() ==> s[find_from(s, c, from)] == c,
        forall|i: int| from <= i < find_from(s, c, from) ==> s[i] != c,
    decreases s.len() - from,
{
    if from < s.len() && s[from] != c {
        find_from_is_first(s, c, from + 1);
    }
}

/// The first place of `c` in `chars` at or after `from`, or the length.
pub fn find_char(chars: &[char], c: char, from: usize) -> (at: usize)
    requires
        from <= chars@.len(),
    ensures
        at == find_from(chars@, c, from as int),
        from <= at <= chars@.len(),
        at < chars@.len() ==> chars@[at as int] == c,
        forall|i: int| from <= i < at ==> chars@[i] != c,
{
    let mut i: usize = from;
    while i < chars.len() && chars[i] != c
        invariant
            from <= i <= chars@.len(),
            find_from(chars@, c, from as int) == find_from(chars@, c, i as int),
            forall|j: int| from <= j < i ==> chars@[j] != c,
        decreases chars@.len() - i,
    {
        i += 1;
    }
    i
}

/// The last place of `c` in `s` before `end`, or -1.
pub open spec fn find_last_before(s: Seq<char>, c: char, end: int) -> int
    decreases end,
{
    if end <= 0 {
        -1
    } else if s[end - 1] == c {
        end - 1
    } else {
        find_last_before(s, c, end - 1)
    }
}

/// The last place of `c` in `s`, or -1.
pub open spec fn find_last(s: Seq<char>, c: char) -> int {
    find_last_before(s, c, s.len() as int)
}

/// The last place of `c` in `chars`.
pub fn find_last_char(chars: &[char], c: char) -> (at: Option<usize>)
    ensures
        match at {
            Some(i) => i < chars@.len() && i == find_last(chars@, c),
            None => find_last(chars@, c) == -1,
        },
{
    let mut end: usize = chars.len();
    while end > 0
        invariant
            end <= chars@.len(),
            find_last(chars@, c) == find_last_before(chars@, c, end as int),
        decreases end,
    {
        if chars[end - 1] == c {
            return Some(end - 1);
        }
        end -= 1;
    }
    None
}

/// Whether `needle` stands in `s` at place `at`.
pub open spec fn stands_at<T>(s: Seq<T>, needle: Seq<T>, at: int) -> bool {
    &&& 0 <= at
    &&& at + needle.len() <= s.len()
    &&& s.subrange(at, at + needle.len()) == needle
}

/// Whether `needle` stands anywhere in `s`.
pub open spec fn contains_text(s: Seq<char>, needle: Seq<char>) -> bool {
    exists|at: int| stands_at(s, needle, at)
}

/// The first place of `needle` in `s` that is not before `from`.
pub open spec fn find_place<T>(s: Seq<T>, needle: Seq<T>, from: int) -> Option<int>
    decreases s.len() - from + 1,
{
    if from < 0 || from + needle.len() > s.len() {
        None
    } else if stands_at(s, needle, from) {
        Some(from)
    } else {
        find_place(s, needle, from + 1)
    }
}

/// `find_place` is the least place at which the needle stands.
pub proof fn find_place_is_first<T>(s: Seq<T>, needle: Seq<T>, from: int)
    requires
        0 <= from,
    ensures
        match find_place(s, needle, from) {
            Some(at) => {
                &&& from <= at
                &&& stands_at(s, needle, at)
                &&& forall|i: int| from <= i < at ==> !stands_at(s, needle, i)
            },
            None => forall|i: int| from <= i ==> !stands_at(s, needle, i),
        },
    decreases s.len() - from + 1,
{
    if from + needle.len() <= s.len() && !stands_at(s, needle, from) {
        find_place_is_first(s, needle, from + 1);
    }
}

/// The first place of `needle` in `chars`.
pub fn find_chars(chars: &[char], needle: &[char]) -> (place: Option<usize>)
    ensures
        match place {
            Some(at) => find_place(chars@, needle@, 0) == Some(at as int) && at + needle@.len()
                <= chars@.len(),
            None => find_place(chars@, needle@, 0) is None,
        },
{
    if needle.len() > chars.len() {
        return None;
    }
    let mut at: usize = 0;
    let last: usize = chars.len() - needle.len();
    while at <= last
        invariant
            at <= last + 1,
            last + needle@.len() == chars@.len(),
            find_place(chars@, needle@, at as int) == find_place(chars@, needle@, 0),
        decreases last + 1 - at,
    {
        if matches_at(chars, needle, at) {
            return Some(at);
        }
        if at == last {
            assert(find_place(chars@, needle@, at + 1) is None);
            return None;
        }
        at += 1;
    }
    None
}

/// Whether `needle` stands in `chars` at place `at`.
fn matches_at(chars: &[char], needle: &[char], at: usize) -> (found: bool)
    requires
        at + needle@.len() <= chars@.len(),
    ensures
        found == stands_at(chars@, needle@, at as int),
{
    let total: usize = chars.len();
    for i in 0..needle.len()
        invariant
            total == chars@.len(),
            at + needle@.len() <= total,
            forall|j: int| 0 <= j < i ==> chars@[at + j] == needle@[j],
    {
        if chars[at + i] != needle[i] {
            assert(chars@.subrange(at as int, at + needle@.len())[i as int] != needle@[i as int]);
            return false;
        }
    }
    assert(chars@.subrange(at as int, at + needle@.len()) =~= needle@);
    true
}

/// Whether `needle` stands anywhere in `text`.
pub fn str_contains(text: &str, needle: &str) -> (found: bool)
    ensures
        found == contains_text(text@, needle@),
{
    proof {
        find_place_is_first(text@, needle@, 0);
    }
    find_chars(&chars_of(text), &chars_of(needle)).is_some()
}

/// Whether `chars` begin with `prefix`.
pub fn starts_with(chars: &[char], prefix: &str) -> (found: bool)
    ensures
        found == prefix@.is_prefix_of(chars@),
{
    let wanted: Vec<char> = chars_of(prefix);
    if wanted.len() > chars.len() {
        return false;
    }
    let found: bool = matches_at(chars, &wanted, 0);
    assert(chars@.subrange(0, wanted@.len() as int) == chars@.subrange(0, 0int + wanted@.len()));
    found
}

// ----------------------------------------------------------------------
// Trimming and splitting
// ----------------------------------------------------------------------

/// The characters that Unicode counts as white space.
pub open spec fn is_white(c: char) -> bool {
    ||| '\u{9}' <= c <= '\u{d}'
    ||| c == '\u{20}' || c == '\u{85}' || c == '\u{a0}' || c == '\u{1680}'
    ||| '\u{2000}' <= c <= '\u{200a}'
    ||| c == '\u{2028}' || c == '\u{2029}' || c == '\u{202f}' || c == '\u{205f}' || c == '\u{3000}'
}

/// Whether `c` is white space.
pub fn char_is_white(c: char) -> (white: bool)
    ensures
        white == is_white(c),
{
    ('\u{9}' <= c && c <= '\u{d}') || c == '\u{20}' || c == '\u{85}' || c == '\u{a0}'
        || c == '\u{1680}' || ('\u{2000}' <= c && c <= '\u{200a}') || c == '\u{2028}'
        || c == '\u{2029}' || c == '\u{202f}' || c == '\u{205f}' || c == '\u{3000}'
}

/// `s` without the white space at its start.
pub open spec fn trim_start(s: Seq<char>) -> Seq<char>
    decreases s.len(),
{
    if s.len() > 0 && is_white(s[0]) {
        trim_start(s.drop_first())
    } else {
        s
    }
}

/// `s` without the white space at its end.
pub open spec fn trim_end(s: Seq<char>) -> Seq<char>
    decreases s.len(),
{
    if s.len() > 0 && is_white(s.last()) {
        trim_end(s.drop_last())
    } else {
        s
    }
}

/// `s` without the white space around it.
pub open spec fn trim(s: Seq<char>) -> Seq<char> {
    trim_end(trim_start(s))
}

/// `s` without the characters `c` at its end.
pub open spec fn trim_end_char(s: Seq<char>, c: char) -> Seq<char>
    decreases s.len(),
{
    if s.len() > 0 && s.last() == c {
        trim_end_char(s.drop_last(), c)
    } else {
        s
    }
}

/// The part of `chars` without the white space around it.
pub fn trimmed(chars: &[char]) -> (part: &[char])
    ensures
        part@ == trim(chars@),
{
    let mut from: usize = 0;
    assert(chars@.skip(0) =~= chars@);
    while from < chars.len() && char_is_white(chars[from])
        invariant
            from <= chars@.len(),
            trim_start(chars@) == trim_start(chars@.skip(from as int)),
        decreases chars@.len() - from,
    {
        assert(chars@.skip(from as int).drop_first() =~= chars@.skip(from as int + 1));
        from += 1;
    }
    let mut to: usize = chars.len();
    assert(chars@.subrange(from as int, to as int) =~= chars@.skip(from as int));
    while from < to && char_is_white(chars[to - 1])
        invariant
            from <= to <= chars@.len(),
            trim(chars@) == trim_end(chars@.subrange(from as int, to as int)),
        decreases to - from,
    {
        assert(chars@.subrange(from as int, to as int).drop_last() =~= chars@.subrange(
            from as int,
            to - 1,
        ));
        to -= 1;
    }
    slice_subrange(chars, from, to)
}

/// The part of `chars` without the characters `c` at its end.
pub fn without_trailing(chars: &[char], c: char) -> (part: &[char])
    ensures
        part@ == trim_end_char(chars@, c),
{
    let mut to: usize = chars.len();
    assert(chars@.subrange(0, to as int) =~= chars@);
    while 0 < to && chars[to - 1] == c
        invariant
            to <= chars@.len(),
            trim_end_char(chars@, c) == trim_end_char(chars@.subrange(0, to as int), c),
        decreases to,
    {
        assert(chars@.subrange(0, to as int).drop_last() =~= chars@.subrange(0, to - 1));
        to -= 1;
    }
    slice_subrange(chars, 0, to)
}

/// The pieces of `s` between the separators `c`.
pub open spec fn split(s: Seq<char>, c: char) -> Seq<Seq<char>>
    decreases s.len(),
{
    let at = find_first(s, c);
    if !(0 <= at < s.len()) {
        seq![s]
    } else {
        seq![s.take(at)] + split(s.skip(at + 1), c)
    }
}

/// A line without the carriage return at its end.
pub open spec fn chomp(line: Seq<char>) -> Seq<char> {
    if line.len() > 0 && line.last() == '\r' {
        line.drop_last()
    } else {
        line
    }
}

/// The lines of a text: ended by `\n` or `\r\n`, the last one perhaps by
/// neither.
pub open spec fn lines(s: Seq<char>) -> Seq<Seq<char>>
    decreases s.len(),
{
    let at = find_first(s, '\n');
    if s.len() == 0 {
        seq![]
    } else if !(0 <= at < s.len()) {
        seq![s]
    } else {
        seq![chomp(s.take(at))] + lines(s.skip(at + 1))
    }
}

/// Lower case of an ASCII letter, any other character as it is.
pub open spec fn ascii_lower(c: char) -> char {
    if 'A' <= c <= 'Z' {
        ((c as u32) + 32) as char
    } else {
        c
    }
}

/// Whether two texts differ at most in the case of ASCII letters.
pub open spec fn same_ignoring_case(a: Seq<char>, b: Seq<char>) -> bool {
    &&& a.len() == b.len()
    &&& forall|i: int| 0 <= i < a.len() ==> ascii_lower(#[trigger] a[i]) == ascii_lower(b[i])
}

// ----------------------------------------------------------------------
// Decimal notation
// ----------------------------------------------------------------------

/// Whether `c` is a decimal digit.
pub open spec fn is_digit(c: char) -> bool {
    '0' <= c <= '9'
}

/// The value of a digit.
pub open spec fn digit_value(c: char) -> nat {
    (c as int - '0' as int) as nat
}

/// The number that a sequence of digits writes.
pub open spec fn digits_value(s: Seq<char>) -> nat
    decreases s.len(),
{
    if s.len() == 0 {
        0
    } else {
        10 * digits_value(s.drop_last()) + digit_value(s.last())
    }
}

/// The digits that write `n`.
pub open spec fn decimal(n: nat) -> Seq<char>
    decreases n,
{
    let digit = ('0' as int + n % 10) as char;
    if n < 10 {
        seq![digit]
    } else {
        decimal(n / 10).push(digit)
    }
}

/// Whether `s` is one digit or more and nothing else.
pub open spec fn all_digits(s: Seq<char>) -> bool {
    s.len() > 0 && forall|i: int| 0 <= i < s.len() ==> is_digit(#[trigger] s[i])
}

/// What follows an optional `+`.
pub open spec fn without_plus(s: Seq<char>) -> Seq<char> {
    if s.len() > 0 && s[0] == '+' {
        s.drop_first()
    } else {
        s
    }
}

/// A number read the way Rust reads an unsigned integer: an optional `+` and
/// then only digits, at least one, of a value up to `max`.
pub open spec fn parse_unsigned(s: Seq<char>, max: nat) -> Option<nat> {
    let digits = without_plus(s);
    if all_digits(digits) && digits_value(digits) <= max {
        Some(digits_value(digits))
    } else {
        None
    }
}

/// A longer run of digits writes a number at least as large.
proof fn digits_value_grows(s: Seq<char>, n: int)
    requires
        0 <= n <= s.len(),
    ensures
        digits_value(s.take(n)) <= digits_value(s),
    decreases s.len() - n,
{
    if n == s.len() {
        assert(s.take(n) =~= s);
    } else {
        assert(s.take(n + 1).drop_last() =~= s.take(n));
        digits_value_grows(s, n + 1);
    }
}

/// Reads an unsigned integer up to `max`, as `str::parse` does.
pub fn read_unsigned(chars: &[char], max: u64) -> (number: Option<u64>)
    ensures
        match number {
            Some(n) => parse_unsigned(chars@, max as nat) == Some(n as nat),
            None => parse_unsigned(chars@, max as nat) is None,
        },
{
    let from: usize = if chars.len() > 0 && chars[0] == '+' {
        1
    } else {
        0
    };
    let ghost digits = without_plus(chars@);
    assert(digits =~= chars@.skip(from as int));
    if from == chars.len() {
        return None;
    }
    let mut value: u64 = 0;
    assert(digits.take(0) =~= seq![]);
    for i in from..chars.len()
        invariant
            from <= chars@.len(),
            digits == without_plus(chars@),
            digits == chars@.skip(from as int),
            value == digits_value(digits.take(i - from)),
            value <= max,
            forall|j: int| 0 <= j < i - from ==> is_digit(#[trigger] digits[j]),
    {
        let c: char = chars[i];
        assert(digits[i - from] == c);
        if !('0' <= c && c <= '9') {
            return None;
        }
        let d: u64 = (c as u32 - '0' as u32) as u64;
        proof {
            assert(digits.take(i - from + 1).drop_last() =~= digits.take(i - from));
            assert(digits.take(i - from + 1).last() == c);
            digits_value_grows(digits, i - from + 1);
        }
        if d > max || value > (max - d) / 10 {
            return None;
        }
        value = 10 * value + d;
    }
    assert(digits.take(digits.len() as int) =~= digits);
    Some(value)
}

/// Appends the decimal notation of `n`.
pub fn push_decimal(text: &mut String, n: u64)
    ensures
        final(text)@ == old(text)@ + decimal(n as nat),
    decreases n,
{
    if n >= 10 {
        push_decimal(text, n / 10);
    }
    text.push(digit_char((n % 10) as u32));
    assert(text@ =~= old(text)@ + decimal(n as nat));
}

/// The decimal notation of `n`.
pub fn decimal_text(n: u64) -> (text: String)
    ensures
        text@ == decimal(n as nat),
{
    let mut text: String = String::new();
    push_decimal(&mut text, n);
    assert(text@ =~= decimal(n as nat));
    text
}

/// The character of a digit.
fn digit_char(d: u32) -> (c: char)
    requires
        d < 10,
    ensures
        c == ('0' as int + d) as char,
{
    ('0' as u8 + d as u8) as char
}

/// The digits that write a number read back as that number.
pub proof fn decimal_reads_back(n: nat, max: nat)
    requires
        n <= max,
    ensures
        parse_unsigned(decimal(n), max) == Some(n),
{
    decimal_is_digits(n);
}

/// What `decimal` writes are digits of the value that it was given.
pub proof fn decimal_is_digits(n: nat)
    ensures
        all_digits(decimal(n)),
        digits_value(decimal(n)) == n,
    decreases n,
{
    let digit = ('0' as int + n % 10) as char;
    if n < 10 {
        assert(decimal(n) == seq![digit]);
        assert(decimal(n).drop_last() =~= seq![]);
        assert(decimal(n).last() == digit);
        assert(digits_value(seq![]) == 0);
    } else {
        decimal_is_digits(n / 10);
        assert(decimal(n).drop_last() =~= decimal(n / 10));
    }
}

// ----------------------------------------------------------------------
// Walking over lines and pieces
// ----------------------------------------------------------------------

/// Searching from a place is searching what stands after that place.
proof fn find_in_rest(s: Seq<char>, c: char, from: int, k: int)
    requires
        0 <= from <= s.len(),
        0 <= k <= s.len() - from,
    ensures
        find_from(s, c, from + k) == from + find_from(s.skip(from), c, k),
    decreases s.len() - from - k,
{
    if from + k < s.len() && s[from + k] != c {
        find_in_rest(s, c, from, k + 1);
    }
}

/// The end of the line that starts at `from`, and where the next one starts.
pub fn next_line(chars: &[char], from: usize) -> (line: (usize, usize))
    requires
        from < chars@.len(),
    ensures
        from <= line.0 <= line.1 <= chars@.len(),
        from < line.1,
        lines(chars@.skip(from as int)) == seq![chars@.subrange(from as int, line.0 as int)]
            + lines(chars@.skip(line.1 as int)),
{
    let at: usize = find_char(chars, '\n', from);
    let ghost rest = chars@.skip(from as int);
    proof {
        find_in_rest(chars@, '\n', from as int, 0);
        assert(rest.take(at - from) =~= chars@.subrange(from as int, at as int));
    }
    if at == chars.len() {
        assert(rest =~= chars@.subrange(from as int, at as int));
        assert(lines(chars@.skip(at as int)) =~= seq![]);
        assert(lines(rest) =~= seq![rest] + lines(chars@.skip(at as int)));
        (at, at)
    } else {
        assert(rest.skip(at - from + 1) =~= chars@.skip(at as int + 1));
        if from < at && chars[at - 1] == '\r' {
            assert(rest.take(at - from).drop_last() =~= chars@.subrange(from as int, at - 1));
            (at - 1, at + 1)
        } else {
            (at, at + 1)
        }
    }
}

/// The end of the piece that starts at `from`, and where the next piece
/// starts, if there is one.
pub fn next_piece(chars: &[char], c: char, from: usize) -> (piece: (usize, Option<usize>))
    requires
        from <= chars@.len(),
    ensures
        from <= piece.0 <= chars@.len(),
        match piece.1 {
            Some(next) => next == piece.0 + 1 && next <= chars@.len() && split(
                chars@.skip(from as int),
                c,
            ) == seq![chars@.subrange(from as int, piece.0 as int)] + split(
                chars@.skip(next as int),
                c,
            ),
            None => split(chars@.skip(from as int), c) == seq![
                chars@.subrange(from as int, piece.0 as int),
            ],
        },
{
    let at: usize = find_char(chars, c, from);
    let ghost rest = chars@.skip(from as int);
    proof {
        find_in_rest(chars@, c, from as int, 0);
        assert(rest.take(at - from) =~= chars@.subrange(from as int, at as int));
    }
    if at == chars.len() {
        assert(rest =~= chars@.subrange(from as int, at as int));
        (at, None)
    } else {
        assert(rest.skip(at - from + 1) =~= chars@.skip(at as int + 1));
        (at, Some(at + 1))
    }
}

/// Lower case of an ASCII letter, any other character as it is.
fn lower(c: char) -> (l: char)
    ensures
        l == ascii_lower(c),
{
    if 'A' <= c && c <= 'Z' {
        (c as u8 + 32) as char
    } else {
        c
    }
}

/// Whether `chars` spell `text`, but for the case of ASCII letters.
pub fn spells_ignoring_case(chars: &[char], text: &str) -> (same: bool)
    ensures
        same == same_ignoring_case(chars@, text@),
{
    let other: Vec<char> = chars_of(text);
    if chars.len() != other.len() {
        return false;
    }
    for i in 0..chars.len()
        invariant
            chars@.len() == other@.len(),
            other@ == text@,
            forall|j: int|
                0 <= j < i ==> ascii_lower(#[trigger] chars@[j]) == ascii_lower(text@[j]),
    {
        if lower(chars[i]) != lower(other[i]) {
            return false;
        }
    }
    true
}

// ----------------------------------------------------------------------
// Laws of texts
// ----------------------------------------------------------------------

/// White space is what Unicode calls so.
pub proof fn white_space_is_unicode(c: char)
    ensures
        is_white(c) <==> {
            ||| 9 <= c as u32 <= 13
            ||| c as u32 == 32
            ||| c as u32 == 0x85
            ||| c as u32 == 0xa0
            ||| c as u32 == 0x1680
            ||| 0x2000 <= c as u32 <= 0x200a
            ||| c as u32 == 0x2028
            ||| c as u32 == 0x2029
            ||| c as u32 == 0x202f
            ||| c as u32 == 0x205f
            ||| c as u32 == 0x3000
        },
{
}

/// Trimming takes off all white space around a text and nothing else.
pub proof fn trimming_takes_white_space_off(before: Seq<char>, text: Seq<char>, after: Seq<char>)
    requires
        forall|i: int| 0 <= i < before.len() ==> is_white(#[trigger] before[i]),
        forall|i: int| 0 <= i < after.len() ==> is_white(#[trigger] after[i]),
        text.len() > 0 ==> !is_white(text[0]) && !is_white(text.last()),
    ensures
        trim(before + text + after) == text,
    decreases before.len() + after.len(),
{
    let whole = before + text + after;
    if text.len() == 0 {
        assert(forall|i: int| 0 <= i < whole.len() ==> is_white(#[trigger] whole[i]));
        all_white(whole);
        assert(text =~= seq![]);
    } else if before.len() > 0 {
        assert(whole[0] == before[0]);
        assert(whole.drop_first() =~= before.drop_first() + text + after);
        assert forall|i: int| 0 <= i < before.drop_first().len() implies is_white(
            #[trigger] before.drop_first()[i],
        ) by {
            assert(is_white(before[i + 1]));
        }
        trimming_takes_white_space_off(before.drop_first(), text, after);
    } else if after.len() > 0 {
        assert(whole[0] == text[0]);
        let last = after.len() - 1;
        assert(is_white(after[last]));
        assert(whole.last() == after[last]);
        assert(whole.drop_last() =~= before + text + after.drop_last());
        assert(whole.drop_last()[0] == text[0]);
        trimming_takes_white_space_off(before, text, after.drop_last());
    } else {
        assert(whole =~= text);
    }
}

proof fn all_white(s: Seq<char>)
    requires
        forall|i: int| 0 <= i < s.len() ==> is_white(#[trigger] s[i]),
    ensures
        trim(s) == Seq::<char>::empty(),
    decreases s.len(),
{
    if s.len() > 0 {
        assert(is_white(s[0]));
        assert forall|i: int| 0 <= i < s.drop_first().len() implies is_white(
            #[trigger] s.drop_first()[i],
        ) by {
            assert(is_white(s[i + 1]));
        }
        all_white(s.drop_first());
    } else {
        assert(s =~= seq![]);
    }
}

/// The first place of a character is after a text that does not hold it.
proof fn found_after(a: Seq<char>, c: char, b: Seq<char>)
    requires
        forall|i: int| 0 <= i < a.len() ==> a[i] != c,
    ensures
        find_first(a + seq![c] + b, c) == a.len(),
        find_first(a, c) == a.len(),
{
    let s = a + seq![c] + b;
    find_from_is_first(s, c, 0);
    find_from_is_first(a, c, 0);
    assert(s[a.len() as int] == c);
    if find_first(s, c) < a.len() {
        assert(s[find_first(s, c)] == a[find_first(s, c)]);
    }
}

/// The pieces of a text are what stands between the separators: a text without
/// any is one piece, and a separator ends the piece before it.
pub proof fn pieces_stand_between(a: Seq<char>, c: char, b: Seq<char>)
    requires
        forall|i: int| 0 <= i < a.len() ==> a[i] != c,
    ensures
        split(a, c) == seq![a],
        split(a + seq![c] + b, c) == seq![a] + split(b, c),
{
    let s = a + seq![c] + b;
    found_after(a, c, b);
    assert(s.take(a.len() as int) =~= a);
    assert(s.skip(a.len() as int + 1) =~= b);
}

/// A line ends with `\n` or `\r\n`, or with the text; an empty text has none.
pub proof fn lines_end_with_newlines(line: Seq<char>, rest: Seq<char>)
    requires
        forall|i: int| 0 <= i < line.len() ==> line[i] != '\n',
        line.len() > 0 ==> line.last() != '\r',
    ensures
        lines(seq![]) == Seq::<Seq<char>>::empty(),
        line.len() > 0 ==> lines(line) == seq![line],
        lines(line + seq!['\n'] + rest) == seq![line] + lines(rest),
        lines(line + seq!['\r', '\n'] + rest) == seq![line] + lines(rest),
{
    let s = line + seq!['\n'] + rest;
    found_after(line, '\n', rest);
    assert(s.take(line.len() as int) =~= line);
    assert(s.skip(line.len() as int + 1) =~= rest);
    let longer = line + seq!['\r'];
    let t = line + seq!['\r', '\n'] + rest;
    assert(t =~= longer + seq!['\n'] + rest);
    assert forall|i: int| 0 <= i < longer.len() implies longer[i] != '\n' by {}
    found_after(longer, '\n', rest);
    assert(t.take(longer.len() as int) =~= longer);
    assert(longer.drop_last() =~= line);
    assert(t.skip(longer.len() as int + 1) =~= rest);
}

/// A number is read digit by digit, each worth ten times the one after it, and
/// may follow a plus. Nothing is read where there is no digit, where there is
/// anything else, or where the number is too large.
pub proof fn numbers_are_read_digit_by_digit(s: Seq<char>, k: nat, max: nat, i: int)
    requires
        k < 10,
    ensures
        parse_unsigned(seq![], max) is None,
        parse_unsigned(seq!['+'], max) is None,
        parse_unsigned(seq![('0' as int + k) as char], max) == if k <= max {
            Some(k)
        } else {
            None
        },
        parse_unsigned(s, max) matches Some(n) ==> {
            &&& n <= max
            &&& parse_unsigned(s.push(('0' as int + k) as char), max) == if 10 * n + k <= max {
                Some(10 * n + k)
            } else {
                None
            }
        },
        s.len() > 0 && s[0] != '+' ==> parse_unsigned(seq!['+'] + s, max) == parse_unsigned(s, max),
        0 <= i < s.len() && !('0' <= s[i] <= '9') && !(i == 0 && s[0] == '+') ==> parse_unsigned(
            s,
            max,
        ) is None,
{
    let digit = ('0' as int + k) as char;
    let one = seq![digit];
    assert(one.drop_last() =~= Seq::<char>::empty());
    assert(digits_value(Seq::<char>::empty()) == 0);
    assert(digits_value(one) == 10 * digits_value(one.drop_last()) + digit_value(one.last()));
    assert(is_digit(digit));
    assert(one[0] == digit);
    assert(all_digits(one));
    let longer = s.push(digit);
    let d = without_plus(s);
    assert(seq!['+'].drop_first() =~= Seq::<char>::empty());
    if all_digits(d) {
        assert(without_plus(longer) =~= d.push(digit));
        assert(d.push(digit).drop_last() =~= d);
        assert(all_digits(d.push(digit)));
    }
    assert((seq!['+'] + s).drop_first() =~= s);
    if 0 <= i < s.len() && !('0' <= s[i] <= '9') && !(i == 0 && s[0] == '+') && all_digits(d) {
        if s[0] == '+' {
            assert(is_digit(d[i - 1]));
        } else {
            assert(is_digit(d[i]));
        }
    }
}

/// A number is written digit by digit, without zeros in front.
pub proof fn numbers_are_written_digit_by_digit(n: nat, k: nat)
    requires
        k < 10,
    ensures
        decimal(k) == seq![('0' as int + k) as char],
        n > 0 ==> decimal(10 * n + k) == decimal(n).push(('0' as int + k) as char),
{
    assert((10 * n + k) / 10 == n);
    assert((10 * n + k) % 10 == k);
}

/// Texts are ordered by their first characters that differ, and one that
/// another continues comes before it.
pub proof fn texts_are_ordered_by_characters(
    common: Seq<char>,
    a: char,
    b: char,
    x: Seq<char>,
    y: Seq<char>,
)
    requires
        (a as u32) < b as u32,
    ensures
        text_less(common + seq![a] + x, common + seq![b] + y),
        text_less(common, common + seq![a] + x),
    decreases common.len(),
{
    let (s, t) = (common + seq![a] + x, common + seq![b] + y);
    if common.len() > 0 {
        assert(s.drop_first() =~= common.drop_first() + seq![a] + x);
        assert(t.drop_first() =~= common.drop_first() + seq![b] + y);
        assert(s[0] == common[0] && t[0] == common[0]);
        texts_are_ordered_by_characters(common.drop_first(), a, b, x, y);
    } else {
        assert(s[0] == a && t[0] == b);
    }
}

/// Two texts are the same but for case exactly if they have the same length
/// and each two characters are equal or the small and the capital form of one
/// ASCII letter, whose codes are 32 apart.
pub proof fn case_is_that_of_letters(a: Seq<char>, b: Seq<char>)
    ensures
        same_ignoring_case(a, b) <==> a.len() == b.len() && (forall|i: int|
            0 <= i < a.len() ==> is_same_letter(#[trigger] a[i], b[i])),
{
    if same_ignoring_case(a, b) {
        assert forall|i: int| 0 <= i < a.len() implies is_same_letter(#[trigger] a[i], b[i]) by {
            assert(ascii_lower(a[i]) == ascii_lower(b[i]));
            lower_is_one_of_two(a[i], b[i]);
        }
    }
    if a.len() == b.len() && (forall|i: int|
        0 <= i < a.len() ==> is_same_letter(#[trigger] a[i], b[i])) {
        assert forall|i: int| 0 <= i < a.len() implies ascii_lower(#[trigger] a[i]) == ascii_lower(
            b[i],
        ) by {
            lower_is_one_of_two(a[i], b[i]);
        }
    }
}

/// Whether two characters are equal or differ in the case of an ASCII letter.
pub open spec fn is_same_letter(x: char, y: char) -> bool {
    ||| x == y
    ||| 65 <= x as u32 <= 90 && y as u32 == x as u32 + 32
    ||| 65 <= y as u32 <= 90 && x as u32 == y as u32 + 32
}

proof fn lower_is_one_of_two(x: char, y: char)
    ensures
        ascii_lower(x) == ascii_lower(y) <==> is_same_letter(x, y),
{
    assert('A' <= x <= 'Z' ==> ascii_lower(x) as u32 == x as u32 + 32);
    assert('A' <= y <= 'Z' ==> ascii_lower(y) as u32 == y as u32 + 32);
}

}
