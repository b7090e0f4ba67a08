//! Text and byte helpers shared by the rest of the crate.

use crate::order::views;
use vstd::prelude::*;
use vstd::string::*;
use vstd::utf8::*;

verus! {

/// The text that [`String::from_utf8_lossy`] makes of `bytes`.
pub uninterp spec fn lossy_text(bytes: Seq<u8>) -> Seq<char>;

/// The text that [`str::to_lowercase`] makes of `text`.
pub uninterp spec fn lowercase_text(text: Seq<char>) -> Seq<char>;

/// The text that `{:?}` makes of `text`.
pub uninterp spec fn debug_text(text: Seq<char>) -> Seq<char>;

/// `Debug` of [`str`]: the text quoted and escaped, a function of it alone.
#[verifier::external_body]
pub(crate) fn debug_quoted(text: &str) -> (quoted: String)
    ensures
        quoted@ == debug_text(text@),
{
    format!("{:?}", text)
}

/// [`String::from_utf8_lossy`]: a function of the bytes alone, and the plain decoding
/// wherever the bytes are valid UTF-8.
#[verifier::external_body]
pub(crate) fn lossy(bytes: &[u8]) -> (text: String)
    ensures
        text@ == lossy_text(bytes@),
        valid_utf8(bytes@) ==> text@ == decode_utf8(bytes@),
{
    String::from_utf8_lossy(bytes).into_owned()
}

/// [`str::to_lowercase`]: a function of the text alone.
#[verifier::external_body]
pub(crate) fn lowercase(text: &str) -> (lower: String)
    ensures
        lower@ == lowercase_text(text@),
{
    text.to_lowercase()
}

/// [`String::from_utf8`]: the decoded text when the bytes are valid UTF-8, nothing
/// otherwise.
#[verifier::external_body]
pub(crate) fn utf8_text(bytes: Vec<u8>) -> (text: Option<String>)
    ensures
        text is Some <==> valid_utf8(bytes@),
        text is Some ==> text->0@ == decode_utf8(bytes@),
{
    String::from_utf8(bytes).ok()
}

/// [`String::push`]: appends one character.
pub assume_specification[ String::push ](s: &mut String, ch: char)
    ensures
        final(s)@ == old(s)@.push(ch),
;

/// The characters of `text` as a vector.
pub fn chars_of(text: &str) -> (chars: Vec<char>)
    ensures
        chars@ == text@,
{
    let mut chars: Vec<char> = Vec::new();
    for c in it: text.chars()
        invariant
            it.seq() == text@,
            chars@ == text@.take(it.index() as int),
    {
        chars.push(c);
        assert(text@.take(it.index() + 1) == text@.take(it.index() as int).push(c));
    }
    assert(text@.take(text@.len() as int) == text@);
    chars
}

/// The text that holds `chars[from..to]`.
pub fn text_of(chars: &Vec<char>, from: usize, to: usize) -> (text: String)
    requires
        from <= to <= chars.len(),
    ensures
        text@ == chars@.subrange(from as int, to as int),
{
    let mut text: String = String::new();
    let mut i: usize = from;
    while i < to
        invariant
            from <= i <= to <= chars.len(),
            text@ == chars@.subrange(from as int, i as int),
        decreases to - i,
    {
        text.push(chars[i]);
        assert(chars@.subrange(from as int, i + 1) == chars@.subrange(from as int, i as int).push(
            chars@[i as int],
        ));
        i = i + 1;
    }
    text
}

/// Whether two texts hold the same characters.
pub fn same_text(a: &str, b: &str) -> (same: bool)
    ensures
        same == (a@ == b@),
{
    let same: bool = same_bytes(a.as_bytes(), b.as_bytes());
    proof {
        encode_utf8_decode_utf8(a@);
        encode_utf8_decode_utf8(b@);
    }
    same
}

/// Whether two byte strings are equal.
pub fn same_bytes(a: &[u8], b: &[u8]) -> (same: bool)
    ensures
        same == (a@ == b@),
{
    if a.len() != b.len() {
        return false;
    }
    let mut i: usize = 0;
    while i < a.len()
        invariant
            i <= a.len() == b.len(),
            a@.take(i as int) == b@.take(i as int),
        decreases a.len() - i,
    {
        if a[i] != b[i] {
            return false;
        }
        assert(a@.take(i + 1) == a@.take(i as int).push(a@[i as int]));
        assert(b@.take(i + 1) == b@.take(i as int).push(b@[i as int]));
        i = i + 1;
    }
    assert(a@.take(a.len() as int) == a@);
    assert(b@.take(b.len() as int) == b@);
    true
}

/// A copy of `bytes[from..to]`.
pub fn slice_copy(bytes: &[u8], from: usize, to: usize) -> (out: Vec<u8>)
    requires
        from <= to <= bytes.len(),
    ensures
        out@ == bytes@.subrange(from as int, to as int),
{
    let mut out: Vec<u8> = Vec::new();
    out.extend_from_slice(vstd::slice::slice_subrange(bytes, from, to));
    assert(out@ =~= bytes@.subrange(from as int, to as int));
    out
}

/// The decimal digit that stands for `d`.
pub open spec fn digit_char(d: nat) -> char {
    ('0' as u32 + d) as char
}

/// `n` in decimal, without leading zeros.
pub open spec fn dec(n: nat) -> Seq<char>
    decreases n,
{
    if n < 10 {
        seq![digit_char(n)]
    } else {
        dec(n / 10).push(digit_char(n % 10))
    }
}

/// `n` in decimal, with a minus sign in front of a negative number.
pub open spec fn dec_int(n: int) -> Seq<char> {
    if n < 0 {
        seq!['-'] + dec((-n) as nat)
    } else {
        dec(n as nat)
    }
}

/// Appends `n` in decimal.
pub fn push_dec(s: &mut String, n: u64)
    ensures
        final(s)@ == old(s)@ + dec(n as nat),
    decreases n,
{
    if n >= 10 {
        push_dec(s, n / 10);
    }
    let d: u8 = (n % 10) as u8;
    s.push((48u8 + d) as char);
    assert(s@ =~= old(s)@ + dec(n as nat));
}

/// `n` in decimal.
pub fn dec_text(n: u64) -> (s: String)
    ensures
        s@ == dec(n as nat),
{
    let mut s: String = String::new();
    push_dec(&mut s, n);
    assert(s@ =~= dec(n as nat));
    s
}

/// Appends a signed number in decimal.
pub fn push_dec_int(s: &mut String, n: i64)
    ensures
        final(s)@ == old(s)@ + dec_int(n as int),
{
    if n < 0 {
        s.push('-');
        let m: u64 = if n == i64::MIN {
            9223372036854775808u64
        } else {
            (-n) as u64
        };
        push_dec(s, m);
        assert(s@ =~= old(s)@ + dec_int(n as int));
    } else {
        push_dec(s, n as u64);
    }
}

/// Whether every byte is a decimal digit.
pub open spec fn all_digits(s: Seq<u8>) -> bool {
    forall|i: int| 0 <= i < s.len() ==> 48 <= #[trigger] s[i] <= 57
}

/// The number that a string of digits spells.
pub open spec fn digits_value(s: Seq<u8>) -> nat
    decreases s.len(),
{
    if s.len() == 0 {
        0
    } else {
        digits_value(s.drop_last()) * 10 + (s.last() - 48) as nat
    }
}

/// The digits of a number: `s` without a leading `+`.
pub open spec fn unsigned_digits(s: Seq<u8>) -> Seq<u8> {
    if s.len() > 0 && s[0] == 43 {
        s.skip(1)
    } else {
        s
    }
}

/// The number that `s` spells, when it is an optional `+` and digits only, and at most
/// `max`.
pub open spec fn parsed_unsigned(s: Seq<u8>, max: nat) -> Option<nat> {
    let d = unsigned_digits(s);
    if d.len() > 0 && all_digits(d) && digits_value(d) <= max {
        Some(digits_value(d))
    } else {
        None
    }
}

proof fn lemma_digits_value_grows(s: Seq<u8>, n: int)
    requires
        all_digits(s),
        0 <= n <= s.len(),
    ensures
        digits_value(s.take(n)) <= digits_value(s),
    decreases s.len() - n,
{
    if n < s.len() {
        lemma_digits_value_grows(s, n + 1);
        assert(s.take(n + 1).drop_last() =~= s.take(n));
    } else {
        assert(s.take(n) =~= s);
    }
}

/// The number that `s` spells, when it fits.
pub fn parse_u64(s: &[u8]) -> (n: Option<u64>)
    ensures
        match n {
            Some(v) => parsed_unsigned(s@, u64::MAX as nat) == Some(v as nat),
            None => parsed_unsigned(s@, u64::MAX as nat) is None,
        },
{
    let mut i: usize = 0;
    if s.len() > 0 && s[0] == 43 {
        i = 1;
    }
    let ghost d = unsigned_digits(s@);
    let ghost from = i as int;
    if i == s.len() {
        return None;
    }
    let mut value: u64 = 0;
    assert(d =~= s@.skip(from));
    assert(d.take(0) =~= Seq::<u8>::empty());
    while i < s.len()
        invariant
            d == unsigned_digits(s@),
            d == s@.skip(from),
            0 <= from <= i <= s.len(),
            value == digits_value(d.take(i - from)),
            forall|k: int| 0 <= k < i - from ==> 48 <= #[trigger] d[k] <= 57,
        decreases s.len() - i,
    {
        assert(d[i - from] == s@[i as int]);
        if s[i] < 48 || s[i] > 57 {
            return None;
        }
        proof {
            assert(d.take(i + 1 - from).drop_last() =~= d.take(i - from));
            assert(d.take(i + 1 - from).last() == s@[i as int]);
        }
        let digit: u64 = (s[i] - 48) as u64;
        if value > 1844674407370955161 || (value == 1844674407370955161 && digit > 5) {
            proof {
                if all_digits(d) {
                    lemma_digits_value_grows(d, i + 1 - from);
                }
            }
            return None;
        }
        value = value * 10 + digit;
        i = i + 1;
    }
    assert(d.take(d.len() as int) =~= d);
    Some(value)
}

/// The number that `s` spells, when it fits.
pub fn parse_usize(s: &[u8]) -> (n: Option<usize>)
    ensures
        match n {
            Some(v) => parsed_unsigned(s@, usize::MAX as nat) == Some(v as nat),
            None => parsed_unsigned(s@, usize::MAX as nat) is None,
        },
{
    match parse_u64(s) {
        Some(v) => {
            if v <= usize::MAX as u64 {
                Some(v as usize)
            } else {
                None
            }
        },
        None => None,
    }
}

/// Whether `prefix` begins `s`.
pub open spec fn begins_with<T>(s: Seq<T>, prefix: Seq<T>) -> bool {
    prefix.len() <= s.len() && s.take(prefix.len() as int) == prefix
}

/// Whether `prefix` begins `s`.
pub fn bytes_begin_with(s: &[u8], prefix: &[u8]) -> (yes: bool)
    ensures
        yes == begins_with(s@, prefix@),
{
    if prefix.len() > s.len() {
        return false;
    }
    let head = slice_copy(s, 0, prefix.len());
    assert(head@ =~= s@.take(prefix@.len() as int));
    same_bytes(head.as_slice(), prefix)
}

/// The index of the first `c` at or after `from`, or the length.
pub open spec fn find_char(text: Seq<char>, c: char, from: int) -> int
    decreases text.len() - from,
{
    if from >= text.len() {
        text.len() as int
    } else if text[from] == c {
        from
    } else {
        find_char(text, c, from + 1)
    }
}

/// `find_char` is the first place of `c` at or after `from`, or the end.
pub proof fn lemma_find_char(text: Seq<char>, c: char, from: int)
    requires
        0 <= from <= text.len(),
    ensures
        from <= find_char(text, c, from) <= text.len(),
        find_char(text, c, from) < text.len() ==> text[find_char(text, c, from)] == c,
        forall|i: int| from <= i < find_char(text, c, from) ==> text[i] != c,
    decreases text.len() - from,
{
    if from < text.len() && text[from] != c {
        lemma_find_char(text, c, from + 1);
    }
}

/// The index of the first `c` at or after `from`, or the length.
pub fn char_from(chars: &Vec<char>, c: char, from: usize) -> (at: usize)
    requires
        from <= chars.len(),
    ensures
        at == find_char(chars@, c, from as int),
        from <= at <= chars.len(),
        at < chars.len() ==> chars@[at as int] == c,
{
    let mut at: usize = from;
    while at < chars.len() && chars[at] != c
        invariant
            from <= at <= chars.len(),
            find_char(chars@, c, from as int) == find_char(chars@, c, at as int),
        decreases chars.len() - at,
    {
        at = at + 1;
    }
    at
}

/// `line` without one trailing carriage return.
pub open spec fn without_cr(line: Seq<char>) -> Seq<char> {
    if line.len() > 0 && line.last() == '\r' {
        line.drop_last()
    } else {
        line
    }
}

/// The lines of `text` from character `from` on, without their ends (`\n` or `\r\n`).
pub open spec fn lines_from(text: Seq<char>, from: int) -> Seq<Seq<char>>
    decreases text.len() - from,
    when 0 <= from
{
    let end = find_char(text, '\n', from);
    if from >= text.len() {
        seq![]
    } else if end >= text.len() || end < from {
        seq![text.subrange(from, text.len() as int)]
    } else {
        seq![without_cr(text.subrange(from, end))] + lines_from(text, end + 1)
    }
}

/// The lines of `text`.
pub open spec fn lines_of(text: Seq<char>) -> Seq<Seq<char>> {
    lines_from(text, 0)
}

/// The lines of `text`.
pub fn split_lines(text: &str) -> (lines: Vec<String>)
    ensures
        views(lines@) == lines_of(text@),
{
    let chars = chars_of(text);
    let mut lines: Vec<String> = Vec::new();
    let mut from: usize = 0;
    proof {
        assert(views(lines@) =~= Seq::<Seq<char>>::empty());
        assert(views(lines@) + lines_from(chars@, 0) =~= lines_of(chars@));
    }
    while from < chars.len()
        invariant
            chars@ == text@,
            from <= chars.len(),
            lines_of(chars@) == views(lines@) + lines_from(chars@, from as int),
        decreases chars.len() - from,
    {
        let end = char_from(&chars, '\n', from);
        let ghost before = views(lines@);
        if end >= chars.len() {
            let last = text_of(&chars, from, chars.len());
            lines.push(last);
            proof {
                assert(views(lines@) =~= before.push(last@));
                assert(views(lines@) =~= lines_of(chars@));
            }
            return lines;
        }
        let mut stop: usize = end;
        if end > from && chars[end - 1] == '\r' {
            stop = end - 1;
        }
        let line = text_of(&chars, from, stop);
        lines.push(line);
        proof {
            let whole = chars@.subrange(from as int, end as int);
            if end > from {
                assert(whole.last() == chars@[end - 1]);
                assert(whole.drop_last() =~= chars@.subrange(from as int, end - 1));
            }
            assert(line@ =~= without_cr(whole));
            assert(views(lines@) =~= before.push(line@));
            assert(views(lines@) + lines_from(chars@, end + 1) =~= before + (seq![
                without_cr(whole),
            ] + lines_from(chars@, end + 1)));
        }
        from = end + 1;
    }
    assert(views(lines@) + lines_from(chars@, from as int) =~= views(lines@));
    lines
}

/// Whether `c` has Unicode's `White_Space` property.
pub open spec fn is_white(c: char) -> bool {
    let u = c as u32;
    (9 <= u && u <= 13) || u == 32 || u == 0x85 || u == 0xa0 || u == 0x1680 || (0x2000 <= u && u
        <= 0x200a) || u == 0x2028 || u == 0x2029 || u == 0x202f || u == 0x205f || u == 0x3000
}

/// Whether `c` has Unicode's `White_Space` property.
pub fn char_is_white(c: char) -> (yes: bool)
    ensures
        yes == is_white(c),
{
    let u: u32 = c as u32;
    (9 <= u && u <= 13) || u == 32 || u == 0x85 || u == 0xa0 || u == 0x1680 || (0x2000 <= u && u
        <= 0x200a) || u == 0x2028 || u == 0x2029 || u == 0x202f || u == 0x205f || u == 0x3000
}

/// `text` without white space at its front.
pub open spec fn trim_front(text: Seq<char>) -> Seq<char>
    decreases text.len(),
{
    if text.len() > 0 && is_white(text[0]) {
        trim_front(text.skip(1))
    } else {
        text
    }
}

/// `text` without white space at its back.
pub open spec fn trim_back(text: Seq<char>) -> Seq<char>
    decreases text.len(),
{
    if text.len() > 0 && is_white(text.last()) {
        trim_back(text.drop_last())
    } else {
        text
    }
}

/// `text` without white space at either end.
pub open spec fn trimmed(text: Seq<char>) -> Seq<char> {
    trim_back(trim_front(text))
}

/// `text` without white space at either end.
pub fn trim(text: &str) -> (out: String)
    ensures
        out@ == trimmed(text@),
{
    let chars = chars_of(text);
    let mut from: usize = 0;
    assert(chars@.skip(0) =~= chars@);
    while from < chars.len() && char_is_white(chars[from])
        invariant
            from <= chars.len(),
            trim_front(chars@) == trim_front(chars@.skip(from as int)),
        decreases chars.len() - from,
    {
        assert(chars@.skip(from as int).skip(1) =~= chars@.skip(from + 1));
        from = from + 1;
    }
    let mut to: usize = chars.len();
    let ghost rest = chars@.skip(from as int);
    assert(trim_front(chars@) == rest);
    assert(chars@.subrange(from as int, to as int) =~= rest);
    while to > from && char_is_white(chars[to - 1])
        invariant
            from <= to <= chars.len(),
            trim_back(rest) == trim_back(chars@.subrange(from as int, to as int)),
        decreases to,
    {
        assert(chars@.subrange(from as int, to as int).drop_last() =~= chars@.subrange(
            from as int,
            to - 1,
        ));
        to = to - 1;
    }
    text_of(&chars, from, to)
}

proof fn lemma_trim_front(text: Seq<char>)
    ensures
        ({
            let out = trim_front(text);
            let n = text.len() - out.len();
            &&& 0 <= n <= text.len()
            &&& out == text.skip(n)
            &&& forall|i: int| 0 <= i < n ==> is_white(#[trigger] text[i])
            &&& out.len() > 0 ==> !is_white(out[0])
        }),
    decreases text.len(),
{
    let out = trim_front(text);
    if text.len() > 0 && is_white(text[0]) {
        let rest = text.skip(1);
        lemma_trim_front(rest);
        let n = text.len() - out.len();
        assert(rest.skip(n - 1) =~= text.skip(n));
        assert forall|i: int| 0 <= i < n implies is_white(#[trigger] text[i]) by {
            if i > 0 {
                assert(rest[i - 1] == text[i]);
            }
        }
    } else {
        assert(text.skip(0) =~= text);
    }
}

proof fn lemma_trim_back(text: Seq<char>)
    ensures
        ({
            let out = trim_back(text);
            &&& out.len() <= text.len()
            &&& out == text.take(out.len() as int)
            &&& forall|i: int| out.len() <= i < text.len() ==> is_white(#[trigger] text[i])
            &&& out.len() > 0 ==> !is_white(out.last())
        }),
    decreases text.len(),
{
    let out = trim_back(text);
    if text.len() > 0 && is_white(text.last()) {
        let rest = text.drop_last();
        lemma_trim_back(rest);
        assert(rest.take(out.len() as int) =~= text.take(out.len() as int));
        assert forall|i: int| out.len() <= i < text.len() implies is_white(
            #[trigger] text[i],
        ) by {
            if i < rest.len() {
                assert(rest[i] == text[i]);
            }
        }
    } else {
        assert(text.take(text.len() as int) =~= text);
    }
}

/// Trimming takes the white space off both ends of a text, all of it and nothing else: what is
/// left stands in the text between white space alone, and neither begins nor ends with any.
pub proof fn law_trimming_takes_white_space_off_both_ends(text: Seq<char>)
    ensures
        exists|a: int, b: int|
            #![trigger text.subrange(a, b)]
            0 <= a <= b <= text.len() && trimmed(text) == text.subrange(a, b) && (forall|i: int|
                0 <= i < a || b <= i < text.len() ==> is_white(#[trigger] text[i])),
        trimmed(text).len() > 0 ==> !is_white(trimmed(text)[0]) && !is_white(trimmed(text).last()),
{
    let front = trim_front(text);
    let out = trimmed(text);
    lemma_trim_front(text);
    lemma_trim_back(front);
    let a = text.len() - front.len();
    let b = a + out.len();
    assert(out =~= text.subrange(a, b));
    assert forall|i: int| 0 <= i < a || b <= i < text.len() implies is_white(
        #[trigger] text[i],
    ) by {
        if i >= b {
            assert(front[i - a] == text[i]);
        }
    }
    if out.len() > 0 {
        assert(out[0] == front[0]);
    }
}

/// How many line feeds a text has.
pub open spec fn feeds_in(text: Seq<char>) -> nat {
    text.filter(|c: char| c == '\n').len()
}

/// Whether `a..b` is where line `k` of a text stands: from its front or behind a line feed to
/// the next one or the end, with `k` line feeds before it.
pub open spec fn is_line_at(text: Seq<char>, k: int, a: int, b: int) -> bool {
    &&& 0 <= a <= b <= text.len()
    &&& a == 0 || text[a - 1] == '\n'
    &&& b == text.len() || text[b] == '\n'
    &&& forall|i: int| a <= i < b ==> #[trigger] text[i] != '\n'
    &&& feeds_in(text.take(a)) == k
}

proof fn lemma_feeds_step(text: Seq<char>, a: int, b: int)
    requires
        0 <= a <= b <= text.len(),
        forall|i: int| a <= i < b ==> #[trigger] text[i] != '\n',
    ensures
        feeds_in(text.take(b)) == feeds_in(text.take(a)),
        b < text.len() && text[b] == '\n' ==> feeds_in(text.take(b + 1)) == feeds_in(text.take(a))
            + 1,
    decreases b - a,
{
    reveal(Seq::filter);
    if a < b {
        lemma_feeds_step(text, a, b - 1);
        assert(text.take(b).drop_last() =~= text.take(b - 1));
        assert(text.take(b).last() == text[b - 1]);
    }
    if b < text.len() {
        assert(text.take(b + 1).drop_last() =~= text.take(b));
        assert(text.take(b + 1).last() == text[b]);
    }
}

proof fn lemma_lines_exactly(text: Seq<char>, from: int, before: nat)
    requires
        0 <= from <= text.len(),
        from == 0 || text[from - 1] == '\n',
        feeds_in(text.take(from)) == before,
    ensures
        forall|k: int|
            0 <= k < lines_from(text, from).len() ==> is_line(
                text,
                before + k,
                #[trigger] lines_from(text, from)[k],
            ),
        before + lines_from(text, from).len() == feeds_in(text) + if from < text.len()
            && text.last() != '\n' {
            1nat
        } else {
            0nat
        },
    decreases text.len() - from,
{
    let all = lines_from(text, from);
    let end = find_char(text, '\n', from);
    lemma_find_char(text, '\n', from);
    assert(text.take(text.len() as int) =~= text);
    lemma_feeds_step(text, from, end);
    if from >= text.len() {
    } else if end >= text.len() {
        assert(is_line_at(text, before as int, from, text.len() as int));
        assert(all[0] == text.subrange(from, text.len() as int));
        assert(is_line(text, before as int, all[0]));
        assert(text.last() == text[text.len() - 1]);
    } else {
        let tail = lines_from(text, end + 1);
        lemma_lines_exactly(text, end + 1, before + 1);
        assert(is_line_at(text, before as int, from, end));
        assert(all == seq![without_cr(text.subrange(from, end))] + tail);
        assert forall|k: int| 0 <= k < all.len() implies is_line(
            text,
            before + k,
            #[trigger] all[k],
        ) by {
            if k == 0 {
                assert(is_line(text, before as int, all[0]));
            } else {
                assert(all[k] == tail[k - 1]);
                assert(is_line(text, before + 1 + (k - 1), tail[k - 1]));
            }
        }
        if end + 1 == text.len() {
            assert(text.last() == text[end]);
        }
    }
}

/// Whether `line` is line `k` of a text, without a carriage return before its line feed.
pub open spec fn is_line(text: Seq<char>, k: int, line: Seq<char>) -> bool {
    exists|a: int, b: int|
        #[trigger] is_line_at(text, k, a, b) && line == if b < text.len() {
            without_cr(text.subrange(a, b))
        } else {
            text.subrange(a, b)
        }
}

/// The lines of a text are all of it, in order, and nothing else: line `k` is what stands
/// between line feed `k` and the next, without a carriage return before that; and there are as
/// many as there are line feeds, with one more when the text does not end with one.
pub proof fn law_lines_are_what_stands_between_line_feeds(text: Seq<char>)
    ensures
        lines_of(text).len() == feeds_in(text) + if text.len() > 0 && text.last() != '\n' {
            1nat
        } else {
            0nat
        },
        forall|k: int|
            0 <= k < lines_of(text).len() ==> is_line(text, k, #[trigger] lines_of(text)[k]),
{
    reveal(Seq::filter);
    assert(text.take(0) =~= Seq::<char>::empty());
    lemma_lines_exactly(text, 0, 0);
    assert forall|k: int| 0 <= k < lines_of(text).len() implies is_line(
        text,
        k,
        #[trigger] lines_of(text)[k],
    ) by {
        assert(is_line(text, 0 + k, lines_from(text, 0)[k]));
    }
}

/// A number in decimal spells that number: its characters are digits, a longer one does not
/// begin with a zero, and each digit counts ten times the ones after it.
pub proof fn law_decimals_spell_the_number(n: nat)
    ensures
        dec(n).len() > 0,
        forall|i: int| 0 <= i < dec(n).len() ==> '0' <= #[trigger] dec(n)[i] <= '9',
        dec(n).len() > 1 ==> dec(n)[0] != '0',
        dec(n).fold_left(0, |v: int, c: char| 10 * v + (c as u32 - 48)) == n,
    decreases n,
{
    reveal(Seq::fold_left);
    let f = |v: int, c: char| 10 * v + (c as u32 - 48);
    let none = Seq::<char>::empty();
    if n < 10 {
        assert(dec(n).drop_last() =~= none);
        assert(none.fold_left(0, f) == 0);
        assert(dec(n).last() == digit_char(n));
    } else {
        law_decimals_spell_the_number(n / 10);
        let rest = dec(n / 10);
        assert(dec(n).drop_last() =~= rest);
        assert(dec(n).last() == digit_char(n % 10));
        assert(dec(n)[0] == rest[0]);
        if rest.len() == 1 {
            assert(rest.drop_last() =~= none);
            assert(none.fold_left(0, f) == 0);
            assert(rest.fold_left(0, f) == 10 * none.fold_left(0, f) + (rest[0] as u32 - 48));
            assert(rest[0] != '0');
        }
    }
}

/// Digits are read with each counting ten times the ones after it.
pub proof fn law_digits_are_read_in_order(s: Seq<u8>)
    requires
        all_digits(s),
    ensures
        digits_value(s) == s.fold_left(0, |v: int, d: u8| 10 * v + (d - 48)),
    decreases s.len(),
{
    reveal(Seq::fold_left);
    if s.len() > 0 {
        assert(all_digits(s.drop_last()));
        law_digits_are_read_in_order(s.drop_last());
        assert(s.last() == s[s.len() - 1]);
    }
}

/// The bytes of a number in decimal are digits that spell it.
pub proof fn lemma_decimal_digits(n: nat)
    ensures
        is_ascii_chars(dec(n)),
        all_digits(encode_utf8(dec(n))),
        digits_value(encode_utf8(dec(n))) == n,
        dec(n).len() > 0,
    decreases n,
{
    let all = dec(n);
    if n >= 10 {
        let head = dec(n / 10);
        let digit = digit_char(n % 10);
        lemma_decimal_digits(n / 10);
        assert(is_ascii_chars(all));
        is_ascii_chars_encode_utf8(all);
        is_ascii_chars_encode_utf8(head);
        let bytes = encode_utf8(all);
        assert(bytes.drop_last() =~= encode_utf8(head));
        assert(bytes.last() == digit as u8);
    } else {
        assert(is_ascii_chars(all));
        is_ascii_chars_encode_utf8(all);
        let bytes = encode_utf8(all);
        assert(bytes.drop_last() =~= Seq::<u8>::empty());
        assert(digits_value(bytes.drop_last()) == 0);
        assert(bytes.last() == all[0] as u8);
    }
}

/// A number that is written in decimal reads back, with or without a plus sign, when it is
/// not too large; and nothing but digits behind such a sign is read as a number.
pub proof fn law_numbers_read_back(n: nat, max: nat, s: Seq<u8>)
    ensures
        n <= max ==> parsed_unsigned(encode_utf8(dec(n)), max) == Some(n),
        n > max ==> parsed_unsigned(encode_utf8(dec(n)), max) is None,
        n <= max ==> parsed_unsigned(seq![43u8] + encode_utf8(dec(n)), max) == Some(n),
        parsed_unsigned(s, max) is Some ==> s.len() > 0 && forall|i: int|
            0 < i < s.len() ==> 48 <= #[trigger] s[i] <= 57,
{
    lemma_decimal_digits(n);
    let d = encode_utf8(dec(n));
    is_ascii_chars_encode_utf8(dec(n));
    assert(d.len() == dec(n).len());
    assert(48 <= d[0] <= 57);
    let plus = seq![43u8] + d;
    assert(plus.skip(1) =~= d);
    if parsed_unsigned(s, max) is Some {
        let t = unsigned_digits(s);
        assert forall|i: int| 0 < i < s.len() implies 48 <= #[trigger] s[i] <= 57 by {
            if t.len() < s.len() {
                assert(t[i - 1] == s[i]);
            } else {
                assert(t[i] == s[i]);
            }
        }
    }
}

} // verus!
