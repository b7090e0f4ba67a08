//! Cutting, splitting and joining texts.

use crate::order::views;
use crate::text::{
    begins_with, char_from, char_is_white, chars_of, find_char, is_white, lemma_find_char, text_of,
};
use vstd::prelude::*;
use vstd::string::*;

verus! {

/// What stands behind `prefix`, when `s` begins with it.
pub open spec fn after_prefix(s: Seq<char>, prefix: Seq<char>) -> Option<Seq<char>> {
    if begins_with(s, prefix) {
        Some(s.skip(prefix.len() as int))
    } else {
        None
    }
}

/// Whether `suffix` ends `s`.
pub open spec fn finishes_with(s: Seq<char>, suffix: Seq<char>) -> bool {
    suffix.len() <= s.len() && s.skip(s.len() - suffix.len()) == suffix
}

/// What stands before `suffix`, when `s` ends with it.
pub open spec fn before_suffix(s: Seq<char>, suffix: Seq<char>) -> Option<Seq<char>> {
    if finishes_with(s, suffix) {
        Some(s.take(s.len() - suffix.len()))
    } else {
        None
    }
}

/// Whether `sub` stands in `s` at `i`.
pub open spec fn stands_at(s: Seq<char>, sub: Seq<char>, i: int) -> bool {
    0 <= i && i + sub.len() <= s.len() && s.subrange(i, i + sub.len()) == sub
}

/// The first place at or after `from` where `sub` stands in `s`.
pub open spec fn find_text(s: Seq<char>, sub: Seq<char>, from: int) -> Option<int>
    decreases s.len() + 1 - from,
{
    if from + sub.len() > s.len() {
        None
    } else if stands_at(s, sub, from) {
        Some(from)
    } else {
        find_text(s, sub, from + 1)
    }
}

/// Whether `sub` stands anywhere in `s`.
pub open spec fn holds_text(s: Seq<char>, sub: Seq<char>) -> bool {
    find_text(s, sub, 0) is Some
}

/// What stands before and behind the first `c`, when there is one.
pub open spec fn split_at_char(s: Seq<char>, c: char) -> Option<(Seq<char>, Seq<char>)> {
    let i = find_char(s, c, 0);
    if i < s.len() {
        Some((s.take(i), s.skip(i + 1)))
    } else {
        None
    }
}

/// The pieces of `s` from `from` on between occurrences of `c`; one more than there are
/// occurrences.
pub open spec fn pieces_from(s: Seq<char>, c: char, from: int) -> Seq<Seq<char>>
    decreases s.len() - from,
    when 0 <= from
{
    let end = find_char(s, c, from);
    if from > s.len() || end >= s.len() || end < from {
        seq![s.skip(from)]
    } else {
        seq![s.subrange(from, end)] + pieces_from(s, c, end + 1)
    }
}

/// The pieces of `s` between occurrences of `c`.
pub open spec fn pieces(s: Seq<char>, c: char) -> Seq<Seq<char>> {
    pieces_from(s, c, 0)
}

/// The texts with `sep` between them.
pub open spec fn joined_with(list: Seq<Seq<char>>, sep: Seq<char>) -> Seq<char>
    decreases list.len(),
{
    if list.len() == 0 {
        seq![]
    } else if list.len() == 1 {
        list[0]
    } else {
        joined_with(list.drop_last(), sep) + sep + list.last()
    }
}

/// The index of the first white space at or after `from`, or the length.
pub open spec fn white_from(s: Seq<char>, from: int) -> int
    decreases s.len() - from,
{
    if from >= s.len() {
        s.len() as int
    } else if is_white(s[from]) {
        from
    } else {
        white_from(s, from + 1)
    }
}

/// The index of the first character at or after `from` that is no white space, or the
/// length.
pub open spec fn word_from(s: Seq<char>, from: int) -> int
    decreases s.len() - from,
{
    if from >= s.len() {
        s.len() as int
    } else if !is_white(s[from]) {
        from
    } else {
        word_from(s, from + 1)
    }
}

/// The first word of `s` at or after `from`, and where it ends.
pub open spec fn next_word(s: Seq<char>, from: int) -> Option<(Seq<char>, int)> {
    let a = word_from(s, from);
    if a >= s.len() {
        None
    } else {
        Some((s.subrange(a, white_from(s, a)), white_from(s, a)))
    }
}

/// What stands behind `prefix`, when `s` begins with it.
pub fn strip_prefix(s: &str, prefix: &str) -> (rest: Option<String>)
    ensures
        match rest {
            Some(r) => after_prefix(s@, prefix@) == Some(r@),
            None => after_prefix(s@, prefix@) is None,
        },
{
    let a = chars_of(s);
    let p = chars_of(prefix);
    if !chars_at(&a, &p, 0) {
        assert(stands_at(a@, p@, 0) <==> begins_with(a@, p@)) by {
            if p@.len() <= a@.len() {
                assert(a@.subrange(0, p@.len() as int) =~= a@.take(p@.len() as int));
            }
        }
        return None;
    }
    assert(a@.subrange(0, p@.len() as int) =~= a@.take(p@.len() as int));
    let r = text_of(&a, p.len(), a.len());
    assert(r@ =~= a@.skip(p@.len() as int));
    Some(r)
}

/// Whether `prefix` begins `s`.
pub fn starts_with(s: &str, prefix: &str) -> (yes: bool)
    ensures
        yes == begins_with(s@, prefix@),
{
    strip_prefix(s, prefix).is_some()
}

/// What stands before `suffix`, when `s` ends with it.
pub fn strip_suffix(s: &str, suffix: &str) -> (rest: Option<String>)
    ensures
        match rest {
            Some(r) => before_suffix(s@, suffix@) == Some(r@),
            None => before_suffix(s@, suffix@) is None,
        },
{
    let a = chars_of(s);
    let p = chars_of(suffix);
    if p.len() > a.len() {
        return None;
    }
    let cut: usize = a.len() - p.len();
    assert(a@.subrange(cut as int, cut + p@.len()) =~= a@.skip(cut as int));
    if !chars_at(&a, &p, cut) {
        return None;
    }
    let r = text_of(&a, 0, cut);
    assert(r@ =~= a@.take(cut as int));
    Some(r)
}

/// Whether `sub` stands in `s` at `at`.
fn chars_at(s: &Vec<char>, sub: &Vec<char>, at: usize) -> (yes: bool)
    ensures
        yes == stands_at(s@, sub@, at as int),
{
    if at > s.len() || sub.len() > s.len() - at {
        return false;
    }
    let mut k: usize = 0;
    while k < sub.len()
        invariant
            k <= sub.len(),
            at + sub.len() <= s.len(),
            forall|j: int| 0 <= j < k ==> s@[at + j] == sub@[j],
        decreases sub.len() - k,
    {
        if s[at + k] != sub[k] {
            assert(s@.subrange(at as int, at + sub@.len())[k as int] == s@[at + k]);
            return false;
        }
        k = k + 1;
    }
    assert(s@.subrange(at as int, at + sub@.len()) =~= sub@);
    true
}

/// The first place where `sub` stands in `s`, counted in characters.
pub fn find(s: &str, sub: &str) -> (at: Option<usize>)
    ensures
        match at {
            Some(i) => find_text(s@, sub@, 0) == Some(i as int) && i + sub@.len() <= s@.len(),
            None => find_text(s@, sub@, 0) is None,
        },
{
    let a = chars_of(s);
    let p = chars_of(sub);
    let mut i: usize = 0;
    while i <= a.len() && p.len() <= a.len() - i
        invariant
            a@ == s@,
            p@ == sub@,
            i <= a.len() + 1,
            a.len() < usize::MAX || i <= a.len(),
            find_text(s@, sub@, 0) == find_text(s@, sub@, i as int),
        decreases a.len() + 1 - i,
    {
        if chars_at(&a, &p, i) {
            return Some(i);
        }
        if i == a.len() {
            assert(find_text(s@, sub@, i + 1) is None);
            return None;
        }
        i = i + 1;
    }
    None
}

/// Whether `sub` stands anywhere in `s`.
pub fn contains(s: &str, sub: &str) -> (yes: bool)
    ensures
        yes == holds_text(s@, sub@),
{
    find(s, sub).is_some()
}

/// What stands before and behind the first `c`, when there is one.
pub fn split_once(s: &str, c: char) -> (parts: Option<(String, String)>)
    ensures
        match parts {
            Some((a, b)) => split_at_char(s@, c) == Some((a@, b@)),
            None => split_at_char(s@, c) is None,
        },
{
    let chars = chars_of(s);
    let i = char_from(&chars, c, 0);
    if i >= chars.len() {
        return None;
    }
    let a = text_of(&chars, 0, i);
    let b = text_of(&chars, i + 1, chars.len());
    assert(a@ =~= chars@.take(i as int));
    assert(b@ =~= chars@.skip(i + 1));
    Some((a, b))
}

/// The pieces of `s` between occurrences of `c`.
pub fn split(s: &str, c: char) -> (list: Vec<String>)
    ensures
        views(list@) == pieces(s@, c),
        list@.len() > 0,
{
    let chars = chars_of(s);
    let mut list: Vec<String> = Vec::new();
    let mut from: usize = 0;
    proof {
        assert(views(list@) =~= Seq::<Seq<char>>::empty());
        assert(views(list@) + pieces_from(chars@, c, 0) =~= pieces(chars@, c));
    }
    loop
        invariant
            chars@ == s@,
            from <= chars.len(),
            pieces(chars@, c) == views(list@) + pieces_from(chars@, c, from as int),
        decreases chars.len() - from,
    {
        let end = char_from(&chars, c, from);
        let ghost before = views(list@);
        if end >= chars.len() {
            let last = text_of(&chars, from, chars.len());
            list.push(last);
            proof {
                assert(last@ =~= chars@.skip(from as int));
                assert(views(list@) =~= before.push(last@));
                assert(views(list@) =~= pieces(chars@, c));
            }
            return list;
        }
        let piece = text_of(&chars, from, end);
        list.push(piece);
        proof {
            assert(views(list@) =~= before.push(piece@));
            assert(views(list@) + pieces_from(chars@, c, end + 1) =~= before + (seq![piece@]
                + pieces_from(chars@, c, end + 1)));
        }
        from = end + 1;
    }
}

/// The texts with `sep` between them.
pub fn join(list: &Vec<String>, sep: &str) -> (text: String)
    ensures
        text@ == joined_with(views(list@), sep@),
{
    let mut out: String = String::new();
    let ghost lv = views(list@);
    let mut i: usize = 0;
    assert(lv.take(0) =~= Seq::<Seq<char>>::empty());
    while i < list.len()
        invariant
            i <= list.len(),
            lv == views(list@),
            out@ == joined_with(lv.take(i as int), sep@),
        decreases list.len() - i,
    {
        let ghost before = out@;
        proof {
            assert(lv.take(i + 1).drop_last() =~= lv.take(i as int));
            assert(lv.take(i + 1).last() == list@[i as int]@);
        }
        if i > 0 {
            out.append(sep);
        }
        out.append(list[i].as_str());
        proof {
            if i == 0 {
                assert(before =~= Seq::<char>::empty());
                assert(out@ =~= list@[0]@);
            }
        }
        i = i + 1;
    }
    assert(lv.take(list.len() as int) =~= lv);
    out
}

/// The first word of `chars` at or after `from`, and where it ends.
pub fn word_at(chars: &Vec<char>, from: usize) -> (word: Option<(String, usize)>)
    requires
        from <= chars.len(),
    ensures
        match word {
            Some((w, end)) => next_word(chars@, from as int) == Some((w@, end as int)) && end
                <= chars.len(),
            None => next_word(chars@, from as int) is None,
        },
{
    let mut a: usize = from;
    while a < chars.len() && char_is_white(chars[a])
        invariant
            from <= a <= chars.len(),
            word_from(chars@, from as int) == word_from(chars@, a as int),
        decreases chars.len() - a,
    {
        a = a + 1;
    }
    if a >= chars.len() {
        return None;
    }
    let mut b: usize = a;
    while b < chars.len() && !char_is_white(chars[b])
        invariant
            a <= b <= chars.len(),
            white_from(chars@, a as int) == white_from(chars@, b as int),
        decreases chars.len() - b,
    {
        b = b + 1;
    }
    Some((text_of(chars, a, b), b))
}

proof fn lemma_joined_step(list: Seq<Seq<char>>, sep: Seq<char>, x: Seq<char>)
    requires
        list.len() > 0,
    ensures
        joined_with(list.push(x), sep) == joined_with(list, sep) + sep + x,
{
    assert(list.push(x).drop_last() =~= list);
}

/// Joining puts the separator between any two texts and keeps every text whole: one text joined
/// is itself, none is nothing, and two lists joined are the one, the separator and the other.
pub proof fn law_joining_keeps_every_text(
    a: Seq<Seq<char>>,
    b: Seq<Seq<char>>,
    x: Seq<char>,
    sep: Seq<char>,
)
    ensures
        joined_with(seq![], sep) == Seq::<char>::empty(),
        joined_with(seq![x], sep) == x,
        a.len() > 0 && b.len() > 0 ==> joined_with(a + b, sep) == joined_with(a, sep) + sep
            + joined_with(b, sep),
    decreases b.len(),
{
    if a.len() > 0 && b.len() > 0 {
        let rest = b.drop_last();
        if rest.len() > 0 {
            law_joining_keeps_every_text(a, rest, x, sep);
            assert(a + b =~= (a + rest).push(b.last()));
            lemma_joined_step(a + rest, sep, b.last());
            assert(b =~= rest.push(b.last()));
            lemma_joined_step(rest, sep, b.last());
            assert(joined_with(a + b, sep) =~= joined_with(a, sep) + sep + joined_with(b, sep));
        } else {
            assert(a + b =~= a.push(b[0]));
            lemma_joined_step(a, sep, b[0]);
        }
    }
}

/// A text is found in another exactly where it first stands there, and not when it stands
/// nowhere.
pub proof fn law_a_text_is_found_where_it_first_stands(s: Seq<char>, sub: Seq<char>)
    ensures
        match find_text(s, sub, 0) {
            Some(i) => stands_at(s, sub, i) && forall|j: int|
                0 <= j < i ==> !#[trigger] stands_at(s, sub, j),
            None => forall|j: int| !#[trigger] stands_at(s, sub, j),
        },
        holds_text(s, sub) <==> exists|j: int| #[trigger] stands_at(s, sub, j),
{
    lemma_find_text(s, sub, 0);
}

proof fn lemma_find_text(s: Seq<char>, sub: Seq<char>, from: int)
    requires
        0 <= from,
    ensures
        match find_text(s, sub, from) {
            Some(i) => from <= i && stands_at(s, sub, i) && forall|j: int|
                from <= j < i ==> !#[trigger] stands_at(s, sub, j),
            None => forall|j: int| from <= j ==> !#[trigger] stands_at(s, sub, j),
        },
    decreases s.len() + 1 - from,
{
    if from + sub.len() <= s.len() && !stands_at(s, sub, from) {
        lemma_find_text(s, sub, from + 1);
    }
}

/// Splitting a text gives it back when it is joined again with the same character, and no
/// piece holds that character.
pub proof fn law_split_pieces_join_to_the_text(s: Seq<char>, c: char)
    ensures
        joined_with(pieces(s, c), seq![c]) == s,
        pieces(s, c).len() > 0,
        forall|k: int, i: int|
            0 <= k < pieces(s, c).len() && 0 <= i < pieces(s, c)[k].len() ==> #[trigger] pieces(
                s,
                c,
            )[k][i] != c,
{
    lemma_pieces(s, c, 0);
    assert(s.skip(0) =~= s);
}

proof fn lemma_pieces(s: Seq<char>, c: char, from: int)
    requires
        0 <= from <= s.len(),
    ensures
        joined_with(pieces_from(s, c, from), seq![c]) == s.skip(from),
        pieces_from(s, c, from).len() > 0,
        forall|k: int, i: int|
            0 <= k < pieces_from(s, c, from).len() && 0 <= i < pieces_from(s, c, from)[k].len()
                ==> #[trigger] pieces_from(s, c, from)[k][i] != c,
    decreases s.len() - from,
{
    let all = pieces_from(s, c, from);
    let end = find_char(s, c, from);
    lemma_find_char(s, c, from);
    if end >= s.len() {
        assert(all == seq![s.skip(from)]);
        assert forall|k: int, i: int| 0 <= k < all.len() && 0 <= i < all[k].len() implies
            #[trigger] all[k][i] != c by {
            assert(all[k][i] == s[from + i]);
        }
    } else {
        let first = s.subrange(from, end);
        let tail = pieces_from(s, c, end + 1);
        lemma_pieces(s, c, end + 1);
        assert(all == seq![first] + tail);
        law_joining_keeps_every_text(seq![first], tail, first, seq![c]);
        assert(s.skip(from) =~= first + seq![c] + s.skip(end + 1));
        assert forall|k: int, i: int| 0 <= k < all.len() && 0 <= i < all[k].len() implies
            #[trigger] all[k][i] != c by {
            if k == 0 {
                assert(all[k][i] == s[from + i]);
            } else {
                assert(all[k] == tail[k - 1]);
                assert(tail[k - 1][i] != c);
            }
        }
    }
}

/// Whether `a..end` is the next word of a text at or after `from`: white space alone stands
/// before it, none in it, and white space or nothing behind it.
pub open spec fn is_next_word(s: Seq<char>, from: int, a: int, end: int) -> bool {
    &&& from <= a < end <= s.len()
    &&& forall|i: int| from <= i < a ==> is_white(#[trigger] s[i])
    &&& forall|i: int| a <= i < end ==> !is_white(#[trigger] s[i])
    &&& end < s.len() ==> is_white(s[end])
}

/// The next word of a text is the next one, and there is none only when white space alone is
/// left.
pub proof fn law_the_next_word_is_the_next(s: Seq<char>, from: int)
    requires
        0 <= from <= s.len(),
    ensures
        match next_word(s, from) {
            Some((word, end)) => is_next_word(s, from, end - word.len(), end) && word
                == s.subrange(end - word.len(), end),
            None => forall|i: int| from <= i < s.len() ==> is_white(#[trigger] s[i]),
        },
{
    lemma_word_from(s, from);
    let a = word_from(s, from);
    if a < s.len() {
        lemma_white_from(s, a);
    }
}

proof fn lemma_word_from(s: Seq<char>, from: int)
    requires
        0 <= from <= s.len(),
    ensures
        from <= word_from(s, from) <= s.len(),
        forall|i: int| from <= i < word_from(s, from) ==> is_white(#[trigger] s[i]),
        word_from(s, from) < s.len() ==> !is_white(s[word_from(s, from)]),
    decreases s.len() - from,
{
    if from < s.len() && is_white(s[from]) {
        lemma_word_from(s, from + 1);
    }
}

proof fn lemma_white_from(s: Seq<char>, from: int)
    requires
        0 <= from <= s.len(),
    ensures
        from <= white_from(s, from) <= s.len(),
        forall|i: int| from <= i < white_from(s, from) ==> !is_white(#[trigger] s[i]),
        white_from(s, from) < s.len() ==> is_white(s[white_from(s, from)]),
        from < s.len() && !is_white(s[from]) ==> white_from(s, from) > from,
    decreases s.len() - from,
{
    if from < s.len() && !is_white(s[from]) {
        lemma_white_from(s, from + 1);
    }
}

/// What begins, ends or holds a text does so with every character of it.
pub proof fn law_texts_are_compared_whole(s: Seq<char>, part: Seq<char>)
    ensures
        begins_with(s, part) <==> part.is_prefix_of(s),
        finishes_with(s, part) <==> part.is_suffix_of(s),
        after_prefix(s, part) matches Some(rest) ==> s == part + rest,
        after_prefix(s, part) is None ==> !part.is_prefix_of(s),
        before_suffix(s, part) matches Some(rest) ==> s == rest + part,
        before_suffix(s, part) is None ==> !part.is_suffix_of(s),
{
    if part.len() <= s.len() {
        let n = part.len() as int;
        let m = s.len() - part.len();
        assert(s.take(n) == part ==> s =~= part + s.skip(n));
        assert(s.skip(m) == part ==> s =~= s.take(m) + part);
        assert(s.take(n) =~= s.subrange(0, n));
        assert(s.skip(m) =~= s.subrange(m, s.len() as int));
    }
}

} // verus!
