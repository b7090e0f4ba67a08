//! Rendering within a token budget: whole lines only, and what was left out is counted.

use crate::order::views;
use crate::strings::{join, joined_with};
use vstd::prelude::*;
use vstd::string::*;
use vstd::utf8::*;

verus! {

/// The estimated number of tokens in so many bytes: a quarter, rounded up.
pub open spec fn tokens(bytes: nat) -> nat {
    (bytes + 3) / 4
}

/// The estimated number of tokens of a text.
pub open spec fn text_tokens(text: Seq<char>) -> nat {
    tokens(encode_utf8(text).len())
}

/// The estimated number of tokens in so many bytes.
pub fn tokens_est(bytes: usize) -> (n: usize)
    ensures
        n == tokens(bytes as nat),
{
    let q: usize = bytes / 4;
    if bytes % 4 == 0 {
        q
    } else {
        q + 1
    }
}

/// The encoding of a concatenation is the concatenation of the encodings.
pub proof fn lemma_encode_concat(a: Seq<char>, b: Seq<char>)
    ensures
        encode_utf8(a + b) == encode_utf8(a) + encode_utf8(b),
    decreases a.len(),
{
    if a.len() == 0 {
        assert(a + b =~= b);
        assert(encode_utf8(a) =~= Seq::<u8>::empty());
        assert(encode_utf8(a) + encode_utf8(b) =~= encode_utf8(b));
    } else {
        assert((a + b).drop_first() =~= a.drop_first() + b);
        assert((a + b)[0] == a[0]);
        lemma_encode_concat(a.drop_first(), b);
        assert(encode_utf8(a + b) =~= encode_utf8(a) + encode_utf8(b));
    }
}

/// Rendered text and how many items were left out of it.
#[derive(Debug, Clone)]
pub struct Budgeted {
    pub text: String,
    pub elided: usize,
}

/// `text` with one more line behind it.
pub open spec fn with_line(text: Seq<char>, line: Seq<char>) -> Seq<char> {
    if text.len() == 0 {
        line
    } else {
        text + "\n"@ + line
    }
}

/// What lines from `i` on, added to `text`, give within the budget: whole lines are taken as
/// long as they fit, and the number taken is counted on from `i`.
pub open spec fn packed_from(
    lines: Seq<Seq<char>>,
    budget: nat,
    i: int,
    text: Seq<char>,
) -> (Seq<char>, int)
    decreases lines.len() - i,
{
    if i >= lines.len() || text_tokens(with_line(text, lines[i])) > budget {
        (text, i)
    } else {
        packed_from(lines, budget, i + 1, with_line(text, lines[i]))
    }
}

/// The lines within the budget, and how many are left out; without a budget all of them.
pub open spec fn packed(lines: Seq<Seq<char>>, budget: Option<usize>) -> (Seq<char>, nat) {
    match budget {
        None => (joined_with(lines, "\n"@), 0),
        Some(b) => {
            let (text, n) = packed_from(lines, b as nat, 0, seq![]);
            (text, (lines.len() - n) as nat)
        },
    }
}

proof fn lemma_packed(lines: Seq<Seq<char>>, budget: nat, i: int, text: Seq<char>)
    requires
        0 <= i <= lines.len(),
        text_tokens(text) <= budget,
    ensures
        ({
            let (out, n) = packed_from(lines, budget, i, text);
            &&& i <= n <= lines.len()
            &&& text_tokens(out) <= budget
            &&& n < lines.len() ==> text_tokens(with_line(out, lines[n])) > budget
        }),
    decreases lines.len() - i,
{
    if i < lines.len() && text_tokens(with_line(text, lines[i])) <= budget {
        lemma_packed(lines, budget, i + 1, with_line(text, lines[i]));
    }
}

/// A rendering stays within its budget, and what is left out and what is not make up all of
/// it.
pub proof fn law_rendering_stays_within_budget(lines: Seq<Seq<char>>, budget: usize)
    ensures
        text_tokens(packed(lines, Some(budget)).0) <= budget,
        packed(lines, Some(budget)).1 <= lines.len(),
{
    assert(encode_utf8(Seq::<char>::empty()) =~= Seq::<u8>::empty());
    lemma_packed(lines, budget as nat, 0, seq![]);
}

/// Lines that are not empty are rendered as a prefix of the full rendering, the longest that
/// fits.
pub proof fn law_rendering_is_the_longest_prefix(lines: Seq<Seq<char>>, budget: usize)
    requires
        forall|i: int| 0 <= i < lines.len() ==> (#[trigger] lines[i]).len() > 0,
    ensures
        ({
            let n = (lines.len() - packed(lines, Some(budget)).1) as nat;
            &&& packed(lines, Some(budget)).0 == joined_with(lines.take(n as int), "\n"@)
            &&& n < lines.len() ==> text_tokens(joined_with(lines.take(n as int + 1), "\n"@)) > budget
        }),
{
    assert(encode_utf8(Seq::<char>::empty()) =~= Seq::<u8>::empty());
    lemma_packed(lines, budget as nat, 0, seq![]);
    assert(lines.take(0) =~= Seq::<Seq<char>>::empty());
    lemma_packed_prefix(lines, budget as nat, 0, seq![]);
    let (out, n) = packed_from(lines, budget as nat, 0, seq![]);
    if n < lines.len() {
        lemma_join_one_more(lines, n);
    }
}

proof fn lemma_join_one_more(lines: Seq<Seq<char>>, n: int)
    requires
        0 <= n < lines.len(),
        forall|i: int| 0 <= i < lines.len() ==> (#[trigger] lines[i]).len() > 0,
    ensures
        joined_with(lines.take(n + 1), "\n"@) == with_line(
            joined_with(lines.take(n), "\n"@),
            lines[n],
        ),
        n > 0 ==> joined_with(lines.take(n), "\n"@).len() > 0,
    decreases n,
{
    assert(lines.take(n + 1).drop_last() =~= lines.take(n));
    assert(lines.take(n + 1).last() == lines[n]);
    if n > 0 {
        lemma_join_one_more(lines, n - 1);
        assert(lines[n - 1].len() > 0);
        assert(lines.take(n).last() == lines[n - 1]);
    } else {
        assert(lines.take(0) =~= Seq::<Seq<char>>::empty());
    }
}

proof fn lemma_packed_prefix(lines: Seq<Seq<char>>, budget: nat, i: int, text: Seq<char>)
    requires
        0 <= i <= lines.len(),
        text == joined_with(lines.take(i), "\n"@),
        forall|k: int| 0 <= k < lines.len() ==> (#[trigger] lines[k]).len() > 0,
    ensures
        ({
            let (out, n) = packed_from(lines, budget, i, text);
            i <= n <= lines.len() && out == joined_with(lines.take(n), "\n"@)
        }),
    decreases lines.len() - i,
{
    if i < lines.len() && text_tokens(with_line(text, lines[i])) <= budget {
        lemma_join_one_more(lines, i);
        lemma_packed_prefix(lines, budget, i + 1, with_line(text, lines[i]));
    }
}

/// Renders lines within a budget: whole lines from the front, as long as they fit.
pub fn render_budgeted(lines: &Vec<String>, budget: Option<usize>) -> (b: Budgeted)
    ensures
        b.text@ == packed(views(lines@), budget).0,
        b.elided == packed(views(lines@), budget).1,
{
    let limit: usize = match budget {
        Some(limit) => limit,
        None => {
            return Budgeted { text: join(lines, "\n"), elided: 0 };
        },
    };
    let ghost lv = views(lines@);
    let ghost whole = packed_from(lv, limit as nat, 0, seq![]);
    let mut text: String = String::new();
    let mut i: usize = 0;
    assert(text@ =~= Seq::<char>::empty());
    while i < lines.len()
        invariant
            i <= lines.len(),
            lv == views(lines@),
            budget == Some(limit),
            whole == packed_from(lv, limit as nat, 0, seq![]),
            whole == packed_from(lv, limit as nat, i as int, text@),
        decreases lines.len() - i,
    {
        let line = &lines[i];
        assert(lv[i as int] == line@);
        let have: usize = text.as_str().as_bytes().len();
        let more: usize = line.as_str().as_bytes().len();
        let empty: bool = text.as_str().is_empty();
        let ghost next = with_line(text@, line@);
        let total: u128 = if empty {
            more as u128
        } else {
            have as u128 + 1 + more as u128
        };
        proof {
            reveal_strlit("\n");
            is_ascii_chars_encode_utf8("\n"@);
            lemma_encode_concat(text@, "\n"@);
            lemma_encode_concat(text@ + "\n"@, line@);
            assert(encode_utf8(next).len() == total);
        }
        if (total + 3) / 4 > limit as u128 {
            return Budgeted { text, elided: lines.len() - i };
        }
        if !empty {
            text.append("\n");
        }
        text.append(line.as_str());
        assert(text@ =~= next);
        i = i + 1;
    }
    Budgeted { text, elided: 0 }
}

/// Without a budget nothing is left out; and what a budget leaves room for is rendered.
pub proof fn law_nothing_is_left_out_without_need(lines: Seq<Seq<char>>, budget: usize)
    requires
        forall|i: int| 0 <= i < lines.len() ==> (#[trigger] lines[i]).len() > 0,
    ensures
        packed(lines, None) == (joined_with(lines, "\n"@), 0nat),
        text_tokens(joined_with(lines, "\n"@)) <= budget ==> packed(lines, Some(budget)) == (
            joined_with(lines, "\n"@),
            0nat,
        ),
{
    law_rendering_is_the_longest_prefix(lines, budget);
    law_rendering_stays_within_budget(lines, budget);
    let n = (lines.len() - packed(lines, Some(budget)).1) as nat;
    assert(lines.take(lines.len() as int) =~= lines);
    if n < lines.len() && text_tokens(joined_with(lines, "\n"@)) <= budget {
        lemma_longer_costs_more(lines, n + 1);
    }
}

proof fn lemma_longer_costs_more(lines: Seq<Seq<char>>, n: nat)
    requires
        n <= lines.len(),
        forall|i: int| 0 <= i < lines.len() ==> (#[trigger] lines[i]).len() > 0,
    ensures
        text_tokens(joined_with(lines.take(n as int), "\n"@)) <= text_tokens(
            joined_with(lines, "\n"@),
        ),
    decreases lines.len() - n,
{
    if n < lines.len() {
        lemma_longer_costs_more(lines, n + 1);
        lemma_join_one_more(lines, n as int);
        let before = joined_with(lines.take(n as int), "\n"@);
        if before.len() > 0 {
            lemma_encode_concat(before, "\n"@);
            lemma_encode_concat(before + "\n"@, lines[n as int]);
        } else {
            assert(before =~= Seq::<char>::empty());
            assert(encode_utf8(before) =~= Seq::<u8>::empty());
        }
    } else {
        assert(lines.take(n as int) =~= lines);
    }
}

/// Four bytes are a token, and a part of four is one more.
pub proof fn law_four_bytes_are_a_token(bytes: nat)
    ensures
        4 * tokens(bytes) >= bytes,
        bytes > 0 ==> 4 * (tokens(bytes) - 1) < bytes,
        bytes == 0 ==> tokens(bytes) == 0,
{
}

} // verus!
