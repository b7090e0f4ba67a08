//! Reading a file, a range of its lines, or the body of a symbol.

use crate::errors::{
    opt_text, refusal, refusal_next, ErrorKind, ErrorView, VcError, VcResult,
};
use crate::json::{no_fields, Json, JsonView};
use crate::order::views;
use crate::output::{join_warnings, joined_warnings, CmdOutcome, OutcomeView};
use crate::render::{lemma_encode_concat, text_tokens, tokens, tokens_est, with_line};
use crate::strings::{join, joined_with, split_at_char, split_once};
use crate::symbol_search::{AnswerView, SymbolAnswer, SymbolHit, SymbolHitView};
use crate::text::{
    chars_of, dec, find_char, law_decimals_spell_the_number, law_numbers_read_back,
    lemma_find_char, lines_from, lines_of, lossy_text, parse_usize,
    parsed_unsigned, push_dec, split_lines, text_of, without_cr,
};
use vstd::prelude::*;
use vstd::string::*;
use vstd::utf8::*;

verus! {

/// Which read is asked for.
#[derive(Debug, Clone)]
pub enum ReadMode {
    Path(String),
    Symbol(String),
}

/// Which read is asked for: a path or a symbol, and not both.
pub fn read_mode(path: Option<String>, symbol: Option<String>) -> (r: VcResult<ReadMode>)
    ensures
        match (path, symbol, r) {
            (Some(p), None, Ok(ReadMode::Path(q))) => q@ == p@,
            (None, Some(s), Ok(ReadMode::Symbol(t))) => t@ == s@,
            (Some(_), Some(_), Err(e)) => e@ == refusal(
                ErrorKind::Usage,
                "read: <path> and --symbol are mutually exclusive"@,
            ),
            (None, None, Err(e)) => e@ == refusal(
                ErrorKind::Usage,
                "read: pass a path, or --symbol NAME"@,
            ),
            _ => false,
        },
{
    match (path, symbol) {
        (Some(_), Some(_)) => Err(
            VcError::new(
                ErrorKind::Usage,
                "read: <path> and --symbol are mutually exclusive".to_owned(),
            ),
        ),
        (None, None) => Err(
            VcError::new(ErrorKind::Usage, "read: pass a path, or --symbol NAME".to_owned()),
        ),
        (Some(p), None) => Ok(ReadMode::Path(p)),
        (None, Some(s)) => Ok(ReadMode::Symbol(s)),
    }
}

/// The index of the last `c` among the first `n` characters, or -1.
pub open spec fn last_char(s: Seq<char>, c: char, n: int) -> int
    decreases n,
{
    if n <= 0 {
        -1
    } else if s[n - 1] == c {
        n - 1
    } else {
        last_char(s, c, n - 1)
    }
}

/// The two numbers that a range `a-b` spells.
pub open spec fn range_of(text: Seq<char>) -> Option<(nat, nat)> {
    match split_at_char(text, '-') {
        Some((a, b)) => match (
            parsed_unsigned(encode_utf8(a), usize::MAX as nat),
            parsed_unsigned(encode_utf8(b), usize::MAX as nat),
        ) {
            (Some(x), Some(y)) => Some((x, y)),
            _ => None,
        },
        None => None,
    }
}

/// A path argument and the range that stands behind its last colon, if one does.
pub open spec fn path_and_range(arg: Seq<char>) -> (Seq<char>, Option<(nat, nat)>) {
    let at = last_char(arg, ':', arg.len() as int);
    if at < 0 {
        (arg, None)
    } else {
        match range_of(arg.skip(at + 1)) {
            Some(range) => (arg.take(at), Some(range)),
            None => (arg, None),
        }
    }
}

/// The view of a range.
pub open spec fn range_view(range: Option<(usize, usize)>) -> Option<(nat, nat)> {
    match range {
        Some((a, b)) => Some((a as nat, b as nat)),
        None => None,
    }
}

/// Parts a path argument from the range `:a-b` at its end. Anything else behind the last
/// colon belongs to the path.
pub fn parse_range_suffix(arg: &str) -> (r: (String, Option<(usize, usize)>))
    ensures
        r.0@ == path_and_range(arg@).0,
        range_view(r.1) == path_and_range(arg@).1,
{
    let chars = chars_of(arg);
    let mut n: usize = chars.len();
    while n > 0 && chars[n - 1] != ':'
        invariant
            n <= chars.len(),
            chars@ == arg@,
            last_char(arg@, ':', arg@.len() as int) == last_char(arg@, ':', n as int),
        decreases n,
    {
        n = n - 1;
    }
    if n == 0 {
        return (arg.to_owned(), None);
    }
    let tail = text_of(&chars, n, chars.len());
    assert(tail@ =~= arg@.skip(n as int));
    match split_once(tail.as_str(), '-') {
        Some((a, b)) => {
            let x = parse_usize(a.as_str().as_bytes());
            let y = parse_usize(b.as_str().as_bytes());
            match (x, y) {
                (Some(from), Some(to)) => {
                    let path = text_of(&chars, 0, n - 1);
                    assert(path@ =~= arg@.take(n - 1));
                    (path, Some((from, to)))
                },
                _ => (arg.to_owned(), None),
            }
        },
        None => (arg.to_owned(), None),
    }
}

/// Refuses a range that starts at line 0 or ends before it starts.
pub fn check_range(range: Option<(usize, usize)>) -> (r: VcResult<()>)
    ensures
        match (range, r) {
            (None, Ok(_)) => true,
            (Some((a, b)), Ok(_)) => 1 <= a <= b,
            (Some((a, b)), Err(e)) => (a == 0 || a > b) && e@ == refusal(
                ErrorKind::Usage,
                "read: invalid range "@ + dec(a as nat) + "-"@ + dec(b as nat),
            ),
            _ => false,
        },
{
    match range {
        Some((a, b)) => {
            if a == 0 || a > b {
                let mut m: String = "read: invalid range ".to_owned();
                push_dec(&mut m, a as u64);
                m.append("-");
                push_dec(&mut m, b as u64);
                return Err(VcError::new(ErrorKind::Usage, m));
            }
            Ok(())
        },
        None => Ok(()),
    }
}

/// The refusal of a content over budget.
pub open spec fn over_budget(path: Seq<char>, n: nat, budget: nat) -> ErrorView {
    refusal_next(
        ErrorKind::Budget,
        path + " is ~"@ + dec(n) + " tokens (budget "@ + dec(budget) + ")"@,
        "vc outline "@ + path,
    )
}

/// Whether so many bytes are within a budget.
pub open spec fn budget_check(path: Seq<char>, bytes: nat, budget: Option<usize>) -> Result<
    (),
    ErrorView,
> {
    match budget {
        Some(b) => if tokens(bytes) > b {
            Err(over_budget(path, tokens(bytes), b as nat))
        } else {
            Ok(())
        },
        None => Ok(()),
    }
}

/// Refuses content that is over budget; nothing is ever cut to fit.
pub fn cmd_read_budget_check(path: &str, bytes: usize, budget: Option<usize>) -> (r: VcResult<()>)
    ensures
        match (budget_check(path@, bytes as nat, budget), r) {
            (Ok(_), Ok(_)) => true,
            (Err(e), Err(f)) => f@ == e,
            _ => false,
        },
{
    let limit: usize = match budget {
        Some(limit) => limit,
        None => {
            return Ok(());
        },
    };
    let n = tokens_est(bytes);
    if n > limit {
        let mut m: String = path.to_owned();
        m.append(" is ~");
        push_dec(&mut m, n as u64);
        m.append(" tokens (budget ");
        push_dec(&mut m, limit as u64);
        m.append(")");
        let mut next: String = "vc outline ".to_owned();
        next.append(path);
        return Err(VcError::new(ErrorKind::Budget, m).with_next(next));
    }
    Ok(())
}

/// A line with its number.
pub open spec fn numbered_line(lines: Seq<Seq<char>>, i: int) -> Seq<char> {
    dec(i as nat) + ": "@ + lines[i - 1]
}

/// The lines `start` to `end`, each with its number.
pub open spec fn numbered(lines: Seq<Seq<char>>, start: int, end: int) -> Seq<char>
    decreases end - start + 1,
{
    if end < start {
        seq![]
    } else {
        with_line(numbered(lines, start, end - 1), numbered_line(lines, end))
    }
}

/// The lines `start` to `end`, each with its number.
fn number_lines(lines: &Vec<String>, start: usize, end: usize) -> (text: String)
    requires
        1 <= start,
        end <= lines@.len(),
    ensures
        text@ == numbered(views(lines@), start as int, end as int),
{
    let ghost lv = views(lines@);
    let mut text: String = String::new();
    assert(text@ =~= Seq::<char>::empty());
    if end < start {
        return text;
    }
    let mut i: usize = start - 1;
    while i < end
        invariant
            1 <= start,
            start - 1 <= i <= end <= lines@.len(),
            lv == views(lines@),
            text@ == numbered(lv, start as int, i as int),
        decreases end - i,
    {
        let ghost before = text@;
        if !text.as_str().is_empty() {
            text.append("\n");
        }
        let mut line: String = String::new();
        push_dec(&mut line, (i + 1) as u64);
        line.append(": ");
        line.append(lines[i].as_str());
        proof {
            assert(lv[i as int] == lines@[i as int]@);
            assert(line@ =~= numbered_line(lv, i + 1));
        }
        text.append(line.as_str());
        proof {
            if before.len() == 0 {
                assert(before =~= Seq::<char>::empty());
                assert(text@ =~= line@);
            }
            assert(text@ =~= with_line(before, line@));
        }
        i = i + 1;
    }
    text
}

/// Lines to be read, and from where.
#[derive(Debug)]
pub struct ReadRender {
    pub path: String,
    pub lines: Vec<String>,
    pub start: usize,
    pub end: usize,
    /// The bytes of the whole file.
    pub naive_bytes: u64,
    pub epoch8: String,
    pub budget: Option<usize>,
    pub warning: Option<String>,
}

/// What a [`ReadRender`] says.
pub struct RenderView {
    pub path: Seq<char>,
    pub lines: Seq<Seq<char>>,
    pub start: int,
    pub end: int,
    pub naive_bytes: u64,
    pub epoch8: Seq<char>,
    pub budget: Option<usize>,
    pub warning: Option<Seq<char>>,
}

impl View for ReadRender {
    type V = RenderView;

    open spec fn view(&self) -> RenderView {
        RenderView {
            path: self.path@,
            lines: views(self.lines@),
            start: self.start as int,
            end: self.end as int,
            naive_bytes: self.naive_bytes,
            epoch8: self.epoch8@,
            budget: self.budget,
            warning: opt_text(self.warning),
        }
    }
}

/// The text for people of lines that were read.
pub open spec fn read_human(r: RenderView, text: Seq<char>) -> Seq<char> {
    let head = "epoch "@ + r.epoch8 + " — "@ + r.path + ":"@ + dec(r.start as nat) + "-"@ + dec(
        r.end as nat,
    ) + "\n"@;
    if text.len() == 0 {
        head
    } else {
        head + text + "\n"@
    }
}

/// The outcome of a read: the lines asked for with their numbers, all of them or, when they
/// are over budget, a refusal.
pub open spec fn read_view(r: RenderView) -> Result<OutcomeView, ErrorView> {
    let text = numbered(r.lines, r.start, r.end);
    match budget_check(r.path, encode_utf8(text).len(), r.budget) {
        Err(e) => Err(e),
        Ok(_) => Ok(
            OutcomeView {
                human: read_human(r, text),
                json: no_fields()
                    .with("epoch8"@, JsonView::Text(r.epoch8))
                    .with("path"@, JsonView::Text(r.path))
                    .with("start"@, JsonView::Number(r.start as nat))
                    .with("end"@, JsonView::Number(r.end as nat))
                    .with("text"@, JsonView::Text(text)),
                files: 1,
                edits: 0,
                epoch8: r.epoch8,
                warning: r.warning,
                bytes_out: Some(encode_utf8(read_human(r, text)).len() as u64),
                naive_bytes: Some(r.naive_bytes),
            },
        ),
    }
}

/// Whether the view of a result is this one.
pub open spec fn outcome_is(view: Result<OutcomeView, ErrorView>, r: VcResult<CmdOutcome>) -> bool {
    match (view, r) {
        (Ok(o), Ok(out)) => out@ == o,
        (Err(e), Err(f)) => f@ == e,
        _ => false,
    }
}

/// Renders the lines of a read.
pub fn read_outcome(r: ReadRender) -> (out: VcResult<CmdOutcome>)
    requires
        1 <= r.start,
        r.end <= r.lines@.len(),
    ensures
        outcome_is(read_view(r@), out),
{
    let text = number_lines(&r.lines, r.start, r.end);
    match cmd_read_budget_check(r.path.as_str(), text.as_str().as_bytes().len(), r.budget) {
        Ok(_) => {},
        Err(e) => {
            return Err(e);
        },
    }
    let mut human: String = "epoch ".to_owned();
    human.append(r.epoch8.as_str());
    human.append(" — ");
    human.append(r.path.as_str());
    human.append(":");
    push_dec(&mut human, r.start as u64);
    human.append("-");
    push_dec(&mut human, r.end as u64);
    human.append("\n");
    if !text.as_str().is_empty() {
        human.append(text.as_str());
        human.append("\n");
    }
    let json = Json::object()
        .with("epoch8", Json::text(r.epoch8.as_str()))
        .with("path", Json::text(r.path.as_str()))
        .with("start", Json::count(r.start))
        .with("end", Json::count(r.end))
        .with("text", Json::text(text.as_str()));
    let bytes_out: u64 = human.as_str().as_bytes().len() as u64;
    Ok(
        CmdOutcome {
            human,
            json,
            files: 1,
            edits: 0,
            epoch8: r.epoch8,
            warning: r.warning,
            bytes_out: Some(bytes_out),
            naive_bytes: Some(r.naive_bytes),
        },
    )
}

/// The lines that a range picks out of so many: an end beyond the last line is the last
/// line, a start beyond it is refused.
pub open spec fn picked(path: Seq<char>, range: Option<(nat, nat)>, total: nat) -> Result<
    (int, int),
    ErrorView,
> {
    match range {
        Some((a, b)) => if a > total {
            Err(
                refusal_next(
                    ErrorKind::NotFound,
                    path + ":"@ + dec(a) + "-"@ + dec(b) + ": start beyond EOF ("@ + dec(total)
                        + " lines)"@,
                    "vc read "@ + path + ":1-"@ + dec(total),
                ),
            )
        } else {
            Ok((a as int, if b <= total {
                b as int
            } else {
                total as int
            }))
        },
        None => Ok((1, total as int)),
    }
}

/// The outcome of reading a file or a range of it. A whole file that is over budget by its
/// size alone is refused by that.
pub open spec fn path_read(
    path: Seq<char>,
    content: Seq<char>,
    range: Option<(nat, nat)>,
    epoch8: Seq<char>,
    budget: Option<usize>,
) -> Result<OutcomeView, ErrorView> {
    let size = encode_utf8(content).len();
    if range is None && budget_check(path, size, budget) is Err {
        Err(budget_check(path, size, budget)->Err_0)
    } else {
        let lines = lines_of(content);
        match picked(path, range, lines.len()) {
            Err(e) => Err(e),
            Ok((start, end)) => read_view(
                RenderView {
                    path,
                    lines,
                    start,
                    end,
                    naive_bytes: size as u64,
                    epoch8,
                    budget,
                    warning: None,
                },
            ),
        }
    }
}

/// Reads a file, or a range of it that [`check_range`] let pass. The size of a whole file is
/// held against the budget before its lines are.
pub fn cmd_read_path(
    path: &str,
    content: &str,
    range: Option<(usize, usize)>,
    epoch8: &str,
    budget: Option<usize>,
) -> (r: VcResult<CmdOutcome>)
    requires
        range matches Some((a, b)) ==> 1 <= a <= b,
    ensures
        outcome_is(path_read(path@, content@, range_view(range), epoch8@, budget), r),
{
    if range.is_none() {
        match cmd_read_budget_check(path, content.as_bytes().len(), budget) {
            Ok(_) => {},
            Err(e) => {
                return Err(e);
            },
        }
    }
    let lines = split_lines(content);
    assert(views(lines@).len() == lines@.len());
    let total: usize = lines.len();
    let (start, end): (usize, usize) = match range {
        Some((a, b)) => {
            if a > total {
                let mut m: String = path.to_owned();
                m.append(":");
                push_dec(&mut m, a as u64);
                m.append("-");
                push_dec(&mut m, b as u64);
                m.append(": start beyond EOF (");
                push_dec(&mut m, total as u64);
                m.append(" lines)");
                let mut next: String = "vc read ".to_owned();
                next.append(path);
                next.append(":1-");
                push_dec(&mut next, total as u64);
                return Err(VcError::new(ErrorKind::NotFound, m).with_next(next));
            }
            if b <= total {
                (a, b)
            } else {
                (a, total)
            }
        },
        None => (1, total),
    };
    read_outcome(
        ReadRender {
            path: path.to_owned(),
            lines,
            start,
            end,
            naive_bytes: content.as_bytes().len() as u64,
            epoch8: epoch8.to_owned(),
            budget,
            warning: None,
        },
    )
}

/// A candidate for a message.
pub open spec fn candidate(h: SymbolHitView, with_name: bool) -> Seq<char> {
    let place = lossy_text(h.path) + ":"@ + dec(h.symbol.start_line as nat);
    if with_name {
        place + " "@ + h.symbol.name
    } else {
        place
    }
}

/// Candidates for a message.
pub open spec fn candidates(hits: Seq<SymbolHitView>, with_name: bool) -> Seq<char> {
    joined_with(hits.map_values(|h: SymbolHitView| candidate(h, with_name)), ", "@)
}

fn candidate_list(hits: &Vec<SymbolHit>, with_name: bool) -> (text: String)
    ensures
        text@ == candidates(views(hits@), with_name),
{
    let ghost all = views(hits@).map_values(|h: SymbolHitView| candidate(h, with_name));
    let mut list: Vec<String> = Vec::new();
    let mut i: usize = 0;
    while i < hits.len()
        invariant
            i <= hits.len(),
            all == views(hits@).map_values(|h: SymbolHitView| candidate(h, with_name)),
            views(list@) == all.take(i as int),
        decreases hits.len() - i,
    {
        let h = &hits[i];
        let mut c: String = h.path.display();
        c.append(":");
        push_dec(&mut c, h.symbol.start_line as u64);
        if with_name {
            c.append(" ");
            c.append(h.symbol.name.as_str());
        }
        let ghost before = list@;
        list.push(c);
        proof {
            assert(views(hits@)[i as int] == h@);
            assert(all[i as int] == c@);
            assert(all.take(i + 1) =~= all.take(i as int).push(c@));
            assert(views(list@) =~= views(before).push(c@));
        }
        i = i + 1;
    }
    assert(all.take(hits.len() as int) =~= all);
    join(&list, ", ")
}

/// The one symbol of exactly this name. None, only near misses, and several are refused; a
/// near miss is never taken for the symbol asked for.
pub open spec fn only_symbol(name: Seq<char>, a: AnswerView) -> Result<SymbolHitView, ErrorView> {
    let query = "vc query "@ + name + " --symbol"@;
    if a.hits.len() == 0 {
        Err(refusal_next(ErrorKind::NotFound, name + ": no symbol found"@, query))
    } else if a.fuzzy {
        Err(
            refusal_next(
                ErrorKind::NotFound,
                name + ": no symbol by that name; did you mean: "@ + candidates(a.hits, true),
                query,
            ),
        )
    } else if a.hits.len() == 1 {
        Ok(a.hits[0])
    } else {
        Err(
            refusal(
                ErrorKind::Ambiguous,
                name + ": "@ + dec(a.hits.len()) + " symbols match: "@ + candidates(
                    a.hits,
                    false,
                ),
            ),
        )
    }
}

/// The one symbol of exactly this name.
pub fn pick_symbol<'a>(name: &str, a: &'a SymbolAnswer) -> (r: VcResult<&'a SymbolHit>)
    ensures
        match (only_symbol(name@, a@), r) {
            (Ok(h), Ok(hit)) => hit@ == h,
            (Err(e), Err(f)) => f@ == e,
            _ => false,
        },
{
    let mut query: String = "vc query ".to_owned();
    query.append(name);
    query.append(" --symbol");
    let mut m: String = name.to_owned();
    let n: usize = a.hits.len();
    assert(views(a.hits@).len() == n);
    if n == 0 {
        m.append(": no symbol found");
        return Err(VcError::new(ErrorKind::NotFound, m).with_next(query));
    }
    if a.fuzzy {
        m.append(": no symbol by that name; did you mean: ");
        m.append(candidate_list(&a.hits, true).as_str());
        return Err(VcError::new(ErrorKind::NotFound, m).with_next(query));
    }
    if n == 1 {
        assert(views(a.hits@)[0] == a.hits@[0]@);
        return Ok(&a.hits[0]);
    }
    m.append(": ");
    push_dec(&mut m, n as u64);
    m.append(" symbols match: ");
    m.append(candidate_list(&a.hits, false).as_str());
    Err(VcError::new(ErrorKind::Ambiguous, m))
}

/// The outcome of reading the body of a symbol from its file's content.
pub open spec fn symbol_read(
    hit: SymbolHitView,
    content: Seq<char>,
    epoch8: Seq<char>,
    budget: Option<usize>,
    warnings: Seq<Seq<char>>,
) -> Result<OutcomeView, ErrorView> {
    let lines = lines_of(content);
    read_view(
        RenderView {
            path: lossy_text(hit.path),
            lines,
            start: hit.symbol.start_line as int,
            end: if hit.symbol.end_line <= lines.len() {
                hit.symbol.end_line as int
            } else {
                lines.len() as int
            },
            naive_bytes: encode_utf8(content).len() as u64,
            epoch8,
            budget,
            warning: joined_warnings(warnings),
        },
    )
}

/// Reads the body of a symbol from its file's content. Lines count from 1.
pub fn cmd_read_symbol(
    hit: &SymbolHit,
    content: &str,
    epoch8: &str,
    budget: Option<usize>,
    warnings: &Vec<String>,
) -> (r: VcResult<CmdOutcome>)
    requires
        hit.symbol.start_line >= 1,
    ensures
        outcome_is(symbol_read(hit@, content@, epoch8@, budget, views(warnings@)), r),
{
    let lines = split_lines(content);
    assert(views(lines@).len() == lines@.len());
    let end: usize = if hit.symbol.end_line <= lines.len() {
        hit.symbol.end_line
    } else {
        lines.len()
    };
    read_outcome(
        ReadRender {
            path: hit.path.display(),
            lines,
            start: hit.symbol.start_line,
            end,
            naive_bytes: content.as_bytes().len() as u64,
            epoch8: epoch8.to_owned(),
            budget,
            warning: join_warnings(warnings),
        },
    )
}

/// The bytes of lines, with `extra` more for each.
spec fn total_bytes(lines: Seq<Seq<char>>, extra: nat) -> nat
    decreases lines.len(),
{
    if lines.len() == 0 {
        0
    } else {
        total_bytes(lines.drop_last(), extra) + encode_utf8(lines.last()).len() + extra
    }
}

proof fn lemma_total_concat(a: Seq<char>, rest: Seq<Seq<char>>, extra: nat)
    ensures
        total_bytes(seq![a] + rest, extra) == encode_utf8(a).len() + extra + total_bytes(
            rest,
            extra,
        ),
    decreases rest.len(),
{
    reveal_with_fuel(total_bytes, 2);
    let all = seq![a] + rest;
    if rest.len() == 0 {
        assert(all =~= seq![a]);
        assert(all.drop_last() =~= Seq::<Seq<char>>::empty());
        assert(all.last() == a);
    } else {
        assert(all.drop_last() =~= seq![a] + rest.drop_last());
        assert(all.last() == rest.last());
        lemma_total_concat(a, rest.drop_last(), extra);
    }
}

proof fn lemma_total_extra(lines: Seq<Seq<char>>, less: nat, more: nat)
    requires
        less <= more,
    ensures
        total_bytes(lines, less) <= total_bytes(lines, more),
    decreases lines.len(),
{
    if lines.len() > 0 {
        lemma_total_extra(lines.drop_last(), less, more);
    }
}

proof fn lemma_encode_at_least(s: Seq<char>)
    ensures
        encode_utf8(s).len() >= s.len(),
    decreases s.len(),
{
    if s.len() > 0 {
        lemma_encode_at_least(s.drop_first());
    }
}

/// A text has no more bytes than its lines and two for each.
proof fn lemma_content_bound(text: Seq<char>, from: int)
    requires
        0 <= from <= text.len(),
    ensures
        encode_utf8(text.skip(from)).len() <= total_bytes(lines_from(text, from), 2),
    decreases text.len() - from,
{
    let end = find_char(text, '\n', from);
    lemma_find_char(text, '\n', from);
    if from >= text.len() {
        assert(text.skip(from) =~= Seq::<char>::empty());
    } else if end >= text.len() {
        let line = text.subrange(from, text.len() as int);
        assert(text.skip(from) =~= line);
        assert(lines_from(text, from) =~= seq![line] + Seq::<Seq<char>>::empty());
        lemma_total_concat(line, seq![], 2);
    } else {
        let whole = text.subrange(from, end);
        let line = without_cr(whole);
        let rest = lines_from(text, end + 1);
        lemma_content_bound(text, end + 1);
        lemma_total_concat(line, rest, 2);
        assert(text.skip(from) =~= whole + (seq!['\n'] + text.skip(end + 1)));
        lemma_encode_concat(whole, seq!['\n'] + text.skip(end + 1));
        lemma_encode_concat(seq!['\n'], text.skip(end + 1));
        is_ascii_chars_encode_utf8(seq!['\n']);
        if line != whole {
            assert(whole =~= line + seq!['\r']);
            lemma_encode_concat(line, seq!['\r']);
            is_ascii_chars_encode_utf8(seq!['\r']);
        }
    }
}

/// Numbered lines have at least three more bytes for each line.
proof fn lemma_numbered_bound(lines: Seq<Seq<char>>, n: int)
    requires
        0 <= n <= lines.len(),
    ensures
        encode_utf8(numbered(lines, 1, n)).len() >= total_bytes(lines.take(n), 3),
    decreases n,
{
    if n > 0 {
        lemma_numbered_bound(lines, n - 1);
        let before = numbered(lines, 1, n - 1);
        let line = numbered_line(lines, n);
        assert(lines.take(n).drop_last() =~= lines.take(n - 1));
        assert(lines.take(n).last() == lines[n - 1]);
        reveal_strlit(": ");
        reveal_strlit("\n");
        lemma_encode_concat(dec(n as nat) + ": "@, lines[n - 1]);
        lemma_encode_concat(dec(n as nat), ": "@);
        lemma_encode_at_least(dec(n as nat));
        lemma_encode_at_least(": "@);
        assert(dec(n as nat).len() >= 1);
        assert(encode_utf8(line).len() >= encode_utf8(lines[n - 1]).len() + 3);
        if before.len() > 0 {
            lemma_encode_concat(before, "\n"@);
            lemma_encode_concat(before + "\n"@, line);
        } else {
            assert(before =~= Seq::<char>::empty());
            assert(encode_utf8(before).len() == 0);
        }
    } else {
        assert(lines.take(0) =~= Seq::<Seq<char>>::empty());
    }
}

/// Refusing a whole file by its size alone is never too strict: the numbered lines of a
/// content are at least as many bytes as the content, so when the size is over budget the
/// numbered lines are over budget as well. The refusal then speaks of the size.
pub proof fn law_size_over_budget_means_read_refused(
    path: Seq<char>,
    content: Seq<char>,
    epoch8: Seq<char>,
    budget: Option<usize>,
)
    requires
        budget_check(path, encode_utf8(content).len(), budget) is Err,
    ensures
        ({
            let lines = lines_of(content);
            let text = numbered(lines, 1, lines.len() as int);
            budget_check(path, encode_utf8(text).len(), budget) is Err
        }),
        path_read(path, content, None, epoch8, budget) == Err::<OutcomeView, ErrorView>(
            budget_check(path, encode_utf8(content).len(), budget)->Err_0,
        ),
{
    let lines = lines_of(content);
    let text = numbered(lines, 1, lines.len() as int);
    lemma_content_bound(content, 0);
    assert(content.skip(0) =~= content);
    lemma_numbered_bound(lines, lines.len() as int);
    assert(lines.take(lines.len() as int) =~= lines);
    lemma_total_extra(lines, 2, 3);
    assert(text_tokens(text) >= tokens(encode_utf8(content).len()));
}

/// A read by symbol name answers only with a symbol of exactly that name, and only when
/// there is one.
pub proof fn law_read_never_serves_a_near_miss(name: Seq<char>, a: AnswerView)
    ensures
        only_symbol(name, a) is Ok <==> !a.fuzzy && a.hits.len() == 1,
{
}

proof fn lemma_numbered_joined(lines: Seq<Seq<char>>, start: int, end: int)
    requires
        1 <= start <= end + 1,
        end <= lines.len(),
    ensures
        numbered(lines, start, end) == joined_with(
            Seq::new((end - start + 1) as nat, |k: int| numbered_line(lines, start + k)),
            "\n"@,
        ),
        end >= start ==> numbered(lines, start, end).len() > 0,
    decreases end - start + 1,
{
    let list = Seq::new((end - start + 1) as nat, |k: int| numbered_line(lines, start + k));
    if end >= start {
        let before = Seq::new((end - start) as nat, |k: int| numbered_line(lines, start + k));
        lemma_numbered_joined(lines, start, end - 1);
        assert(list.drop_last() =~= before);
        assert(list.last() == numbered_line(lines, end));
        reveal_strlit(": ");
        assert(numbered_line(lines, end).len() > 0);
        if end == start {
            assert(before =~= Seq::<Seq<char>>::empty());
            assert(list =~= seq![numbered_line(lines, end)]);
        }
    } else {
        assert(list =~= Seq::<Seq<char>>::empty());
    }
}

/// A read shows exactly the lines asked for, every one of them once, in order, whole and behind
/// its number; an end beyond the last line is the last line, and a start beyond it is not found.
pub proof fn law_a_read_shows_exactly_the_lines_asked_for(
    path: Seq<char>,
    content: Seq<char>,
    range: Option<(nat, nat)>,
    epoch8: Seq<char>,
    budget: Option<usize>,
)
    requires
        range matches Some((a, b)) ==> 1 <= a <= b,
    ensures
        ({
            let lines = lines_of(content);
            let total = lines.len();
            let (a, b) = match range {
                Some((a, b)) => (a as int, if b <= total {
                    b as int
                } else {
                    total as int
                }),
                None => (1int, total as int),
            };
            let text = joined_with(
                Seq::new(
                    (b - a + 1) as nat,
                    |k: int| dec((a + k) as nat) + ": "@ + lines[a + k - 1],
                ),
                "\n"@,
            );
            match path_read(path, content, range, epoch8, budget) {
                Ok(out) => {
                    &&& out.json == no_fields()
                        .with("epoch8"@, JsonView::Text(epoch8))
                        .with("path"@, JsonView::Text(path))
                        .with("start"@, JsonView::Number(a as nat))
                        .with("end"@, JsonView::Number(b as nat))
                        .with("text"@, JsonView::Text(text))
                    &&& out.human == "epoch "@ + epoch8 + " — "@ + path + ":"@ + dec(a as nat)
                        + "-"@ + dec(b as nat) + "\n"@ + if text.len() == 0 {
                        seq![]
                    } else {
                        text + "\n"@
                    }
                    &&& budget matches Some(n) ==> (encode_utf8(text).len() + 3) / 4 <= n
                    &&& out.naive_bytes == Some(encode_utf8(content).len() as u64)
                },
                Err(e) => {
                    ||| e.kind == ErrorKind::NotFound && range is Some && a > total
                    ||| e.kind == ErrorKind::Budget && budget is Some && (encode_utf8(text).len()
                        + 3) / 4 > budget->0
                },
            }
        }),
{
    let lines = lines_of(content);
    let total = lines.len();
    let (a, b) = match range {
        Some((a, b)) => (a as int, if b <= total {
            b as int
        } else {
            total as int
        }),
        None => (1int, total as int),
    };
    if a <= b + 1 {
        lemma_numbered_joined(lines, a, b);
        let list = Seq::new((b - a + 1) as nat, |k: int| numbered_line(lines, a + k));
        assert(list =~= Seq::new(
            (b - a + 1) as nat,
            |k: int| dec((a + k) as nat) + ": "@ + lines[a + k - 1],
        ));
        if range is None && budget_check(path, encode_utf8(content).len(), budget) is Err {
            law_size_over_budget_means_read_refused(path, content, epoch8, budget);
        }
        let text = numbered(lines, a, b);
        let head = "epoch "@ + epoch8 + " — "@ + path + ":"@ + dec(a as nat) + "-"@ + dec(
            b as nat,
        ) + "\n"@;
        if text.len() == 0 {
            assert(head + Seq::<char>::empty() =~= head);
        } else {
            assert(head + (text + "\n"@) =~= head + text + "\n"@);
        }
    }
}

proof fn lemma_last_char(s: Seq<char>, c: char, n: int, at: int)
    requires
        0 <= n <= s.len(),
        -1 <= at < n || n == 0 && at == -1,
        at >= 0 ==> s[at] == c,
        forall|i: int| at < i < n ==> s[i] != c,
    ensures
        last_char(s, c, n) == at,
    decreases n,
{
    if n > 0 && at < n - 1 {
        assert(s[n - 1] != c);
        lemma_last_char(s, c, n - 1, at);
    }
}

proof fn lemma_no_mark(n: nat)
    ensures
        forall|i: int| 0 <= i < dec(n).len() ==> #[trigger] dec(n)[i] != ':' && dec(n)[i] != '-',
{
    law_decimals_spell_the_number(n);
}

/// A range behind a path reads back: whatever the path is, a colon and two numbers behind it
/// are parted from it, as that path and those numbers; and an argument without a colon is a
/// path and nothing else.
pub proof fn law_a_range_behind_a_path_reads_back(path: Seq<char>, a: nat, b: nat)
    requires
        a <= usize::MAX,
        b <= usize::MAX,
    ensures
        path_and_range(path + seq![':'] + dec(a) + seq!['-'] + dec(b)) == (path, Some((a, b))),
        !path.contains(':') ==> path_and_range(path) == (path, None::<(nat, nat)>),
{
    let arg = path + seq![':'] + dec(a) + seq!['-'] + dec(b);
    let range = dec(a) + seq!['-'] + dec(b);
    let at = path.len() as int;
    lemma_no_mark(a);
    lemma_no_mark(b);
    assert(arg =~= path + seq![':'] + range);
    assert forall|i: int| at < i < arg.len() implies arg[i] != ':' by {
        let k = i - at - 1;
        assert(arg[i] == range[k]);
        if k < dec(a).len() {
            assert(range[k] == dec(a)[k]);
        } else if k > dec(a).len() {
            assert(range[k] == dec(b)[k - dec(a).len() - 1]);
        }
    }
    lemma_last_char(arg, ':', arg.len() as int, at);
    assert(arg.skip(at + 1) =~= range);
    assert(arg.take(at) =~= path);
    lemma_find_char(range, '-', 0);
    let m = find_char(range, '-', 0);
    let n = dec(a).len() as int;
    assert(range[n] == '-');
    if m < n {
        assert(range[m] == dec(a)[m]);
    }
    assert(m == n);
    assert(range.take(n) =~= dec(a));
    assert(range.skip(n + 1) =~= dec(b));
    law_numbers_read_back(a, usize::MAX as nat, seq![]);
    law_numbers_read_back(b, usize::MAX as nat, seq![]);
    if !path.contains(':') {
        assert forall|i: int| -1 < i < path.len() implies path[i] != ':' by {
            assert(path.contains(path[i]));
        }
        lemma_last_char(path, ':', path.len() as int, -1);
    }
}

/// A read of a symbol shows exactly the lines of its body, every one of them once, in order,
/// whole and behind its number.
pub proof fn law_a_symbol_is_read_whole(
    hit: SymbolHitView,
    content: Seq<char>,
    epoch8: Seq<char>,
    budget: Option<usize>,
    warnings: Seq<Seq<char>>,
)
    requires
        1 <= hit.symbol.start_line <= hit.symbol.end_line <= lines_of(content).len(),
    ensures
        ({
            let lines = lines_of(content);
            let a = hit.symbol.start_line as int;
            let b = hit.symbol.end_line as int;
            let text = joined_with(
                Seq::new(
                    (b - a + 1) as nat,
                    |k: int| dec((a + k) as nat) + ": "@ + lines[a + k - 1],
                ),
                "\n"@,
            );
            match symbol_read(hit, content, epoch8, budget, warnings) {
                Ok(out) => {
                    &&& out.json == no_fields()
                        .with("epoch8"@, JsonView::Text(epoch8))
                        .with("path"@, JsonView::Text(lossy_text(hit.path)))
                        .with("start"@, JsonView::Number(a as nat))
                        .with("end"@, JsonView::Number(b as nat))
                        .with("text"@, JsonView::Text(text))
                    &&& budget matches Some(n) ==> (encode_utf8(text).len() + 3) / 4 <= n
                    &&& out.naive_bytes == Some(encode_utf8(content).len() as u64)
                },
                Err(e) => e.kind == ErrorKind::Budget && budget is Some && (encode_utf8(text).len()
                    + 3) / 4 > budget->0,
            }
        }),
{
    let lines = lines_of(content);
    let a = hit.symbol.start_line as int;
    let b = hit.symbol.end_line as int;
    lemma_numbered_joined(lines, a, b);
    assert(Seq::new((b - a + 1) as nat, |k: int| numbered_line(lines, a + k)) =~= Seq::new(
        (b - a + 1) as nat,
        |k: int| dec((a + k) as nat) + ": "@ + lines[a + k - 1],
    ));
}

/// A name that several symbols have is refused, however many there are, and the refusal names
/// the place of every one of them; a single one is what is read.
pub proof fn law_an_ambiguous_name_lists_every_symbol(name: Seq<char>, a: AnswerView)
    requires
        !a.fuzzy,
    ensures
        a.hits.len() == 1 ==> only_symbol(name, a) == Ok::<SymbolHitView, ErrorView>(a.hits[0]),
        a.hits.len() >= 2 ==> only_symbol(name, a) == Err::<SymbolHitView, ErrorView>(
            refusal(
                ErrorKind::Ambiguous,
                name + ": "@ + dec(a.hits.len()) + " symbols match: "@ + joined_with(
                    a.hits.map_values(
                        |h: SymbolHitView|
                            lossy_text(h.path) + ":"@ + dec(h.symbol.start_line as nat),
                    ),
                    ", "@,
                ),
            ),
        ),
{
    assert(a.hits.map_values(|h: SymbolHitView| candidate(h, false)) =~= a.hits.map_values(
        |h: SymbolHitView| lossy_text(h.path) + ":"@ + dec(h.symbol.start_line as nat),
    ));
}

} // verus!
