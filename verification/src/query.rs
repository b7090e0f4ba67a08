//! Content and symbol search: what is read, where a match stands, and what a hit shows.

use crate::apply::{FileRead, ReadView};
use crate::errors::{refusal, refusal_next, ErrorKind, ErrorView, VcError, VcResult};
use crate::order::{
    law_rank_order_is_total, law_stable_sort_orders_and_keeps_items, list_less, rank_less,
    ranks_ascend, stable_sort, stable_sorted, views, Rank, RankView, Ranked,
};
use crate::paths::{components, TreePath};
use crate::render::{packed, render_budgeted, Budgeted};
use crate::resolve::{line_at, newline_count, occurs_at, NEWLINE};
use crate::text::{dec, dec_text, lossy, lossy_text, push_dec, slice_copy, utf8_text};
use crate::walk::MAX_SEARCH_FILE_BYTES;
use vstd::prelude::*;
use vstd::string::*;
use vstd::utf8::*;

verus! {

/// How much of a file is looked at to tell whether it is binary.
pub const BINARY_SNIFF_LEN: usize = 8192;

/// The longest stretch of a line that a hit shows, in bytes.
pub const MAX_LINE_TEXT_BYTES: usize = 500;

/// The most hits that one search returns.
pub const MAX_TOTAL_HITS: usize = 100000;

/// The longest UTF-8 sequence.
pub const MAX_UTF8_SEQ_BYTES: usize = 4;

/// One match of a content search.
#[derive(Debug, Clone)]
pub struct QueryHit {
    pub path: TreePath,
    /// 1-based.
    pub line: usize,
    /// 1-based, in bytes.
    pub col: usize,
    /// The line, or the stretch of it around the match.
    pub line_text: String,
}

/// What a [`QueryHit`] says.
pub struct HitView {
    pub path: Seq<u8>,
    pub line: nat,
    pub col: nat,
    pub line_text: Seq<char>,
}

impl View for QueryHit {
    type V = HitView;

    open spec fn view(&self) -> HitView {
        HitView {
            path: self.path@,
            line: self.line as nat,
            col: self.col as nat,
            line_text: self.line_text@,
        }
    }
}

/// Hits sort by path, line and column.
impl Ranked for QueryHit {
    open spec fn rank_at(v: HitView) -> RankView {
        RankView { list: components(v.path), major: v.line, minor: v.col }
    }

    fn rank_of(&self) -> (r: Rank) {
        let r = Rank {
            list: self.path.component_list(),
            major: self.line as u64,
            minor: self.col as u64,
        };
        assert(r@.list == components(self@.path));
        r
    }
}

/// The places below `n` where `b` stands in `bytes`.
pub open spec fn byte_places(bytes: Seq<u8>, b: u8, n: nat) -> Seq<usize>
    decreases n,
{
    if n == 0 {
        seq![]
    } else {
        let before = byte_places(bytes, b, (n - 1) as nat);
        if bytes[n - 1] == b {
            before.push((n - 1) as usize)
        } else {
            before
        }
    }
}

/// The places at or after `from` where `needle` stands in `hay`, each search going on behind
/// the last match.
pub open spec fn scan_from(hay: Seq<u8>, needle: Seq<u8>, from: int) -> Seq<usize>
    decreases hay.len() - from,
    when needle.len() > 0
{
    if from + needle.len() > hay.len() {
        seq![]
    } else if occurs_at(hay, needle, from) {
        seq![from as usize] + scan_from(hay, needle, from + needle.len())
    } else {
        scan_from(hay, needle, from + 1)
    }
}

/// `memchr::memchr_iter`: all places of one byte, ascending.
#[verifier::external_body]
pub(crate) fn find_byte(b: u8, bytes: &[u8]) -> (places: Vec<usize>)
    ensures
        places@ == byte_places(bytes@, b, bytes@.len()),
{
    memchr::memchr_iter(b, bytes).collect()
}

/// `memchr::memmem::find_iter`: the occurrences of a text that is not empty, from the left,
/// without overlaps.
#[verifier::external_body]
pub(crate) fn find_bytes(hay: &[u8], needle: &[u8]) -> (places: Vec<usize>)
    requires
        needle@.len() > 0,
    ensures
        places@ == scan_from(hay@, needle@, 0),
{
    memchr::memmem::find_iter(hay, needle).collect()
}

/// Why a pattern is no regular expression, if it is none.
pub uninterp spec fn regex_fault(pattern: Seq<char>) -> Option<Seq<char>>;

/// The pattern that a compiled regular expression was made from.
pub uninterp spec fn regex_pattern(re: regex::bytes::Regex) -> Seq<char>;

/// Whether a pattern, with `^` and `$` at every line, matches anywhere in some bytes.
pub uninterp spec fn regex_matches(pattern: Seq<char>, hay: Seq<u8>) -> bool;

/// Where the successive matches of a pattern, with `^` and `$` at every line, start.
pub uninterp spec fn regex_starts(pattern: Seq<char>, hay: Seq<u8>) -> Seq<usize>;

/// A compiled regular expression of the `regex` crate.
#[verifier::external_type_specification]
#[verifier::external_body]
pub struct ExRegex(regex::bytes::Regex);

/// No fault.
pub open spec fn faultless() -> Option<Seq<char>> {
    None
}

/// A fault.
pub open spec fn faulty(why: Seq<char>) -> Option<Seq<char>> {
    Some(why)
}

/// `regex::bytes::RegexBuilder` with `multi_line`: the compiled pattern, or the error's own
/// words; which of them, and the words, are a function of the pattern.
#[verifier::external_body]
fn compile_regex(pattern: &str) -> (r: Result<regex::bytes::Regex, String>)
    ensures
        match r {
            Ok(re) => regex_fault(pattern@) == faultless() && regex_pattern(re) == pattern@,
            Err(why) => regex_fault(pattern@) == faulty(why@),
        },
{
    regex::bytes::RegexBuilder::new(pattern).multi_line(true).build().map_err(|e| e.to_string())
}

/// `regex::bytes::Regex::is_match`: a function of the pattern and the bytes.
#[verifier::external_body]
fn regex_is_match(re: &regex::bytes::Regex, hay: &[u8]) -> (yes: bool)
    ensures
        yes == regex_matches(regex_pattern(*re), hay@),
{
    re.is_match(hay)
}

/// `regex::bytes::Regex::find_iter` and `Match::start`: a function of the pattern and the
/// bytes; no match starts behind the end.
#[verifier::external_body]
fn regex_find(re: &regex::bytes::Regex, hay: &[u8]) -> (places: Vec<usize>)
    ensures
        places@ == regex_starts(regex_pattern(*re), hay@),
        forall|i: int| 0 <= i < places@.len() ==> #[trigger] places@[i] <= hay@.len(),
{
    re.find_iter(hay).map(|m| m.start()).collect()
}

/// What opening and reading a file for a content search gave. What comes later was read only
/// when what comes before did not settle it.
#[derive(Debug)]
pub enum Probe {
    /// It could not be opened or examined, for this reason.
    Failed(String),
    /// It has `len` bytes; `head` are the first bytes (at most the sniffed ones) and `rest`
    /// those behind them.
    Opened { len: u64, head: FileRead, rest: FileRead },
}

/// What a [`Probe`] says.
pub enum ProbeView {
    Failed(Seq<char>),
    Opened { len: u64, head: ReadView, rest: ReadView },
}

impl View for Probe {
    type V = ProbeView;

    open spec fn view(&self) -> ProbeView {
        match self {
            Probe::Failed(why) => ProbeView::Failed(why@),
            Probe::Opened { len, head, rest } => ProbeView::Opened {
                len: *len,
                head: head@,
                rest: rest@,
            },
        }
    }
}

/// What a search makes of a file: nothing, perhaps with a warning, or its contents.
pub enum Admission {
    Skipped(Option<Seq<char>>),
    Contents(Seq<u8>),
}

/// The warning for a file that was skipped for a reason.
pub open spec fn skip_line(path: Seq<u8>, why: Seq<char>) -> Seq<char> {
    lossy_text(path) + ": skipped — "@ + why
}

/// The reason for skipping a file that is too large.
pub open spec fn too_large(len: u64) -> Seq<char> {
    dec(len as nat) + " bytes exceeds the "@ + dec(MAX_SEARCH_FILE_BYTES as nat)
        + "-byte size limit"@
}

/// The reason for skipping a file that grew too large while it was read.
pub open spec fn grown_too_large() -> Seq<char> {
    "grew past the "@ + dec(MAX_SEARCH_FILE_BYTES as nat) + "-byte size limit while being read"@
}

/// The first bytes of a file, which tell whether it is a binary one.
pub open spec fn sniffed(bytes: Seq<u8>) -> Seq<u8> {
    if bytes.len() > BINARY_SNIFF_LEN {
        bytes.take(BINARY_SNIFF_LEN as int)
    } else {
        bytes
    }
}

/// The bytes that were read of a file.
pub open spec fn read_so_far(head: Seq<u8>, rest: ReadView) -> Seq<u8> {
    match rest {
        ReadView::Bytes(r) => head + r,
        ReadView::Failed(_) => head,
    }
}

/// What a content search makes of a file: one that is too large or cannot be read is skipped
/// with a warning, a binary one, with a zero among its first bytes, silently.
pub open spec fn admission(path: Seq<u8>, probe: ProbeView) -> Admission {
    match probe {
        ProbeView::Failed(why) => Admission::Skipped(Some(skip_line(path, why))),
        ProbeView::Opened { len, head, rest } => if len > MAX_SEARCH_FILE_BYTES {
            Admission::Skipped(Some(skip_line(path, too_large(len))))
        } else {
            match head {
                ReadView::Failed(why) => Admission::Skipped(Some(skip_line(path, why))),
                ReadView::Bytes(h) => if sniffed(read_so_far(h, rest)).contains(0u8) {
                    Admission::Skipped(None)
                } else {
                    match rest {
                        ReadView::Failed(why) => Admission::Skipped(
                            Some(skip_line(path, why)),
                        ),
                        ReadView::Bytes(r) => if (h + r).len() > MAX_SEARCH_FILE_BYTES {
                            Admission::Skipped(Some(skip_line(path, grown_too_large())))
                        } else {
                            Admission::Contents(h + r)
                        },
                    }
                },
            }
        },
    }
}

/// A file is skipped without a word only when it is binary.
pub proof fn law_only_binary_files_are_skipped_silently(path: Seq<u8>, probe: ProbeView)
    ensures
        admission(path, probe) == Admission::Skipped(None) ==> (probe matches ProbeView::Opened {
            len,
            head: ReadView::Bytes(h),
            rest,
        } && len <= MAX_SEARCH_FILE_BYTES && sniffed(read_so_far(h, rest)).contains(0u8)),
{
}

/// Whether a file of this size is too large to search.
pub fn is_oversize(len: u64) -> (yes: bool)
    ensures
        yes == (len > MAX_SEARCH_FILE_BYTES),
{
    len > MAX_SEARCH_FILE_BYTES
}

/// Whether the first bytes of a file make it a binary one: a zero byte is among them.
pub fn is_binary(bytes: &[u8]) -> (yes: bool)
    ensures
        yes == sniffed(bytes@).contains(0u8),
{
    let n: usize = if bytes.len() > BINARY_SNIFF_LEN {
        BINARY_SNIFF_LEN
    } else {
        bytes.len()
    };
    assert(sniffed(bytes@) =~= bytes@.take(n as int));
    let mut i: usize = 0;
    while i < n
        invariant
            i <= n <= bytes.len(),
            sniffed(bytes@) == bytes@.take(n as int),
            forall|k: int| 0 <= k < i ==> #[trigger] bytes@[k] != 0u8,
        decreases n - i,
    {
        if bytes[i] == 0 {
            assert(sniffed(bytes@)[i as int] == 0u8);
            return true;
        }
        i = i + 1;
    }
    false
}

fn skip_text(path: &TreePath, why: &str) -> (line: String)
    ensures
        line@ == skip_line(path@, why@),
{
    let mut line: String = path.display();
    line.append(": skipped — ");
    line.append(why);
    line
}

fn too_large_text(len: u64) -> (s: String)
    ensures
        s@ == too_large(len),
{
    let mut s: String = dec_text(len);
    s.append(" bytes exceeds the ");
    push_dec(&mut s, MAX_SEARCH_FILE_BYTES);
    s.append("-byte size limit");
    s
}

fn grown_text() -> (s: String)
    ensures
        s@ == grown_too_large(),
{
    let mut s: String = "grew past the ".to_owned();
    push_dec(&mut s, MAX_SEARCH_FILE_BYTES);
    s.append("-byte size limit while being read");
    s
}

/// Decides what a content search makes of a file: its contents, or a skip with or without a
/// warning.
pub fn read_for_search(path: &TreePath, probe: &Probe) -> (r: Result<Vec<u8>, Option<String>>)
    ensures
        match (admission(path@, probe@), r) {
            (Admission::Contents(c), Ok(bytes)) => bytes@ == c,
            (Admission::Skipped(w), Err(line)) => crate::errors::opt_text(line) == w,
            _ => false,
        },
{
    match probe {
        Probe::Failed(why) => Err(Some(skip_text(path, why.as_str()))),
        Probe::Opened { len, head, rest } => {
            if is_oversize(*len) {
                return Err(Some(skip_text(path, too_large_text(*len).as_str())));
            }
            match head {
                FileRead::Failed(why) => Err(Some(skip_text(path, why.as_str()))),
                FileRead::Bytes(h) => {
                    let mut bytes: Vec<u8> = slice_copy(h.as_slice(), 0, h.len());
                    assert(bytes@ =~= h@);
                    match rest {
                        FileRead::Failed(why) => {
                            if is_binary(bytes.as_slice()) {
                                return Err(None);
                            }
                            Err(Some(skip_text(path, why.as_str())))
                        },
                        FileRead::Bytes(r) => {
                            bytes.extend_from_slice(r.as_slice());
                            assert(bytes@ =~= h@ + r@);
                            if is_binary(bytes.as_slice()) {
                                return Err(None);
                            }
                            if bytes.len() as u64 > MAX_SEARCH_FILE_BYTES {
                                Err(Some(skip_text(path, grown_text().as_str())))
                            } else {
                                Ok(bytes)
                            }
                        },
                    }
                },
            }
        },
    }
}

/// What opening and reading a source file for a symbol search gave.
#[derive(Debug)]
pub enum SourceProbe {
    Failed(String),
    Opened { len: u64, bytes: FileRead },
}

/// What a [`SourceProbe`] says.
pub enum SourceProbeView {
    Failed(Seq<char>),
    Opened { len: u64, bytes: ReadView },
}

impl View for SourceProbe {
    type V = SourceProbeView;

    open spec fn view(&self) -> SourceProbeView {
        match self {
            SourceProbe::Failed(why) => SourceProbeView::Failed(why@),
            SourceProbe::Opened { len, bytes } => SourceProbeView::Opened {
                len: *len,
                bytes: bytes@,
            },
        }
    }
}

/// The source of a file for a symbol search, or the warning with which it is skipped.
pub open spec fn capped_source(path: Seq<u8>, probe: SourceProbeView) -> Result<
    Seq<char>,
    Seq<char>,
> {
    match probe {
        SourceProbeView::Failed(why) => Err(skip_line(path, why)),
        SourceProbeView::Opened { len, bytes } => if len > MAX_SEARCH_FILE_BYTES {
            Err(skip_line(path, too_large(len)))
        } else {
            match bytes {
                ReadView::Failed(why) => Err(skip_line(path, why)),
                ReadView::Bytes(b) => if b.len() > MAX_SEARCH_FILE_BYTES {
                    Err(skip_line(path, grown_too_large()))
                } else if !valid_utf8(b) {
                    Err(skip_line(path, "not valid utf-8"@))
                } else {
                    Ok(decode_utf8(b))
                },
            }
        },
    }
}

/// Decides what a symbol search makes of a file: its source, or the warning with which it is
/// skipped. A file is never parsed in part.
pub fn read_capped_source(path: &TreePath, probe: &SourceProbe) -> (r: Result<String, String>)
    ensures
        match (capped_source(path@, probe@), r) {
            (Ok(s), Ok(t)) => t@ == s,
            (Err(w), Err(line)) => line@ == w,
            _ => false,
        },
{
    match probe {
        SourceProbe::Failed(why) => Err(skip_text(path, why.as_str())),
        SourceProbe::Opened { len, bytes } => {
            if is_oversize(*len) {
                return Err(skip_text(path, too_large_text(*len).as_str()));
            }
            match bytes {
                FileRead::Failed(why) => Err(skip_text(path, why.as_str())),
                FileRead::Bytes(b) => {
                    if b.len() as u64 > MAX_SEARCH_FILE_BYTES {
                        return Err(skip_text(path, grown_text().as_str()));
                    }
                    let copy = slice_copy(b.as_slice(), 0, b.len());
                    assert(copy@ =~= b@);
                    match utf8_text(copy) {
                        Some(t) => Ok(t),
                        None => Err(skip_text(path, "not valid utf-8")),
                    }
                },
            }
        },
    }
}

/// Whether a byte starts a UTF-8 sequence: it does not continue one.
pub open spec fn starts_sequence(b: u8) -> bool {
    b < 128 || b >= 192
}

/// Whether a byte starts a UTF-8 sequence.
pub fn is_utf8_boundary(b: u8) -> (yes: bool)
    ensures
        yes == starts_sequence(b),
{
    b < 128 || b >= 192
}

/// The first place from `i` on, within four of `start` and before `end`, where a sequence
/// starts; `start` when there is none.
pub open spec fn nudged_start(line: Seq<u8>, start: int, end: int, i: int) -> int
    decreases end - i,
{
    if i < end && i - start < MAX_UTF8_SEQ_BYTES {
        if starts_sequence(line[i]) {
            i
        } else {
            nudged_start(line, start, end, i + 1)
        }
    } else {
        start
    }
}

/// The last place from `i` down, within four of `end` and above `start`, that is the end of
/// the line or where a sequence starts; `end` when there is none.
pub open spec fn nudged_end(line: Seq<u8>, start: int, end: int, i: int) -> int
    decreases i - start,
{
    if i > start && end - i < MAX_UTF8_SEQ_BYTES {
        if i == line.len() || starts_sequence(line[i]) {
            i
        } else {
            nudged_end(line, start, end, i - 1)
        }
    } else {
        end
    }
}

/// Moves the front of a window to where a sequence starts.
pub fn nudge_start(line: &[u8], start: usize, end: usize) -> (at: usize)
    requires
        start <= end <= line@.len(),
    ensures
        at == nudged_start(line@, start as int, end as int, start as int),
{
    let mut i: usize = start;
    while i < end && i - start < MAX_UTF8_SEQ_BYTES
        invariant
            start <= i <= end <= line@.len(),
            nudged_start(line@, start as int, end as int, start as int) == nudged_start(
                line@,
                start as int,
                end as int,
                i as int,
            ),
        decreases end - i,
    {
        if is_utf8_boundary(line[i]) {
            return i;
        }
        i = i + 1;
    }
    start
}

/// Moves the end of a window to where a sequence starts, or to the end of the line.
pub fn nudge_end(line: &[u8], start: usize, end: usize) -> (at: usize)
    requires
        start <= end <= line@.len(),
    ensures
        at == nudged_end(line@, start as int, end as int, end as int),
{
    let mut i: usize = end;
    while i > start && end - i < MAX_UTF8_SEQ_BYTES
        invariant
            start <= i <= end <= line@.len(),
            nudged_end(line@, start as int, end as int, end as int) == nudged_end(
                line@,
                start as int,
                end as int,
                i as int,
            ),
        decreases i,
    {
        if i == line.len() || is_utf8_boundary(line[i]) {
            return i;
        }
        i = i - 1;
    }
    end
}

/// The stretch of a line that is shown for a match at `off`: its bounds, and whether it is
/// less than the line. A long line is shown as a window around the match.
pub open spec fn window(line: Seq<u8>, off: int) -> (int, int, bool) {
    if line.len() <= MAX_LINE_TEXT_BYTES {
        (0, line.len() as int, false)
    } else {
        let first = if off >= 250 {
            off - 250
        } else {
            0
        };
        let end = if first + 500 <= line.len() {
            first + 500
        } else {
            line.len() as int
        };
        let start = nudged_start(line, end - 500, end, end - 500);
        (start, nudged_end(line, start, end, end), true)
    }
}

proof fn lemma_nudged_start(line: Seq<u8>, start: int, end: int, i: int)
    requires
        0 <= start <= i <= end <= line.len(),
    ensures
        start <= nudged_start(line, start, end, i) <= end,
        nudged_start(line, start, end, i) <= start + 3,
    decreases end - i,
{
    if i < end && i - start < MAX_UTF8_SEQ_BYTES && !starts_sequence(line[i]) {
        lemma_nudged_start(line, start, end, i + 1);
    }
}

proof fn lemma_nudged_end(line: Seq<u8>, start: int, end: int, i: int)
    requires
        0 <= start <= i <= end <= line.len(),
    ensures
        start <= nudged_end(line, start, end, i) <= end,
        nudged_end(line, start, end, i) >= end - 3,
    decreases i - start,
{
    if i > start && end - i < MAX_UTF8_SEQ_BYTES && !(i == line.len() || starts_sequence(
        line[i],
    )) {
        lemma_nudged_end(line, start, end, i - 1);
    }
}

/// What is shown of a line is never more than the limit and never nothing, and the match is
/// in it: the window starts at or before the match (at most three bytes into the line when
/// the match is at its very front) and ends behind it.
pub proof fn law_window_is_bounded_and_shows_the_match(line: Seq<u8>, off: int)
    requires
        0 <= off <= line.len(),
    ensures
        ({
            let (start, end, cut) = window(line, off);
            &&& 0 <= start <= end <= line.len()
            &&& end - start <= MAX_LINE_TEXT_BYTES
            &&& cut == (line.len() > MAX_LINE_TEXT_BYTES)
            &&& cut ==> end - start >= MAX_LINE_TEXT_BYTES - 6
            &&& start <= off || (off < 3 && start <= 3)
            &&& off <= end
            &&& off < line.len() ==> off < end
        }),
{
    if line.len() > MAX_LINE_TEXT_BYTES {
        let first = if off >= 250 {
            off - 250
        } else {
            0
        };
        let end = if first + 500 <= line.len() {
            first + 500
        } else {
            line.len() as int
        };
        lemma_nudged_start(line, end - 500, end, end - 500);
        let start = nudged_start(line, end - 500, end, end - 500);
        lemma_nudged_end(line, start, end, end);
    }
}

/// The stretch of a line that is shown for a match at `match_off`, and whether it is less
/// than the line.
pub fn clamp_line_window(line: &[u8], match_off: usize) -> (r: (Vec<u8>, bool))
    ensures
        ({
            let (start, end, cut) = window(line@, match_off as int);
            r.0@ == line@.subrange(start, end) && r.1 == cut
        }),
{
    if line.len() <= MAX_LINE_TEXT_BYTES {
        return (slice_copy(line, 0, line.len()), false);
    }
    let half: usize = MAX_LINE_TEXT_BYTES / 2;
    let first: usize = if match_off >= half {
        match_off - half
    } else {
        0
    };
    let end: usize = if first <= line.len() && MAX_LINE_TEXT_BYTES <= line.len() - first {
        first + MAX_LINE_TEXT_BYTES
    } else {
        line.len()
    };
    let back: usize = end - MAX_LINE_TEXT_BYTES;
    proof {
        lemma_nudged_start(line@, back as int, end as int, back as int);
    }
    let start = nudge_start(line, back, end);
    proof {
        lemma_nudged_end(line@, start as int, end as int, end as int);
    }
    let stop = nudge_end(line, start, end);
    (slice_copy(line, start, stop), true)
}

/// Where the line of byte `pos` starts.
pub open spec fn line_start(bytes: Seq<u8>, pos: int) -> int
    decreases pos,
{
    if pos <= 0 {
        0
    } else if bytes[pos - 1] == NEWLINE {
        pos
    } else {
        line_start(bytes, pos - 1)
    }
}

/// Where the line of byte `pos` ends.
pub open spec fn line_end(bytes: Seq<u8>, pos: int) -> int
    decreases bytes.len() - pos,
{
    if pos >= bytes.len() {
        bytes.len() as int
    } else if bytes[pos] == NEWLINE {
        pos
    } else {
        line_end(bytes, pos + 1)
    }
}

/// The text that is shown for a match at `off` of a line.
pub open spec fn shown_text(line: Seq<u8>, off: int) -> Seq<char> {
    let (start, end, cut) = window(line, off);
    let text = lossy_text(line.subrange(start, end));
    if cut {
        text + "…"@
    } else {
        text
    }
}

/// A place that is not behind the end: `pos`, or the end.
pub open spec fn within(bytes: Seq<u8>, pos: int) -> int {
    if pos <= bytes.len() {
        pos
    } else {
        bytes.len() as int
    }
}

/// The hit of a match at `pos`.
pub open spec fn hit_at(path: Seq<u8>, bytes: Seq<u8>, pos: int) -> HitView {
    let at = within(bytes, pos);
    let start = line_start(bytes, at);
    HitView {
        path,
        line: line_at(bytes, at),
        col: (pos - start + 1) as nat,
        line_text: shown_text(
            bytes.subrange(start, line_end(bytes, at)),
            pos - start,
        ),
    }
}

proof fn lemma_line_start(bytes: Seq<u8>, pos: int)
    requires
        0 <= pos <= bytes.len(),
    ensures
        0 <= line_start(bytes, pos) <= pos,
        line_start(bytes, pos) > 0 ==> bytes[line_start(bytes, pos) - 1] == NEWLINE,
        forall|k: int| line_start(bytes, pos) <= k < pos ==> bytes[k] != NEWLINE,
    decreases pos,
{
    if pos > 0 && bytes[pos - 1] != NEWLINE {
        lemma_line_start(bytes, pos - 1);
    }
}

proof fn lemma_line_end(bytes: Seq<u8>, pos: int)
    requires
        0 <= pos <= bytes.len(),
    ensures
        pos <= line_end(bytes, pos) <= bytes.len(),
        line_end(bytes, pos) < bytes.len() ==> bytes[line_end(bytes, pos)] == NEWLINE,
        forall|k: int| pos <= k < line_end(bytes, pos) ==> bytes[k] != NEWLINE,
    decreases bytes.len() - pos,
{
    if pos < bytes.len() && bytes[pos] != NEWLINE {
        lemma_line_end(bytes, pos + 1);
    }
}

/// The places of a byte are ascending, and each holds the byte.
proof fn lemma_byte_places(bytes: Seq<u8>, b: u8, n: nat)
    requires
        n <= bytes.len() <= usize::MAX,
    ensures
        forall|i: int|
            0 <= i < byte_places(bytes, b, n).len() ==> (#[trigger] byte_places(bytes, b, n)[i])
                < n && bytes[byte_places(bytes, b, n)[i] as int] == b,
        forall|i: int, j: int|
            0 <= i < j < byte_places(bytes, b, n).len() ==> byte_places(bytes, b, n)[i]
                < byte_places(bytes, b, n)[j],
        byte_places(bytes, b, n).len() <= n,
    decreases n,
{
    if n > 0 {
        lemma_byte_places(bytes, b, (n - 1) as nat);
    }
}

/// As many places of the line feed lie below `pos` as line feeds stand before it.
proof fn lemma_places_count(bytes: Seq<u8>, n: nat)
    requires
        n <= bytes.len(),
    ensures
        byte_places(bytes, NEWLINE, n).len() == newline_count(bytes.take(n as int)),
    decreases n,
{
    if n > 0 {
        lemma_places_count(bytes, (n - 1) as nat);
        assert(bytes.take(n as int).drop_last() =~= bytes.take(n - 1));
    } else {
        assert(bytes.take(0).len() == 0);
    }
}

/// The places below a smaller bound are the first of those below a larger one.
proof fn lemma_places_prefix(bytes: Seq<u8>, b: u8, n: nat, m: nat)
    requires
        n <= m <= bytes.len() <= usize::MAX,
    ensures
        byte_places(bytes, b, n).len() <= byte_places(bytes, b, m).len(),
        byte_places(bytes, b, m).take(byte_places(bytes, b, n).len() as int) == byte_places(
            bytes,
            b,
            n,
        ),
        byte_places(bytes, b, n).len() < byte_places(bytes, b, m).len() ==> byte_places(
            bytes,
            b,
            m,
        )[byte_places(bytes, b, n).len() as int] >= n,
    decreases m,
{
    let small = byte_places(bytes, b, n);
    if n < m {
        lemma_places_prefix(bytes, b, n, (m - 1) as nat);
        let big = byte_places(bytes, b, (m - 1) as nat);
        if bytes[m - 1] == b {
            let bigger = big.push((m - 1) as usize);
            assert(bigger.take(small.len() as int) =~= big.take(small.len() as int));
        }
    } else {
        assert(small.take(small.len() as int) =~= small);
    }
}

/// The number of places below `pos`.
fn places_below(places: &Vec<usize>, pos: usize) -> (n: usize)
    requires
        forall|i: int, j: int| 0 <= i < j < places@.len() ==> places@[i] < places@[j],
    ensures
        n <= places@.len(),
        forall|i: int| 0 <= i < n ==> places@[i] < pos,
        forall|i: int| n <= i < places@.len() ==> places@[i] >= pos,
{
    let mut low: usize = 0;
    let mut high: usize = places.len();
    while low < high
        invariant
            low <= high <= places@.len(),
            forall|i: int, j: int| 0 <= i < j < places@.len() ==> places@[i] < places@[j],
            forall|i: int| 0 <= i < low ==> places@[i] < pos,
            forall|i: int| high <= i < places@.len() ==> places@[i] >= pos,
        decreases high - low,
    {
        let mid: usize = low + (high - low) / 2;
        if places[mid] < pos {
            low = mid + 1;
        } else {
            high = mid;
        }
    }
    low
}

/// Where byte `pos` stands: its line, its column in bytes, and what is shown of the line.
/// `newlines` are the places of the line feeds.
pub fn locate(bytes: &[u8], newlines: &Vec<usize>, pos: usize) -> (r: (usize, usize, String))
    requires
        newlines@ == byte_places(bytes@, NEWLINE, bytes@.len()),
        pos < usize::MAX,
        bytes@.len() < usize::MAX,
    ensures
        r.0 == hit_at(seq![], bytes@, pos as int).line,
        r.1 == hit_at(seq![], bytes@, pos as int).col,
        r.2@ == hit_at(seq![], bytes@, pos as int).line_text,
{
    let total: usize = bytes.len();
    let ghost at = within(bytes@, pos as int);
    proof {
        lemma_byte_places(bytes@, NEWLINE, total as nat);
        lemma_byte_places(bytes@, NEWLINE, at as nat);
        lemma_places_prefix(bytes@, NEWLINE, at as nat, total as nat);
        lemma_places_count(bytes@, at as nat);
        lemma_line_start(bytes@, at);
        lemma_line_end(bytes@, at);
    }
    let idx = places_below(newlines, pos);
    let ghost below = byte_places(bytes@, NEWLINE, at as nat);
    proof {
        let all = newlines@;
        assert(all.take(below.len() as int) == below);
        if idx < below.len() {
            assert(all.take(below.len() as int)[idx as int] == all[idx as int]);
            assert(below[idx as int] < at);
        }
        if idx > below.len() {
            assert(all[below.len() as int] >= at);
        }
        assert(idx == below.len());
    }
    let start: usize = if idx == 0 {
        0
    } else {
        newlines[idx - 1] + 1
    };
    let end: usize = if idx < newlines.len() {
        newlines[idx]
    } else {
        total
    };
    proof {
        let all = newlines@;
        let ls = line_start(bytes@, at);
        let le = line_end(bytes@, at);
        if idx > 0 {
            assert(bytes@[all[idx - 1] as int] == NEWLINE);
            assert(all[idx - 1] < pos);
            assert(ls >= all[idx - 1] + 1);
            if ls > all[idx - 1] + 1 {
                lemma_place_exists(bytes@, total as nat, ls - 1);
                let k = choose|k: int| 0 <= k < all.len() && #[trigger] all[k] == ls - 1;
                assert(k < idx);
                assert(all[k] <= all[idx - 1]);
            }
        } else if ls > 0 {
            lemma_place_exists(bytes@, total as nat, ls - 1);
            let k = choose|k: int| 0 <= k < all.len() && #[trigger] all[k] == ls - 1;
            assert(all[k] >= pos);
        }
        assert(start == ls);
        if idx < all.len() {
            assert(bytes@[all[idx as int] as int] == NEWLINE);
            assert(all[idx as int] >= pos);
            assert(le <= all[idx as int]);
            if le < all[idx as int] {
                lemma_place_exists(bytes@, total as nat, le);
                let k = choose|k: int| 0 <= k < all.len() && #[trigger] all[k] == le;
                assert(k >= idx);
            }
        } else if le < total {
            lemma_place_exists(bytes@, total as nat, le);
            let k = choose|k: int| 0 <= k < all.len() && #[trigger] all[k] == le;
            assert(all[k] < pos);
        }
        assert(end == le);
    }
    let line = slice_copy(bytes, start, end);
    let (shown, cut) = clamp_line_window(line.as_slice(), pos - start);
    let mut text = lossy(shown.as_slice());
    if cut {
        text.append("…");
    }
    (idx + 1, pos - start + 1, text)
}

/// Every line feed has a place in the list.
proof fn lemma_place_exists(bytes: Seq<u8>, n: nat, at: int)
    requires
        n <= bytes.len() <= usize::MAX,
        0 <= at < n,
        bytes[at] == NEWLINE,
    ensures
        exists|k: int|
            0 <= k < byte_places(bytes, NEWLINE, n).len() && #[trigger] byte_places(
                bytes,
                NEWLINE,
                n,
            )[k] == at,
    decreases n,
{
    let places = byte_places(bytes, NEWLINE, n);
    if at == n - 1 {
        assert(places[places.len() - 1] == at);
    } else {
        lemma_place_exists(bytes, (n - 1) as nat, at);
        let before = byte_places(bytes, NEWLINE, (n - 1) as nat);
        let k = choose|k: int| 0 <= k < before.len() && #[trigger] before[k] == at;
        assert(places[k] == before[k]);
    }
}

/// Hits and warnings of a search.
#[derive(Debug, Clone)]
pub struct Found {
    pub hits: Vec<QueryHit>,
    pub warnings: Vec<String>,
}

/// What [`Found`] says.
pub struct FoundView {
    pub hits: Seq<HitView>,
    pub warnings: Seq<Seq<char>>,
}

impl View for Found {
    type V = FoundView;

    open spec fn view(&self) -> FoundView {
        FoundView { hits: views(self.hits@), warnings: views(self.warnings@) }
    }
}

/// The refusal of a search with more than `cap` hits.
pub open spec fn too_many_hits(cap: usize) -> ErrorView {
    refusal_next(
        ErrorKind::Usage,
        "too many hits (>"@ + dec(cap as nat) + ")"@,
        "narrow the pattern, or pass a scope path: vc query <pattern> <paths…>"@,
    )
}

/// Refuses a search with more than `cap` hits.
pub fn refuse_if_over_hit_cap(n: usize, cap: usize) -> (r: VcResult<()>)
    ensures
        match r {
            Ok(_) => n <= cap,
            Err(e) => n > cap && e@ == too_many_hits(cap),
        },
{
    if n > cap {
        let mut m: String = "too many hits (>".to_owned();
        push_dec(&mut m, cap as u64);
        m.append(")");
        return Err(
            VcError::new(ErrorKind::Usage, m).with_next(
                "narrow the pattern, or pass a scope path: vc query <pattern> <paths…>".to_owned(),
            ),
        );
    }
    Ok(())
}

/// The hits of the matches at `places` from `i` on, added to `hits`; refused as soon as there
/// are more than `cap`.
pub open spec fn hits_from(
    path: Seq<u8>,
    bytes: Seq<u8>,
    places: Seq<usize>,
    cap: usize,
    i: int,
    hits: Seq<HitView>,
) -> Result<Seq<HitView>, ErrorView>
    decreases places.len() - i,
{
    if i >= places.len() {
        Ok(hits)
    } else {
        let next = hits.push(hit_at(path, bytes, places[i] as int));
        if next.len() > cap {
            Err(too_many_hits(cap))
        } else {
            hits_from(path, bytes, places, cap, i + 1, next)
        }
    }
}

fn add_hits(
    hits: Vec<QueryHit>,
    path: &TreePath,
    bytes: &Vec<u8>,
    places: &Vec<usize>,
    cap: usize,
) -> (r: VcResult<Vec<QueryHit>>)
    requires
        bytes@.len() <= MAX_SEARCH_FILE_BYTES,
        forall|i: int| 0 <= i < places@.len() ==> #[trigger] places@[i] <= bytes@.len(),
    ensures
        match (hits_from(path@, bytes@, places@, cap, 0, views(hits@)), r) {
            (Ok(h), Ok(out)) => views(out@) == h,
            (Err(e), Err(f)) => f@ == e,
            _ => false,
        },
{
    let ghost whole = hits_from(path@, bytes@, places@, cap, 0, views(hits@));
    let newlines = find_byte(NEWLINE, bytes.as_slice());
    let mut out = hits;
    let mut i: usize = 0;
    let size: usize = bytes.len();
    while i < places.len()
        invariant
            i <= places.len(),
            size == bytes@.len(),
            bytes@.len() <= MAX_SEARCH_FILE_BYTES,
            newlines@ == byte_places(bytes@, NEWLINE, bytes@.len()),
            forall|k: int| 0 <= k < places@.len() ==> #[trigger] places@[k] <= bytes@.len(),
            whole == hits_from(path@, bytes@, places@, cap, 0, views(hits@)),
            whole == hits_from(path@, bytes@, places@, cap, i as int, views(out@)),
        decreases places.len() - i,
    {
        let ghost before = views(out@);
        assert(places@[i as int] <= bytes@.len());
        assert(bytes@.len() < usize::MAX) by {
            assert(MAX_SEARCH_FILE_BYTES < 4294967295);
        }
        let (line, col, line_text) = locate(bytes.as_slice(), &newlines, places[i]);
        let hit = QueryHit { path: path.copy(), line, col, line_text };
        out.push(hit);
        proof {
            assert(hit@ == hit_at(path@, bytes@, places@[i as int] as int));
            assert(views(out@) =~= before.push(hit@));
        }
        match refuse_if_over_hit_cap(out.len(), cap) {
            Ok(_) => {},
            Err(e) => {
                return Err(e);
            },
        }
        i = i + 1;
    }
    Ok(out)
}

/// What to look for in a file.
pub enum Needle {
    Literal(Seq<u8>),
    Pattern(Seq<char>),
}

/// Where a needle stands in some bytes.
pub open spec fn places_of(needle: Needle, bytes: Seq<u8>) -> Seq<usize> {
    match needle {
        Needle::Literal(n) => scan_from(bytes, n, 0),
        Needle::Pattern(p) => regex_starts(p, bytes),
    }
}

/// A search after one more file.
pub open spec fn after_file(
    found: FoundView,
    needle: Needle,
    path: Seq<u8>,
    probe: ProbeView,
    cap: usize,
) -> Result<FoundView, ErrorView> {
    match admission(path, probe) {
        Admission::Skipped(None) => Ok(found),
        Admission::Skipped(Some(w)) => Ok(
            FoundView { warnings: found.warnings.push(w), ..found },
        ),
        Admission::Contents(bytes) => match hits_from(
            path,
            bytes,
            places_of(needle, bytes),
            cap,
            0,
            found.hits,
        ) {
            Err(e) => Err(e),
            Ok(hits) => Ok(FoundView { hits, ..found }),
        },
    }
}

/// A search over some files, and where each stands.
#[derive(Debug)]
pub struct Candidate {
    pub path: TreePath,
    pub probe: Probe,
}

/// What a [`Candidate`] says.
pub struct CandidateView {
    pub path: Seq<u8>,
    pub probe: ProbeView,
}

impl View for Candidate {
    type V = CandidateView;

    open spec fn view(&self) -> CandidateView {
        CandidateView { path: self.path@, probe: self.probe@ }
    }
}

/// A search over the files from `i` on, added to `found`.
pub open spec fn searched_from(
    needle: Needle,
    files: Seq<CandidateView>,
    cap: usize,
    i: int,
    found: FoundView,
) -> Result<FoundView, ErrorView>
    decreases files.len() - i,
{
    if i >= files.len() {
        Ok(found)
    } else {
        match after_file(found, needle, files[i].path, files[i].probe, cap) {
            Err(e) => Err(e),
            Ok(next) => searched_from(needle, files, cap, i + 1, next),
        }
    }
}

/// What a search over some files finds: its hits by path, line and column.
pub open spec fn searched(needle: Needle, files: Seq<CandidateView>, cap: usize) -> Result<
    FoundView,
    ErrorView,
> {
    match searched_from(
        needle,
        files,
        cap,
        0,
        FoundView { hits: seq![], warnings: seq![] },
    ) {
        Err(e) => Err(e),
        Ok(f) => Ok(FoundView { hits: stable_sorted::<QueryHit>(f.hits), ..f }),
    }
}

/// Nothing found.
pub fn nothing_found() -> (f: Found)
    ensures
        f@ == (FoundView { hits: seq![], warnings: seq![] }),
{
    let f = Found { hits: Vec::new(), warnings: Vec::new() };
    assert(f@.hits =~= Seq::<HitView>::empty());
    assert(f@.warnings =~= Seq::<Seq<char>>::empty());
    f
}

/// Puts the hits of a finished search in order.
pub fn sort_hits(hits: Vec<QueryHit>) -> (sorted: Vec<QueryHit>)
    ensures
        views(sorted@) == stable_sorted::<QueryHit>(views(hits@)),
{
    stable_sort(hits)
}

proof fn lemma_scan_in_range(hay: Seq<u8>, needle: Seq<u8>, from: int)
    requires
        needle.len() > 0,
        0 <= from,
        hay.len() <= usize::MAX,
    ensures
        forall|i: int|
            0 <= i < scan_from(hay, needle, from).len() ==> #[trigger] scan_from(
                hay,
                needle,
                from,
            )[i] <= hay.len(),
    decreases hay.len() - from,
{
    if from + needle.len() <= hay.len() {
        if occurs_at(hay, needle, from) {
            lemma_scan_in_range(hay, needle, from + needle.len());
            let tail = scan_from(hay, needle, from + needle.len());
            let all = seq![from as usize] + tail;
            assert(scan_from(hay, needle, from) == all);
            assert forall|i: int| 0 <= i < all.len() implies #[trigger] all[i] <= hay.len() by {
                if i > 0 {
                    assert(all[i] == tail[i - 1]);
                }
            }
        } else {
            lemma_scan_in_range(hay, needle, from + 1);
            assert(scan_from(hay, needle, from) == scan_from(hay, needle, from + 1));
        }
    } else {
        assert(scan_from(hay, needle, from) == Seq::<usize>::empty());
    }
}

/// Takes one more file into a literal search. The needle is not empty.
pub fn scan_literal(found: Found, needle: &str, path: &TreePath, probe: &Probe, cap: usize) -> (r:
    VcResult<Found>)
    requires
        needle@.len() > 0,
    ensures
        match (
            after_file(found@, Needle::Literal(encode_utf8(needle@)), path@, probe@, cap),
            r,
        ) {
            (Ok(f), Ok(g)) => g@ == f,
            (Err(e), Err(f)) => f@ == e,
            _ => false,
        },
{
    let ghost before = found@;
    let mut warnings = found.warnings;
    match read_for_search(path, probe) {
        Err(None) => Ok(Found { hits: found.hits, warnings }),
        Err(Some(w)) => {
            warnings.push(w);
            assert(views(warnings@) =~= before.warnings.push(w@));
            Ok(Found { hits: found.hits, warnings })
        },
        Ok(bytes) => {
            let size: usize = bytes.len();
            let wanted = needle.as_bytes();
            proof {
                lemma_text_has_bytes(needle@);
                lemma_scan_in_range(bytes@, wanted@, 0);
            }
            let places = find_bytes(bytes.as_slice(), wanted);
            match add_hits(found.hits, path, &bytes, &places, cap) {
                Ok(hits) => Ok(Found { hits, warnings }),
                Err(e) => Err(e),
            }
        },
    }
}

/// A text that is not empty has bytes.
proof fn lemma_text_has_bytes(text: Seq<char>)
    requires
        text.len() > 0,
    ensures
        encode_utf8(text).len() > 0,
{
    encode_utf8_decode_utf8(text);
    if encode_utf8(text).len() == 0 {
        assert(encode_utf8(text) =~= Seq::<u8>::empty());
        assert(decode_utf8(Seq::<u8>::empty()) =~= Seq::<char>::empty());
    }
}

/// Takes one more file into a search for a compiled pattern.
pub fn scan_regex(
    found: Found,
    pattern: &Pattern,
    path: &TreePath,
    probe: &Probe,
    cap: usize,
) -> (r: VcResult<Found>)
    ensures
        match (
            after_file(found@, Needle::Pattern(pattern@), path@, probe@, cap),
            r,
        ) {
            (Ok(f), Ok(g)) => g@ == f,
            (Err(e), Err(f)) => f@ == e,
            _ => false,
        },
{
    let ghost before = found@;
    let mut warnings = found.warnings;
    match read_for_search(path, probe) {
        Err(None) => Ok(Found { hits: found.hits, warnings }),
        Err(Some(w)) => {
            warnings.push(w);
            assert(views(warnings@) =~= before.warnings.push(w@));
            Ok(Found { hits: found.hits, warnings })
        },
        Ok(bytes) => {
            let places = regex_find(&pattern.re, bytes.as_slice());
            match add_hits(found.hits, path, &bytes, &places, cap) {
                Ok(hits) => Ok(Found { hits, warnings }),
                Err(e) => Err(e),
            }
        },
    }
}

/// The refusal of an empty pattern.
pub open spec fn empty_pattern() -> ErrorView {
    refusal_next(
        ErrorKind::Usage,
        "empty pattern — it would match at every byte position in the tree"@,
        "vc query <pattern>"@,
    )
}

/// Refuses an empty pattern.
pub fn check_literal(needle: &str) -> (r: VcResult<()>)
    ensures
        match r {
            Ok(_) => needle@.len() > 0,
            Err(e) => needle@.len() == 0 && e@ == empty_pattern(),
        },
{
    if needle.is_empty() {
        return Err(
            VcError::new(
                ErrorKind::Usage,
                "empty pattern — it would match at every byte position in the tree".to_owned(),
            ).with_next("vc query <pattern>".to_owned()),
        );
    }
    Ok(())
}

/// Searches the files for a literal text: one hit per match, in path, line and column order.
/// An empty text, and more hits than `cap`, are refused.
pub fn search_literal(needle: &str, files: &Vec<Candidate>, cap: usize) -> (r: VcResult<Found>)
    ensures
        match (needle@.len() == 0, r) {
            (true, Err(e)) => e@ == empty_pattern(),
            (true, Ok(_)) => false,
            (false, r) => match (
                searched(Needle::Literal(encode_utf8(needle@)), views(files@), cap),
                r,
            ) {
                (Ok(f), Ok(g)) => g@ == f,
                (Err(e), Err(f)) => f@ == e,
                _ => false,
            },
        },
{
    match check_literal(needle) {
        Ok(_) => {},
        Err(e) => {
            return Err(e);
        },
    }
    let ghost n = Needle::Literal(encode_utf8(needle@));
    let ghost fv = views(files@);
    let mut found = nothing_found();
    let mut i: usize = 0;
    while i < files.len()
        invariant
            i <= files.len(),
            needle@.len() > 0,
            n == Needle::Literal(encode_utf8(needle@)),
            fv == views(files@),
            searched_from(n, fv, cap, 0, (FoundView { hits: seq![], warnings: seq![] }))
                == searched_from(n, fv, cap, i as int, found@),
        decreases files.len() - i,
    {
        assert(fv[i as int] == files@[i as int]@);
        found = match scan_literal(found, needle, &files[i].path, &files[i].probe, cap) {
            Ok(f) => f,
            Err(e) => {
                return Err(e);
            },
        };
        i = i + 1;
    }
    Ok(Found { hits: sort_hits(found.hits), warnings: found.warnings })
}

/// The refusal of a pattern that matches the empty text.
pub open spec fn matches_nothing(pattern: Seq<char>) -> ErrorView {
    refusal_next(
        ErrorKind::Usage,
        "pattern `"@ + pattern
            + "` matches the empty string — it would match at every byte position in the tree"@,
        "vc query <pattern> --regex"@,
    )
}

/// Whether a pattern can be searched for: it has to be a regular expression, and must not
/// match the empty text.
pub open spec fn pattern_check(pattern: Seq<char>, fault: Option<Seq<char>>, matches_empty: bool) -> Result<
    (),
    ErrorView,
> {
    match fault {
        Some(why) => Err(refusal(ErrorKind::Usage, why)),
        None => if matches_empty {
            Err(matches_nothing(pattern))
        } else {
            Ok(())
        },
    }
}

/// The answer to a pattern's fault, or to its matching the empty text.
pub fn check_pattern(pattern: &str, fault: Option<String>, matches_empty: bool) -> (r: VcResult<()>)
    ensures
        match (pattern_check(pattern@, crate::errors::opt_text(fault), matches_empty), r) {
            (Ok(_), Ok(_)) => true,
            (Err(e), Err(f)) => f@ == e,
            _ => false,
        },
{
    match fault {
        Some(why) => Err(VcError::new(ErrorKind::Usage, why)),
        None => {
            if matches_empty {
                let mut m: String = "pattern `".to_owned();
                m.append(pattern);
                m.append(
                    "` matches the empty string — it would match at every byte position in the tree",
                );
                Err(
                    VcError::new(ErrorKind::Usage, m).with_next(
                        "vc query <pattern> --regex".to_owned(),
                    ),
                )
            } else {
                Ok(())
            }
        },
    }
}

/// A pattern that can be searched for, with `^` and `$` at every line.
pub struct Pattern {
    re: regex::bytes::Regex,
}

impl View for Pattern {
    type V = Seq<char>;

    closed spec fn view(&self) -> Seq<char> {
        regex_pattern(self.re)
    }
}

/// Compiles a pattern for a search.
pub fn compile_pattern(pattern: &str) -> (r: VcResult<Pattern>)
    ensures
        match (
            pattern_check(
                pattern@,
                regex_fault(pattern@),
                regex_matches(pattern@, seq![]),
            ),
            r,
        ) {
            (Ok(_), Ok(p)) => p@ == pattern@,
            (Err(e), Err(f)) => f@ == e,
            _ => false,
        },
{
    match compile_regex(pattern) {
        Err(why) => Err(VcError::new(ErrorKind::Usage, why)),
        Ok(re) => {
            let nothing: Vec<u8> = Vec::new();
            assert(nothing@ =~= Seq::<u8>::empty());
            let empty = regex_is_match(&re, nothing.as_slice());
            match check_pattern(pattern, None, empty) {
                Ok(_) => Ok(Pattern { re }),
                Err(e) => Err(e),
            }
        },
    }
}

/// Searches the files for a regular expression: one hit per match, in path, line and column
/// order.
pub fn search_regex(pattern: &str, files: &Vec<Candidate>, cap: usize) -> (r: VcResult<Found>)
    ensures
        match (
            pattern_check(
                pattern@,
                regex_fault(pattern@),
                regex_matches(pattern@, seq![]),
            ),
            r,
        ) {
            (Err(e), Err(f)) => f@ == e,
            (Err(_), Ok(_)) => false,
            (Ok(_), r) => match (searched(Needle::Pattern(pattern@), views(files@), cap), r) {
                (Ok(f), Ok(g)) => g@ == f,
                (Err(e), Err(f)) => f@ == e,
                _ => false,
            },
        },
{
    let compiled = match compile_pattern(pattern) {
        Ok(compiled) => compiled,
        Err(e) => {
            return Err(e);
        },
    };
    let ghost n = Needle::Pattern(pattern@);
    let ghost fv = views(files@);
    let mut found = nothing_found();
    let mut i: usize = 0;
    while i < files.len()
        invariant
            i <= files.len(),
            n == Needle::Pattern(pattern@),
            compiled@ == pattern@,
            pattern_check(
                pattern@,
                regex_fault(pattern@),
                regex_matches(pattern@, seq![]),
            ) is Ok,
            fv == views(files@),
            searched_from(n, fv, cap, 0, (FoundView { hits: seq![], warnings: seq![] }))
                == searched_from(n, fv, cap, i as int, found@),
        decreases files.len() - i,
    {
        assert(fv[i as int] == files@[i as int]@);
        found = match scan_regex(found, &compiled, &files[i].path, &files[i].probe, cap) {
            Ok(f) => f,
            Err(e) => {
                return Err(e);
            },
        };
        i = i + 1;
    }
    Ok(Found { hits: sort_hits(found.hits), warnings: found.warnings })
}

/// Whether one of the places is at most so far before `q` that a match there covers it.
pub open spec fn covered(places: Seq<usize>, width: nat, q: int) -> bool {
    exists|i: int| 0 <= i < places.len() && #[trigger] places[i] <= q < places[i] + width
}

/// The places of a literal search are exactly right: at each the needle stands, they do not
/// overlap, and every place where the needle stands is one of them or overlaps one.
pub proof fn law_literal_search_misses_nothing(hay: Seq<u8>, needle: Seq<u8>)
    requires
        needle.len() > 0,
        hay.len() <= usize::MAX,
    ensures
        ({
            let found = scan_from(hay, needle, 0);
            &&& forall|i: int|
                0 <= i < found.len() ==> occurs_at(hay, needle, #[trigger] found[i] as int)
            &&& forall|i: int|
                0 <= i < found.len() - 1 ==> (#[trigger] found[i]) + needle.len() <= found[i + 1]
            &&& forall|q: int| #[trigger]
                occurs_at(hay, needle, q) ==> covered(found, needle.len(), q)
        }),
{
    lemma_scan_holds(hay, needle, 0);
    assert forall|q: int| #[trigger] occurs_at(hay, needle, q) implies covered(
        scan_from(hay, needle, 0),
        needle.len(),
        q,
    ) by {
        lemma_scan_covers(hay, needle, 0, q);
    }
}

proof fn lemma_scan_holds(hay: Seq<u8>, needle: Seq<u8>, from: int)
    requires
        needle.len() > 0,
        hay.len() <= usize::MAX,
        0 <= from,
    ensures
        ({
            let found = scan_from(hay, needle, from);
            &&& forall|i: int|
                0 <= i < found.len() ==> occurs_at(hay, needle, #[trigger] found[i] as int)
            &&& forall|i: int| 0 <= i < found.len() ==> (#[trigger] found[i]) >= from
            &&& forall|i: int|
                0 <= i < found.len() - 1 ==> (#[trigger] found[i]) + needle.len() <= found[i + 1]
        }),
    decreases hay.len() - from,
{
    let found = scan_from(hay, needle, from);
    if from + needle.len() > hay.len() {
        assert(found == Seq::<usize>::empty());
    } else if occurs_at(hay, needle, from) {
        let next = from + needle.len();
        let tail = scan_from(hay, needle, next);
        lemma_scan_holds(hay, needle, next);
        assert(found == seq![from as usize] + tail);
        assert(found[0] == from);
        assert forall|i: int| 0 <= i < found.len() implies occurs_at(
            hay,
            needle,
            #[trigger] found[i] as int,
        ) by {
            if i > 0 {
                assert(found[i] == tail[i - 1]);
            }
        }
        assert forall|i: int| 0 <= i < found.len() implies (#[trigger] found[i]) >= from by {
            if i > 0 {
                assert(found[i] == tail[i - 1]);
            }
        }
        assert forall|i: int| 0 <= i < found.len() - 1 implies (#[trigger] found[i]) + needle.len()
            <= found[i + 1] by {
            assert(found[i + 1] == tail[i]);
            if i > 0 {
                assert(found[i] == tail[i - 1]);
                assert(tail[i - 1] + needle.len() <= tail[i - 1 + 1]);
            }
        }
    } else {
        lemma_scan_holds(hay, needle, from + 1);
        assert(found == scan_from(hay, needle, from + 1));
    }
}

proof fn lemma_scan_covers(hay: Seq<u8>, needle: Seq<u8>, from: int, q: int)
    requires
        needle.len() > 0,
        hay.len() <= usize::MAX,
        0 <= from <= q,
        occurs_at(hay, needle, q),
    ensures
        covered(scan_from(hay, needle, from), needle.len(), q),
    decreases hay.len() - from,
{
    let found = scan_from(hay, needle, from);
    let width = needle.len();
    assert(from + width <= hay.len());
    if occurs_at(hay, needle, from) {
        let next = from + width;
        let tail = scan_from(hay, needle, next);
        assert(found == seq![from as usize] + tail);
        assert(found[0] == from);
        if q < next {
            assert(found[0] <= q < found[0] + width);
        } else {
            lemma_scan_covers(hay, needle, next, q);
            let k = choose|k: int|
                0 <= k < tail.len() && #[trigger] tail[k] <= q < tail[k] + width;
            assert(found[k + 1] == tail[k]);
        }
    } else {
        lemma_scan_covers(hay, needle, from + 1, q);
        assert(found == scan_from(hay, needle, from + 1));
    }
}

/// A hit names its place: the column counts from the start of a line, there is no line feed
/// between that start and the match, and the line number counts the line feeds before it.
pub proof fn law_a_hit_names_its_place(path: Seq<u8>, bytes: Seq<u8>, pos: int)
    requires
        0 <= pos <= bytes.len(),
    ensures
        ({
            let hit = hit_at(path, bytes, pos);
            let start = pos - (hit.col - 1);
            &&& hit.col >= 1
            &&& 0 <= start
            &&& start == 0 || bytes[start - 1] == NEWLINE
            &&& forall|k: int| start <= k < pos ==> bytes[k] != NEWLINE
            &&& hit.line == newline_count(bytes.take(pos)) + 1
        }),
{
    lemma_line_start(bytes, pos);
}

proof fn lemma_hits_bounded(
    path: Seq<u8>,
    bytes: Seq<u8>,
    places: Seq<usize>,
    cap: usize,
    i: int,
    hits: Seq<HitView>,
)
    requires
        hits.len() <= cap,
    ensures
        hits_from(path, bytes, places, cap, i, hits) matches Ok(h) ==> h.len() <= cap,
    decreases places.len() - i,
{
    if i < places.len() {
        let next = hits.push(hit_at(path, bytes, places[i] as int));
        if next.len() <= cap {
            lemma_hits_bounded(path, bytes, places, cap, i + 1, next);
        }
    }
}

proof fn lemma_search_bounded(
    needle: Needle,
    files: Seq<CandidateView>,
    cap: usize,
    i: int,
    found: FoundView,
)
    requires
        found.hits.len() <= cap,
    ensures
        searched_from(needle, files, cap, i, found) matches Ok(f) ==> f.hits.len() <= cap,
    decreases files.len() - i,
{
    if i < files.len() {
        match admission(files[i].path, files[i].probe) {
            Admission::Contents(bytes) => {
                lemma_hits_bounded(
                    files[i].path,
                    bytes,
                    places_of(needle, bytes),
                    cap,
                    0,
                    found.hits,
                );
            },
            _ => {},
        }
        match after_file(found, needle, files[i].path, files[i].probe, cap) {
            Ok(next) => {
                lemma_search_bounded(needle, files, cap, i + 1, next);
            },
            Err(_) => {},
        }
    }
}

/// A search answers in path, line and column order, and with no more hits than the cap.
pub proof fn law_search_is_ordered_and_capped(
    needle: Needle,
    files: Seq<CandidateView>,
    cap: usize,
)
    ensures
        searched(needle, files, cap) matches Ok(f) ==> {
            &&& ranks_ascend::<QueryHit>(f.hits)
            &&& f.hits.len() <= cap
        },
{
    let none = FoundView { hits: seq![], warnings: seq![] };
    lemma_search_bounded(needle, files, cap, 0, none);
    match searched_from(needle, files, cap, 0, none) {
        Ok(f) => {
            law_stable_sort_orders_and_keeps_items::<QueryHit>(f.hits);
        },
        Err(_) => {},
    }
}

/// The hits in one file: one for every place of the needle in it, none if it is skipped.
pub open spec fn file_hits(needle: Needle, file: CandidateView) -> Seq<HitView> {
    match admission(file.path, file.probe) {
        Admission::Contents(bytes) => Seq::new(
            places_of(needle, bytes).len(),
            |k: int| hit_at(file.path, bytes, places_of(needle, bytes)[k] as int),
        ),
        Admission::Skipped(_) => seq![],
    }
}

/// The warning of one file, if it is skipped with one.
pub open spec fn file_warnings(file: CandidateView) -> Seq<Seq<char>> {
    match admission(file.path, file.probe) {
        Admission::Skipped(Some(w)) => seq![w],
        _ => seq![],
    }
}

/// The hits of every file, one file after the other.
pub open spec fn every_hit(needle: Needle, files: Seq<CandidateView>) -> Seq<HitView> {
    files.map_values(|c: CandidateView| file_hits(needle, c)).flatten()
}

/// The warnings of every file, one file after the other.
pub open spec fn every_warning(files: Seq<CandidateView>) -> Seq<Seq<char>> {
    files.map_values(|c: CandidateView| file_warnings(c)).flatten()
}

proof fn lemma_hits_from(
    path: Seq<u8>,
    bytes: Seq<u8>,
    places: Seq<usize>,
    cap: usize,
    i: int,
    hits: Seq<HitView>,
)
    requires
        0 <= i <= places.len(),
        hits.len() <= cap,
    ensures
        hits_from(path, bytes, places, cap, i, hits) is Err <==> hits.len() + places.len() - i
            > cap,
        hits_from(path, bytes, places, cap, i, hits) matches Err(e) ==> e == too_many_hits(cap),
        hits_from(path, bytes, places, cap, i, hits) matches Ok(h) ==> h == hits + Seq::new(
            (places.len() - i) as nat,
            |k: int| hit_at(path, bytes, places[i + k] as int),
        ),
    decreases places.len() - i,
{
    let more = Seq::new(
        (places.len() - i) as nat,
        |k: int| hit_at(path, bytes, places[i + k] as int),
    );
    if i < places.len() {
        let next = hits.push(hit_at(path, bytes, places[i] as int));
        if next.len() <= cap {
            lemma_hits_from(path, bytes, places, cap, i + 1, next);
            let rest = Seq::new(
                (places.len() - (i + 1)) as nat,
                |k: int| hit_at(path, bytes, places[i + 1 + k] as int),
            );
            assert(next + rest =~= hits + more);
        }
    } else {
        assert(hits + more =~= hits);
    }
}

proof fn lemma_search_is_complete(
    needle: Needle,
    files: Seq<CandidateView>,
    cap: usize,
    i: int,
    found: FoundView,
)
    requires
        0 <= i <= files.len(),
        found.hits.len() <= cap,
    ensures
        searched_from(needle, files, cap, i, found) is Err <==> found.hits.len() + every_hit(
            needle,
            files.skip(i),
        ).len() > cap,
        searched_from(needle, files, cap, i, found) matches Err(e) ==> e == too_many_hits(cap),
        searched_from(needle, files, cap, i, found) matches Ok(f) ==> f.hits == found.hits
            + every_hit(needle, files.skip(i)) && f.warnings == found.warnings + every_warning(
            files.skip(i),
        ),
    decreases files.len() - i,
{
    let hits_in = |c: CandidateView| file_hits(needle, c);
    let told = |c: CandidateView| file_warnings(c);
    let rest = files.skip(i);
    if i < files.len() {
        let c = files[i];
        let tail = files.skip(i + 1);
        assert(rest.map_values(hits_in).first() == file_hits(needle, c));
        assert(rest.map_values(hits_in).drop_first() =~= tail.map_values(hits_in));
        assert(rest.map_values(told).first() == file_warnings(c));
        assert(rest.map_values(told).drop_first() =~= tail.map_values(told));
        let own = file_hits(needle, c);
        assert(every_hit(needle, rest) == own + every_hit(needle, tail));
        assert(every_warning(rest) == file_warnings(c) + every_warning(tail));
        match admission(c.path, c.probe) {
            Admission::Contents(bytes) => {
                let places = places_of(needle, bytes);
                lemma_hits_from(c.path, bytes, places, cap, 0, found.hits);
                assert(Seq::new(
                    (places.len() - 0) as nat,
                    |k: int| hit_at(c.path, bytes, places[0 + k] as int),
                ) =~= own);
            },
            _ => {},
        }
        match after_file(found, needle, c.path, c.probe, cap) {
            Ok(next) => {
                assert(next.hits =~= found.hits + own);
                assert(next.warnings =~= found.warnings + file_warnings(c));
                lemma_search_is_complete(needle, files, cap, i + 1, next);
                assert(next.hits + every_hit(needle, tail) =~= found.hits + every_hit(
                    needle,
                    rest,
                ));
                assert(next.warnings + every_warning(tail) =~= found.warnings + every_warning(
                    rest,
                ));
            },
            Err(_) => {},
        }
    } else {
        assert(rest.map_values(hits_in) =~= Seq::<Seq<HitView>>::empty());
        assert(rest.map_values(told) =~= Seq::<Seq<Seq<char>>>::empty());
        assert(found.hits + every_hit(needle, rest) =~= found.hits);
        assert(found.warnings + every_warning(rest) =~= found.warnings);
    }
}

/// A search is complete or refused: it answers with one hit for every place of the needle in
/// every file that is searched, no more and no fewer, and with the warning of every file that
/// is skipped with one. It is refused exactly when those hits are more than the cap.
pub proof fn law_a_search_is_complete_or_refused(
    needle: Needle,
    files: Seq<CandidateView>,
    cap: usize,
)
    ensures
        searched(needle, files, cap) is Err <==> every_hit(needle, files).len() > cap,
        searched(needle, files, cap) matches Err(e) ==> e == too_many_hits(cap),
        searched(needle, files, cap) matches Ok(f) ==> {
            &&& f.hits.len() == every_hit(needle, files).len()
            &&& f.hits.to_multiset() == every_hit(needle, files).to_multiset()
            &&& f.warnings == every_warning(files)
        },
{
    let none = FoundView { hits: seq![], warnings: seq![] };
    assert(files.skip(0) =~= files);
    lemma_search_is_complete(needle, files, cap, 0, none);
    match searched_from(needle, files, cap, 0, none) {
        Ok(f) => {
            assert(f.hits =~= every_hit(needle, files));
            assert(f.warnings =~= every_warning(files));
            law_stable_sort_orders_and_keeps_items::<QueryHit>(f.hits);
        },
        Err(_) => {},
    }
}

/// A file is searched whole or not at all. It is searched exactly when it could be opened and
/// read to its end, is not too large, and has no zero among its first bytes; and then what is
/// searched is everything that was read.
pub proof fn law_a_file_is_searched_whole_or_skipped(path: Seq<u8>, probe: ProbeView)
    ensures
        match probe {
            ProbeView::Opened {
                len,
                head: ReadView::Bytes(h),
                rest: ReadView::Bytes(r),
            } => {
                let all = h + r;
                let fits = len <= MAX_SEARCH_FILE_BYTES && all.len() <= MAX_SEARCH_FILE_BYTES;
                let binary = exists|k: int|
                    0 <= k < all.len() && k < BINARY_SNIFF_LEN && #[trigger] all[k] == 0u8;
                &&& admission(path, probe) is Contents <==> fits && !binary
                &&& admission(path, probe) matches Admission::Contents(bytes) ==> bytes == all
            },
            _ => admission(path, probe) is Skipped,
        },
{
    if let ProbeView::Opened { len, head: ReadView::Bytes(h), rest: ReadView::Bytes(r) } = probe {
        let all = h + r;
        let first = sniffed(all);
        assert(first.contains(0u8) <==> exists|k: int|
            0 <= k < all.len() && k < BINARY_SNIFF_LEN && #[trigger] all[k] == 0u8) by {
            if first.contains(0u8) {
                let k = first.index_of(0u8);
                assert(all[k] == 0u8);
            }
            if exists|k: int|
                0 <= k < all.len() && k < BINARY_SNIFF_LEN && #[trigger] all[k] == 0u8 {
                let k = choose|k: int|
                    0 <= k < all.len() && k < BINARY_SNIFF_LEN && #[trigger] all[k] == 0u8;
                assert(first[k] == 0u8);
            }
        }
    }
}

/// The line of a hit.
pub open spec fn hit_line(h: HitView) -> Seq<char> {
    lossy_text(h.path) + ":"@ + dec(h.line) + ":"@ + dec(h.col) + ": "@ + h.line_text
}

/// The lines of hits.
pub open spec fn hit_lines(hits: Seq<HitView>) -> Seq<Seq<char>> {
    hits.map_values(|h: HitView| hit_line(h))
}

fn render_hit_line(hit: &QueryHit) -> (line: String)
    ensures
        line@ == hit_line(hit@),
{
    let mut line: String = hit.path.display();
    line.append(":");
    push_dec(&mut line, hit.line as u64);
    line.append(":");
    push_dec(&mut line, hit.col as u64);
    line.append(": ");
    line.append(hit.line_text.as_str());
    line
}

/// Renders hits one per line within a budget: whole hits from the front, as long as they fit.
pub fn render_hits(hits: &Vec<QueryHit>, budget: Option<usize>) -> (b: Budgeted)
    ensures
        b.text@ == packed(hit_lines(views(hits@)), budget).0,
        b.elided == packed(hit_lines(views(hits@)), budget).1,
{
    let mut lines: Vec<String> = Vec::new();
    let mut i: usize = 0;
    while i < hits.len()
        invariant
            i <= hits.len(),
            views(lines@) == hit_lines(views(hits@)).take(i as int),
        decreases hits.len() - i,
    {
        let line = render_hit_line(&hits[i]);
        let ghost before = lines@;
        lines.push(line);
        proof {
            let all = hit_lines(views(hits@));
            assert(all[i as int] == line@);
            assert(all.take(i + 1) =~= all.take(i as int).push(line@));
            assert(views(lines@) =~= views(before).push(line@));
        }
        i = i + 1;
    }
    assert(views(lines@) =~= hit_lines(views(hits@)));
    render_budgeted(&lines, budget)
}

/// Whether `text` shows the stretch of `bytes` from `a` to `b`, cut out of a longer line.
pub open spec fn shows_cut(text: Seq<char>, bytes: Seq<u8>, a: int, b: int) -> bool {
    text == lossy_text(bytes.subrange(a, b)) + "…"@
}

/// A hit shows its line: the whole of it from line feed to line feed when it is not too long,
/// and otherwise a stretch of it, marked as cut, that is as long as may be and has the match
/// in it.
pub proof fn law_a_hit_shows_its_line(
    path: Seq<u8>,
    bytes: Seq<u8>,
    pos: int,
    start: int,
    end: int,
)
    requires
        0 <= start <= pos <= end <= bytes.len(),
        start == 0 || bytes[start - 1] == 10u8,
        end == bytes.len() || bytes[end] == 10u8,
        forall|k: int| start <= k < end ==> bytes[k] != 10u8,
    ensures
        ({
            let hit = hit_at(path, bytes, pos);
            &&& hit.path == path
            &&& hit.col == pos - start + 1
            &&& end - start <= 500 ==> hit.line_text == lossy_text(bytes.subrange(start, end))
            &&& end - start > 500 ==> exists|a: int, b: int|
                start <= a <= b <= end && 494 <= b - a <= 500 && (a <= pos || pos < start + 3)
                    && pos <= b && #[trigger] shows_cut(hit.line_text, bytes, a, b)
        }),
{
    lemma_line_start(bytes, pos);
    lemma_line_end(bytes, pos);
    let s = line_start(bytes, pos);
    let e = line_end(bytes, pos);
    if s < start {
        assert(bytes[start - 1] != NEWLINE);
    }
    if e > end {
        assert(bytes[end] != NEWLINE);
    }
    assert(s == start && e == end);
    let line = bytes.subrange(s, e);
    law_window_is_bounded_and_shows_the_match(line, pos - s);
    let (a, b, cut) = window(line, pos - s);
    if cut {
        assert(line.subrange(a, b) =~= bytes.subrange(s + a, s + b));
        assert(shows_cut(hit_at(path, bytes, pos).line_text, bytes, s + a, s + b));
    } else {
        assert(line.subrange(0, line.len() as int) =~= line);
    }
}

/// A needle is looked for everywhere: a pattern is found at the start of each of its matches,
/// and a literal text at places where it stands, none overlapping, that cover every place
/// where it stands.
pub proof fn law_a_needle_is_found_everywhere(needle: Needle, bytes: Seq<u8>)
    requires
        bytes.len() <= usize::MAX,
    ensures
        match needle {
            Needle::Pattern(p) => places_of(needle, bytes) == regex_starts(p, bytes),
            Needle::Literal(n) => n.len() > 0 ==> {
                let found = places_of(needle, bytes);
                &&& forall|i: int|
                    0 <= i < found.len() ==> occurs_at(bytes, n, #[trigger] found[i] as int)
                &&& forall|i: int|
                    0 <= i < found.len() - 1 ==> (#[trigger] found[i]) + n.len() <= found[i + 1]
                &&& forall|q: int| #[trigger]
                    occurs_at(bytes, n, q) ==> covered(found, n.len(), q)
            },
        },
{
    if let Needle::Literal(n) = needle {
        if n.len() > 0 {
            law_literal_search_misses_nothing(bytes, n);
        }
    }
}

/// A pattern is searched for exactly when it is a regular expression that does not match the
/// empty text.
pub proof fn law_a_pattern_is_refused_only_for_a_fault(
    pattern: Seq<char>,
    fault: Option<Seq<char>>,
    matches_empty: bool,
)
    ensures
        pattern_check(pattern, fault, matches_empty) is Ok <==> fault is None && !matches_empty,
        pattern_check(pattern, fault, matches_empty) matches Err(e) ==> e.kind == ErrorKind::Usage,
{
}

/// A source is parsed whole or skipped with a warning: it is parsed exactly when it could be
/// opened and read, is not too large and is text; and then what is parsed is all that was read.
pub proof fn law_a_source_is_parsed_whole_or_skipped(path: Seq<u8>, probe: SourceProbeView)
    ensures
        match probe {
            SourceProbeView::Opened { len, bytes: ReadView::Bytes(b) } => {
                &&& capped_source(path, probe) is Ok <==> len <= MAX_SEARCH_FILE_BYTES && b.len()
                    <= MAX_SEARCH_FILE_BYTES && valid_utf8(b)
                &&& capped_source(path, probe) matches Ok(text) ==> encode_utf8(text) == b
            },
            _ => capped_source(path, probe) is Err,
        },
{
    if let SourceProbeView::Opened { len, bytes: ReadView::Bytes(b) } = probe {
        if valid_utf8(b) {
            decode_utf8_encode_utf8(b);
        }
    }
}

/// Hits stand in the order of their paths, in one file by line, and in one line by column.
pub proof fn law_hits_stand_in_path_line_and_column_order(
    needle: Needle,
    files: Seq<CandidateView>,
    cap: usize,
    i: int,
    j: int,
)
    requires
        searched(needle, files, cap) is Ok,
        0 <= i < j < (searched(needle, files, cap)->Ok_0).hits.len(),
    ensures
        ({
            let a = (searched(needle, files, cap)->Ok_0).hits[i];
            let b = (searched(needle, files, cap)->Ok_0).hits[j];
            ||| list_less(components(a.path), components(b.path))
            ||| components(a.path) == components(b.path) && (a.line < b.line || a.line == b.line
                && a.col <= b.col)
        }),
{
    let hits = (searched(needle, files, cap)->Ok_0).hits;
    law_search_is_ordered_and_capped(needle, files, cap);
    let ra = QueryHit::rank_at(hits[i]);
    let rb = QueryHit::rank_at(hits[j]);
    assert(!rank_less(rb, ra));
    law_rank_order_is_total(ra, rb, ra);
}

} // verus!
