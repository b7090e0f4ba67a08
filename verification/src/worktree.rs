//! Linked git worktrees: reading git's listing, classifying each worktree, and rendering the
//! report.

use crate::errors::opt_text;
use crate::json::{
    counts_object, field_of, law_a_field_is_found_under_its_key, no_fields, number_or_null,
    text_or_null, Json, JsonView,
};
use crate::metrics::{count_one, counted, counts_at_most};
use crate::order::views;
use crate::ordmap::{keys_ascend, lookup, OrdMap};
use crate::paths::{text_rank, TreePath};
use crate::strings::{
    after_prefix, before_suffix, join, joined_with, split_at_char, split_once, strip_prefix,
    strip_suffix,
};
use crate::tally::{counts_of, lemma_counts_of};
use crate::text::{
    begins_with, bytes_begin_with, char_from, chars_of, dec, find_char, lossy, lossy_text,
    push_dec, same_text, slice_copy, text_of,
};
use vstd::prelude::*;
use vstd::string::*;

verus! {

/// After how many days without a commit a clean, unmerged worktree counts as stale.
pub const DEFAULT_STALE_DAYS: u64 = 14;

/// A text without the one line end that git closes a single answer with.
pub open spec fn answer_line(s: Seq<char>) -> Seq<char> {
    let t = match before_suffix(s, "\n"@) {
        Some(r) => r,
        None => s,
    };
    match before_suffix(t, "\r"@) {
        Some(r) => r,
        None => t,
    }
}

/// Strips the one line end that git closes a single answer with, and nothing else.
pub fn strip_nl(s: &str) -> (t: String)
    ensures
        t@ == answer_line(s@),
{
    let t = match strip_suffix(s, "\n") {
        Some(r) => r,
        None => s.to_owned(),
    };
    match strip_suffix(t.as_str(), "\r") {
        Some(r) => r,
        None => t,
    }
}

/// One record of git's worktree listing.
#[derive(Debug, Clone)]
pub struct WorktreeEntry {
    pub path: TreePath,
    pub head: Option<String>,
    /// The branch, without `refs/heads/`.
    pub branch: Option<String>,
    pub detached: bool,
    pub bare: bool,
    pub locked: Option<String>,
    pub prunable: Option<String>,
}

/// What a [`WorktreeEntry`] says.
pub struct WorktreeView {
    pub path: Seq<u8>,
    pub head: Option<Seq<char>>,
    pub branch: Option<Seq<char>>,
    pub detached: bool,
    pub bare: bool,
    pub locked: Option<Seq<char>>,
    pub prunable: Option<Seq<char>>,
}

impl View for WorktreeEntry {
    type V = WorktreeView;

    open spec fn view(&self) -> WorktreeView {
        WorktreeView {
            path: self.path@,
            head: opt_text(self.head),
            branch: opt_text(self.branch),
            detached: self.detached,
            bare: self.bare,
            locked: opt_text(self.locked),
            prunable: opt_text(self.prunable),
        }
    }
}

/// The bytes of `worktree `.
pub open spec fn worktree_prefix() -> Seq<u8> {
    seq![119u8, 111, 114, 107, 116, 114, 101, 101, 32]
}

/// A record that so far has only its path.
pub open spec fn fresh_entry(path: Seq<u8>) -> WorktreeView {
    WorktreeView {
        path,
        head: None,
        branch: None,
        detached: false,
        bare: false,
        locked: None,
        prunable: None,
    }
}

/// The record after one attribute line; an unknown attribute changes nothing.
pub open spec fn with_attribute(e: WorktreeView, line: Seq<char>) -> WorktreeView {
    if begins_with(line, "HEAD "@) {
        WorktreeView { head: Some(line.skip("HEAD "@.len() as int)), ..e }
    } else if begins_with(line, "branch "@) {
        let b = line.skip("branch "@.len() as int);
        WorktreeView {
            branch: Some(
                match after_prefix(b, "refs/heads/"@) {
                    Some(short) => short,
                    None => b,
                },
            ),
            ..e
        }
    } else if line == "detached"@ {
        WorktreeView { detached: true, ..e }
    } else if line == "bare"@ {
        WorktreeView { bare: true, ..e }
    } else if line == "locked"@ {
        WorktreeView { locked: Some(seq![]), ..e }
    } else if begins_with(line, "locked "@) {
        WorktreeView { locked: Some(line.skip("locked "@.len() as int)), ..e }
    } else if line == "prunable"@ {
        WorktreeView { prunable: Some(seq![]), ..e }
    } else if begins_with(line, "prunable "@) {
        WorktreeView { prunable: Some(line.skip("prunable "@.len() as int)), ..e }
    } else {
        e
    }
}

/// The records read so far and the one that is being read.
pub struct Listing {
    pub done: Seq<WorktreeView>,
    pub open: Option<WorktreeView>,
}

/// The listing with the open record closed.
pub open spec fn closed_listing(l: Listing) -> Listing {
    match l.open {
        Some(e) => Listing { done: l.done.push(e), open: None },
        None => l,
    }
}

/// The listing after one field: an empty field closes the record, `worktree ` opens one,
/// anything else is an attribute of the open record (and ignored when none is open).
pub open spec fn after_field(l: Listing, field: Seq<u8>) -> Listing {
    if field.len() == 0 {
        closed_listing(l)
    } else if begins_with(field, worktree_prefix()) {
        Listing { done: closed_listing(l).done, open: Some(fresh_entry(field.skip(9))) }
    } else {
        match l.open {
            Some(e) => Listing { open: Some(with_attribute(e, lossy_text(field))), ..l },
            None => l,
        }
    }
}

/// The index of the first zero byte at or after `from`, or the length.
pub open spec fn zero_from(raw: Seq<u8>, from: int) -> int
    decreases raw.len() - from,
{
    if from >= raw.len() {
        raw.len() as int
    } else if raw[from] == 0 {
        from
    } else {
        zero_from(raw, from + 1)
    }
}

/// The listing after the zero-separated fields from byte `from` on.
pub open spec fn listed_from(raw: Seq<u8>, from: int, l: Listing) -> Listing
    decreases raw.len() - from,
    when 0 <= from
{
    let end = zero_from(raw, from);
    if from > raw.len() || end >= raw.len() || end < from {
        after_field(l, raw.skip(from))
    } else {
        listed_from(raw, end + 1, after_field(l, raw.subrange(from, end)))
    }
}

/// The records in git's zero-separated worktree listing.
pub open spec fn listed(raw: Seq<u8>) -> Seq<WorktreeView> {
    closed_listing(listed_from(raw, 0, Listing { done: seq![], open: None })).done
}

/// Puts one attribute line into a record.
fn set_attribute(e: WorktreeEntry, line: &str) -> (r: WorktreeEntry)
    ensures
        r@ == with_attribute(e@, line@),
{
    if let Some(h) = strip_prefix(line, "HEAD ") {
        return WorktreeEntry { head: Some(h), ..e };
    }
    if let Some(b) = strip_prefix(line, "branch ") {
        let short = match strip_prefix(b.as_str(), "refs/heads/") {
            Some(short) => short,
            None => b,
        };
        return WorktreeEntry { branch: Some(short), ..e };
    }
    if same_text(line, "detached") {
        return WorktreeEntry { detached: true, ..e };
    }
    if same_text(line, "bare") {
        return WorktreeEntry { bare: true, ..e };
    }
    if same_text(line, "locked") {
        return WorktreeEntry { locked: Some(String::new()), ..e };
    }
    if let Some(r) = strip_prefix(line, "locked ") {
        return WorktreeEntry { locked: Some(r), ..e };
    }
    if same_text(line, "prunable") {
        return WorktreeEntry { prunable: Some(String::new()), ..e };
    }
    if let Some(r) = strip_prefix(line, "prunable ") {
        return WorktreeEntry { prunable: Some(r), ..e };
    }
    e
}

/// The view of an optional record.
pub open spec fn opt_entry(e: Option<WorktreeEntry>) -> Option<WorktreeView> {
    match e {
        Some(x) => Some(x@),
        None => None,
    }
}

/// Reads `git worktree list --porcelain -z`. Fields end with a zero byte and records with
/// one more, so paths and reasons arrive verbatim.
pub fn parse_porcelain(raw: &[u8]) -> (entries: Vec<WorktreeEntry>)
    ensures
        views(entries@) == listed(raw@),
{
    let prefix: Vec<u8> = vec![119, 111, 114, 107, 116, 114, 101, 101, 32];
    assert(prefix@ =~= worktree_prefix());
    let mut done: Vec<WorktreeEntry> = Vec::new();
    let mut open: Option<WorktreeEntry> = None;
    let mut from: usize = 0;
    let ghost whole = listed_from(raw@, 0, Listing { done: seq![], open: None });
    assert(views(done@) =~= Seq::<WorktreeView>::empty());
    loop
        invariant
            from <= raw.len(),
            prefix@ == worktree_prefix(),
            whole == listed_from(raw@, 0, Listing { done: seq![], open: None }),
            whole == listed_from(
                raw@,
                from as int,
                (Listing { done: views(done@), open: opt_entry(open) }),
            ),
        decreases raw.len() - from,
    {
        let mut end: usize = from;
        while end < raw.len() && raw[end] != 0
            invariant
                from <= end <= raw.len(),
                zero_from(raw@, from as int) == zero_from(raw@, end as int),
            decreases raw.len() - end,
        {
            end = end + 1;
        }
        let field = slice_copy(raw, from, end);
        let ghost l = Listing { done: views(done@), open: opt_entry(open) };
        proof {
            if end == raw.len() {
                assert(field@ =~= raw@.skip(from as int));
            }
        }
        if field.len() == 0 {
            if let Some(e) = open {
                done.push(e);
                assert(views(done@) =~= l.done.push(e@));
            }
            open = None;
        } else if bytes_begin_with(field.as_slice(), prefix.as_slice()) {
            if let Some(e) = open {
                done.push(e);
                assert(views(done@) =~= l.done.push(e@));
            }
            let path = slice_copy(field.as_slice(), 9, field.len());
            assert(path@ =~= field@.skip(9));
            open = Some(
                WorktreeEntry {
                    path: TreePath::from_raw(path),
                    head: None,
                    branch: None,
                    detached: false,
                    bare: false,
                    locked: None,
                    prunable: None,
                },
            );
        } else {
            let line = lossy(field.as_slice());
            open = match open {
                Some(e) => Some(set_attribute(e, line.as_str())),
                None => None,
            };
        }
        assert((Listing { done: views(done@), open: opt_entry(open) }) == after_field(l, field@));
        if end >= raw.len() {
            if let Some(e) = open {
                let ghost before = views(done@);
                done.push(e);
                assert(views(done@) =~= before.push(e@));
            }
            return done;
        }
        from = end + 1;
    }
}

/// A cell of the human report with backslash, tab, line feed and carriage return escaped.
pub open spec fn escaped(s: Seq<char>) -> Seq<char>
    decreases s.len(),
{
    if s.len() == 0 {
        seq![]
    } else {
        escaped(s.drop_last()) + escaped_char(s.last())
    }
}

/// One character of a cell, escaped.
pub open spec fn escaped_char(c: char) -> Seq<char> {
    if c == '\\' {
        seq!['\\', '\\']
    } else if c == '\t' {
        seq!['\\', 't']
    } else if c == '\n' {
        seq!['\\', 'n']
    } else if c == '\r' {
        seq!['\\', 'r']
    } else {
        seq![c]
    }
}

/// Escapes a cell, so that what it holds can forge neither a column nor a record.
pub fn escape_cell(s: &str) -> (cell: String)
    ensures
        cell@ == escaped(s@),
{
    let chars = chars_of(s);
    let mut out: String = String::new();
    let mut i: usize = 0;
    assert(chars@.take(0) =~= Seq::<char>::empty());
    while i < chars.len()
        invariant
            i <= chars.len(),
            chars@ == s@,
            out@ == escaped(chars@.take(i as int)),
        decreases chars.len() - i,
    {
        let c = chars[i];
        let ghost before = out@;
        if c == '\\' {
            out.push('\\');
            out.push('\\');
        } else if c == '\t' {
            out.push('\\');
            out.push('t');
        } else if c == '\n' {
            out.push('\\');
            out.push('n');
        } else if c == '\r' {
            out.push('\\');
            out.push('r');
        } else {
            out.push(c);
        }
        proof {
            assert(chars@.take(i + 1).drop_last() =~= chars@.take(i as int));
            assert(out@ =~= before + escaped_char(c));
        }
        i = i + 1;
    }
    assert(chars@.take(chars.len() as int) =~= chars@);
    out
}

/// An escaped cell holds no tab and no line end, so it cannot forge a column or a record.
pub proof fn law_escaped_cell_stays_one_cell(s: Seq<char>)
    ensures
        forall|i: int|
            0 <= i < escaped(s).len() ==> #[trigger] escaped(s)[i] != '\t' && escaped(s)[i] != '\n'
                && escaped(s)[i] != '\r',
    decreases s.len(),
{
    if s.len() > 0 {
        law_escaped_cell_stays_one_cell(s.drop_last());
        let head = escaped(s.drop_last());
        let tail = escaped_char(s.last());
        assert forall|i: int| 0 <= i < escaped(s).len() implies #[trigger] escaped(s)[i] != '\t'
            && escaped(s)[i] != '\n' && escaped(s)[i] != '\r' by {
            if i < head.len() {
                assert(escaped(s)[i] == head[i]);
            } else {
                assert(escaped(s)[i] == tail[i - head.len()]);
            }
        }
    }
}

/// The state of a linked worktree.
#[derive(Debug, Clone, Copy, PartialEq, Eq, PartialOrd, Ord, Structural)]
pub enum State {
    Prunable,
    Dirty,
    Detached,
    Base,
    Stale,
    Merged,
    Conflict,
    Unknown,
    MergeReady,
}

impl State {
    /// The label of the state.
    pub open spec fn label_text(self) -> Seq<char> {
        match self {
            State::Prunable => "prunable"@,
            State::Dirty => "dirty"@,
            State::Detached => "detached"@,
            State::Base => "base"@,
            State::Stale => "stale"@,
            State::Merged => "merged"@,
            State::Conflict => "conflict"@,
            State::Unknown => "unknown"@,
            State::MergeReady => "merge-ready"@,
        }
    }

    /// The label of the state.
    pub fn label(self) -> (label: &'static str)
        ensures
            label@ == self.label_text(),
    {
        match self {
            State::Prunable => "prunable",
            State::Dirty => "dirty",
            State::Detached => "detached",
            State::Base => "base",
            State::Stale => "stale",
            State::Merged => "merged",
            State::Conflict => "conflict",
            State::Unknown => "unknown",
            State::MergeReady => "merge-ready",
        }
    }
}

/// What a trial merge said.
#[derive(Debug, Clone)]
pub enum MergeTree {
    Clean,
    Conflict,
    /// It failed otherwise; the short reason.
    Unsupported(String),
}

/// What a [`MergeTree`] says.
pub enum MergeView {
    Clean,
    Conflict,
    Unsupported(Seq<char>),
}

impl View for MergeTree {
    type V = MergeView;

    open spec fn view(&self) -> MergeView {
        match self {
            MergeTree::Clean => MergeView::Clean,
            MergeTree::Conflict => MergeView::Conflict,
            MergeTree::Unsupported(why) => MergeView::Unsupported(why@),
        }
    }
}

/// What is known of one linked worktree.
#[derive(Debug, Clone)]
pub struct Facts {
    pub prunable: Option<String>,
    /// A summary of uncommitted work, when there is any.
    pub dirty: Option<String>,
    pub detached: bool,
    /// The worktree has the base branch itself checked out.
    pub is_base: bool,
    /// The branch is named but there is no such ref.
    pub branch_gone: bool,
    /// A ref could not be looked up at all, for this reason.
    pub query_failed: Option<String>,
    /// HEAD is an ancestor of the base; unknown when the query failed.
    pub is_ancestor: Option<bool>,
    pub merge_tree: Option<MergeTree>,
    /// Seconds since the last commit.
    pub age_secs: Option<u64>,
}

/// What [`Facts`] say.
pub struct FactsView {
    pub prunable: Option<Seq<char>>,
    pub dirty: Option<Seq<char>>,
    pub detached: bool,
    pub is_base: bool,
    pub branch_gone: bool,
    pub query_failed: Option<Seq<char>>,
    pub is_ancestor: Option<bool>,
    pub merge_tree: Option<MergeView>,
    pub age_secs: Option<u64>,
}

impl View for Facts {
    type V = FactsView;

    open spec fn view(&self) -> FactsView {
        FactsView {
            prunable: opt_text(self.prunable),
            dirty: opt_text(self.dirty),
            detached: self.detached,
            is_base: self.is_base,
            branch_gone: self.branch_gone,
            query_failed: opt_text(self.query_failed),
            is_ancestor: self.is_ancestor,
            merge_tree: match self.merge_tree {
                Some(m) => Some(m@),
                None => None,
            },
            age_secs: self.age_secs,
        }
    }
}

/// The state of a worktree and why. The rules stand in a fixed order and the first that
/// holds decides, so a worktree has exactly one state, and what is not known is never taken
/// for a state that something would be done about.
pub open spec fn classified(f: FactsView, stale_secs: u64) -> (State, Seq<char>) {
    if f.prunable is Some {
        let r = if f.prunable->0.len() == 0 {
            "gone"@
        } else {
            f.prunable->0
        };
        (State::Prunable, "git reports prunable: "@ + r)
    } else if f.branch_gone {
        (
            State::Stale,
            "branch no longer exists (HEAD unborn; uncommitted work not checkable)"@,
        )
    } else if f.dirty is Some {
        (State::Dirty, "uncommitted changes: "@ + f.dirty->0)
    } else if f.query_failed is Some {
        (State::Unknown, "ref lookup failed: "@ + f.query_failed->0)
    } else if f.detached {
        (State::Detached, "no branch checked out"@)
    } else if f.is_base {
        (State::Base, "checked out on the base branch"@)
    } else {
        match f.is_ancestor {
            None => (
                State::Unknown,
                "merge-base --is-ancestor failed; merged/unmerged not determinable"@,
            ),
            Some(true) => (State::Merged, "HEAD is an ancestor of base"@),
            Some(false) => match f.merge_tree {
                None => (State::Unknown, "merge-tree not run (no HEAD to compare)"@),
                Some(MergeView::Conflict) => (State::Conflict, "merge-tree reports conflicts"@),
                Some(MergeView::Unsupported(why)) => (
                    State::Unknown,
                    "merge-tree unsupported: "@ + why,
                ),
                Some(MergeView::Clean) => match f.age_secs {
                    None => (
                        State::Unknown,
                        "merges cleanly but last commit date unreadable; stale/merge-ready not determinable"@,
                    ),
                    Some(age) => if age > stale_secs {
                        (
                            State::Stale,
                            "merges cleanly but last commit is "@ + dec((age / 86400) as nat)
                                + " days old"@,
                        )
                    } else {
                        (State::MergeReady, "merges cleanly"@)
                    },
                },
            },
        }
    }
}

/// Classifies a worktree.
pub fn classify(f: &Facts, stale_secs: u64) -> (r: (State, String))
    ensures
        r.0 == classified(f@, stale_secs).0,
        r.1@ == classified(f@, stale_secs).1,
{
    if let Some(p) = &f.prunable {
        let mut m: String = "git reports prunable: ".to_owned();
        if p.as_str().is_empty() {
            m.append("gone");
        } else {
            m.append(p.as_str());
        }
        return (State::Prunable, m);
    }
    if f.branch_gone {
        return (
            State::Stale,
            "branch no longer exists (HEAD unborn; uncommitted work not checkable)".to_owned(),
        );
    }
    if let Some(d) = &f.dirty {
        let mut m: String = "uncommitted changes: ".to_owned();
        m.append(d.as_str());
        return (State::Dirty, m);
    }
    if let Some(why) = &f.query_failed {
        let mut m: String = "ref lookup failed: ".to_owned();
        m.append(why.as_str());
        return (State::Unknown, m);
    }
    if f.detached {
        return (State::Detached, "no branch checked out".to_owned());
    }
    if f.is_base {
        return (State::Base, "checked out on the base branch".to_owned());
    }
    match f.is_ancestor {
        Some(true) => {
            return (State::Merged, "HEAD is an ancestor of base".to_owned());
        },
        Some(false) => {},
        None => {
            return (
                State::Unknown,
                "merge-base --is-ancestor failed; merged/unmerged not determinable".to_owned(),
            );
        },
    }
    match &f.merge_tree {
        Some(MergeTree::Conflict) => {
            return (State::Conflict, "merge-tree reports conflicts".to_owned());
        },
        Some(MergeTree::Unsupported(why)) => {
            let mut m: String = "merge-tree unsupported: ".to_owned();
            m.append(why.as_str());
            return (State::Unknown, m);
        },
        Some(MergeTree::Clean) => {},
        None => {
            return (State::Unknown, "merge-tree not run (no HEAD to compare)".to_owned());
        },
    }
    match f.age_secs {
        Some(age) => {
            if age > stale_secs {
                let mut m: String = "merges cleanly but last commit is ".to_owned();
                push_dec(&mut m, age / 86400);
                m.append(" days old");
                (State::Stale, m)
            } else {
                (State::MergeReady, "merges cleanly".to_owned())
            }
        },
        None => (
            State::Unknown,
            "merges cleanly but last commit date unreadable; stale/merge-ready not determinable".to_owned(),
        ),
    }
}

/// A worktree is called merged or merge-ready only when nothing is uncommitted, every query
/// that decides it was answered, and the answer says so.
pub proof fn law_only_known_facts_make_a_worktree_removable(f: FactsView, stale_secs: u64)
    ensures
        ({
            let s = classified(f, stale_secs).0;
            &&& s == State::Merged || s == State::MergeReady ==> f.prunable is None
                && !f.branch_gone && f.dirty is None && f.query_failed is None && !f.detached
                && !f.is_base
            &&& s == State::Merged ==> f.is_ancestor == Some(true)
            &&& s == State::MergeReady ==> f.is_ancestor == Some(false) && f.merge_tree == Some(
                MergeView::Clean,
            ) && f.age_secs is Some && f.age_secs->0 <= stale_secs
        }),
{
}

/// One classified worktree.
#[derive(Debug, Clone)]
pub struct Report {
    pub state: State,
    pub path: TreePath,
    pub branch: Option<String>,
    pub head: Option<String>,
    pub ahead: Option<u64>,
    pub behind: Option<u64>,
    pub locked: Option<String>,
    pub last_commit_unix: Option<u64>,
    pub reason: String,
}

/// What a [`Report`] says.
pub struct ReportView {
    pub state: State,
    pub path: Seq<u8>,
    pub branch: Option<Seq<char>>,
    pub head: Option<Seq<char>>,
    pub ahead: Option<u64>,
    pub behind: Option<u64>,
    pub locked: Option<Seq<char>>,
    pub last_commit_unix: Option<u64>,
    pub reason: Seq<char>,
}

impl View for Report {
    type V = ReportView;

    open spec fn view(&self) -> ReportView {
        ReportView {
            state: self.state,
            path: self.path@,
            branch: opt_text(self.branch),
            head: opt_text(self.head),
            ahead: self.ahead,
            behind: self.behind,
            locked: opt_text(self.locked),
            last_commit_unix: self.last_commit_unix,
            reason: self.reason@,
        }
    }
}

/// The report on a repository's worktrees.
#[derive(Debug, Clone)]
pub struct DoctorReport {
    pub repo_root: TreePath,
    pub base: String,
    /// The ref or expression that was compared against.
    pub base_full: String,
    pub base_commit: String,
    pub base_source: String,
    pub main_path: Option<TreePath>,
    pub main_branch: Option<String>,
    pub worktrees: Vec<Report>,
}

/// What a [`DoctorReport`] says.
pub struct DoctorView {
    pub repo_root: Seq<u8>,
    pub base: Seq<char>,
    pub base_full: Seq<char>,
    pub base_commit: Seq<char>,
    pub base_source: Seq<char>,
    pub main_path: Option<Seq<u8>>,
    pub main_branch: Option<Seq<char>>,
    pub worktrees: Seq<ReportView>,
}

impl View for DoctorReport {
    type V = DoctorView;

    open spec fn view(&self) -> DoctorView {
        DoctorView {
            repo_root: self.repo_root@,
            base: self.base@,
            base_full: self.base_full@,
            base_commit: self.base_commit@,
            base_source: self.base_source@,
            main_path: match self.main_path {
                Some(p) => Some(p@),
                None => None,
            },
            main_branch: opt_text(self.main_branch),
            worktrees: views(self.worktrees@),
        }
    }
}

/// How a base names a branch.
#[derive(Debug, Clone)]
pub enum BaseBranch {
    Local(String),
    /// The remote and its branch.
    Remote(String, String),
}

/// What a [`BaseBranch`] says.
pub enum BranchView {
    Local(Seq<char>),
    Remote(Seq<char>, Seq<char>),
}

impl View for BaseBranch {
    type V = BranchView;

    open spec fn view(&self) -> BranchView {
        match self {
            BaseBranch::Local(b) => BranchView::Local(b@),
            BaseBranch::Remote(r, b) => BranchView::Remote(r@, b@),
        }
    }
}

/// The view of an optional branch.
pub open spec fn opt_branch(b: Option<BaseBranch>) -> Option<BranchView> {
    match b {
        Some(x) => Some(x@),
        None => None,
    }
}

/// What everything is compared against.
#[derive(Debug, Clone)]
pub struct Base {
    pub display: String,
    /// The branch that the base is, when it is one.
    pub branch: Option<BaseBranch>,
    pub full: String,
    pub commit: String,
    /// Which rule found it.
    pub source: String,
    /// Whether `full` is a ref rather than a revision expression.
    pub is_ref: bool,
}

/// What a [`Base`] says.
pub struct BaseView {
    pub display: Seq<char>,
    pub branch: Option<BranchView>,
    pub full: Seq<char>,
    pub commit: Seq<char>,
    pub source: Seq<char>,
    pub is_ref: bool,
}

impl View for Base {
    type V = BaseView;

    open spec fn view(&self) -> BaseView {
        BaseView {
            display: self.display@,
            branch: opt_branch(self.branch),
            full: self.full@,
            commit: self.commit@,
            source: self.source@,
            is_ref: self.is_ref,
        }
    }
}

/// Whether a worktree's branch is the base's branch: the same local branch, or for a
/// remote-tracking base the branch of that name at the base's commit.
pub open spec fn is_base_branch(branch: Seq<char>, commit: Seq<char>, base: BaseView) -> bool {
    match base.branch {
        Some(BranchView::Local(b)) => b == branch,
        Some(BranchView::Remote(_, b)) => b == branch && commit == base.commit,
        None => false,
    }
}

/// Whether a worktree's branch is the base's branch.
pub fn branch_is_base(branch: &str, local_commit: &str, base: &Base) -> (yes: bool)
    ensures
        yes == is_base_branch(branch@, local_commit@, base@),
{
    match &base.branch {
        Some(BaseBranch::Local(b)) => same_text(b.as_str(), branch),
        Some(BaseBranch::Remote(_, b)) => same_text(b.as_str(), branch) && same_text(
            local_commit,
            base.commit.as_str(),
        ),
        None => false,
    }
}

/// Whether the full name of the base says nothing that its display name does not.
pub open spec fn plainly(display: Seq<char>, full: Seq<char>) -> bool {
    display == full || full == "refs/heads/"@ + display || full == "refs/remotes/"@ + display
}

/// Whether the full name of the base says nothing that its display name does not.
pub fn base_is_plainly(display: &str, full: &str) -> (yes: bool)
    ensures
        yes == plainly(display@, full@),
{
    let mut local: String = "refs/heads/".to_owned();
    local.append(display);
    let mut remote: String = "refs/remotes/".to_owned();
    remote.append(display);
    same_text(display, full) || same_text(full, local.as_str()) || same_text(
        full,
        remote.as_str(),
    )
}

/// The tally of the worktrees from `i` on, added to `done`: how many there are of each
/// label.
pub open spec fn tallied_from(
    worktrees: Seq<ReportView>,
    i: int,
    done: Seq<(Seq<char>, usize)>,
) -> Seq<(Seq<char>, usize)>
    decreases worktrees.len() - i,
{
    if i >= worktrees.len() {
        done
    } else {
        tallied_from(worktrees, i + 1, counted(done, worktrees[i].state.label_text()))
    }
}

/// How many worktrees there are of each label.
pub open spec fn tallied(worktrees: Seq<ReportView>) -> Seq<(Seq<char>, usize)> {
    tallied_from(worktrees, 0, seq![])
}

/// How many worktrees there are of each state, by label.
pub fn counts(r: &DoctorReport) -> (m: OrdMap<String, usize>)
    ensures
        m.wf(),
        m@ == tallied(r@.worktrees),
{
    let mut m: OrdMap<String, usize> = OrdMap::new();
    let ghost wv = r@.worktrees;
    let mut i: usize = 0;
    while i < r.worktrees.len()
        invariant
            i <= r.worktrees.len(),
            wv == r@.worktrees,
            m.wf(),
            tallied(wv) == tallied_from(wv, i as int, m@),
            counts_at_most(m@, i as int),
        decreases r.worktrees.len() - i,
    {
        let label = r.worktrees[i].state.label();
        assert(wv[i as int].state.label_text() == label@);
        count_one(&mut m, label, i);
        i = i + 1;
    }
    m
}

/// A number for the report, or `?`.
pub open spec fn opt_number(n: Option<u64>) -> Seq<char> {
    match n {
        Some(v) => dec(v as nat),
        None => "?"@,
    }
}

/// A number for the report, or `?`.
pub fn fmt_opt(n: Option<u64>) -> (text: String)
    ensures
        text@ == opt_number(n),
{
    match n {
        Some(v) => crate::text::dec_text(v),
        None => "?".to_owned(),
    }
}

/// A branch for the report.
pub open spec fn branch_cell(b: Option<Seq<char>>) -> Seq<char> {
    escaped(
        match b {
            Some(name) => name,
            None => "(detached)"@,
        },
    )
}

/// The line of one worktree.
pub open spec fn report_line(w: ReportView) -> Seq<char> {
    w.state.label_text() + "\t"@ + escaped(lossy_text(w.path)) + "\t"@ + branch_cell(w.branch)
        + "\t"@ + opt_number(w.ahead) + "/"@ + opt_number(w.behind) + "\t"@ + escaped(w.reason)
        + "\n"@
}

/// The lines of the first `n` worktrees.
pub open spec fn report_lines(worktrees: Seq<ReportView>, n: nat) -> Seq<char>
    decreases n,
{
    if n == 0 {
        seq![]
    } else {
        report_lines(worktrees, (n - 1) as nat) + report_line(worktrees[n - 1])
    }
}

/// The items of the tally.
pub open spec fn tally_items(tally: Seq<(Seq<char>, usize)>) -> Seq<Seq<char>> {
    tally.map_values(|t: (Seq<char>, usize)| t.0 + " "@ + dec(t.1 as nat))
}

/// The tally in words.
pub open spec fn tally_text(tally: Seq<(Seq<char>, usize)>) -> Seq<char> {
    if tally.len() == 0 {
        "none"@
    } else {
        joined_with(tally_items(tally), ", "@)
    }
}

/// The summary line.
pub open spec fn summary_line(r: DoctorView) -> Seq<char> {
    "summary: "@ + dec(r.worktrees.len()) + " linked worktree(s) — "@ + tally_text(
        tallied(r.worktrees),
    ) + "; base "@ + r.base + (if plainly(r.base, r.base_full) {
        ""@
    } else {
        " ["@ + r.base_full + "]"@
    }) + " (from "@ + r.base_source + "); main "@ + escaped(
        match r.main_path {
            Some(p) => lossy_text(p),
            None => "?"@,
        },
    ) + " ("@ + branch_cell(r.main_branch) + "); report-only, nothing was changed\n"@
}

fn branch_text(b: &Option<String>) -> (cell: String)
    ensures
        cell@ == branch_cell(opt_text(*b)),
{
    match b {
        Some(name) => escape_cell(name.as_str()),
        None => escape_cell("(detached)"),
    }
}

fn one_line(w: &Report) -> (line: String)
    ensures
        line@ == report_line(w@),
{
    let mut s: String = w.state.label().to_owned();
    s.append("\t");
    let path = escape_cell(w.path.display().as_str());
    s.append(path.as_str());
    s.append("\t");
    let branch = branch_text(&w.branch);
    s.append(branch.as_str());
    s.append("\t");
    let ahead = fmt_opt(w.ahead);
    s.append(ahead.as_str());
    s.append("/");
    let behind = fmt_opt(w.behind);
    s.append(behind.as_str());
    s.append("\t");
    let reason = escape_cell(w.reason.as_str());
    s.append(reason.as_str());
    s.append("\n");
    s
}

fn tally_of(r: &DoctorReport) -> (text: String)
    ensures
        text@ == tally_text(tallied(r@.worktrees)),
{
    let c = counts(r);
    if c.entries.len() == 0 {
        return "none".to_owned();
    }
    let mut items: Vec<String> = Vec::new();
    let ghost wanted = tally_items(c@);
    let mut i: usize = 0;
    assert(views(items@) =~= wanted.take(0));
    while i < c.entries.len()
        invariant
            i <= c.entries.len(),
            wanted == tally_items(c@),
            views(items@) == wanted.take(i as int),
        decreases c.entries.len() - i,
    {
        let mut item: String = c.entries[i].0.clone();
        item.append(" ");
        push_dec(&mut item, c.entries[i].1 as u64);
        let ghost before = views(items@);
        items.push(item);
        proof {
            assert(c@[i as int] == (c.entries@[i as int].0@, c.entries@[i as int].1));
            assert(views(items@) =~= before.push(item@));
            assert(wanted.take(i + 1) =~= wanted.take(i as int).push(wanted[i as int]));
        }
        i = i + 1;
    }
    assert(wanted.take(c.entries.len() as int) =~= wanted);
    join(&items, ", ")
}

/// The human report: one line per linked worktree, then the summary.
pub fn format_human(r: &DoctorReport) -> (text: String)
    ensures
        text@ == report_lines(r@.worktrees, r@.worktrees.len()) + summary_line(r@),
{
    let mut s: String = String::new();
    let ghost wv = r@.worktrees;
    let mut i: usize = 0;
    while i < r.worktrees.len()
        invariant
            i <= r.worktrees.len(),
            wv == r@.worktrees,
            s@ == report_lines(wv, i as nat),
        decreases r.worktrees.len() - i,
    {
        let line = one_line(&r.worktrees[i]);
        assert(wv[i as int] == r.worktrees@[i as int]@);
        s.append(line.as_str());
        i = i + 1;
    }
    let mut t: String = "summary: ".to_owned();
    push_dec(&mut t, r.worktrees.len() as u64);
    t.append(" linked worktree(s) — ");
    let tally = tally_of(r);
    t.append(tally.as_str());
    t.append("; base ");
    t.append(r.base.as_str());
    if base_is_plainly(r.base.as_str(), r.base_full.as_str()) {
        t.append("");
    } else {
        let mut full: String = " [".to_owned();
        full.append(r.base_full.as_str());
        full.append("]");
        t.append(full.as_str());
    }
    t.append(" (from ");
    t.append(r.base_source.as_str());
    t.append("); main ");
    let main_path = match &r.main_path {
        Some(p) => escape_cell(p.display().as_str()),
        None => escape_cell("?"),
    };
    t.append(main_path.as_str());
    t.append(" (");
    let main_branch = branch_text(&r.main_branch);
    t.append(main_branch.as_str());
    t.append("); report-only, nothing was changed\n");
    s.append(t.as_str());
    s
}

/// What the `*` of a refspec pattern stands for when it matches `s`: nothing for a literal
/// match.
pub open spec fn glob_text(pattern: Seq<char>, s: Seq<char>) -> Option<Seq<char>> {
    match split_at_char(pattern, '*') {
        Some((pre, suf)) => match after_prefix(s, pre) {
            Some(r) => before_suffix(r, suf),
            None => None,
        },
        None => if pattern == s {
            Some(seq![])
        } else {
            None
        },
    }
}

/// Matches `s` against a refspec pattern with at most one `*`; the text it stands for.
pub fn glob_match(pattern: &str, s: &str) -> (mid: Option<String>)
    ensures
        match mid {
            Some(m) => glob_text(pattern@, s@) == Some(m@),
            None => glob_text(pattern@, s@) is None,
        },
{
    match split_once(pattern, '*') {
        Some((pre, suf)) => match strip_prefix(s, pre.as_str()) {
            Some(r) => strip_suffix(r.as_str(), suf.as_str()),
            None => None,
        },
        None => if same_text(pattern, s) {
            Some(String::new())
        } else {
            None
        },
    }
}

/// `c` in lower case, when it is an ASCII letter.
pub open spec fn ascii_lower(c: char) -> char {
    if 'A' <= c && c <= 'Z' {
        ((c as u32) + 32) as char
    } else {
        c
    }
}

/// `s` with its ASCII letters in lower case.
pub open spec fn ascii_lowered(s: Seq<char>) -> Seq<char> {
    s.map_values(|c: char| ascii_lower(c))
}

fn to_ascii_lower(s: &str) -> (t: String)
    ensures
        t@ == ascii_lowered(s@),
{
    let chars = chars_of(s);
    let mut t: String = String::new();
    let mut i: usize = 0;
    assert(t@ =~= ascii_lowered(chars@).take(0));
    while i < chars.len()
        invariant
            i <= chars.len(),
            chars@ == s@,
            t@ == ascii_lowered(chars@).take(i as int),
        decreases chars.len() - i,
    {
        let c = chars[i];
        if 'A' <= c && c <= 'Z' {
            let u: u8 = (c as u32) as u8;
            t.push((u + 32) as char);
        } else {
            t.push(c);
        }
        assert(ascii_lowered(chars@).take(i + 1) =~= ascii_lowered(chars@).take(i as int).push(
            ascii_lower(c),
        ));
        i = i + 1;
    }
    assert(ascii_lowered(chars@).take(chars.len() as int) =~= ascii_lowered(chars@));
    t
}

/// Whether a suffix selects by a branch's configuration: `@{upstream}`, `@{u}` or
/// `@{push}` in any case, perhaps with more behind it.
pub open spec fn selects_branch_config(rest: Seq<char>) -> bool {
    match after_prefix(rest, "@{"@) {
        None => false,
        Some(inner) => {
            let end = find_char(inner, '}', 0);
            if end >= inner.len() {
                false
            } else {
                let word = ascii_lowered(inner.take(end));
                word == "upstream"@ || word == "u"@ || word == "push"@
            }
        },
    }
}

/// Whether a suffix selects by a branch's configuration.
pub fn is_branch_config_selector(rest: &str) -> (yes: bool)
    ensures
        yes == selects_branch_config(rest@),
{
    let inner = match strip_prefix(rest, "@{") {
        Some(inner) => inner,
        None => {
            return false;
        },
    };
    let chars = chars_of(inner.as_str());
    let end = char_from(&chars, '}', 0);
    if end >= chars.len() {
        return false;
    }
    let word = text_of(&chars, 0, end);
    assert(word@ =~= chars@.take(end as int));
    let low = to_ascii_lower(word.as_str());
    same_text(low.as_str(), "upstream") || same_text(low.as_str(), "u") || same_text(
        low.as_str(),
        "push",
    )
}

/// Whether `b` is a hex digit.
pub open spec fn is_hex_byte(b: u8) -> bool {
    (48 <= b && b <= 57) || (65 <= b && b <= 70) || (97 <= b && b <= 102)
}

/// The index of the first byte at or after `from` that is one of two, or the length.
pub open spec fn byte_from(s: Seq<u8>, a: u8, b: u8, from: int) -> int
    decreases s.len() - from,
{
    if from >= s.len() {
        s.len() as int
    } else if s[from] == a || s[from] == b {
        from
    } else {
        byte_from(s, a, b, from + 1)
    }
}

/// The first line of `bytes`, without a trailing carriage return.
pub open spec fn first_line(bytes: Seq<u8>) -> Seq<u8> {
    let line = bytes.take(byte_from(bytes, 10, 10, 0));
    if line.len() > 0 && line.last() == 13 {
        line.drop_last()
    } else {
        line
    }
}

/// Whether a file's contents are those of a ref: `ref: refs/...`, or an object id as the
/// first token of the first line.
pub open spec fn is_ref_file(bytes: Seq<u8>) -> bool {
    let first = first_line(bytes);
    if begins_with(first, seq![114u8, 101, 102, 58, 32]) {
        begins_with(first.skip(5), seq![114u8, 101, 102, 115, 47])
    } else {
        let id = first.take(byte_from(first, 9, 32, 0));
        (id.len() == 40 || id.len() == 64) && forall|i: int|
            0 <= i < id.len() ==> is_hex_byte(#[trigger] id[i])
    }
}

fn index_of_byte(s: &[u8], a: u8, b: u8) -> (at: usize)
    ensures
        at == byte_from(s@, a, b, 0),
        at <= s.len(),
{
    let mut at: usize = 0;
    while at < s.len() && s[at] != a && s[at] != b
        invariant
            at <= s.len(),
            byte_from(s@, a, b, 0) == byte_from(s@, a, b, at as int),
        decreases s.len() - at,
    {
        at = at + 1;
    }
    at
}

/// Whether a file in the git directory is a ref, by its contents.
pub fn looks_like_ref_file(bytes: &[u8]) -> (yes: bool)
    ensures
        yes == is_ref_file(bytes@),
{
    let mut end = index_of_byte(bytes, 10, 10);
    assert(bytes@.take(end as int).len() == end);
    if end > 0 && bytes[end - 1] == 13 {
        proof {
            assert(bytes@.take(end as int).last() == 13);
            assert(bytes@.take(end as int).drop_last() =~= bytes@.take(end - 1));
        }
        end = end - 1;
    } else if end > 0 {
        assert(bytes@.take(end as int).last() == bytes@[end - 1]);
    }
    let first = slice_copy(bytes, 0, end);
    assert(first@ =~= first_line(bytes@));
    let marker: Vec<u8> = vec![114, 101, 102, 58, 32];
    let refs: Vec<u8> = vec![114, 101, 102, 115, 47];
    assert(marker@ =~= seq![114u8, 101, 102, 58, 32]);
    assert(refs@ =~= seq![114u8, 101, 102, 115, 47]);
    if bytes_begin_with(first.as_slice(), marker.as_slice()) {
        let target = slice_copy(first.as_slice(), 5, first.len());
        assert(target@ =~= first@.skip(5));
        return bytes_begin_with(target.as_slice(), refs.as_slice());
    }
    let n = index_of_byte(first.as_slice(), 9, 32);
    let ghost id = first@.take(n as int);
    if n != 40 && n != 64 {
        return false;
    }
    let mut i: usize = 0;
    while i < n
        invariant
            i <= n <= first.len(),
            n == 40 || n == 64,
            first@ == first_line(bytes@),
            !begins_with(first@, seq![114u8, 101, 102, 58, 32]),
            n == byte_from(first@, 9, 32, 0),
            id == first@.take(n as int),
            forall|k: int| 0 <= k < i ==> is_hex_byte(#[trigger] id[k]),
        decreases n - i,
    {
        let b = first[i];
        assert(id[i as int] == b);
        if !((48 <= b && b <= 57) || (65 <= b && b <= 70) || (97 <= b && b <= 102)) {
            assert(!is_hex_byte(id[i as int]));
            return false;
        }
        i = i + 1;
    }
    true
}

/// A worktree of the report for programs.
pub open spec fn report_json(w: ReportView) -> JsonView {
    no_fields()
        .with("state"@, JsonView::Text(w.state.label_text()))
        .with("path"@, JsonView::Text(lossy_text(w.path)))
        .with("branch"@, text_or_null(w.branch))
        .with("head"@, text_or_null(w.head))
        .with("ahead"@, number_or_null(w.ahead))
        .with("behind"@, number_or_null(w.behind))
        .with("locked"@, JsonView::Bool(w.locked is Some))
        .with("lock_reason"@, text_or_null(w.locked))
        .with("last_commit_unix"@, number_or_null(w.last_commit_unix))
        .with("reason"@, JsonView::Text(w.reason))
}

/// The report for programs.
pub open spec fn doctor_json(r: DoctorView) -> JsonView {
    let main = no_fields()
        .with(
            "path"@,
            match r.main_path {
                Some(p) => JsonView::Text(lossy_text(p)),
                None => JsonView::Null,
            },
        )
        .with("branch"@, text_or_null(r.main_branch));
    no_fields()
        .with("repo_root"@, JsonView::Text(lossy_text(r.repo_root)))
        .with("base"@, JsonView::Text(r.base))
        .with("base_full"@, JsonView::Text(r.base_full))
        .with("base_commit"@, JsonView::Text(r.base_commit))
        .with("base_source"@, JsonView::Text(r.base_source))
        .with("main"@, main)
        .with(
            "worktrees"@,
            JsonView::List(r.worktrees.map_values(|w: ReportView| report_json(w))),
        )
        .with("counts"@, counts_object(tallied(r.worktrees)))
        .with("report_only"@, JsonView::Bool(true))
}

fn report_value(w: &Report) -> (j: Json)
    ensures
        j@ == report_json(w@),
{
    Json::object()
        .with("state", Json::text(w.state.label()))
        .with("path", Json::text(w.path.display().as_str()))
        .with("branch", Json::text_or_null(&w.branch))
        .with("head", Json::text_or_null(&w.head))
        .with("ahead", Json::number_or_null(w.ahead))
        .with("behind", Json::number_or_null(w.behind))
        .with("locked", Json::Bool(w.locked.is_some()))
        .with("lock_reason", Json::text_or_null(&w.locked))
        .with("last_commit_unix", Json::number_or_null(w.last_commit_unix))
        .with("reason", Json::text(w.reason.as_str()))
}

/// The report for programs.
pub fn to_json(r: &DoctorReport) -> (j: Json)
    ensures
        j@ == doctor_json(r@),
{
    let ghost all = r@.worktrees.map_values(|w: ReportView| report_json(w));
    let mut list: Vec<Json> = Vec::new();
    let mut i: usize = 0;
    while i < r.worktrees.len()
        invariant
            i <= r.worktrees.len(),
            all == r@.worktrees.map_values(|w: ReportView| report_json(w)),
            views(list@) == all.take(i as int),
        decreases r.worktrees.len() - i,
    {
        let ghost before = list@;
        let value = report_value(&r.worktrees[i]);
        list.push(value);
        proof {
            assert(all[i as int] == value@);
            assert(all.take(i + 1) =~= all.take(i as int).push(value@));
            assert(views(list@) =~= views(before).push(value@));
        }
        i = i + 1;
    }
    assert(all.take(r.worktrees.len() as int) =~= all);
    let path = match &r.main_path {
        Some(p) => Json::text(p.display().as_str()),
        None => Json::Null,
    };
    let main = Json::object().with("path", path).with("branch", Json::text_or_null(&r.main_branch));
    Json::object()
        .with("repo_root", Json::text(r.repo_root.display().as_str()))
        .with("base", Json::text(r.base.as_str()))
        .with("base_full", Json::text(r.base_full.as_str()))
        .with("base_commit", Json::text(r.base_commit.as_str()))
        .with("base_source", Json::text(r.base_source.as_str()))
        .with("main", main)
        .with("worktrees", Json::list(list))
        .with("counts", Json::counts(&counts(r)))
        .with("report_only", Json::Bool(true))
}

/// A worktree's state follows from its facts, one state for all: git's own word that it is gone
/// goes before a branch that is gone, that before uncommitted work, that before a failed
/// lookup, that before a detached head, and that before the base branch itself. Of the rest
/// only one that is contained in the base is merged, only one that merges with conflicts is a
/// conflict, only one that merges cleanly is stale or ready by its age, and any answer that is
/// missing makes it unknown.
pub proof fn law_every_state_has_its_facts(f: FactsView, stale_secs: u64)
    ensures
        ({
            let s = classified(f, stale_secs).0;
            let there = f.prunable is None && !f.branch_gone;
            let plain = there && f.dirty is None && f.query_failed is None && !f.detached
                && !f.is_base;
            let apart = plain && f.is_ancestor == Some(false);
            let clean = apart && f.merge_tree == Some(MergeView::Clean);
            &&& s == State::Prunable <==> f.prunable is Some
            &&& s == State::Dirty <==> there && f.dirty is Some
            &&& s == State::Detached <==> there && f.dirty is None && f.query_failed is None
                && f.detached
            &&& s == State::Base <==> there && f.dirty is None && f.query_failed is None
                && !f.detached && f.is_base
            &&& s == State::Merged <==> plain && f.is_ancestor == Some(true)
            &&& s == State::Conflict <==> apart && f.merge_tree == Some(MergeView::Conflict)
            &&& s == State::MergeReady <==> clean && f.age_secs is Some && f.age_secs->0
                <= stale_secs
            &&& s == State::Stale <==> f.prunable is None && f.branch_gone || clean && f.age_secs
                is Some && f.age_secs->0 > stale_secs
            &&& s == State::Unknown <==> there && f.dirty is None && (f.query_failed is Some
                || plain && (f.is_ancestor is None || apart && (f.merge_tree is None
                || f.merge_tree->0 is Unsupported || clean && f.age_secs is None)))
        }),
{
}

/// The zero-separated fields of a listing, from byte `from` on.
pub open spec fn fields_from(raw: Seq<u8>, from: int) -> Seq<Seq<u8>>
    decreases raw.len() - from,
    when 0 <= from
{
    let end = zero_from(raw, from);
    if from > raw.len() || end >= raw.len() || end < from {
        seq![raw.skip(from)]
    } else {
        seq![raw.subrange(from, end)] + fields_from(raw, end + 1)
    }
}

proof fn lemma_zero_from(raw: Seq<u8>, from: int)
    requires
        0 <= from <= raw.len(),
    ensures
        from <= zero_from(raw, from) <= raw.len(),
        zero_from(raw, from) < raw.len() ==> raw[zero_from(raw, from)] == 0,
        forall|i: int| from <= i < zero_from(raw, from) ==> #[trigger] raw[i] != 0,
    decreases raw.len() - from,
{
    if from < raw.len() && raw[from] != 0 {
        lemma_zero_from(raw, from + 1);
    }
}

/// The fields of a listing hold all of its bytes but the zeros between them, in their order,
/// and no zero.
pub proof fn law_fields_are_what_stands_between_zeros(raw: Seq<u8>, from: int)
    requires
        0 <= from <= raw.len(),
    ensures
        fields_from(raw, from).map_values(|f: Seq<u8>| f.push(0u8)).flatten() == raw.skip(
            from,
        ).push(0u8),
        forall|k: int, i: int|
            0 <= k < fields_from(raw, from).len() && 0 <= i < fields_from(raw, from)[k].len()
                ==> #[trigger] fields_from(raw, from)[k][i] != 0,
    decreases raw.len() - from,
{
    let closed = |f: Seq<u8>| f.push(0u8);
    let all = fields_from(raw, from);
    let end = zero_from(raw, from);
    lemma_zero_from(raw, from);
    if end >= raw.len() {
        let mapped = all.map_values(closed);
        assert(all == seq![raw.skip(from)]);
        assert(mapped.first() == raw.skip(from).push(0u8));
        assert(mapped.drop_first() =~= Seq::<Seq<u8>>::empty());
        assert(mapped.drop_first().flatten() =~= Seq::<u8>::empty());
        assert(mapped.flatten() =~= raw.skip(from).push(0u8));
        assert forall|k: int, i: int| 0 <= k < all.len() && 0 <= i < all[k].len() implies
            #[trigger] all[k][i] != 0 by {
            assert(all[k][i] == raw[from + i]);
        }
    } else {
        let first = raw.subrange(from, end);
        let tail = fields_from(raw, end + 1);
        law_fields_are_what_stands_between_zeros(raw, end + 1);
        assert(all == seq![first] + tail);
        let mapped = all.map_values(closed);
        assert(mapped.first() == first.push(0u8));
        assert(mapped.drop_first() =~= tail.map_values(closed));
        assert(mapped.flatten() =~= first.push(0u8) + raw.skip(end + 1).push(0u8));
        assert(raw.skip(from).push(0u8) =~= first.push(0u8) + raw.skip(end + 1).push(0u8));
        assert forall|k: int, i: int| 0 <= k < all.len() && 0 <= i < all[k].len() implies
            #[trigger] all[k][i] != 0 by {
            if k == 0 {
                assert(all[k][i] == raw[from + i]);
            } else {
                assert(all[k] == tail[k - 1]);
                assert(tail[k - 1][i] != 0);
            }
        }
    }
}

/// The record that fields make from `k` on: the attributes up to the next record, or to the
/// empty field that ends it.
pub open spec fn record_from(fields: Seq<Seq<u8>>, k: int, e: WorktreeView) -> WorktreeView
    decreases fields.len() - k,
{
    if k >= fields.len() || fields[k].len() == 0 || begins_with(fields[k], worktree_prefix()) {
        e
    } else {
        record_from(fields, k + 1, with_attribute(e, lossy_text(fields[k])))
    }
}

/// The records that a field opens: one for a `worktree` field, with its path and its
/// attributes.
pub open spec fn opened_by(fields: Seq<Seq<u8>>, k: int) -> Seq<WorktreeView> {
    if fields[k].len() > 0 && begins_with(fields[k], worktree_prefix()) {
        seq![record_from(fields, k + 1, fresh_entry(fields[k].skip(9)))]
    } else {
        seq![]
    }
}

/// The records that the fields from `k` on open.
pub open spec fn records_from(fields: Seq<Seq<u8>>, k: int) -> Seq<WorktreeView> {
    Seq::new((fields.len() - k) as nat, |j: int| opened_by(fields, k + j)).flatten()
}

/// A listing after the fields from `k` on.
spec fn after_fields(l: Listing, fields: Seq<Seq<u8>>, k: int) -> Listing
    decreases fields.len() - k,
{
    if k >= fields.len() {
        l
    } else {
        after_fields(after_field(l, fields[k]), fields, k + 1)
    }
}

proof fn lemma_listed_fields(raw: Seq<u8>, from: int, l: Listing)
    requires
        0 <= from <= raw.len(),
    ensures
        listed_from(raw, from, l) == after_fields(l, fields_from(raw, from), 0),
    decreases raw.len() - from,
{
    let end = zero_from(raw, from);
    let all = fields_from(raw, from);
    lemma_zero_from(raw, from);
    reveal_with_fuel(after_fields, 2);
    if end < raw.len() {
        let tail = fields_from(raw, end + 1);
        let next = after_field(l, raw.subrange(from, end));
        lemma_listed_fields(raw, end + 1, next);
        assert(all == seq![raw.subrange(from, end)] + tail);
        lemma_fields_shift(next, all, tail, 0);
    }
}

proof fn lemma_fields_shift(l: Listing, all: Seq<Seq<u8>>, tail: Seq<Seq<u8>>, k: int)
    requires
        all.len() == tail.len() + 1,
        0 <= k <= tail.len(),
        forall|j: int| 0 <= j < tail.len() ==> #[trigger] tail[j] == all[j + 1],
    ensures
        after_fields(l, all, k + 1) == after_fields(l, tail, k),
    decreases tail.len() - k,
{
    if k < tail.len() {
        assert(tail[k] == all[k + 1]);
        lemma_fields_shift(after_field(l, tail[k]), all, tail, k + 1);
    }
}

proof fn lemma_records(l: Listing, fields: Seq<Seq<u8>>, k: int)
    requires
        0 <= k <= fields.len(),
    ensures
        closed_listing(after_fields(l, fields, k)).done == l.done + (match l.open {
            Some(e) => seq![record_from(fields, k, e)],
            None => seq![],
        }) + records_from(fields, k),
    decreases fields.len() - k,
{
    let out = closed_listing(after_fields(l, fields, k)).done;
    let open = match l.open {
        Some(e) => seq![record_from(fields, k, e)],
        None => seq![],
    };
    let each = Seq::new((fields.len() - k) as nat, |j: int| opened_by(fields, k + j));
    if k < fields.len() {
        let next = after_field(l, fields[k]);
        lemma_records(next, fields, k + 1);
        let later = Seq::new(
            (fields.len() - (k + 1)) as nat,
            |j: int| opened_by(fields, k + 1 + j),
        );
        assert(each.first() == opened_by(fields, k));
        assert(each.drop_first() =~= later);
        assert(records_from(fields, k) == opened_by(fields, k) + records_from(fields, k + 1));
        assert(out =~= l.done + open + records_from(fields, k));
    } else {
        assert(each =~= Seq::<Seq<WorktreeView>>::empty());
        assert(records_from(fields, k) =~= Seq::<WorktreeView>::empty());
        assert(out =~= l.done + open + records_from(fields, k));
    }
}

/// A listing is read whole: it has one record for every `worktree` field, in their order, with
/// that field's path and with every attribute up to the end of the record.
pub proof fn law_a_listing_has_a_record_for_every_worktree(raw: Seq<u8>)
    ensures
        listed(raw) == records_from(fields_from(raw, 0), 0),
{
    let none = Listing { done: seq![], open: None };
    lemma_listed_fields(raw, 0, none);
    lemma_records(none, fields_from(raw, 0), 0);
    assert(listed(raw) =~= records_from(fields_from(raw, 0), 0));
}

proof fn lemma_tallied(worktrees: Seq<ReportView>, i: int, done: Seq<(Seq<char>, usize)>)
    requires
        0 <= i <= worktrees.len(),
        done == counts_of(labels_of(worktrees.take(i))),
    ensures
        tallied_from(worktrees, i, done) == counts_of(labels_of(worktrees)),
    decreases worktrees.len() - i,
{
    if i < worktrees.len() {
        let before = labels_of(worktrees.take(i));
        let now = labels_of(worktrees.take(i + 1));
        assert(now.drop_last() =~= before);
        assert(now.last() == worktrees[i].state.label_text());
        lemma_tallied(worktrees, i + 1, counted(done, worktrees[i].state.label_text()));
    } else {
        assert(worktrees.take(i) =~= worktrees);
    }
}

/// The labels of the worktrees, in their order.
pub open spec fn labels_of(worktrees: Seq<ReportView>) -> Seq<Seq<char>> {
    worktrees.map_values(|w: ReportView| w.state.label_text())
}

/// The tally counts every worktree once under its state: under each label stands how many
/// worktrees have it, and a label that none has does not stand there.
pub proof fn law_the_tally_counts_every_worktree(worktrees: Seq<ReportView>, label: Seq<char>)
    requires
        worktrees.len() <= usize::MAX,
    ensures
        ({
            let n = labels_of(worktrees).to_multiset().count(label);
            lookup::<String, usize>(tallied(worktrees), text_rank(label)) == if n == 0 {
                None
            } else {
                Some(n as usize)
            }
        }),
        keys_ascend::<String, usize>(tallied(worktrees)),
{
    assert(labels_of(worktrees.take(0)) =~= Seq::<Seq<char>>::empty());
    lemma_tallied(worktrees, 0, seq![]);
    lemma_counts_of(labels_of(worktrees), label);
}

/// The report has a line for every worktree, one behind the other in their order.
pub proof fn law_every_worktree_has_its_line(worktrees: Seq<ReportView>, n: nat)
    requires
        n <= worktrees.len(),
    ensures
        report_lines(worktrees, n) == worktrees.take(n as int).map_values(
            |w: ReportView| report_line(w),
        ).flatten(),
    decreases n,
{
    let line = |w: ReportView| report_line(w);
    let now = worktrees.take(n as int).map_values(line);
    if n > 0 {
        let before = worktrees.take(n - 1).map_values(line);
        law_every_worktree_has_its_line(worktrees, (n - 1) as nat);
        now.lemma_flatten_and_flatten_alt_are_equivalent();
        before.lemma_flatten_and_flatten_alt_are_equivalent();
        assert(now.drop_last() =~= before);
        assert(now.last() == report_line(worktrees[n - 1]));
    } else {
        assert(now =~= Seq::<Seq<char>>::empty());
    }
}

/// An escaped cell can be read back: no two texts escape to the same cell.
pub proof fn law_escaping_is_injective(a: Seq<char>, b: Seq<char>)
    requires
        escaped(a) == escaped(b),
    ensures
        a == b,
    decreases a.len() + b.len(),
{
    lemma_escape_first(a);
    lemma_escape_first(b);
    if a.len() == 0 || b.len() == 0 {
        assert(a =~= b);
    } else {
        let (ea, eb) = (escaped_char(a[0]), escaped_char(b[0]));
        assert(escaped(a)[0] == ea[0] && escaped(b)[0] == eb[0]);
        if ea.len() == 2 && eb.len() == 2 {
            assert(escaped(a)[1] == ea[1] && escaped(b)[1] == eb[1]);
        }
        assert(a[0] == b[0]);
        let (ra, rb) = (a.skip(1), b.skip(1));
        assert(escaped(ra) =~= escaped(a).skip(ea.len() as int));
        assert(escaped(rb) =~= escaped(b).skip(eb.len() as int));
        law_escaping_is_injective(ra, rb);
        assert(a =~= seq![a[0]] + ra);
        assert(b =~= seq![b[0]] + rb);
    }
}

proof fn lemma_escape_first(s: Seq<char>)
    ensures
        s.len() > 0 ==> escaped(s) == escaped_char(s[0]) + escaped(s.skip(1)),
        s.len() == 0 <==> escaped(s).len() == 0,
    decreases s.len(),
{
    if s.len() > 0 {
        let rest = s.drop_last();
        lemma_escape_first(rest);
        if rest.len() > 0 {
            assert(s.skip(1).drop_last() =~= rest.skip(1));
            assert(s.skip(1).last() == s.last());
            assert(escaped(s) =~= escaped_char(s[0]) + escaped(s.skip(1)));
        } else {
            assert(s.skip(1) =~= Seq::<char>::empty());
            assert(rest =~= Seq::<char>::empty());
            assert(escaped(s) =~= escaped_char(s[0]) + escaped(s.skip(1)));
        }
    }
}

/// Whether a value tells of a worktree.
pub open spec fn tells_of_worktree(j: JsonView, w: ReportView) -> bool {
    &&& field_of(j, "state"@) == Some(JsonView::Text(w.state.label_text()))
    &&& field_of(j, "path"@) == Some(JsonView::Text(lossy_text(w.path)))
    &&& field_of(j, "branch"@) == Some(text_or_null(w.branch))
    &&& field_of(j, "head"@) == Some(text_or_null(w.head))
    &&& field_of(j, "ahead"@) == Some(number_or_null(w.ahead))
    &&& field_of(j, "behind"@) == Some(number_or_null(w.behind))
    &&& field_of(j, "reason"@) == Some(JsonView::Text(w.reason))
}

proof fn lemma_report_fields(w: ReportView)
    ensures
        tells_of_worktree(report_json(w), w),
{
    reveal_strlit("state");
    reveal_strlit("path");
    reveal_strlit("branch");
    reveal_strlit("head");
    reveal_strlit("ahead");
    reveal_strlit("behind");
    reveal_strlit("locked");
    reveal_strlit("lock_reason");
    reveal_strlit("last_commit_unix");
    reveal_strlit("reason");
    assert("state"@.len() == 5);
    assert("path"@.len() == 4);
    assert("branch"@.len() == 6);
    assert("head"@.len() == 4);
    assert("ahead"@.len() == 5);
    assert("behind"@.len() == 6);
    assert("locked"@.len() == 6);
    assert("lock_reason"@.len() == 11);
    assert("last_commit_unix"@.len() == 16);
    assert("reason"@.len() == 6);
    assert("path"@[0] != "head"@[0]);
    assert("state"@[0] != "ahead"@[0]);
    assert("branch"@[1] != "behind"@[1]);
    assert("branch"@[0] != "locked"@[0]);
    assert("behind"@[0] != "locked"@[0]);
    assert("branch"@[0] != "reason"@[0]);
    assert("behind"@[0] != "reason"@[0]);
    assert("locked"@[0] != "reason"@[0]);
    let fields = report_json(w)->Object_0;
    law_a_field_is_found_under_its_key(fields, "state"@, 0);
    law_a_field_is_found_under_its_key(fields, "path"@, 1);
    law_a_field_is_found_under_its_key(fields, "branch"@, 2);
    law_a_field_is_found_under_its_key(fields, "head"@, 3);
    law_a_field_is_found_under_its_key(fields, "ahead"@, 4);
    law_a_field_is_found_under_its_key(fields, "behind"@, 5);
    law_a_field_is_found_under_its_key(fields, "reason"@, 9);
}

/// The report tells programs of every worktree, in order, with its state and why, its path,
/// its branch and how far it is from the base.
pub proof fn law_the_report_tells_of_every_worktree(r: DoctorView)
    ensures
        field_of(doctor_json(r), "worktrees"@) matches Some(JsonView::List(items)) && items.len()
            == r.worktrees.len() && forall|i: int|
            0 <= i < items.len() ==> tells_of_worktree(#[trigger] items[i], r.worktrees[i]),
{
    reveal_strlit("repo_root");
    reveal_strlit("base");
    reveal_strlit("base_full");
    reveal_strlit("base_commit");
    reveal_strlit("base_source");
    reveal_strlit("main");
    reveal_strlit("worktrees");
    assert("repo_root"@.len() == 9);
    assert("base"@.len() == 4);
    assert("base_full"@.len() == 9);
    assert("base_commit"@.len() == 11);
    assert("base_source"@.len() == 11);
    assert("main"@.len() == 4);
    assert("worktrees"@.len() == 9);
    assert("repo_root"@[0] != "base_full"@[0]);
    assert("base_commit"@[5] != "base_source"@[5]);
    assert("base"@[0] != "main"@[0]);
    assert("repo_root"@[0] != "worktrees"@[0]);
    assert("base_full"@[0] != "worktrees"@[0]);
    let fields = doctor_json(r)->Object_0;
    law_a_field_is_found_under_its_key(fields, "worktrees"@, 6);
    let items = r.worktrees.map_values(|w: ReportView| report_json(w));
    assert forall|i: int| 0 <= i < items.len() implies tells_of_worktree(
        #[trigger] items[i],
        r.worktrees[i],
    ) by {
        lemma_report_fields(r.worktrees[i]);
    }
}

/// What an attribute line says is read back, and nothing else of the record changes: the
/// commit, the branch, the reason of a lock and why it can be pruned.
pub proof fn law_attributes_read_back(e: WorktreeView, said: Seq<char>)
    ensures
        with_attribute(e, "HEAD "@ + said) == (WorktreeView { head: Some(said), ..e }),
        with_attribute(e, "branch refs/heads/"@ + said) == (WorktreeView {
            branch: Some(said),
            ..e
        }),
        with_attribute(e, "locked "@ + said) == (WorktreeView { locked: Some(said), ..e }),
        with_attribute(e, "prunable "@ + said) == (WorktreeView { prunable: Some(said), ..e }),
        with_attribute(e, "detached"@) == (WorktreeView { detached: true, ..e }),
{
    reveal_strlit("HEAD ");
    reveal_strlit("branch ");
    reveal_strlit("refs/heads/");
    reveal_strlit("branch refs/heads/");
    reveal_strlit("locked ");
    reveal_strlit("prunable ");
    reveal_strlit("detached");
    reveal_strlit("bare");
    reveal_strlit("locked");
    reveal_strlit("prunable");
    lemma_prefixed("HEAD "@, said);
    let full = "refs/heads/"@ + said;
    assert("branch refs/heads/"@ =~= "branch "@ + "refs/heads/"@);
    assert("branch refs/heads/"@ + said =~= "branch "@ + full);
    lemma_prefixed("branch "@, full);
    lemma_prefixed("refs/heads/"@, said);
    lemma_prefixed("locked "@, said);
    lemma_prefixed("prunable "@, said);
    lemma_other_start("branch "@ + full, "HEAD "@, 'b', 'H');
    lemma_other_start("locked "@ + said, "HEAD "@, 'l', 'H');
    lemma_other_start("locked "@ + said, "branch "@, 'l', 'b');
    lemma_other_start("prunable "@ + said, "HEAD "@, 'p', 'H');
    lemma_other_start("prunable "@ + said, "branch "@, 'p', 'b');
    lemma_other_start("prunable "@ + said, "locked "@, 'p', 'l');
    lemma_other_start("detached"@, "HEAD "@, 'd', 'H');
    lemma_other_start("detached"@, "branch "@, 'd', 'b');
    assert(("locked "@ + said)[0] == 'l' && ("locked "@ + said).len() >= 7);
    assert(("prunable "@ + said)[0] == 'p' && ("prunable "@ + said).len() >= 9);
    assert("detached"@[0] == 'd' && "bare"@[0] == 'b' && "locked"@[0] == 'l' && "prunable"@[0]
        == 'p');
    assert("locked"@.len() == 6 && "prunable"@.len() == 8);
}

proof fn lemma_prefixed(prefix: Seq<char>, rest: Seq<char>)
    ensures
        begins_with(prefix + rest, prefix),
        (prefix + rest).skip(prefix.len() as int) == rest,
{
    assert((prefix + rest).take(prefix.len() as int) =~= prefix);
    assert((prefix + rest).skip(prefix.len() as int) =~= rest);
}

proof fn lemma_other_start(s: Seq<char>, prefix: Seq<char>, a: char, b: char)
    requires
        s.len() > 0 && s[0] == a,
        prefix.len() > 0 && prefix[0] == b,
        a != b,
    ensures
        !begins_with(s, prefix),
{
    if begins_with(s, prefix) {
        assert(s.take(prefix.len() as int)[0] == s[0]);
    }
}

/// A branch is the base only by name, and for a remote base only at the very commit of the
/// base: with anything to merge it is never taken for it.
pub proof fn law_a_branch_ahead_is_not_the_base(
    branch: Seq<char>,
    commit: Seq<char>,
    base: BaseView,
)
    ensures
        is_base_branch(branch, commit, base) <==> base.branch == Some(BranchView::Local(branch))
            || commit == base.commit && (base.branch matches Some(BranchView::Remote(_, b)) && b
            == branch),
{
}

} // verus!
