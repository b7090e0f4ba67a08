//! A dialogue with git, and finding the base that worktrees are compared against.
//!
//! Every function here is given the replies so far. It either finishes, or stops at the next
//! question; asked again with one more reply it comes one question further. All of them only
//! look: which questions there are is fixed here.

use crate::errors::{refusal, refusal_next, ErrorKind, ErrorView, VcError};
use crate::order::{lemma_filter_members, views};
use crate::paths::{is_absolute, TreePath, SLASH};
use crate::plan::{join_below, joined};
use crate::strings::{
    after_prefix, contains, find, find_text, join, joined_with,
    law_a_text_is_found_where_it_first_stands, pieces, split, split_at_char, split_once,
    stands_at, starts_with, strip_prefix,
};
use crate::text::{
    begins_with, char_from, chars_of, debug_quoted, debug_text, dec_int, find_char, lemma_find_char,
    lines_of, lossy, lossy_text, push_dec_int, same_text, slice_copy, split_lines, text_of, trim,
    trimmed,
};
use crate::worktree::{
    answer_line, glob_match, glob_text, is_branch_config_selector, is_hex_byte, is_ref_file,
    looks_like_ref_file, opt_branch, selects_branch_config, strip_nl, Base, BaseBranch, BaseView,
    BranchView,
};
use vstd::prelude::*;
use vstd::string::*;
use vstd::utf8::*;

verus! {

/// Where git is run.
#[derive(Debug, Clone)]
pub enum Place {
    /// Where the doctor was pointed at.
    Start,
    /// In this directory.
    At(TreePath),
}

/// What a [`Place`] says.
pub enum PlaceView {
    Start,
    At(Seq<u8>),
}

impl View for Place {
    type V = PlaceView;

    open spec fn view(&self) -> PlaceView {
        match self {
            Place::Start => PlaceView::Start,
            Place::At(p) => PlaceView::At(p@),
        }
    }
}

/// A question to the outside.
#[derive(Debug, Clone)]
pub enum Ask {
    /// Run git there with these arguments.
    Git { place: Place, args: Vec<String> },
    /// Read this file.
    ReadFile(TreePath),
}

/// What an [`Ask`] says.
pub enum AskView {
    Git { place: PlaceView, args: Seq<Seq<char>> },
    ReadFile(Seq<u8>),
}

impl View for Ask {
    type V = AskView;

    open spec fn view(&self) -> AskView {
        match self {
            Ask::Git { place, args } => AskView::Git { place: place@, args: views(args@) },
            Ask::ReadFile(p) => AskView::ReadFile(p@),
        }
    }
}

/// What a command gave. The status is absent when a signal ended it. Reading a file answers
/// in the same shape: status 0 and its contents, or status 1 when no regular file is there.
#[derive(Debug, Clone)]
pub struct GitOut {
    pub status: Option<i32>,
    pub stdout: Vec<u8>,
    pub stderr: Vec<u8>,
}

/// What a [`GitOut`] says.
pub struct OutView {
    pub status: Option<i32>,
    pub stdout: Seq<u8>,
    pub stderr: Seq<u8>,
}

impl View for GitOut {
    type V = OutView;

    open spec fn view(&self) -> OutView {
        OutView { status: self.status, stdout: self.stdout@, stderr: self.stderr@ }
    }
}

impl GitOut {
    /// Whether the command succeeded.
    pub fn ok(&self) -> (yes: bool)
        ensures
            yes == (self.status == Some(0i32)),
    {
        match self.status {
            Some(code) => code == 0,
            None => false,
        }
    }

    /// What it printed.
    pub fn out_text(&self) -> (text: String)
        ensures
            text@ == lossy_text(self.stdout@),
    {
        lossy(self.stdout.as_slice())
    }

    /// What it complained, trimmed.
    pub fn err_trimmed(&self) -> (text: String)
        ensures
            text@ == trimmed(lossy_text(self.stderr@)),
    {
        trim(lossy(self.stderr.as_slice()).as_str())
    }

    /// The first line of what it complained.
    pub fn err_first_line(&self) -> (text: String)
        ensures
            text@ == head_line(lossy_text(self.stderr@)),
    {
        first_line_of(lossy(self.stderr.as_slice()).as_str())
    }
}

/// The first line of a text, empty when there is none.
pub open spec fn head_line(text: Seq<char>) -> Seq<char> {
    if lines_of(text).len() == 0 {
        seq![]
    } else {
        lines_of(text)[0]
    }
}

/// The first line of a text.
pub fn first_line_of(text: &str) -> (line: String)
    ensures
        line@ == head_line(text@),
{
    let lines = split_lines(text);
    assert(views(lines@).len() == lines@.len());
    if lines.len() == 0 {
        String::new()
    } else {
        lines[0].clone()
    }
}

/// A reply to a question.
#[derive(Debug, Clone)]
pub enum Reply {
    Ran(GitOut),
    /// It could not be carried out, for this reason.
    Failed(String),
}

/// What a [`Reply`] says.
pub enum ReplyView {
    Ran(OutView),
    Failed(Seq<char>),
}

impl View for Reply {
    type V = ReplyView;

    open spec fn view(&self) -> ReplyView {
        match self {
            Reply::Ran(o) => ReplyView::Ran(o@),
            Reply::Failed(why) => ReplyView::Failed(why@),
        }
    }
}

/// Why a computation stopped: at a question, or with a refusal.
#[derive(Debug, Clone)]
pub enum Halt {
    Ask(Ask),
    Refuse(VcError),
}

/// What a [`Halt`] says.
pub enum HaltView {
    Ask(AskView),
    Refuse(ErrorView),
}

impl View for Halt {
    type V = HaltView;

    open spec fn view(&self) -> HaltView {
        match self {
            Halt::Ask(a) => HaltView::Ask(a@),
            Halt::Refuse(e) => HaltView::Refuse(e@),
        }
    }
}

/// The course of a computation over replies: its value and how many replies it has used, or
/// why it stopped.
pub enum Run<T> {
    Done(T, nat),
    Halt(HaltView),
}

/// A computation that refuses.
pub open spec fn refused<T>(e: ErrorView) -> Run<T> {
    Run::Halt(HaltView::Refuse(e))
}

/// Asking git.
pub open spec fn git_run(
    rs: Seq<ReplyView>,
    at: nat,
    place: PlaceView,
    args: Seq<Seq<char>>,
) -> Run<OutView> {
    if at >= rs.len() {
        Run::Halt(HaltView::Ask(AskView::Git { place, args }))
    } else {
        match rs[at as int] {
            ReplyView::Ran(o) => Run::Done(o, at + 1),
            ReplyView::Failed(why) => refused(
                refusal(
                    ErrorKind::Io,
                    "git: failed to run `git "@ + joined_with(args, " "@) + "`: "@ + why,
                ),
            ),
        }
    }
}

/// Asking for a file's contents.
pub open spec fn file_run(rs: Seq<ReplyView>, at: nat, path: Seq<u8>) -> Run<OutView> {
    if at >= rs.len() {
        Run::Halt(HaltView::Ask(AskView::ReadFile(path)))
    } else {
        match rs[at as int] {
            ReplyView::Ran(o) => Run::Done(o, at + 1),
            ReplyView::Failed(why) => refused(
                refusal(ErrorKind::Io, lossy_text(path) + ": "@ + why),
            ),
        }
    }
}

/// The replies so far and how many of them have been used.
pub struct Talk<'a> {
    pub replies: &'a Vec<Reply>,
    pub next: usize,
}

impl<'a> Talk<'a> {
    /// The replies.
    pub open spec fn rs(&self) -> Seq<ReplyView> {
        views(self.replies@)
    }

    /// How many replies have been used.
    pub open spec fn at(&self) -> nat {
        self.next as nat
    }

    /// A dialogue from its start.
    pub fn new(replies: &'a Vec<Reply>) -> (t: Self)
        ensures
            t.rs() == views(replies@),
            t.at() == 0,
    {
        Talk { replies, next: 0 }
    }

    /// Asks git.
    pub fn git(&mut self, place: Place, args: Vec<String>) -> (r: Result<GitOut, Halt>)
        ensures
            final(self).rs() == old(self).rs(),
            match (git_run(old(self).rs(), old(self).at(), place@, views(args@)), r) {
                (Run::Done(o, at), Ok(p)) => p@ == o && final(self).at() == at,
                (Run::Halt(h), Err(g)) => g@ == h,
                _ => false,
            },
    {
        if self.next >= self.replies.len() {
            return Err(Halt::Ask(Ask::Git { place, args }));
        }
        match &self.replies[self.next] {
            Reply::Failed(why) => {
                assert(self.rs()[self.next as int] == self.replies@[self.next as int]@);
                let mut m: String = "git: failed to run `git ".to_owned();
                let line = join(&args, " ");
                m.append(line.as_str());
                m.append("`: ");
                m.append(why.as_str());
                Err(Halt::Refuse(VcError::new(ErrorKind::Io, m)))
            },
            Reply::Ran(o) => {
                assert(self.rs()[self.next as int] == self.replies@[self.next as int]@);
                let out = copy_out(o);
                self.next = self.next + 1;
                Ok(out)
            },
        }
    }

    /// Asks for a file's contents.
    pub fn read_file(&mut self, path: &TreePath) -> (r: Result<GitOut, Halt>)
        ensures
            final(self).rs() == old(self).rs(),
            match (file_run(old(self).rs(), old(self).at(), path@), r) {
                (Run::Done(o, at), Ok(p)) => p@ == o && final(self).at() == at,
                (Run::Halt(h), Err(g)) => g@ == h,
                _ => false,
            },
    {
        if self.next >= self.replies.len() {
            return Err(Halt::Ask(Ask::ReadFile(path.copy())));
        }
        match &self.replies[self.next] {
            Reply::Failed(why) => {
                assert(self.rs()[self.next as int] == self.replies@[self.next as int]@);
                let mut m: String = path.display();
                m.append(": ");
                m.append(why.as_str());
                Err(Halt::Refuse(VcError::new(ErrorKind::Io, m)))
            },
            Reply::Ran(o) => {
                assert(self.rs()[self.next as int] == self.replies@[self.next as int]@);
                let out = copy_out(o);
                self.next = self.next + 1;
                Ok(out)
            },
        }
    }
}

fn copy_out(o: &GitOut) -> (c: GitOut)
    ensures
        c@ == o@,
{
    let stdout = slice_copy(o.stdout.as_slice(), 0, o.stdout.len());
    let stderr = slice_copy(o.stderr.as_slice(), 0, o.stderr.len());
    assert(stdout@ =~= o.stdout@);
    assert(stderr@ =~= o.stderr@);
    GitOut { status: o.status, stdout, stderr }
}

/// A list of one word.
pub fn words1(a: &str) -> (list: Vec<String>)
    ensures
        views(list@) == seq![a@],
{
    let mut list: Vec<String> = Vec::new();
    list.push(a.to_owned());
    assert(views(list@) =~= seq![a@]);
    list
}

/// A list of two words.
pub fn words2(a: &str, b: &str) -> (list: Vec<String>)
    ensures
        views(list@) == seq![a@, b@],
{
    let mut list: Vec<String> = Vec::new();
    list.push(a.to_owned());
    list.push(b.to_owned());
    assert(views(list@) =~= seq![a@, b@]);
    list
}

/// A list of three words.
pub fn words3(a: &str, b: &str, c: &str) -> (list: Vec<String>)
    ensures
        views(list@) == seq![a@, b@, c@],
{
    let mut list: Vec<String> = Vec::new();
    list.push(a.to_owned());
    list.push(b.to_owned());
    list.push(c.to_owned());
    assert(views(list@) =~= seq![a@, b@, c@]);
    list
}

/// A list of four words.
pub fn words4(a: &str, b: &str, c: &str, d: &str) -> (list: Vec<String>)
    ensures
        views(list@) == seq![a@, b@, c@, d@],
{
    let mut list: Vec<String> = Vec::new();
    list.push(a.to_owned());
    list.push(b.to_owned());
    list.push(c.to_owned());
    list.push(d.to_owned());
    assert(views(list@) =~= seq![a@, b@, c@, d@]);
    list
}

/// A list of five words.
pub fn words5(a: &str, b: &str, c: &str, d: &str, e: &str) -> (list: Vec<String>)
    ensures
        views(list@) == seq![a@, b@, c@, d@, e@],
{
    let mut list: Vec<String> = Vec::new();
    list.push(a.to_owned());
    list.push(b.to_owned());
    list.push(c.to_owned());
    list.push(d.to_owned());
    list.push(e.to_owned());
    assert(views(list@) =~= seq![a@, b@, c@, d@, e@]);
    list
}

/// `expr^{commit}`: the commit behind an expression.
pub open spec fn peeled(expr: Seq<char>) -> Seq<char> {
    expr + "^{commit}"@
}

/// The questions that look for refs and commits.
pub open spec fn ask_remotes() -> Seq<Seq<char>> {
    seq!["remote"@]
}

/// The command that names the hash function of a repository.
pub open spec fn ask_object_format() -> Seq<Seq<char>> {
    seq!["rev-parse"@, "--show-object-format"@]
}

/// The command that gives the place of `name` in a repository's own directory.
pub open spec fn ask_git_path(name: Seq<char>) -> Seq<Seq<char>> {
    seq!["rev-parse"@, "--git-path"@, name]
}

/// The command that asks whether the ref `full` exists.
pub open spec fn ask_show_ref(full: Seq<char>) -> Seq<Seq<char>> {
    seq!["show-ref"@, "--verify"@, "-q"@, "--"@, full]
}

/// The command that gives the commit that `expr` peels to.
pub open spec fn ask_commit(expr: Seq<char>) -> Seq<Seq<char>> {
    seq!["rev-parse"@, "--verify"@, "-q"@, peeled(expr)]
}

/// The command that gives the ref that the ref `full` points at.
pub open spec fn ask_symbolic(full: Seq<char>) -> Seq<Seq<char>> {
    seq!["symbolic-ref"@, "-q"@, "--"@, full]
}

/// The command that gives the ref that `origin`'s head points at.
pub open spec fn ask_origin_head() -> Seq<Seq<char>> {
    seq!["symbolic-ref"@, "-q"@, "refs/remotes/origin/HEAD"@]
}

/// The command that gives every value of the setting `key`.
pub open spec fn ask_fetch_config(key: Seq<char>) -> Seq<Seq<char>> {
    seq!["config"@, "--get-all"@, "--"@, key]
}

/// The longest remote, among the lines from `i` on and `best`, that owns the ref `rest`
/// below `refs/remotes/`, with the branch that is left.
pub open spec fn best_remote(
    rest: Seq<char>,
    lines: Seq<Seq<char>>,
    i: int,
    best: Option<(Seq<char>, Seq<char>)>,
) -> Option<(Seq<char>, Seq<char>)>
    decreases lines.len() - i,
{
    if i >= lines.len() {
        best
    } else {
        let r = answer_line(lines[i]);
        let owned = if r.len() == 0 {
            None
        } else {
            match after_prefix(rest, r) {
                Some(t) => after_prefix(t, "/"@),
                None => None,
            }
        };
        let next = match owned {
            Some(b) => match best {
                Some((longest, _)) if r.len() < longest.len() => best,
                _ => Some((r, b)),
            },
            None => best,
        };
        best_remote(rest, lines, i + 1, next)
    }
}

/// The remote-tracking branch that a full ref names.
pub open spec fn remote_branch_run(
    rs: Seq<ReplyView>,
    at: nat,
    repo: Seq<u8>,
    full: Seq<char>,
) -> Run<Option<BranchView>> {
    match after_prefix(full, "refs/remotes/"@) {
        None => Run::Done(None, at),
        Some(rest) => match git_run(rs, at, PlaceView::At(repo), ask_remotes()) {
            Run::Halt(h) => Run::Halt(h),
            Run::Done(o, n) => if o.status != Some(0i32) {
                refused(
                    refusal(
                        ErrorKind::Io,
                        "git remote failed: "@ + trimmed(lossy_text(o.stderr)),
                    ),
                )
            } else {
                match best_remote(rest, pieces(lossy_text(o.stdout), '\n'), 0, None) {
                    Some((r, b)) => Run::Done(Some(BranchView::Remote(r, b)), n),
                    None => Run::Done(None, n),
                }
            },
        },
    }
}

/// The remote-tracking branch that a full ref names: its longest configured remote, and the
/// rest.
pub fn remote_branch_name(t: &mut Talk, repo: &TreePath, full: &str) -> (r: Result<
    Option<BaseBranch>,
    Halt,
>)
    ensures
        final(t).rs() == old(t).rs(),
        match (remote_branch_run(old(t).rs(), old(t).at(), repo@, full@), r) {
            (Run::Done(v, at), Ok(b)) => opt_branch(b) == v && final(t).at() == at,
            (Run::Halt(h), Err(g)) => g@ == h,
            _ => false,
        },
{
    let rest = match strip_prefix(full, "refs/remotes/") {
        Some(rest) => rest,
        None => {
            return Ok(None);
        },
    };
    let o = match t.git(Place::At(repo.copy()), words1("remote")) {
        Ok(o) => o,
        Err(h) => {
            return Err(h);
        },
    };
    if !o.ok() {
        let mut m: String = "git remote failed: ".to_owned();
        let err = o.err_trimmed();
        m.append(err.as_str());
        return Err(Halt::Refuse(VcError::new(ErrorKind::Io, m)));
    }
    let lines = split(o.out_text().as_str(), '\n');
    let ghost lv = views(lines@);
    let mut best: Option<(String, String)> = None;
    let mut i: usize = 0;
    while i < lines.len()
        invariant
            i <= lines.len(),
            lv == views(lines@),
            best_remote(rest@, lv, 0, None) == best_remote(
                rest@,
                lv,
                i as int,
                (match best {
                    Some((a, b)) => Some((a@, b@)),
                    None => None,
                }),
            ),
        decreases lines.len() - i,
    {
        let r = strip_nl(lines[i].as_str());
        assert(lv[i as int] == lines@[i as int]@);
        if !r.as_str().is_empty() {
            if let Some(tail) = strip_prefix(rest.as_str(), r.as_str()) {
                if let Some(b) = strip_prefix(tail.as_str(), "/") {
                    let better = match &best {
                        Some((a, _)) => r.as_str().unicode_len() >= a.as_str().unicode_len(),
                        None => true,
                    };
                    if better {
                        best = Some((r, b));
                    }
                }
            }
        }
        i = i + 1;
    }
    match best {
        Some((r, b)) => Ok(Some(BaseBranch::Remote(r, b))),
        None => Ok(None),
    }
}

/// The lines of a listing that say something.
pub open spec fn said_lines(text: Seq<char>) -> Seq<Seq<char>> {
    said_from(pieces(text, '\n'), 0, seq![])
}

/// The lines from `i` on that say something, added to `done`.
pub open spec fn said_from(lines: Seq<Seq<char>>, i: int, done: Seq<Seq<char>>) -> Seq<Seq<char>>
    decreases lines.len() - i,
{
    if i >= lines.len() {
        done
    } else {
        let l = answer_line(lines[i]);
        said_from(
            lines,
            i + 1,
            if l.len() == 0 {
                done
            } else {
                done.push(l)
            },
        )
    }
}

fn say_lines(text: &str) -> (list: Vec<String>)
    ensures
        views(list@) == said_lines(text@),
{
    let lines = split(text, '\n');
    let ghost lv = views(lines@);
    let mut list: Vec<String> = Vec::new();
    let mut i: usize = 0;
    assert(views(list@) =~= Seq::<Seq<char>>::empty());
    while i < lines.len()
        invariant
            i <= lines.len(),
            lv == views(lines@),
            said_from(lv, 0, seq![]) == said_from(lv, i as int, views(list@)),
        decreases lines.len() - i,
    {
        let l = strip_nl(lines[i].as_str());
        assert(lv[i as int] == lines@[i as int]@);
        if !l.as_str().is_empty() {
            let ghost before = views(list@);
            list.push(l);
            assert(views(list@) =~= before.push(l@));
        }
        i = i + 1;
    }
    list
}

/// `s` without its leading `+` signs.
pub open spec fn without_plus(s: Seq<char>) -> Seq<char>
    decreases s.len(),
{
    if s.len() > 0 && s[0] == '+' {
        without_plus(s.skip(1))
    } else {
        s
    }
}

fn strip_plus(s: &str) -> (t: String)
    ensures
        t@ == without_plus(s@),
{
    let chars = chars_of(s);
    let mut i: usize = 0;
    assert(chars@.skip(0) =~= chars@);
    while i < chars.len() && chars[i] == '+'
        invariant
            i <= chars.len(),
            without_plus(chars@) == without_plus(chars@.skip(i as int)),
        decreases chars.len() - i,
    {
        assert(chars@.skip(i as int).skip(1) =~= chars@.skip(i + 1));
        i = i + 1;
    }
    let t = text_of(&chars, i, chars.len());
    assert(t@ =~= chars@.skip(i as int));
    t
}

/// The source that one refspec maps onto `dst`, if it does.
pub open spec fn mapped_source(spec_line: Seq<char>, dst: Seq<char>) -> Option<Seq<char>> {
    let s = without_plus(spec_line);
    if begins_with(s, "^"@) {
        None
    } else {
        match split_at_char(s, ':') {
            None => None,
            Some((src, d)) => match glob_text(d, dst) {
                None => None,
                Some(mid) => match split_at_char(src, '*') {
                    Some((pre, suf)) => Some(pre + mid + suf),
                    None => Some(src),
                },
            },
        }
    }
}

fn source_of(line: &str, dst: &str) -> (r: Option<String>)
    ensures
        match r {
            Some(s) => mapped_source(line@, dst@) == Some(s@),
            None => mapped_source(line@, dst@) is None,
        },
{
    let s = strip_plus(line);
    if starts_with(s.as_str(), "^") {
        return None;
    }
    match split_once(s.as_str(), ':') {
        None => None,
        Some((src, d)) => match glob_match(d.as_str(), dst) {
            None => None,
            Some(mid) => match split_once(src.as_str(), '*') {
                Some((pre, suf)) => {
                    let mut out: String = pre;
                    out.append(mid.as_str());
                    out.append(suf.as_str());
                    Some(out)
                },
                None => Some(src),
            },
        },
    }
}

/// The distinct sources that the refspecs from `i` on map onto `dst`, added to `done`.
pub open spec fn sources_from(
    specs: Seq<Seq<char>>,
    dst: Seq<char>,
    i: int,
    done: Seq<Seq<char>>,
) -> Seq<Seq<char>>
    decreases specs.len() - i,
{
    if i >= specs.len() {
        done
    } else {
        let next = match mapped_source(specs[i], dst) {
            Some(src) => if done.contains(src) {
                done
            } else {
                done.push(src)
            },
            None => done,
        };
        sources_from(specs, dst, i + 1, next)
    }
}

/// The sources that no negative refspec from `i` on excludes.
pub open spec fn allowed_from(specs: Seq<Seq<char>>, i: int, sources: Seq<Seq<char>>) -> Seq<
    Seq<char>,
>
    decreases specs.len() - i,
{
    if i >= specs.len() {
        sources
    } else {
        let next = match after_prefix(specs[i], "^"@) {
            Some(neg) => sources.filter(|s: Seq<char>| glob_text(neg, s) is None),
            None => sources,
        };
        allowed_from(specs, i + 1, next)
    }
}

/// What to fetch into `dst`: the one source that the configured refspecs map onto it, or
/// `fallback` when none does; refused when there is more than one, or when a negative
/// refspec leaves none.
pub open spec fn fetch_choice(
    key: Seq<char>,
    specs: Seq<Seq<char>>,
    dst: Seq<char>,
    fallback: Seq<char>,
) -> Result<Seq<char>, ErrorView> {
    let found = sources_from(specs, dst, 0, seq![]);
    let candidates = if found.len() == 0 {
        seq![fallback]
    } else {
        found
    };
    let sources = allowed_from(specs, 0, candidates);
    if sources.len() == 0 {
        Err(
            refusal(
                ErrorKind::Usage,
                key + ": "@ + (if found.len() == 0 {
                    "the only source ("@ + fallback + ")"@
                } else {
                    "every source mapped"@
                }) + " onto "@ + dst + " is excluded by a negative refspec; nothing to fetch"@,
            ),
        )
    } else if sources.len() == 1 {
        Ok(sources[0])
    } else {
        Err(
            refusal(
                ErrorKind::Usage,
                key + ": more than one source maps onto "@ + dst + " ("@ + joined_with(
                    sources,
                    ", "@,
                ) + "); cannot choose what to fetch"@,
            ),
        )
    }
}

fn holds(list: &Vec<String>, s: &str) -> (yes: bool)
    ensures
        yes == views(list@).contains(s@),
{
    let mut i: usize = 0;
    while i < list.len()
        invariant
            i <= list.len(),
            forall|k: int| 0 <= k < i ==> (#[trigger] views(list@)[k]) != s@,
        decreases list.len() - i,
    {
        if same_text(list[i].as_str(), s) {
            assert(views(list@)[i as int] == s@);
            return true;
        }
        i = i + 1;
    }
    false
}

fn without_matches(list: Vec<String>, neg: &str) -> (kept: Vec<String>)
    ensures
        views(kept@) == views(list@).filter(|s: Seq<char>| glob_text(neg@, s) is None),
{
    let ghost lv = views(list@);
    let ghost keep = |s: Seq<char>| glob_text(neg@, s) is None;
    let mut kept: Vec<String> = Vec::new();
    let mut i: usize = 0;
    proof {
        reveal(Seq::filter);
        assert(lv.take(0).filter(keep) =~= Seq::<Seq<char>>::empty());
        assert(views(kept@) =~= Seq::<Seq<char>>::empty());
    }
    while i < list.len()
        invariant
            i <= list.len(),
            lv == views(list@),
            keep == (|s: Seq<char>| glob_text(neg@, s) is None),
            views(kept@) == lv.take(i as int).filter(keep),
        decreases list.len() - i,
    {
        proof {
            reveal(Seq::filter);
            assert(lv.take(i + 1).drop_last() =~= lv.take(i as int));
            assert(lv.take(i + 1).last() == list@[i as int]@);
        }
        if glob_match(neg, list[i].as_str()).is_none() {
            let ghost before = views(kept@);
            kept.push(list[i].clone());
            assert(views(kept@) =~= before.push(list@[i as int]@));
        }
        i = i + 1;
    }
    assert(lv.take(list.len() as int) =~= lv);
    kept
}

/// Chooses what to fetch into `dst` from the configured refspecs.
pub fn choose_fetch_source(key: &str, specs: &Vec<String>, dst: &str, fallback: &str) -> (r: Result<
    String,
    VcError,
>)
    ensures
        match (fetch_choice(key@, views(specs@), dst@, fallback@), r) {
            (Ok(s), Ok(t)) => t@ == s,
            (Err(e), Err(f)) => f@ == e,
            _ => false,
        },
{
    let ghost sv = views(specs@);
    let mut sources: Vec<String> = Vec::new();
    let mut i: usize = 0;
    assert(views(sources@) =~= Seq::<Seq<char>>::empty());
    while i < specs.len()
        invariant
            i <= specs.len(),
            sv == views(specs@),
            sources_from(sv, dst@, 0, seq![]) == sources_from(
                sv,
                dst@,
                i as int,
                views(sources@),
            ),
        decreases specs.len() - i,
    {
        assert(sv[i as int] == specs@[i as int]@);
        if let Some(src) = source_of(specs[i].as_str(), dst) {
            if !holds(&sources, src.as_str()) {
                let ghost before = views(sources@);
                sources.push(src);
                assert(views(sources@) =~= before.push(src@));
            }
        }
        i = i + 1;
    }
    let mapped: usize = sources.len();
    let ghost found = views(sources@);
    if mapped == 0 {
        sources.push(fallback.to_owned());
        assert(views(sources@) =~= seq![fallback@]);
    }
    let ghost candidates = views(sources@);
    let mut k: usize = 0;
    while k < specs.len()
        invariant
            k <= specs.len(),
            sv == views(specs@),
            allowed_from(sv, 0, candidates) == allowed_from(sv, k as int, views(sources@)),
        decreases specs.len() - k,
    {
        assert(sv[k as int] == specs@[k as int]@);
        if let Some(neg) = strip_prefix(specs[k].as_str(), "^") {
            sources = without_matches(sources, neg.as_str());
        }
        k = k + 1;
    }
    if sources.len() == 0 {
        let mut what: String = if mapped == 0 {
            let mut w: String = "the only source (".to_owned();
            w.append(fallback);
            w.append(")");
            w
        } else {
            "every source mapped".to_owned()
        };
        let mut m: String = key.to_owned();
        m.append(": ");
        m.append(what.as_str());
        m.append(" onto ");
        m.append(dst);
        m.append(" is excluded by a negative refspec; nothing to fetch");
        Err(VcError::new(ErrorKind::Usage, m))
    } else if sources.len() == 1 {
        assert(views(sources@)[0] == sources@[0]@);
        Ok(sources[0].clone())
    } else {
        let mut m: String = key.to_owned();
        m.append(": more than one source maps onto ");
        m.append(dst);
        m.append(" (");
        let list = join(&sources, ", ");
        m.append(list.as_str());
        m.append("); cannot choose what to fetch");
        Err(VcError::new(ErrorKind::Usage, m))
    }
}

/// The configuration key of a remote's refspecs.
pub open spec fn fetch_key(remote: Seq<char>) -> Seq<char> {
    "remote."@ + remote + ".fetch"@
}

/// Finding what to fetch.
pub open spec fn fetch_source_run(
    rs: Seq<ReplyView>,
    at: nat,
    repo: Seq<u8>,
    remote: Seq<char>,
    dst: Seq<char>,
    fallback: Seq<char>,
) -> Run<Seq<char>> {
    let key = fetch_key(remote);
    match git_run(rs, at, PlaceView::At(repo), ask_fetch_config(key)) {
        Run::Halt(h) => Run::Halt(h),
        Run::Done(o, n) => if o.status == Some(0i32) {
            match fetch_choice(key, said_lines(lossy_text(o.stdout)), dst, fallback) {
                Ok(s) => Run::Done(s, n),
                Err(e) => refused(e),
            }
        } else if o.status == Some(1i32) {
            Run::Done(fallback, n)
        } else {
            refused(
                refusal(
                    ErrorKind::Io,
                    "git config --get-all "@ + key + " failed: "@ + trimmed(
                        lossy_text(o.stderr),
                    ),
                ),
            )
        },
    }
}

/// Finds what to fetch into `dst` from the remote's configured refspecs.
pub fn fetch_source_for(
    t: &mut Talk,
    repo: &TreePath,
    remote: &str,
    dst: &str,
    fallback: &str,
) -> (r: Result<String, Halt>)
    ensures
        final(t).rs() == old(t).rs(),
        match (fetch_source_run(old(t).rs(), old(t).at(), repo@, remote@, dst@, fallback@), r) {
            (Run::Done(v, at), Ok(s)) => s@ == v && final(t).at() == at,
            (Run::Halt(h), Err(g)) => g@ == h,
            _ => false,
        },
{
    let mut key: String = "remote.".to_owned();
    key.append(remote);
    key.append(".fetch");
    let o = match t.git(
        Place::At(repo.copy()),
        words4("config", "--get-all", "--", key.as_str()),
    ) {
        Ok(o) => o,
        Err(h) => {
            return Err(h);
        },
    };
    match o.status {
        Some(0) => {
            let specs = say_lines(o.out_text().as_str());
            match choose_fetch_source(key.as_str(), &specs, dst, fallback) {
                Ok(s) => Ok(s),
                Err(e) => Err(Halt::Refuse(e)),
            }
        },
        Some(1) => Ok(fallback.to_owned()),
        _ => {
            let mut m: String = "git config --get-all ".to_owned();
            m.append(key.as_str());
            m.append(" failed: ");
            let err = o.err_trimmed();
            m.append(err.as_str());
            Err(Halt::Refuse(VcError::new(ErrorKind::Io, m)))
        },
    }
}

/// The width of a full object id.
pub open spec fn width_run(rs: Seq<ReplyView>, at: nat, repo: Seq<u8>) -> Run<nat> {
    match git_run(rs, at, PlaceView::At(repo), ask_object_format()) {
        Run::Halt(h) => Run::Halt(h),
        Run::Done(o, n) => if o.status != Some(0i32) {
            refused(
                refusal(
                    ErrorKind::Io,
                    "git rev-parse --show-object-format failed: "@ + trimmed(
                        lossy_text(o.stderr),
                    ),
                ),
            )
        } else {
            let format = trimmed(lossy_text(o.stdout));
            if format == "sha1"@ {
                Run::Done(40, n)
            } else if format == "sha256"@ {
                Run::Done(64, n)
            } else {
                refused(
                    refusal(ErrorKind::Io, "unknown object format "@ + debug_text(format)),
                )
            }
        },
    }
}

/// The width of a full object id in this repository.
pub fn object_id_width(t: &mut Talk, repo: &TreePath) -> (r: Result<usize, Halt>)
    ensures
        final(t).rs() == old(t).rs(),
        match (width_run(old(t).rs(), old(t).at(), repo@), r) {
            (Run::Done(v, at), Ok(w)) => w == v && final(t).at() == at,
            (Run::Halt(h), Err(g)) => g@ == h,
            _ => false,
        },
{
    let o = match t.git(Place::At(repo.copy()), words2("rev-parse", "--show-object-format")) {
        Ok(o) => o,
        Err(h) => {
            return Err(h);
        },
    };
    if !o.ok() {
        let mut m: String = "git rev-parse --show-object-format failed: ".to_owned();
        let err = o.err_trimmed();
        m.append(err.as_str());
        return Err(Halt::Refuse(VcError::new(ErrorKind::Io, m)));
    }
    let format = trim(o.out_text().as_str());
    if same_text(format.as_str(), "sha1") {
        Ok(40)
    } else if same_text(format.as_str(), "sha256") {
        Ok(64)
    } else {
        let mut m: String = "unknown object format ".to_owned();
        let quoted = debug_quoted(format.as_str());
        m.append(quoted.as_str());
        Err(Halt::Refuse(VcError::new(ErrorKind::Io, m)))
    }
}

/// Whether `name` is `width` hex digits.
pub open spec fn is_hex_of_width(name: Seq<char>, width: nat) -> bool {
    encode_utf8(name).len() == width && forall|i: int|
        0 <= i < encode_utf8(name).len() ==> is_hex_byte(#[trigger] encode_utf8(name)[i])
}

fn hex_of_width(name: &str, width: usize) -> (yes: bool)
    ensures
        yes == is_hex_of_width(name@, width as nat),
{
    let bytes = name.as_bytes();
    if bytes.len() != width {
        return false;
    }
    let mut i: usize = 0;
    while i < bytes.len()
        invariant
            i <= bytes.len(),
            bytes@ == encode_utf8(name@),
            forall|k: int| 0 <= k < i ==> is_hex_byte(#[trigger] encode_utf8(name@)[k]),
        decreases bytes.len() - i,
    {
        let b = bytes[i];
        if !((48 <= b && b <= 57) || (65 <= b && b <= 70) || (97 <= b && b <= 102)) {
            assert(!is_hex_byte(encode_utf8(name@)[i as int]));
            return false;
        }
        i = i + 1;
    }
    true
}

/// Whether `name` is a full object id.
pub open spec fn full_oid_run(
    rs: Seq<ReplyView>,
    at: nat,
    repo: Seq<u8>,
    name: Seq<char>,
) -> Run<bool> {
    match width_run(rs, at, repo) {
        Run::Halt(h) => Run::Halt(h),
        Run::Done(w, n) => Run::Done(is_hex_of_width(name, w), n),
    }
}

/// Whether `name` is spelled as a full object id of this repository.
pub fn is_full_oid(t: &mut Talk, repo: &TreePath, name: &str) -> (r: Result<bool, Halt>)
    ensures
        final(t).rs() == old(t).rs(),
        match (full_oid_run(old(t).rs(), old(t).at(), repo@, name@), r) {
            (Run::Done(v, at), Ok(b)) => b == v && final(t).at() == at,
            (Run::Halt(h), Err(g)) => g@ == h,
            _ => false,
        },
{
    match object_id_width(t, repo) {
        Ok(w) => Ok(hex_of_width(name, w)),
        Err(h) => Err(h),
    }
}

/// Raw output without one closing line feed.
pub open spec fn raw_answer(out: Seq<u8>) -> Seq<u8> {
    if out.len() > 0 && out.last() == 10 {
        out.drop_last()
    } else {
        out
    }
}

/// Raw output without one closing line feed.
pub fn strip_raw(out: &Vec<u8>) -> (raw: Vec<u8>)
    ensures
        raw@ == raw_answer(out@),
{
    let n: usize = out.len();
    if n > 0 && out[n - 1] == 10 {
        let raw = slice_copy(out.as_slice(), 0, n - 1);
        assert(raw@ =~= out@.drop_last());
        raw
    } else {
        let raw = slice_copy(out.as_slice(), 0, n);
        assert(raw@ =~= out@);
        raw
    }
}

/// Whether the git directory holds a pseudo-ref of this name.
pub open spec fn pseudo_ref_run(
    rs: Seq<ReplyView>,
    at: nat,
    repo: Seq<u8>,
    name: Seq<char>,
) -> Run<bool> {
    match git_run(rs, at, PlaceView::At(repo), ask_git_path(name)) {
        Run::Halt(h) => Run::Halt(h),
        Run::Done(o, n) => if o.status != Some(0i32) {
            refused(
                refusal(
                    ErrorKind::Io,
                    "git rev-parse --git-path "@ + name + " failed: "@ + trimmed(
                        lossy_text(o.stderr),
                    ),
                ),
            )
        } else {
            let raw = raw_answer(o.stdout);
            let path = if is_absolute(raw) {
                raw
            } else {
                joined(repo, raw)
            };
            match file_run(rs, n, path) {
                Run::Halt(h) => Run::Halt(h),
                Run::Done(f, m) => Run::Done(f.status == Some(0i32) && is_ref_file(f.stdout), m),
            }
        },
    }
}

/// Whether the git directory holds a pseudo-ref of this name, by the file's contents.
pub fn pseudo_ref_exists(t: &mut Talk, repo: &TreePath, name: &str) -> (r: Result<bool, Halt>)
    ensures
        final(t).rs() == old(t).rs(),
        match (pseudo_ref_run(old(t).rs(), old(t).at(), repo@, name@), r) {
            (Run::Done(v, at), Ok(b)) => b == v && final(t).at() == at,
            (Run::Halt(h), Err(g)) => g@ == h,
            _ => false,
        },
{
    let o = match t.git(Place::At(repo.copy()), words3("rev-parse", "--git-path", name)) {
        Ok(o) => o,
        Err(h) => {
            return Err(h);
        },
    };
    if !o.ok() {
        let mut m: String = "git rev-parse --git-path ".to_owned();
        m.append(name);
        m.append(" failed: ");
        let err = o.err_trimmed();
        m.append(err.as_str());
        return Err(Halt::Refuse(VcError::new(ErrorKind::Io, m)));
    }
    let raw = TreePath::from_raw(strip_raw(&o.stdout));
    let absolute: bool = raw.raw.len() > 0 && raw.raw[0] == SLASH;
    let path = if absolute {
        raw
    } else {
        join_below(repo, &raw)
    };
    match t.read_file(&path) {
        Ok(f) => Ok(f.ok() && looks_like_ref_file(f.stdout.as_slice())),
        Err(h) => Err(h),
    }
}

/// Whether an exact ref exists; unknown when git could not tell.
pub open spec fn ref_exists_run(
    rs: Seq<ReplyView>,
    at: nat,
    repo: Seq<u8>,
    full: Seq<char>,
) -> Run<Option<bool>> {
    match git_run(rs, at, PlaceView::At(repo), ask_show_ref(full)) {
        Run::Halt(h) => Run::Halt(h),
        Run::Done(o, n) => Run::Done(
            if o.status == Some(0i32) {
                Some(true)
            } else if o.status == Some(1i32) {
                Some(false)
            } else {
                None
            },
            n,
        ),
    }
}

/// Whether an exact ref exists.
pub fn ref_exists(t: &mut Talk, repo: &TreePath, full: &str) -> (r: Result<Option<bool>, Halt>)
    ensures
        final(t).rs() == old(t).rs(),
        match (ref_exists_run(old(t).rs(), old(t).at(), repo@, full@), r) {
            (Run::Done(v, at), Ok(b)) => b == v && final(t).at() == at,
            (Run::Halt(h), Err(g)) => g@ == h,
            _ => false,
        },
{
    let o = match t.git(
        Place::At(repo.copy()),
        words5("show-ref", "--verify", "-q", "--", full),
    ) {
        Ok(o) => o,
        Err(h) => {
            return Err(h);
        },
    };
    Ok(
        match o.status {
            Some(0) => Some(true),
            Some(1) => Some(false),
            _ => None,
        },
    )
}

/// The refs that a short name can mean, in git's order of precedence; a name below `refs/`
/// means only itself.
pub open spec fn ref_candidates(name: Seq<char>) -> Seq<Seq<char>> {
    if begins_with(name, "refs/"@) {
        seq![name]
    } else {
        seq![
            "refs/"@ + name,
            "refs/tags/"@ + name,
            "refs/heads/"@ + name,
            "refs/remotes/"@ + name,
            "refs/remotes/"@ + name + "/HEAD"@,
        ]
    }
}

/// Those of the candidates from `i` on that exist, added to `hits`.
pub open spec fn existing_run(
    rs: Seq<ReplyView>,
    at: nat,
    repo: Seq<u8>,
    label: Seq<char>,
    candidates: Seq<Seq<char>>,
    i: int,
    hits: Seq<Seq<char>>,
) -> Run<Seq<Seq<char>>>
    decreases candidates.len() - i,
{
    if i >= candidates.len() {
        Run::Done(hits, at)
    } else {
        let c = candidates[i];
        match ref_exists_run(rs, at, repo, c) {
            Run::Halt(h) => Run::Halt(h),
            Run::Done(None, _) => refused(
                refusal(
                    ErrorKind::Io,
                    "--base "@ + label + ": could not check whether "@ + c + " exists"@,
                ),
            ),
            Run::Done(Some(true), n) => existing_run(
                rs,
                n,
                repo,
                label,
                candidates,
                i + 1,
                hits.push(c),
            ),
            Run::Done(Some(false), n) => existing_run(
                rs,
                n,
                repo,
                label,
                candidates,
                i + 1,
                hits,
            ),
        }
    }
}

/// Whether a name can be that of a pseudo-ref.
pub open spec fn may_be_pseudo(name: Seq<char>) -> bool {
    !begins_with(name, "refs/"@) && find_char(name, '/', 0) >= name.len()
}

/// Every exact ref that `name` means.
pub open spec fn name_hits_run(
    rs: Seq<ReplyView>,
    at: nat,
    repo: Seq<u8>,
    name: Seq<char>,
    label: Seq<char>,
) -> Run<Seq<Seq<char>>> {
    if may_be_pseudo(name) {
        match pseudo_ref_run(rs, at, repo, name) {
            Run::Halt(h) => Run::Halt(h),
            Run::Done(true, n) => existing_run(
                rs,
                n,
                repo,
                label,
                ref_candidates(name),
                0,
                seq![name],
            ),
            Run::Done(false, n) => existing_run(
                rs,
                n,
                repo,
                label,
                ref_candidates(name),
                0,
                seq![],
            ),
        }
    } else {
        existing_run(rs, at, repo, label, ref_candidates(name), 0, seq![])
    }
}

fn candidates_of(name: &str) -> (list: Vec<String>)
    ensures
        views(list@) == ref_candidates(name@),
{
    if starts_with(name, "refs/") {
        return words1(name);
    }
    let mut a: String = "refs/".to_owned();
    a.append(name);
    let mut b: String = "refs/tags/".to_owned();
    b.append(name);
    let mut c: String = "refs/heads/".to_owned();
    c.append(name);
    let mut d: String = "refs/remotes/".to_owned();
    d.append(name);
    let mut e: String = "refs/remotes/".to_owned();
    e.append(name);
    e.append("/HEAD");
    words5(a.as_str(), b.as_str(), c.as_str(), d.as_str(), e.as_str())
}

/// Every exact ref that `name` means, in git's order of precedence. `label` is the base as
/// typed, for the message when one cannot be checked.
pub fn name_hits(t: &mut Talk, repo: &TreePath, name: &str, label: &str) -> (r: Result<
    Vec<String>,
    Halt,
>)
    ensures
        final(t).rs() == old(t).rs(),
        match (name_hits_run(old(t).rs(), old(t).at(), repo@, name@, label@), r) {
            (Run::Done(v, at), Ok(hits)) => views(hits@) == v && final(t).at() == at,
            (Run::Halt(h), Err(g)) => g@ == h,
            _ => false,
        },
{
    let ghost rs = t.rs();
    let ghost whole = name_hits_run(t.rs(), t.at(), repo@, name@, label@);
    let mut hits: Vec<String> = Vec::new();
    let chars = chars_of(name);
    let slash = char_from(&chars, '/', 0);
    assert(views(hits@) =~= Seq::<Seq<char>>::empty());
    if !starts_with(name, "refs/") && slash >= chars.len() {
        match pseudo_ref_exists(t, repo, name) {
            Ok(found) => {
                if found {
                    hits.push(name.to_owned());
                    assert(views(hits@) =~= seq![name@]);
                }
            },
            Err(h) => {
                return Err(h);
            },
        }
    }
    let candidates = candidates_of(name);
    let ghost cv = views(candidates@);
    let mut i: usize = 0;
    while i < candidates.len()
        invariant
            i <= candidates.len(),
            cv == views(candidates@),
            t.rs() == rs,
            rs == old(t).rs(),
            whole == name_hits_run(old(t).rs(), old(t).at(), repo@, name@, label@),
            whole == existing_run(rs, t.at(), repo@, label@, cv, i as int, views(hits@)),
        decreases candidates.len() - i,
    {
        let c = &candidates[i];
        assert(cv[i as int] == c@);
        match ref_exists(t, repo, c.as_str()) {
            Ok(Some(true)) => {
                let ghost before = views(hits@);
                hits.push(c.clone());
                assert(views(hits@) =~= before.push(c@));
            },
            Ok(Some(false)) => {},
            Ok(None) => {
                let mut m: String = "--base ".to_owned();
                m.append(label);
                m.append(": could not check whether ");
                m.append(c.as_str());
                m.append(" exists");
                return Err(Halt::Refuse(VcError::new(ErrorKind::Io, m)));
            },
            Err(h) => {
                return Err(h);
            },
        }
        i = i + 1;
    }
    Ok(hits)
}

/// The smaller of two optional places.
pub open spec fn earlier(a: Option<int>, b: Option<int>) -> Option<int> {
    match (a, b) {
        (Some(x), Some(y)) => if x <= y {
            Some(x)
        } else {
            Some(y)
        },
        (Some(x), None) => Some(x),
        (None, y) => y,
    }
}

/// Where the first revision operator (`~`, `^`, `@{`, `:`) stands in an expression.
pub open spec fn operator_at(expr: Seq<char>) -> Option<int> {
    earlier(
        earlier(find_text(expr, "~"@, 0), find_text(expr, "^"@, 0)),
        earlier(find_text(expr, "@{"@, 0), find_text(expr, ":"@, 0)),
    )
}

fn min_place(a: Option<usize>, b: Option<usize>) -> (m: Option<usize>)
    ensures
        m == (match (a, b) {
            (Some(x), Some(y)) => if x <= y {
                Some(x)
            } else {
                Some(y)
            },
            (Some(x), None) => Some(x),
            (None, y) => y,
        }),
{
    match (a, b) {
        (Some(x), Some(y)) => {
            if x <= y {
                Some(x)
            } else {
                Some(y)
            }
        },
        (Some(x), None) => Some(x),
        (None, y) => y,
    }
}

fn find_operator(expr: &str) -> (at: Option<usize>)
    ensures
        match at {
            Some(i) => operator_at(expr@) == Some(i as int) && i <= expr@.len(),
            None => operator_at(expr@) is None,
        },
{
    let a = min_place(find(expr, "~"), find(expr, "^"));
    let b = min_place(find(expr, "@{"), find(expr, ":"));
    min_place(a, b)
}

/// Whether one of the names is not below `refs/`.
pub open spec fn has_pseudo(hits: Seq<Seq<char>>) -> bool {
    exists|i: int| 0 <= i < hits.len() && !begins_with(#[trigger] hits[i], "refs/"@)
}

fn any_pseudo(hits: &Vec<String>) -> (yes: bool)
    ensures
        yes == has_pseudo(views(hits@)),
{
    let mut i: usize = 0;
    while i < hits.len()
        invariant
            i <= hits.len(),
            forall|k: int| 0 <= k < i ==> begins_with(#[trigger] views(hits@)[k], "refs/"@),
        decreases hits.len() - i,
    {
        if !starts_with(hits[i].as_str(), "refs/") {
            assert(!begins_with(views(hits@)[i as int], "refs/"@));
            return true;
        }
        i = i + 1;
    }
    false
}

/// An expression with its operand spelled out: `hits` are the refs that the operand means.
/// A pseudo-ref operand, or one that means nothing, stays as typed; one that means several
/// refs is refused. A selector by branch configuration keeps the short name of a branch.
pub open spec fn canonical_choice(
    expr: Seq<char>,
    operand: Seq<char>,
    rest: Seq<char>,
    hits: Seq<Seq<char>>,
) -> Result<Seq<char>, ErrorView> {
    if has_pseudo(hits) || hits.len() == 0 {
        Ok(expr)
    } else if hits.len() == 1 {
        if selects_branch_config(rest) {
            match after_prefix(hits[0], "refs/heads/"@) {
                Some(short) => Ok(short + rest),
                None => Ok(hits[0] + rest),
            }
        } else {
            Ok(hits[0] + rest)
        }
    } else {
        Err(
            refusal_next(
                ErrorKind::Usage,
                "--base "@ + expr + ": ambiguous operand "@ + operand + " ("@ + joined_with(
                    hits,
                    ", "@,
                ) + ")"@,
                "vc worktree doctor --base "@ + hits[0] + rest,
            ),
        )
    }
}

/// Spells out an expression's operand.
pub fn choose_canonical(expr: &str, operand: &str, rest: &str, hits: &Vec<String>) -> (r: Result<
    String,
    VcError,
>)
    ensures
        match (canonical_choice(expr@, operand@, rest@, views(hits@)), r) {
            (Ok(s), Ok(t)) => t@ == s,
            (Err(e), Err(f)) => f@ == e,
            _ => false,
        },
{
    if any_pseudo(hits) || hits.len() == 0 {
        return Ok(expr.to_owned());
    }
    assert(views(hits@)[0] == hits@[0]@);
    if hits.len() == 1 {
        if is_branch_config_selector(rest) {
            if let Some(short) = strip_prefix(hits[0].as_str(), "refs/heads/") {
                let mut s: String = short;
                s.append(rest);
                return Ok(s);
            }
        }
        let mut s: String = hits[0].clone();
        s.append(rest);
        return Ok(s);
    }
    let mut m: String = "--base ".to_owned();
    m.append(expr);
    m.append(": ambiguous operand ");
    m.append(operand);
    m.append(" (");
    let list = join(hits, ", ");
    m.append(list.as_str());
    m.append(")");
    let mut next: String = "vc worktree doctor --base ".to_owned();
    next.append(hits[0].as_str());
    next.append(rest);
    Err(VcError::new(ErrorKind::Usage, m).with_next(next))
}

/// Spelling out a revision expression.
pub open spec fn canonical_run(
    rs: Seq<ReplyView>,
    at: nat,
    repo: Seq<u8>,
    expr: Seq<char>,
) -> Run<Seq<char>> {
    match operator_at(expr) {
        None => Run::Done(expr, at),
        Some(i) => if i == 0 {
            Run::Done(expr, at)
        } else {
            let operand = expr.take(i);
            let rest = expr.skip(i);
            match full_oid_run(rs, at, repo, operand) {
                Run::Halt(h) => Run::Halt(h),
                Run::Done(true, n) => Run::Done(expr, n),
                Run::Done(false, n) => match name_hits_run(rs, n, repo, operand, expr) {
                    Run::Halt(h) => Run::Halt(h),
                    Run::Done(hits, m) => match canonical_choice(expr, operand, rest, hits) {
                        Ok(s) => Run::Done(s, m),
                        Err(e) => refused(e),
                    },
                },
            }
        },
    }
}

/// A revision expression with its leading operand spelled out.
pub fn canonical_expr(t: &mut Talk, repo: &TreePath, expr: &str) -> (r: Result<String, Halt>)
    ensures
        final(t).rs() == old(t).rs(),
        match (canonical_run(old(t).rs(), old(t).at(), repo@, expr@), r) {
            (Run::Done(v, at), Ok(s)) => s@ == v && final(t).at() == at,
            (Run::Halt(h), Err(g)) => g@ == h,
            _ => false,
        },
{
    let idx = match find_operator(expr) {
        Some(i) => i,
        None => {
            return Ok(expr.to_owned());
        },
    };
    if idx == 0 {
        return Ok(expr.to_owned());
    }
    let chars = chars_of(expr);
    let operand = text_of(&chars, 0, idx);
    let rest = text_of(&chars, idx, chars.len());
    assert(operand@ =~= expr@.take(idx as int));
    assert(rest@ =~= expr@.skip(idx as int));
    match is_full_oid(t, repo, operand.as_str()) {
        Ok(true) => {
            return Ok(expr.to_owned());
        },
        Ok(false) => {},
        Err(h) => {
            return Err(h);
        },
    }
    let hits = match name_hits(t, repo, operand.as_str(), expr) {
        Ok(hits) => hits,
        Err(h) => {
            return Err(h);
        },
    };
    match choose_canonical(expr, operand.as_str(), rest.as_str(), &hits) {
        Ok(s) => Ok(s),
        Err(e) => Err(Halt::Refuse(e)),
    }
}

/// The branch that a dereferenced ref is.
pub open spec fn identity_run(
    rs: Seq<ReplyView>,
    at: nat,
    repo: Seq<u8>,
    full: Seq<char>,
) -> Run<Option<BranchView>> {
    match after_prefix(full, "refs/heads/"@) {
        Some(l) => Run::Done(Some(BranchView::Local(l)), at),
        None => remote_branch_run(rs, at, repo, full),
    }
}

/// The branch that a dereferenced ref is: local, remote-tracking, or none.
pub fn branch_identity(t: &mut Talk, repo: &TreePath, full: &str) -> (r: Result<
    Option<BaseBranch>,
    Halt,
>)
    ensures
        final(t).rs() == old(t).rs(),
        match (identity_run(old(t).rs(), old(t).at(), repo@, full@), r) {
            (Run::Done(v, at), Ok(b)) => opt_branch(b) == v && final(t).at() == at,
            (Run::Halt(h), Err(g)) => g@ == h,
            _ => false,
        },
{
    if let Some(l) = strip_prefix(full, "refs/heads/") {
        return Ok(Some(BaseBranch::Local(l)));
    }
    remote_branch_name(t, repo, full)
}

/// What looking up an exact ref gave.
#[derive(Debug, Clone)]
pub enum RefLookup {
    /// It is there and stands for this commit.
    Found(String),
    /// There is no such ref.
    Missing,
    /// The question could not be answered, for this reason.
    Failed(String),
}

/// What a [`RefLookup`] says.
pub enum LookupView {
    Found(Seq<char>),
    Missing,
    Failed(Seq<char>),
}

impl View for RefLookup {
    type V = LookupView;

    open spec fn view(&self) -> LookupView {
        match self {
            RefLookup::Found(c) => LookupView::Found(c@),
            RefLookup::Missing => LookupView::Missing,
            RefLookup::Failed(why) => LookupView::Failed(why@),
        }
    }
}

/// Looking up an exact ref. One that is there but stands for no commit has failed; it is
/// not missing.
pub open spec fn lookup_ref_run(
    rs: Seq<ReplyView>,
    at: nat,
    repo: Seq<u8>,
    full: Seq<char>,
) -> Run<LookupView> {
    match ref_exists_run(rs, at, repo, full) {
        Run::Halt(h) => Run::Halt(h),
        Run::Done(None, n) => Run::Done(
            LookupView::Failed("show-ref could not verify "@ + full),
            n,
        ),
        Run::Done(Some(false), n) => Run::Done(LookupView::Missing, n),
        Run::Done(Some(true), n) => match git_run(rs, n, PlaceView::At(repo), ask_commit(full)) {
            Run::Halt(h) => Run::Halt(h),
            Run::Done(o, m) => Run::Done(
                match o.status {
                    None => LookupView::Failed("rev-parse killed by signal"@),
                    Some(code) => if code == 0 {
                        LookupView::Found(answer_line(lossy_text(o.stdout)))
                    } else {
                        LookupView::Failed(
                            full + " exists but does not peel to a commit (rev-parse exit "@
                                + dec_int(code as int) + ": "@ + head_line(lossy_text(o.stderr))
                                + ")"@,
                        )
                    },
                },
                m,
            ),
        },
    }
}

fn peel(expr: &str) -> (s: String)
    ensures
        s@ == peeled(expr@),
{
    let mut s: String = expr.to_owned();
    s.append("^{commit}");
    s
}

/// Looks up an exact ref and the commit it stands for.
pub fn lookup_ref(t: &mut Talk, repo: &TreePath, full: &str) -> (r: Result<RefLookup, Halt>)
    ensures
        final(t).rs() == old(t).rs(),
        match (lookup_ref_run(old(t).rs(), old(t).at(), repo@, full@), r) {
            (Run::Done(v, at), Ok(l)) => l@ == v && final(t).at() == at,
            (Run::Halt(h), Err(g)) => g@ == h,
            _ => false,
        },
{
    match ref_exists(t, repo, full) {
        Ok(Some(true)) => {},
        Ok(Some(false)) => {
            return Ok(RefLookup::Missing);
        },
        Ok(None) => {
            let mut m: String = "show-ref could not verify ".to_owned();
            m.append(full);
            return Ok(RefLookup::Failed(m));
        },
        Err(h) => {
            return Err(h);
        },
    }
    let expr = peel(full);
    let o = match t.git(
        Place::At(repo.copy()),
        words4("rev-parse", "--verify", "-q", expr.as_str()),
    ) {
        Ok(o) => o,
        Err(h) => {
            return Err(h);
        },
    };
    match o.status {
        None => Ok(RefLookup::Failed("rev-parse killed by signal".to_owned())),
        Some(code) => {
            if code == 0 {
                Ok(RefLookup::Found(strip_nl(o.out_text().as_str())))
            } else {
                let mut m: String = full.to_owned();
                m.append(" exists but does not peel to a commit (rev-parse exit ");
                push_dec_int(&mut m, code as i64);
                m.append(": ");
                let first = o.err_first_line();
                m.append(first.as_str());
                m.append(")");
                Ok(RefLookup::Failed(m))
            }
        },
    }
}

/// The view of an optional commit.
pub open spec fn opt_commit(c: Option<String>) -> Option<Seq<char>> {
    match c {
        Some(s) => Some(s@),
        None => None,
    }
}

/// The commit of a revision expression, if it has one.
pub open spec fn expr_commit_run(
    rs: Seq<ReplyView>,
    at: nat,
    repo: Seq<u8>,
    expr: Seq<char>,
) -> Run<Option<Seq<char>>> {
    match git_run(rs, at, PlaceView::At(repo), ask_commit(expr)) {
        Run::Halt(h) => Run::Halt(h),
        Run::Done(o, n) => Run::Done(
            if o.status == Some(0i32) {
                Some(answer_line(lossy_text(o.stdout)))
            } else {
                None
            },
            n,
        ),
    }
}

/// The commit of a revision expression, if it has one.
pub fn commit_of_expr(t: &mut Talk, repo: &TreePath, expr: &str) -> (r: Result<
    Option<String>,
    Halt,
>)
    ensures
        final(t).rs() == old(t).rs(),
        match (expr_commit_run(old(t).rs(), old(t).at(), repo@, expr@), r) {
            (Run::Done(v, at), Ok(c)) => opt_commit(c) == v && final(t).at() == at,
            (Run::Halt(h), Err(g)) => g@ == h,
            _ => false,
        },
{
    let full = peel(expr);
    let o = match t.git(
        Place::At(repo.copy()),
        words4("rev-parse", "--verify", "-q", full.as_str()),
    ) {
        Ok(o) => o,
        Err(h) => {
            return Err(h);
        },
    };
    if o.ok() {
        Ok(Some(strip_nl(o.out_text().as_str())))
    } else {
        Ok(None)
    }
}

/// The commit of an exact ref: none when there is no such ref, refused when it could not be
/// looked up.
pub open spec fn commit_run(
    rs: Seq<ReplyView>,
    at: nat,
    repo: Seq<u8>,
    full: Seq<char>,
) -> Run<Option<Seq<char>>> {
    match lookup_ref_run(rs, at, repo, full) {
        Run::Halt(h) => Run::Halt(h),
        Run::Done(LookupView::Found(c), n) => Run::Done(Some(c), n),
        Run::Done(LookupView::Missing, n) => Run::Done(None, n),
        Run::Done(LookupView::Failed(why), _) => refused(
            refusal(ErrorKind::Io, "base candidate "@ + full + ": "@ + why),
        ),
    }
}

/// The commit of an exact ref.
pub fn commit_of(t: &mut Talk, repo: &TreePath, full: &str) -> (r: Result<Option<String>, Halt>)
    ensures
        final(t).rs() == old(t).rs(),
        match (commit_run(old(t).rs(), old(t).at(), repo@, full@), r) {
            (Run::Done(v, at), Ok(c)) => opt_commit(c) == v && final(t).at() == at,
            (Run::Halt(h), Err(g)) => g@ == h,
            _ => false,
        },
{
    match lookup_ref(t, repo, full) {
        Ok(RefLookup::Found(c)) => Ok(Some(c)),
        Ok(RefLookup::Missing) => Ok(None),
        Ok(RefLookup::Failed(why)) => {
            let mut m: String = "base candidate ".to_owned();
            m.append(full);
            m.append(": ");
            m.append(why.as_str());
            Err(Halt::Refuse(VcError::new(ErrorKind::Io, m)))
        },
        Err(h) => Err(h),
    }
}

/// The ref that a symbolic ref stands for; any other ref stands for itself.
pub open spec fn deref_run(
    rs: Seq<ReplyView>,
    at: nat,
    repo: Seq<u8>,
    full: Seq<char>,
) -> Run<Seq<char>> {
    match git_run(rs, at, PlaceView::At(repo), ask_symbolic(full)) {
        Run::Halt(h) => Run::Halt(h),
        Run::Done(o, n) => {
            let target = answer_line(lossy_text(o.stdout));
            if o.status == Some(0i32) && target.len() > 0 {
                Run::Done(target, n)
            } else if o.status == Some(0i32) || o.status == Some(1i32) {
                Run::Done(full, n)
            } else {
                refused(
                    refusal(
                        ErrorKind::Io,
                        "git symbolic-ref "@ + full + " failed: "@ + trimmed(
                            lossy_text(o.stderr),
                        ),
                    ),
                )
            }
        },
    }
}

/// Follows a symbolic ref.
pub fn deref_symbolic(t: &mut Talk, repo: &TreePath, full: &str) -> (r: Result<String, Halt>)
    ensures
        final(t).rs() == old(t).rs(),
        match (deref_run(old(t).rs(), old(t).at(), repo@, full@), r) {
            (Run::Done(v, at), Ok(s)) => s@ == v && final(t).at() == at,
            (Run::Halt(h), Err(g)) => g@ == h,
            _ => false,
        },
{
    let o = match t.git(Place::At(repo.copy()), words4("symbolic-ref", "-q", "--", full)) {
        Ok(o) => o,
        Err(h) => {
            return Err(h);
        },
    };
    let target = strip_nl(o.out_text().as_str());
    match o.status {
        Some(0) => {
            if target.as_str().is_empty() {
                Ok(full.to_owned())
            } else {
                Ok(target)
            }
        },
        Some(1) => Ok(full.to_owned()),
        _ => {
            let mut m: String = "git symbolic-ref ".to_owned();
            m.append(full);
            m.append(" failed: ");
            let err = o.err_trimmed();
            m.append(err.as_str());
            Err(Halt::Refuse(VcError::new(ErrorKind::Io, m)))
        },
    }
}

/// What an explicit base turned out to be: its full spelling, its commit, and whether it is
/// a ref.
pub struct Pinned {
    pub full: Seq<char>,
    pub commit: Seq<char>,
    pub exact: bool,
}

/// Pinning an explicit base whose name means `hits`.
pub open spec fn pinned_run(
    rs: Seq<ReplyView>,
    at: nat,
    repo: Seq<u8>,
    b: Seq<char>,
    hits: Seq<Seq<char>>,
) -> Run<Pinned> {
    if hits.len() == 0 {
        match canonical_run(rs, at, repo, b) {
            Run::Halt(h) => Run::Halt(h),
            Run::Done(expr, n) => match expr_commit_run(rs, n, repo, expr) {
                Run::Halt(h) => Run::Halt(h),
                Run::Done(None, _) => refused(
                    refusal(ErrorKind::NotFound, "--base "@ + b + ": does not name a commit"@),
                ),
                Run::Done(Some(commit), m) => Run::Done(
                    Pinned { full: expr, commit, exact: false },
                    m,
                ),
            },
        }
    } else if hits.len() == 1 {
        match deref_run(rs, at, repo, hits[0]) {
            Run::Halt(h) => Run::Halt(h),
            Run::Done(full, n) => {
                let exact = begins_with(full, "refs/"@);
                match (if exact {
                    commit_run(rs, n, repo, full)
                } else {
                    expr_commit_run(rs, n, repo, full)
                }) {
                    Run::Halt(h) => Run::Halt(h),
                    Run::Done(None, _) => refused(
                        refusal(
                            ErrorKind::NotFound,
                            "--base "@ + b + ": "@ + full + " does not peel to a commit"@,
                        ),
                    ),
                    Run::Done(Some(commit), m) => Run::Done(Pinned { full, commit, exact }, m),
                }
            },
        }
    } else {
        refused(
            refusal_next(
                ErrorKind::Usage,
                "--base "@ + b + ": ambiguous ("@ + joined_with(hits, ", "@) + ")"@,
                "vc worktree doctor --base "@ + hits[0],
            ),
        )
    }
}

fn pin_base(t: &mut Talk, repo: &TreePath, b: &str, hits: &Vec<String>) -> (r: Result<
    (String, String, bool),
    Halt,
>)
    ensures
        final(t).rs() == old(t).rs(),
        match (pinned_run(old(t).rs(), old(t).at(), repo@, b@, views(hits@)), r) {
            (Run::Done(p, at), Ok((full, commit, exact))) => full@ == p.full && commit@ == p.commit
                && exact == p.exact && final(t).at() == at,
            (Run::Halt(h), Err(g)) => g@ == h,
            _ => false,
        },
{
    if hits.len() == 0 {
        let expr = match canonical_expr(t, repo, b) {
            Ok(expr) => expr,
            Err(h) => {
                return Err(h);
            },
        };
        return match commit_of_expr(t, repo, expr.as_str()) {
            Ok(Some(commit)) => Ok((expr, commit, false)),
            Ok(None) => {
                let mut m: String = "--base ".to_owned();
                m.append(b);
                m.append(": does not name a commit");
                Err(Halt::Refuse(VcError::new(ErrorKind::NotFound, m)))
            },
            Err(h) => Err(h),
        };
    }
    assert(views(hits@)[0] == hits@[0]@);
    if hits.len() == 1 {
        let full = match deref_symbolic(t, repo, hits[0].as_str()) {
            Ok(full) => full,
            Err(h) => {
                return Err(h);
            },
        };
        let exact = starts_with(full.as_str(), "refs/");
        let commit = if exact {
            commit_of(t, repo, full.as_str())
        } else {
            commit_of_expr(t, repo, full.as_str())
        };
        return match commit {
            Ok(Some(commit)) => Ok((full, commit, exact)),
            Ok(None) => {
                let mut m: String = "--base ".to_owned();
                m.append(b);
                m.append(": ");
                m.append(full.as_str());
                m.append(" does not peel to a commit");
                Err(Halt::Refuse(VcError::new(ErrorKind::NotFound, m)))
            },
            Err(h) => Err(h),
        };
    }
    let mut m: String = "--base ".to_owned();
    m.append(b);
    m.append(": ambiguous (");
    let list = join(hits, ", ");
    m.append(list.as_str());
    m.append(")");
    let mut next: String = "vc worktree doctor --base ".to_owned();
    next.append(hits[0].as_str());
    Err(Halt::Refuse(VcError::new(ErrorKind::Usage, m).with_next(next)))
}

/// Resolving an explicit base.
pub open spec fn explicit_run(rs: Seq<ReplyView>, at: nat, repo: Seq<u8>, b: Seq<char>) -> Run<
    BaseView,
> {
    match full_oid_run(rs, at, repo, b) {
        Run::Halt(h) => Run::Halt(h),
        Run::Done(is_oid, n) => match name_hits_run(rs, n, repo, b, b) {
            Run::Halt(h) => Run::Halt(h),
            Run::Done(hits, m) => if is_oid && hits.len() > 0 {
                refused(
                    refusal_next(
                        ErrorKind::Usage,
                        "--base "@ + b + ": a full object id, but also the name of "@
                            + joined_with(hits, ", "@),
                        "vc worktree doctor --base "@ + b + "^{commit}"@,
                    ),
                )
            } else {
                match pinned_run(rs, m, repo, b, hits) {
                    Run::Halt(h) => Run::Halt(h),
                    Run::Done(p, k) => match (if p.exact {
                        identity_run(rs, k, repo, p.full)
                    } else {
                        Run::Done(None, k)
                    }) {
                        Run::Halt(h) => Run::Halt(h),
                        Run::Done(branch, j) => Run::Done(
                            BaseView {
                                display: b,
                                branch,
                                full: p.full,
                                commit: p.commit,
                                source: "--base"@,
                                is_ref: p.exact,
                            },
                            j,
                        ),
                    },
                }
            },
        },
    }
}

/// Resolves an explicit base: a name that means exactly one ref, or a revision expression.
/// A name that means several refs, or one that is also an object id, is refused.
fn resolve_explicit(t: &mut Talk, repo: &TreePath, b: &str) -> (r: Result<Base, Halt>)
    ensures
        final(t).rs() == old(t).rs(),
        match (explicit_run(old(t).rs(), old(t).at(), repo@, b@), r) {
            (Run::Done(v, at), Ok(base)) => base@ == v && final(t).at() == at,
            (Run::Halt(h), Err(g)) => g@ == h,
            _ => false,
        },
{
    let is_oid = match is_full_oid(t, repo, b) {
        Ok(yes) => yes,
        Err(h) => {
            return Err(h);
        },
    };
    let hits = match name_hits(t, repo, b, b) {
        Ok(hits) => hits,
        Err(h) => {
            return Err(h);
        },
    };
    if is_oid && hits.len() > 0 {
        let mut m: String = "--base ".to_owned();
        m.append(b);
        m.append(": a full object id, but also the name of ");
        let list = join(&hits, ", ");
        m.append(list.as_str());
        let mut next: String = "vc worktree doctor --base ".to_owned();
        next.append(b);
        next.append("^{commit}");
        return Err(Halt::Refuse(VcError::new(ErrorKind::Usage, m).with_next(next)));
    }
    let (full, commit, exact) = match pin_base(t, repo, b, &hits) {
        Ok(p) => p,
        Err(h) => {
            return Err(h);
        },
    };
    let branch = if exact {
        match branch_identity(t, repo, full.as_str()) {
            Ok(branch) => branch,
            Err(h) => {
                return Err(h);
            },
        }
    } else {
        None
    };
    Ok(
        Base {
            display: b.to_owned(),
            branch,
            full,
            commit,
            source: "--base".to_owned(),
            is_ref: exact,
        },
    )
}

/// Trying one local branch as the base: nothing when there is no such branch, or it stands
/// for no commit.
pub open spec fn fallback_run(
    rs: Seq<ReplyView>,
    at: nat,
    repo: Seq<u8>,
    cand: Seq<char>,
) -> Run<Option<BaseView>> {
    let named = "refs/heads/"@ + cand;
    match ref_exists_run(rs, at, repo, named) {
        Run::Halt(h) => Run::Halt(h),
        Run::Done(None, _) => refused(
            refusal(
                ErrorKind::Io,
                "base candidate "@ + named + ": show-ref could not verify it"@,
            ),
        ),
        Run::Done(Some(false), n) => Run::Done(None, n),
        Run::Done(Some(true), n) => match deref_run(rs, n, repo, named) {
            Run::Halt(h) => Run::Halt(h),
            Run::Done(full, m) => match commit_run(rs, m, repo, full) {
                Run::Halt(h) => Run::Halt(h),
                Run::Done(None, k) => Run::Done(None, k),
                Run::Done(Some(commit), k) => match identity_run(rs, k, repo, full) {
                    Run::Halt(h) => Run::Halt(h),
                    Run::Done(branch, j) => Run::Done(
                        Some(
                            BaseView {
                                display: cand,
                                branch,
                                full,
                                commit,
                                source: "fallback"@,
                                is_ref: true,
                            },
                        ),
                        j,
                    ),
                },
            },
        },
    }
}

fn try_fallback(t: &mut Talk, repo: &TreePath, cand: &str) -> (r: Result<Option<Base>, Halt>)
    ensures
        final(t).rs() == old(t).rs(),
        match (fallback_run(old(t).rs(), old(t).at(), repo@, cand@), r) {
            (Run::Done(Some(v), at), Ok(Some(b))) => b@ == v && final(t).at() == at,
            (Run::Done(None, at), Ok(None)) => final(t).at() == at,
            (Run::Halt(h), Err(g)) => g@ == h,
            _ => false,
        },
{
    let mut named: String = "refs/heads/".to_owned();
    named.append(cand);
    match ref_exists(t, repo, named.as_str()) {
        Ok(Some(true)) => {},
        Ok(Some(false)) => {
            return Ok(None);
        },
        Ok(None) => {
            let mut m: String = "base candidate ".to_owned();
            m.append(named.as_str());
            m.append(": show-ref could not verify it");
            return Err(Halt::Refuse(VcError::new(ErrorKind::Io, m)));
        },
        Err(h) => {
            return Err(h);
        },
    }
    let full = match deref_symbolic(t, repo, named.as_str()) {
        Ok(full) => full,
        Err(h) => {
            return Err(h);
        },
    };
    let commit = match commit_of(t, repo, full.as_str()) {
        Ok(Some(commit)) => commit,
        Ok(None) => {
            return Ok(None);
        },
        Err(h) => {
            return Err(h);
        },
    };
    let branch = match branch_identity(t, repo, full.as_str()) {
        Ok(branch) => branch,
        Err(h) => {
            return Err(h);
        },
    };
    Ok(
        Some(
            Base {
                display: cand.to_owned(),
                branch,
                full,
                commit,
                source: "fallback".to_owned(),
                is_ref: true,
            },
        ),
    )
}

/// The refusal when nothing can be the base.
pub open spec fn no_base() -> ErrorView {
    refusal_next(
        ErrorKind::Usage,
        "no base branch found (origin/HEAD unset, no main or master)"@,
        "vc worktree doctor --base <ref>"@,
    )
}

/// Falling back to `main`, then to `master`.
pub open spec fn fallbacks_run(rs: Seq<ReplyView>, at: nat, repo: Seq<u8>) -> Run<BaseView> {
    match fallback_run(rs, at, repo, "main"@) {
        Run::Halt(h) => Run::Halt(h),
        Run::Done(Some(b), n) => Run::Done(b, n),
        Run::Done(None, n) => match fallback_run(rs, n, repo, "master"@) {
            Run::Halt(h) => Run::Halt(h),
            Run::Done(Some(b), m) => Run::Done(b, m),
            Run::Done(None, _) => refused(no_base()),
        },
    }
}

fn fall_back(t: &mut Talk, repo: &TreePath) -> (r: Result<Base, Halt>)
    ensures
        final(t).rs() == old(t).rs(),
        match (fallbacks_run(old(t).rs(), old(t).at(), repo@), r) {
            (Run::Done(v, at), Ok(base)) => base@ == v && final(t).at() == at,
            (Run::Halt(h), Err(g)) => g@ == h,
            _ => false,
        },
{
    match try_fallback(t, repo, "main") {
        Ok(Some(b)) => {
            return Ok(b);
        },
        Ok(None) => {},
        Err(h) => {
            return Err(h);
        },
    }
    match try_fallback(t, repo, "master") {
        Ok(Some(b)) => Ok(b),
        Ok(None) => Err(
            Halt::Refuse(
                VcError::new(
                    ErrorKind::Usage,
                    "no base branch found (origin/HEAD unset, no main or master)".to_owned(),
                ).with_next("vc worktree doctor --base <ref>".to_owned()),
            ),
        ),
        Err(h) => Err(h),
    }
}

/// Resolving the base: the explicit one, else what `origin/HEAD` stands for, else `main`,
/// else `master`.
pub open spec fn base_run(
    rs: Seq<ReplyView>,
    at: nat,
    repo: Seq<u8>,
    explicit: Option<Seq<char>>,
) -> Run<BaseView> {
    match explicit {
        Some(b) => explicit_run(rs, at, repo, b),
        None => match git_run(rs, at, PlaceView::At(repo), ask_origin_head()) {
            Run::Halt(h) => Run::Halt(h),
            Run::Done(o, n) => if o.status == Some(0i32) {
                let full = answer_line(lossy_text(o.stdout));
                match commit_run(rs, n, repo, full) {
                    Run::Halt(h) => Run::Halt(h),
                    Run::Done(None, m) => fallbacks_run(rs, m, repo),
                    Run::Done(Some(commit), m) => match identity_run(rs, m, repo, full) {
                        Run::Halt(h) => Run::Halt(h),
                        Run::Done(branch, k) => Run::Done(
                            BaseView {
                                display: match after_prefix(full, "refs/remotes/"@) {
                                    Some(short) => short,
                                    None => full,
                                },
                                branch,
                                full,
                                commit,
                                source: "origin/HEAD"@,
                                is_ref: true,
                            },
                            k,
                        ),
                    },
                }
            } else if o.status == Some(1i32) {
                fallbacks_run(rs, n, repo)
            } else {
                refused(
                    refusal(
                        ErrorKind::Io,
                        "git symbolic-ref refs/remotes/origin/HEAD failed: "@ + trimmed(
                            lossy_text(o.stderr),
                        ),
                    ),
                )
            },
        },
    }
}

/// Resolves the base that worktrees are compared against.
pub fn resolve_base(t: &mut Talk, repo: &TreePath, explicit: &Option<String>) -> (r: Result<
    Base,
    Halt,
>)
    ensures
        final(t).rs() == old(t).rs(),
        match (
            base_run(old(t).rs(), old(t).at(), repo@, crate::errors::opt_text(*explicit)),
            r,
        ) {
            (Run::Done(v, at), Ok(base)) => base@ == v && final(t).at() == at,
            (Run::Halt(h), Err(g)) => g@ == h,
            _ => false,
        },
{
    if let Some(b) = explicit {
        return resolve_explicit(t, repo, b.as_str());
    }
    let o = match t.git(
        Place::At(repo.copy()),
        words3("symbolic-ref", "-q", "refs/remotes/origin/HEAD"),
    ) {
        Ok(o) => o,
        Err(h) => {
            return Err(h);
        },
    };
    match o.status {
        Some(0) => {
            let full = strip_nl(o.out_text().as_str());
            match commit_of(t, repo, full.as_str()) {
                Ok(Some(commit)) => {
                    let branch = match branch_identity(t, repo, full.as_str()) {
                        Ok(branch) => branch,
                        Err(h) => {
                            return Err(h);
                        },
                    };
                    let display = match strip_prefix(full.as_str(), "refs/remotes/") {
                        Some(short) => short,
                        None => full.clone(),
                    };
                    return Ok(
                        Base {
                            display,
                            branch,
                            full,
                            commit,
                            source: "origin/HEAD".to_owned(),
                            is_ref: true,
                        },
                    );
                },
                Ok(None) => {},
                Err(h) => {
                    return Err(h);
                },
            }
        },
        Some(1) => {},
        _ => {
            let mut m: String = "git symbolic-ref refs/remotes/origin/HEAD failed: ".to_owned();
            let err = o.err_trimmed();
            m.append(err.as_str());
            return Err(Halt::Refuse(VcError::new(ErrorKind::Io, m)));
        },
    }
    fall_back(t, repo)
}

/// Whether the remote on a line owns a ref below `refs/remotes/`: the ref is its name, a `/`
/// and a branch.
pub open spec fn owns(line: Seq<char>, rest: Seq<char>) -> bool {
    answer_line(line).len() > 0 && begins_with(rest, answer_line(line) + "/"@)
}

/// Whether the remote `r` with branch `b` is the longest on the first `n` lines that owns a
/// ref.
pub open spec fn is_longest_owner(
    rest: Seq<char>,
    lines: Seq<Seq<char>>,
    n: int,
    found: Option<(Seq<char>, Seq<char>)>,
) -> bool {
    match found {
        None => forall|k: int| 0 <= k < n ==> !owns(#[trigger] lines[k], rest),
        Some((r, b)) => {
            &&& rest == r + "/"@ + b
            &&& exists|k: int|
                0 <= k < n && owns(#[trigger] lines[k], rest) && answer_line(lines[k]) == r
            &&& forall|k: int|
                0 <= k < n && owns(#[trigger] lines[k], rest) ==> answer_line(lines[k]).len()
                    <= r.len()
        },
    }
}

proof fn lemma_owner(line: Seq<char>, rest: Seq<char>)
    ensures
        ({
            let r = answer_line(line);
            let owned = match after_prefix(rest, r) {
                Some(t) => after_prefix(t, "/"@),
                None => None,
            };
            &&& r.len() > 0 ==> (owns(line, rest) <==> owned is Some)
            &&& owned matches Some(b) ==> rest == r + "/"@ + b
        }),
{
    reveal_strlit("/");
    let r = answer_line(line);
    let slash = "/"@;
    let whole = r + slash;
    if begins_with(rest, r) {
        let t = rest.skip(r.len() as int);
        assert(rest =~= r + t);
        if begins_with(t, slash) {
            let b = t.skip(1);
            assert(t =~= slash + b);
            assert(rest =~= whole + b);
            assert(rest.take(whole.len() as int) =~= whole);
        }
    }
    if begins_with(rest, whole) {
        assert(rest.take(r.len() as int) =~= rest.take(whole.len() as int).take(r.len() as int));
        assert(whole.take(r.len() as int) =~= r);
        let t = rest.skip(r.len() as int);
        assert(t.take(1) =~= rest.take(whole.len() as int).skip(r.len() as int));
        assert(whole.skip(r.len() as int) =~= slash);
    }
}

proof fn lemma_best_remote(
    rest: Seq<char>,
    lines: Seq<Seq<char>>,
    i: int,
    best: Option<(Seq<char>, Seq<char>)>,
)
    requires
        0 <= i <= lines.len(),
        is_longest_owner(rest, lines, i, best),
    ensures
        is_longest_owner(
            rest,
            lines,
            lines.len() as int,
            best_remote(rest, lines, i, best),
        ),
    decreases lines.len() - i,
{
    if i < lines.len() {
        lemma_owner(lines[i], rest);
        let r = answer_line(lines[i]);
        let owned = if r.len() == 0 {
            None
        } else {
            match after_prefix(rest, r) {
                Some(t) => after_prefix(t, "/"@),
                None => None,
            }
        };
        let next = match owned {
            Some(b) => match best {
                Some((longest, _)) if r.len() < longest.len() => best,
                _ => Some((r, b)),
            },
            None => best,
        };
        assert(owns(lines[i], rest) <==> owned is Some);
        assert(is_longest_owner(rest, lines, i + 1, next)) by {
            if let Some((longest, _)) = best {
                let k = choose|k: int|
                    0 <= k < i && owns(#[trigger] lines[k], rest) && answer_line(lines[k])
                        == longest;
                assert(owns(lines[k], rest));
            }
        }
        lemma_best_remote(rest, lines, i + 1, next);
    }
}

/// A remote-tracking ref belongs to the longest remote that owns it, whatever the order and
/// the number of the remotes; and to none exactly when none owns it.
pub proof fn law_a_ref_belongs_to_its_longest_remote(rest: Seq<char>, lines: Seq<Seq<char>>)
    ensures
        is_longest_owner(rest, lines, lines.len() as int, best_remote(rest, lines, 0, None)),
{
    lemma_best_remote(rest, lines, 0, None);
}

/// Every line of a listing that says something is read, in order.
pub proof fn law_every_line_said_is_read(text: Seq<char>)
    ensures
        said_lines(text) == pieces(text, '\n').map_values(
            |l: Seq<char>| answer_line(l),
        ).filter(|l: Seq<char>| l.len() > 0),
{
    let lines = pieces(text, '\n');
    reveal(Seq::filter);
    assert(lines.take(0).map_values(|l: Seq<char>| answer_line(l)).filter(
        |l: Seq<char>| l.len() > 0,
    ) =~= Seq::<Seq<char>>::empty());
    lemma_said(lines, 0, seq![]);
}

proof fn lemma_said(lines: Seq<Seq<char>>, i: int, done: Seq<Seq<char>>)
    requires
        0 <= i <= lines.len(),
        done == lines.take(i).map_values(|l: Seq<char>| answer_line(l)).filter(
            |l: Seq<char>| l.len() > 0,
        ),
    ensures
        said_from(lines, i, done) == lines.map_values(|l: Seq<char>| answer_line(l)).filter(
            |l: Seq<char>| l.len() > 0,
        ),
    decreases lines.len() - i,
{
    let f = |l: Seq<char>| answer_line(l);
    let keep = |l: Seq<char>| l.len() > 0;
    reveal(Seq::filter);
    if i < lines.len() {
        let next = lines.take(i + 1).map_values(f);
        assert(next.drop_last() =~= lines.take(i).map_values(f));
        assert(next.last() == answer_line(lines[i]));
        lemma_said(lines, i + 1, next.filter(keep));
    } else {
        assert(lines.take(i) =~= lines);
    }
}

/// A refspec without its forcing signs: what is taken off are `+` signs at the front, all of
/// them and nothing else.
pub proof fn law_only_leading_plus_signs_are_taken_off(s: Seq<char>)
    ensures
        ({
            let t = without_plus(s);
            &&& t.len() <= s.len() && s.skip(s.len() - t.len()) == t
            &&& forall|i: int| 0 <= i < s.len() - t.len() ==> #[trigger] s[i] == '+'
            &&& t.len() > 0 ==> t[0] != '+'
        }),
    decreases s.len(),
{
    let t = without_plus(s);
    if s.len() > 0 && s[0] == '+' {
        let rest = s.skip(1);
        law_only_leading_plus_signs_are_taken_off(rest);
        assert(s.skip(s.len() - t.len()) =~= rest.skip(rest.len() - t.len()));
        assert forall|i: int| 0 <= i < s.len() - t.len() implies #[trigger] s[i] == '+' by {
            if i > 0 {
                assert(rest[i - 1] == s[i]);
            }
        }
    } else {
        assert(s.skip(0) =~= s);
    }
}

/// Whether some refspec maps `src` onto `dst`.
pub open spec fn is_mapped(specs: Seq<Seq<char>>, dst: Seq<char>, src: Seq<char>) -> bool {
    exists|k: int| 0 <= k < specs.len() && mapped_source(#[trigger] specs[k], dst) == Some(src)
}

/// Whether some negative refspec excludes `src`.
pub open spec fn is_excluded(specs: Seq<Seq<char>>, src: Seq<char>) -> bool {
    exists|k: int|
        0 <= k < specs.len() && (after_prefix(#[trigger] specs[k], "^"@) matches Some(neg)
            && glob_text(neg, src) is Some)
}

/// Whether `src` can be fetched into `dst`: it is mapped onto it, or it is the fallback and
/// nothing is mapped; and it is not excluded.
pub open spec fn can_be_fetched(
    specs: Seq<Seq<char>>,
    dst: Seq<char>,
    fallback: Seq<char>,
    src: Seq<char>,
) -> bool {
    &&& is_mapped(specs, dst, src) || src == fallback && forall|k: int|
        0 <= k < specs.len() ==> mapped_source(#[trigger] specs[k], dst) is None
    &&& !is_excluded(specs, src)
}

proof fn lemma_sources(
    specs: Seq<Seq<char>>,
    dst: Seq<char>,
    i: int,
    done: Seq<Seq<char>>,
)
    requires
        0 <= i <= specs.len(),
        done.no_duplicates(),
        forall|s: Seq<char>| #[trigger] done.contains(s) <==> is_mapped(specs.take(i), dst, s),
    ensures
        sources_from(specs, dst, i, done).no_duplicates(),
        forall|s: Seq<char>| #[trigger]
            sources_from(specs, dst, i, done).contains(s) <==> is_mapped(specs, dst, s),
    decreases specs.len() - i,
{
    if i < specs.len() {
        let before = specs.take(i);
        let now = specs.take(i + 1);
        let found = mapped_source(specs[i], dst);
        let next = match found {
            Some(src) => if done.contains(src) {
                done
            } else {
                done.push(src)
            },
            None => done,
        };
        assert forall|s: Seq<char>| #[trigger] next.contains(s) <==> is_mapped(now, dst, s) by {
            if is_mapped(before, dst, s) {
                let k = choose|k: int|
                    0 <= k < before.len() && mapped_source(#[trigger] before[k], dst) == Some(s);
                assert(now[k] == before[k]);
            }
            if is_mapped(now, dst, s) && found != Some(s) {
                let k = choose|k: int|
                    0 <= k < now.len() && mapped_source(#[trigger] now[k], dst) == Some(s);
                assert(before[k] == now[k]);
            }
            if found == Some(s) {
                assert(now[i] == specs[i]);
                assert(is_mapped(now, dst, s));
            }
            if let Some(src) = found {
                if !done.contains(src) {
                    assert(next[done.len() as int] == src);
                    if done.contains(s) {
                        let k = done.index_of(s);
                        assert(next[k] == s);
                    }
                    if next.contains(s) && s != src {
                        let k = next.index_of(s);
                        assert(done[k] == s);
                    }
                }
            }
        }
        lemma_sources(specs, dst, i + 1, next);
    } else {
        assert(specs.take(i) =~= specs);
    }
}

proof fn lemma_allowed(specs: Seq<Seq<char>>, i: int, sources: Seq<Seq<char>>)
    requires
        0 <= i <= specs.len(),
        sources.no_duplicates(),
    ensures
        allowed_from(specs, i, sources).no_duplicates(),
        forall|s: Seq<char>| #[trigger]
            allowed_from(specs, i, sources).contains(s) <==> sources.contains(s)
                && !is_excluded(specs.skip(i), s),
    decreases specs.len() - i,
{
    let later = specs.skip(i);
    if i < specs.len() {
        let next = match after_prefix(specs[i], "^"@) {
            Some(neg) => sources.filter(|s: Seq<char>| glob_text(neg, s) is None),
            None => sources,
        };
        if let Some(neg) = after_prefix(specs[i], "^"@) {
            lemma_filter_members(sources, |s: Seq<char>| glob_text(neg, s) is None);
        }
        let rest = specs.skip(i + 1);
        lemma_allowed(specs, i + 1, next);
        assert forall|s: Seq<char>| #[trigger]
            allowed_from(specs, i, sources).contains(s) <==> sources.contains(s)
                && !is_excluded(later, s) by {
            assert(later[0] == specs[i]);
            assert(allowed_from(specs, i + 1, next).contains(s) <==> next.contains(s)
                && !is_excluded(rest, s));
            if is_excluded(rest, s) {
                let k = choose|k: int|
                    0 <= k < rest.len() && (after_prefix(#[trigger] rest[k], "^"@) matches Some(neg)
                        && glob_text(neg, s) is Some);
                assert(later[k + 1] == rest[k]);
            }
            if is_excluded(later, s) && sources.contains(s) && next.contains(s) {
                let k = choose|k: int|
                    0 <= k < later.len() && (after_prefix(#[trigger] later[k], "^"@) matches Some(
                        neg,
                    ) && glob_text(neg, s) is Some);
                assert(k > 0);
                assert(rest[k - 1] == later[k]);
            }
        }
    }
}

/// What is fetched into a ref is the one source that can be: it is chosen exactly when it can
/// be fetched and no other source can.
pub proof fn law_the_one_source_that_can_be_fetched_is_fetched(
    key: Seq<char>,
    specs: Seq<Seq<char>>,
    dst: Seq<char>,
    fallback: Seq<char>,
    src: Seq<char>,
)
    ensures
        fetch_choice(key, specs, dst, fallback) == Ok::<Seq<char>, ErrorView>(src) <==> {
            &&& can_be_fetched(specs, dst, fallback, src)
            &&& forall|other: Seq<char>| #[trigger]
                can_be_fetched(specs, dst, fallback, other) ==> other == src
        },
{
    let none = Seq::<Seq<char>>::empty();
    assert(specs.take(0) =~= none);
    assert(specs.skip(0) =~= specs);
    let found = sources_from(specs, dst, 0, seq![]);
    lemma_sources(specs, dst, 0, seq![]);
    let candidates = if found.len() == 0 {
        seq![fallback]
    } else {
        found
    };
    assert(candidates.no_duplicates());
    lemma_allowed(specs, 0, candidates);
    let sources = allowed_from(specs, 0, candidates);
    assert forall|s: Seq<char>| #[trigger]
        can_be_fetched(specs, dst, fallback, s) <==> sources.contains(s) by {
        lemma_candidate(specs, dst, fallback, found, s);
        if found.len() == 0 {
            assert(candidates[0] == fallback);
            assert(candidates.contains(s) <==> s == fallback);
        }
        assert(sources.contains(s) <==> candidates.contains(s) && !is_excluded(specs, s));
    }
    if sources.len() == 1 {
        assert(sources.contains(sources[0]));
        assert(can_be_fetched(specs, dst, fallback, sources[0]));
    } else if sources.len() > 1 {
        assert(sources.contains(sources[0]) && sources.contains(sources[1]));
        assert(can_be_fetched(specs, dst, fallback, sources[0]));
        assert(can_be_fetched(specs, dst, fallback, sources[1]));
    }
}

proof fn lemma_candidate(
    specs: Seq<Seq<char>>,
    dst: Seq<char>,
    fallback: Seq<char>,
    found: Seq<Seq<char>>,
    s: Seq<char>,
)
    requires
        forall|x: Seq<char>| #[trigger] found.contains(x) <==> is_mapped(specs, dst, x),
    ensures
        found.len() == 0 <==> forall|k: int|
            0 <= k < specs.len() ==> mapped_source(#[trigger] specs[k], dst) is None,
        found.len() == 0 ==> !is_mapped(specs, dst, s),
        found.contains(s) <==> is_mapped(specs, dst, s),
{
    if found.len() == 0 {
        assert forall|k: int| 0 <= k < specs.len() implies mapped_source(
            #[trigger] specs[k],
            dst,
        ) is None by {
            if let Some(x) = mapped_source(specs[k], dst) {
                assert(is_mapped(specs, dst, x));
                assert(found.contains(x));
            }
        }
    } else {
        assert(found.contains(found[0]));
        let k = choose|k: int|
            0 <= k < specs.len() && mapped_source(#[trigger] specs[k], dst) == Some(found[0]);
        assert(mapped_source(specs[k], dst) is Some);
    }
}

/// A refspec with a `*` on both sides maps onto each ref that its destination matches the
/// source with the same text in place of the `*`.
pub proof fn law_a_refspec_maps_the_text_under_its_star(
    pre: Seq<char>,
    suf: Seq<char>,
    into: Seq<char>,
    end: Seq<char>,
    mid: Seq<char>,
)
    requires
        !pre.contains('*') && !pre.contains(':') && !suf.contains(':') && !into.contains('*'),
        pre.len() > 0 && pre[0] != '+' && pre[0] != '^',
    ensures
        mapped_source(
            pre + seq!['*'] + suf + seq![':'] + into + seq!['*'] + end,
            into + mid + end,
        ) == Some(pre + mid + suf),
{
    reveal_strlit("^");
    let src = pre + seq!['*'] + suf;
    let d = into + seq!['*'] + end;
    let line = pre + seq!['*'] + suf + seq![':'] + into + seq!['*'] + end;
    let dst = into + mid + end;
    assert(line[0] == pre[0]);
    assert(without_plus(line) == line);
    assert(!begins_with(line, "^"@)) by {
        assert(line.take(1)[0] == line[0]);
        assert("^"@[0] == '^');
    }
    assert(line =~= src + seq![':'] + d);
    lemma_split_at(src, ':', d);
    lemma_split_at(pre, '*', suf);
    lemma_split_at(into, '*', end);
    assert(dst.take(into.len() as int) =~= into);
    let r = dst.skip(into.len() as int);
    assert(r =~= mid + end);
    assert(r.skip(r.len() - end.len()) =~= end);
    assert(r.take(r.len() - end.len()) =~= mid);
    assert(split_at_char(line, ':') == Some((src, d)));
    assert(glob_text(d, dst) == Some(mid));
}

proof fn lemma_split_at(a: Seq<char>, c: char, b: Seq<char>)
    requires
        !a.contains(c),
    ensures
        split_at_char(a + seq![c] + b, c) == Some((a, b)),
{
    let s = a + seq![c] + b;
    lemma_find_char(s, c, 0);
    let i = find_char(s, c, 0);
    assert(s[a.len() as int] == c);
    if i < a.len() {
        assert(a[i] == s[i]);
        assert(a.contains(a[i]));
    }
    assert(i == a.len());
    assert(s.take(i) =~= a);
    assert(s.skip(i + 1) =~= b);
}

/// Whether the reply at `k` is of a run that ended with this code.
pub open spec fn ended_with(rs: Seq<ReplyView>, k: int, code: i32) -> bool {
    0 <= k < rs.len() && (rs[k] matches ReplyView::Ran(o) && o.status == Some(code))
}

/// Which of the candidates the replies from `at` on say exist.
pub open spec fn existing_of(
    rs: Seq<ReplyView>,
    at: nat,
    candidates: Seq<Seq<char>>,
    n: int,
) -> Seq<Seq<char>> {
    Seq::new(n as nat, |k: int| k).filter(|k: int| ended_with(rs, at + k, 0)).map_values(
        |k: int| candidates[k],
    )
}

proof fn lemma_existing(
    rs: Seq<ReplyView>,
    at: nat,
    repo: Seq<u8>,
    label: Seq<char>,
    candidates: Seq<Seq<char>>,
    i: int,
    first: Seq<Seq<char>>,
)
    requires
        0 <= i <= candidates.len(),
        forall|k: int|
            0 <= k < i ==> #[trigger] ended_with(rs, at + k, 0) || ended_with(rs, at + k, 1),
    ensures
        existing_run(
            rs,
            (at + i) as nat,
            repo,
            label,
            candidates,
            i,
            first + existing_of(rs, at, candidates, i),
        ) matches Run::Done(hits, n) ==> {
            &&& n == at + candidates.len()
            &&& hits == first + existing_of(rs, at, candidates, candidates.len() as int)
            &&& forall|k: int|
                0 <= k < candidates.len() ==> #[trigger] ended_with(rs, at + k, 0)
                    || ended_with(rs, at + k, 1)
        },
    decreases candidates.len() - i,
{
    if i < candidates.len() {
        reveal(Seq::filter);
        let keep = |k: int| ended_with(rs, at + k, 0);
        let f = |k: int| candidates[k];
        let was = Seq::new(i as nat, |k: int| k);
        let now = Seq::new((i + 1) as nat, |k: int| k);
        assert(now.drop_last() =~= was);
        assert(now.last() == i);
        let hits = first + existing_of(rs, at, candidates, i);
        if ended_with(rs, at + i, 0) {
            assert(now.filter(keep).map_values(f) =~= was.filter(keep).map_values(f).push(
                candidates[i],
            ));
            assert(first + existing_of(rs, at, candidates, i + 1) =~= hits.push(candidates[i]));
        } else {
            assert(now.filter(keep).map_values(f) =~= was.filter(keep).map_values(f));
        }
        if ended_with(rs, at + i, 0) || ended_with(rs, at + i, 1) {
            lemma_existing(rs, at, repo, label, candidates, i + 1, first);
        }
    }
}

/// Every ref that a name can mean is asked for, one question each, and the name means exactly
/// those that git says exist; a question that git cannot answer ends it.
pub proof fn law_a_name_means_every_ref_that_exists(
    rs: Seq<ReplyView>,
    at: nat,
    repo: Seq<u8>,
    label: Seq<char>,
    candidates: Seq<Seq<char>>,
    first: Seq<Seq<char>>,
)
    ensures
        existing_run(rs, at, repo, label, candidates, 0, first) matches Run::Done(hits, n) ==> {
            &&& n == at + candidates.len()
            &&& hits == first + Seq::new(candidates.len(), |k: int| k).filter(
                |k: int| ended_with(rs, at + k, 0),
            ).map_values(|k: int| candidates[k])
            &&& forall|k: int|
                0 <= k < candidates.len() ==> #[trigger] ended_with(rs, at + k, 0)
                    || ended_with(rs, at + k, 1)
        },
{
    reveal(Seq::filter);
    assert(first + existing_of(rs, at, candidates, 0) =~= first);
    lemma_existing(rs, at, repo, label, candidates, 0, first);
}

/// A base that means more than one ref is refused, however many it means, and so is an
/// operand; only one that means a single ref is that ref.
pub proof fn law_an_ambiguous_base_is_refused(
    rs: Seq<ReplyView>,
    at: nat,
    repo: Seq<u8>,
    b: Seq<char>,
    rest: Seq<char>,
    hits: Seq<Seq<char>>,
)
    requires
        hits.len() >= 2,
    ensures
        pinned_run(rs, at, repo, b, hits) matches Run::Halt(HaltView::Refuse(e)) && e.kind
            == ErrorKind::Usage,
        canonical_choice(b, b, rest, hits) is Err <==> forall|i: int|
            0 <= i < hits.len() ==> begins_with(#[trigger] hits[i], "refs/"@),
{
}

/// A base comes with the commit that git gave for it: whatever was resolved, one of the
/// replies was a success whose answer is that commit.
pub proof fn law_a_base_has_the_commit_that_git_gave(
    rs: Seq<ReplyView>,
    at: nat,
    repo: Seq<u8>,
    explicit: Option<Seq<char>>,
)
    ensures
        base_run(rs, at, repo, explicit) matches Run::Done(base, _) ==> exists|k: int|
            #[trigger] ended_with(rs, k, 0) && base.commit == answer_line(
                lossy_text(rs[k]->Ran_0.stdout),
            ),
{
    match explicit {
        Some(b) => {
            if let Run::Done(_, n) = full_oid_run(rs, at, repo, b) {
                if let Run::Done(hits, m) = name_hits_run(rs, n, repo, b, b) {
                    lemma_pinned_commit(rs, m, repo, b, hits);
                }
            }
        },
        None => {
            if let Run::Done(o, n) = git_run(rs, at, PlaceView::At(repo), ask_origin_head()) {
                let full = answer_line(lossy_text(o.stdout));
                lemma_commit_given(rs, n, repo, full);
                lemma_fallback_commit(rs, n, repo);
                if let Run::Done(None, m) = commit_run(rs, n, repo, full) {
                    lemma_fallback_commit(rs, m, repo);
                }
            }
        },
    }
}

/// Whether a commit is the answer of one of the replies.
spec fn was_given(rs: Seq<ReplyView>, commit: Seq<char>) -> bool {
    exists|k: int|
        #[trigger] ended_with(rs, k, 0) && commit == answer_line(
            lossy_text(rs[k]->Ran_0.stdout),
        )
}

proof fn lemma_expr_given(rs: Seq<ReplyView>, at: nat, repo: Seq<u8>, expr: Seq<char>)
    ensures
        expr_commit_run(rs, at, repo, expr) matches Run::Done(Some(c), _) ==> was_given(rs, c),
{
    if let Run::Done(Some(c), _) = expr_commit_run(rs, at, repo, expr) {
        assert(ended_with(rs, at as int, 0));
    }
}

proof fn lemma_commit_given(rs: Seq<ReplyView>, at: nat, repo: Seq<u8>, full: Seq<char>)
    ensures
        commit_run(rs, at, repo, full) matches Run::Done(Some(c), _) ==> was_given(rs, c),
{
    if let Run::Done(Some(c), _) = commit_run(rs, at, repo, full) {
        assert(ended_with(rs, (at + 1) as int, 0));
    }
}

proof fn lemma_pinned_commit(
    rs: Seq<ReplyView>,
    at: nat,
    repo: Seq<u8>,
    b: Seq<char>,
    hits: Seq<Seq<char>>,
)
    ensures
        pinned_run(rs, at, repo, b, hits) matches Run::Done(p, _) ==> was_given(rs, p.commit),
{
    if hits.len() == 0 {
        if let Run::Done(expr, n) = canonical_run(rs, at, repo, b) {
            lemma_expr_given(rs, n, repo, expr);
        }
    } else if hits.len() == 1 {
        if let Run::Done(full, n) = deref_run(rs, at, repo, hits[0]) {
            lemma_commit_given(rs, n, repo, full);
            lemma_expr_given(rs, n, repo, full);
        }
    }
}

proof fn lemma_one_fallback(rs: Seq<ReplyView>, at: nat, repo: Seq<u8>, cand: Seq<char>)
    ensures
        fallback_run(rs, at, repo, cand) matches Run::Done(Some(b), _) ==> was_given(rs, b.commit),
{
    if let Run::Done(Some(true), n) = ref_exists_run(rs, at, repo, "refs/heads/"@ + cand) {
        if let Run::Done(full, m) = deref_run(rs, n, repo, "refs/heads/"@ + cand) {
            lemma_commit_given(rs, m, repo, full);
        }
    }
}

proof fn lemma_fallback_commit(rs: Seq<ReplyView>, at: nat, repo: Seq<u8>)
    ensures
        fallbacks_run(rs, at, repo) matches Run::Done(b, _) ==> was_given(rs, b.commit),
{
    lemma_one_fallback(rs, at, repo, "main"@);
    if let Run::Done(None, n) = fallback_run(rs, at, repo, "main"@) {
        lemma_one_fallback(rs, n, repo, "master"@);
    }
}

/// A short name can mean exactly the refs that git would look for, and a full one only
/// itself.
pub proof fn law_a_name_can_mean_what_git_looks_for(name: Seq<char>, full: Seq<char>)
    ensures
        !begins_with(name, "refs/"@) ==> (ref_candidates(name).contains(full) <==> full == "refs/"@
            + name || full == "refs/tags/"@ + name || full == "refs/heads/"@ + name || full
            == "refs/remotes/"@ + name || full == "refs/remotes/"@ + name + "/HEAD"@),
        begins_with(name, "refs/"@) ==> (ref_candidates(name).contains(full) <==> full == name),
{
    let all = ref_candidates(name);
    if begins_with(name, "refs/"@) {
        assert(all[0] == name);
    } else {
        assert(all[0] == "refs/"@ + name);
        assert(all[1] == "refs/tags/"@ + name);
        assert(all[2] == "refs/heads/"@ + name);
        assert(all[3] == "refs/remotes/"@ + name);
        assert(all[4] == "refs/remotes/"@ + name + "/HEAD"@);
    }
}

/// A ref is missing only on git's word, and found only with the commit that git gave for it:
/// whatever cannot be answered has failed, and is neither.
pub proof fn law_a_ref_is_missing_only_on_gits_word(
    rs: Seq<ReplyView>,
    at: nat,
    repo: Seq<u8>,
    full: Seq<char>,
)
    ensures
        match lookup_ref_run(rs, at, repo, full) {
            Run::Done(LookupView::Missing, n) => ended_with(rs, at as int, 1) && n == at + 1,
            Run::Done(LookupView::Found(c), n) => ended_with(rs, at as int, 0) && ended_with(
                rs,
                at as int + 1,
                0,
            ) && c == answer_line(lossy_text(rs[at as int + 1]->Ran_0.stdout)) && n == at + 2,
            Run::Done(LookupView::Failed(_), n) => !ended_with(rs, at as int, 1) && (!ended_with(
                rs,
                at as int,
                0,
            ) || !ended_with(rs, at as int + 1, 0)),
            Run::Halt(HaltView::Ask(_)) => at >= rs.len() || at + 1 >= rs.len() && ended_with(
                rs,
                at as int,
                0,
            ),
            _ => true,
        },
{
}

/// Whether a revision operator (`~`, `^`, `@{` or `:`) stands at a place of an expression.
pub open spec fn operator_stands(expr: Seq<char>, i: int) -> bool {
    stands_at(expr, "~"@, i) || stands_at(expr, "^"@, i) || stands_at(expr, "@{"@, i) || stands_at(
        expr,
        ":"@,
        i,
    )
}

/// An expression is parted at the first operator in it, whichever that is; without one it is
/// a name.
pub proof fn law_an_expression_is_parted_at_its_first_operator(expr: Seq<char>)
    ensures
        match operator_at(expr) {
            Some(i) => 0 <= i < expr.len() && operator_stands(expr, i) && forall|k: int|
                0 <= k < i ==> !#[trigger] operator_stands(expr, k),
            None => forall|k: int|
                0 <= k < expr.len() ==> !#[trigger] operator_stands(expr, k),
        },
{
    reveal_strlit("~");
    reveal_strlit("^");
    reveal_strlit("@{");
    reveal_strlit(":");
    law_a_text_is_found_where_it_first_stands(expr, "~"@);
    law_a_text_is_found_where_it_first_stands(expr, "^"@);
    law_a_text_is_found_where_it_first_stands(expr, "@{"@);
    law_a_text_is_found_where_it_first_stands(expr, ":"@);
}

} // verus!
