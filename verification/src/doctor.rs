//! The worktree doctor: gathering the facts of every linked worktree and reporting on them,
//! as a dialogue with git that only looks.

use crate::errors::{opt_text, refusal, refusal_next, ErrorKind, ErrorView, VcError};
use crate::gitbase::{
    base_run, ended_with, fetch_source_for, fetch_source_run, git_run, head_line, lookup_ref,
    lookup_ref_run, raw_answer, refused, resolve_base, strip_raw, words2, words4, words5, AskView,
    Halt, HaltView, LookupView, Place, PlaceView, RefLookup, ReplyView, Run, Talk,
};
use crate::order::{lemma_filter_members, views};
use crate::paths::TreePath;
use crate::strings::{
    contains, holds_text, is_next_word, join, joined_with, law_the_next_word_is_the_next,
    next_word, starts_with, word_at,
};
use crate::text::{
    begins_with, chars_of, dec, dec_int, is_white, law_decimals_spell_the_number,
    law_numbers_read_back, lines_of, lossy_text, parse_u64, parsed_unsigned,
    push_dec, push_dec_int, split_lines, trim, trimmed,
};
use crate::worktree::{
    branch_is_base, classified, classify, is_base_branch, listed, parse_porcelain, Base,
    BaseBranch, BaseView, BranchView, DoctorReport, DoctorView, Facts, FactsView, MergeTree,
    MergeView, Report, ReportView, State, WorktreeEntry, WorktreeView,
};
use vstd::prelude::*;
use vstd::string::*;
use vstd::utf8::*;

verus! {

/// The command that counts the commits on either side of a fork: `base` first, then `head`.
pub open spec fn ask_count(base: Seq<char>, head: Seq<char>) -> Seq<Seq<char>> {
    seq!["rev-list"@, "--left-right"@, "--count"@, base + "..."@ + head]
}

/// The command that gives the time of the last commit at `head`, in seconds.
pub open spec fn ask_last_commit(head: Seq<char>) -> Seq<Seq<char>> {
    seq!["log"@, "-1"@, "--no-show-signature"@, "--format=%ct"@, head].push("--"@)
}

/// The command that asks whether `head` is contained in `base`.
pub open spec fn ask_ancestor(head: Seq<char>, base: Seq<char>) -> Seq<Seq<char>> {
    seq!["merge-base"@, "--is-ancestor"@, head, base]
}

/// The command that merges `head` into `base` without touching a working tree.
pub open spec fn ask_merge(base: Seq<char>, head: Seq<char>) -> Seq<Seq<char>> {
    seq!["merge-tree"@, "--write-tree"@, "--messages"@, base, head]
}

/// The command that lists what is changed or untracked in a working tree.
pub open spec fn ask_status() -> Seq<Seq<char>> {
    seq![
        "status"@,
        "--porcelain=v1"@,
        "--untracked-files=normal"@,
        "--ignore-submodules=none"@,
        "--no-renames"@,
    ]
}

/// The command that gives the top directory of a working tree.
pub open spec fn ask_toplevel() -> Seq<Seq<char>> {
    seq!["rev-parse"@, "--show-toplevel"@]
}

/// The command that lists the working trees of a repository.
pub open spec fn ask_worktrees() -> Seq<Seq<char>> {
    seq!["worktree"@, "list"@, "--porcelain"@, "-z"@]
}

/// The command that fetches: it deletes no ref and runs no maintenance.
pub open spec fn fetch_command() -> Seq<Seq<char>> {
    seq!["fetch"@, "--quiet"@, "--no-prune"@, "--no-prune-tags"@, "--no-auto-maintenance"@]
}

/// The number that a text spells.
pub open spec fn number_in(text: Seq<char>) -> Option<u64> {
    match parsed_unsigned(encode_utf8(text), u64::MAX as nat) {
        Some(n) => Some(n as u64),
        None => None,
    }
}

fn parse_number(text: &str) -> (n: Option<u64>)
    ensures
        n == number_in(text@),
{
    parse_u64(text.as_bytes())
}

/// The first two numbers of a text, when it has both.
pub open spec fn two_numbers(text: Seq<char>) -> Option<(u64, u64)> {
    match next_word(text, 0) {
        None => None,
        Some((first, end)) => match next_word(text, end) {
            None => None,
            Some((second, _)) => match (number_in(first), number_in(second)) {
                (Some(a), Some(b)) => Some((a, b)),
                _ => None,
            },
        },
    }
}

fn read_two_numbers(text: &str) -> (r: Option<(u64, u64)>)
    ensures
        r == two_numbers(text@),
{
    let chars = chars_of(text);
    match word_at(&chars, 0) {
        None => None,
        Some((first, end)) => match word_at(&chars, end) {
            None => None,
            Some((second, _)) => match (
                parse_number(first.as_str()),
                parse_number(second.as_str()),
            ) {
                (Some(a), Some(b)) => Some((a, b)),
                _ => None,
            },
        },
    }
}

/// How many commits the base is ahead, and how many the head is.
pub open spec fn count_run(
    rs: Seq<ReplyView>,
    at: nat,
    repo: Seq<u8>,
    base: Seq<char>,
    head: Seq<char>,
) -> Run<Option<(u64, u64)>> {
    match git_run(rs, at, PlaceView::At(repo), ask_count(base, head)) {
        Run::Halt(h) => Run::Halt(h),
        Run::Done(o, n) => Run::Done(
            if o.status == Some(0i32) {
                two_numbers(lossy_text(o.stdout))
            } else {
                None
            },
            n,
        ),
    }
}

/// How far the head is behind and ahead of the base.
pub fn ahead_behind(t: &mut Talk, repo: &TreePath, base: &str, head: &str) -> (r: Result<
    Option<(u64, u64)>,
    Halt,
>)
    ensures
        final(t).rs() == old(t).rs(),
        match (count_run(old(t).rs(), old(t).at(), repo@, base@, head@), r) {
            (Run::Done(v, at), Ok(c)) => c == v && final(t).at() == at,
            (Run::Halt(h), Err(g)) => g@ == h,
            _ => false,
        },
{
    let mut range: String = base.to_owned();
    range.append("...");
    range.append(head);
    let o = match t.git(
        Place::At(repo.copy()),
        words4("rev-list", "--left-right", "--count", range.as_str()),
    ) {
        Ok(o) => o,
        Err(h) => {
            return Err(h);
        },
    };
    if !o.ok() {
        return Ok(None);
    }
    Ok(read_two_numbers(o.out_text().as_str()))
}

/// When the head was committed.
pub open spec fn last_commit_run(
    rs: Seq<ReplyView>,
    at: nat,
    repo: Seq<u8>,
    head: Seq<char>,
) -> Run<Option<u64>> {
    match git_run(rs, at, PlaceView::At(repo), ask_last_commit(head)) {
        Run::Halt(h) => Run::Halt(h),
        Run::Done(o, n) => Run::Done(
            if o.status == Some(0i32) {
                number_in(trimmed(lossy_text(o.stdout)))
            } else {
                None
            },
            n,
        ),
    }
}

/// When the head was committed, in seconds since 1970.
pub fn last_commit_unix(t: &mut Talk, repo: &TreePath, head: &str) -> (r: Result<
    Option<u64>,
    Halt,
>)
    ensures
        final(t).rs() == old(t).rs(),
        match (last_commit_run(old(t).rs(), old(t).at(), repo@, head@), r) {
            (Run::Done(v, at), Ok(c)) => c == v && final(t).at() == at,
            (Run::Halt(h), Err(g)) => g@ == h,
            _ => false,
        },
{
    let mut args = words5("log", "-1", "--no-show-signature", "--format=%ct", head);
    let ghost five = views(args@);
    args.push("--".to_owned());
    assert(views(args@) =~= five.push("--"@));
    let o = match t.git(Place::At(repo.copy()), args) {
        Ok(o) => o,
        Err(h) => {
            return Err(h);
        },
    };
    if !o.ok() {
        return Ok(None);
    }
    Ok(parse_number(trim(o.out_text().as_str()).as_str()))
}

/// Whether the head is an ancestor of the base; unknown when git could not tell.
pub open spec fn ancestor_run(
    rs: Seq<ReplyView>,
    at: nat,
    repo: Seq<u8>,
    head: Seq<char>,
    base: Seq<char>,
) -> Run<Option<bool>> {
    match git_run(rs, at, PlaceView::At(repo), ask_ancestor(head, base)) {
        Run::Halt(h) => Run::Halt(h),
        Run::Done(o, n) => Run::Done(
            if o.status == Some(0i32) {
                Some(true)
            } else if o.status == Some(1i32) {
                Some(false)
            } else {
                None
            },
            n,
        ),
    }
}

/// Whether the head is an ancestor of the base.
pub fn is_ancestor(t: &mut Talk, repo: &TreePath, head: &str, base: &str) -> (r: Result<
    Option<bool>,
    Halt,
>)
    ensures
        final(t).rs() == old(t).rs(),
        match (ancestor_run(old(t).rs(), old(t).at(), repo@, head@, base@), r) {
            (Run::Done(v, at), Ok(c)) => c == v && final(t).at() == at,
            (Run::Halt(h), Err(g)) => g@ == h,
            _ => false,
        },
{
    let o = match t.git(
        Place::At(repo.copy()),
        words4("merge-base", "--is-ancestor", head, base),
    ) {
        Ok(o) => o,
        Err(h) => {
            return Err(h);
        },
    };
    Ok(
        match o.status {
            Some(0) => Some(true),
            Some(1) => Some(false),
            _ => None,
        },
    )
}

/// Why a trial merge failed with `code` and this complaint.
pub open spec fn merge_failure(code: i32, err: Seq<char>) -> Seq<char> {
    if begins_with(err, "usage:"@) || holds_text(err, "unknown option"@) || holds_text(
        err,
        "--write-tree"@,
    ) {
        "git too old for --write-tree (needs 2.38+)"@
    } else {
        "exit "@ + dec_int(code as int) + ": "@ + head_line(err)
    }
}

/// A trial merge of the head into the base.
pub open spec fn merge_run(
    rs: Seq<ReplyView>,
    at: nat,
    repo: Seq<u8>,
    base: Seq<char>,
    head: Seq<char>,
) -> Run<MergeView> {
    match git_run(rs, at, PlaceView::At(repo), ask_merge(base, head)) {
        Run::Halt(h) => Run::Halt(h),
        Run::Done(o, n) => Run::Done(
            match o.status {
                None => MergeView::Unsupported("killed by signal"@),
                Some(code) => if code == 0 {
                    MergeView::Clean
                } else if code == 1 {
                    MergeView::Conflict
                } else {
                    MergeView::Unsupported(merge_failure(code, trimmed(lossy_text(o.stderr))))
                },
            },
            n,
        ),
    }
}

/// Tries the merge of the head into the base, without writing a ref or a file.
pub fn merge_tree(t: &mut Talk, repo: &TreePath, base: &str, head: &str) -> (r: Result<
    MergeTree,
    Halt,
>)
    ensures
        final(t).rs() == old(t).rs(),
        match (merge_run(old(t).rs(), old(t).at(), repo@, base@, head@), r) {
            (Run::Done(v, at), Ok(m)) => m@ == v && final(t).at() == at,
            (Run::Halt(h), Err(g)) => g@ == h,
            _ => false,
        },
{
    let o = match t.git(
        Place::At(repo.copy()),
        words5("merge-tree", "--write-tree", "--messages", base, head),
    ) {
        Ok(o) => o,
        Err(h) => {
            return Err(h);
        },
    };
    match o.status {
        None => Ok(MergeTree::Unsupported("killed by signal".to_owned())),
        Some(code) => {
            if code == 0 {
                return Ok(MergeTree::Clean);
            }
            if code == 1 {
                return Ok(MergeTree::Conflict);
            }
            let err = o.err_trimmed();
            if starts_with(err.as_str(), "usage:") || contains(err.as_str(), "unknown option")
                || contains(err.as_str(), "--write-tree") {
                return Ok(
                    MergeTree::Unsupported(
                        "git too old for --write-tree (needs 2.38+)".to_owned(),
                    ),
                );
            }
            let mut m: String = "exit ".to_owned();
            push_dec_int(&mut m, code as i64);
            m.append(": ");
            let first = crate::gitbase::first_line_of(err.as_str());
            m.append(first.as_str());
            Ok(MergeTree::Unsupported(m))
        },
    }
}

/// The lines that are not empty.
pub open spec fn filled(lines: Seq<Seq<char>>) -> Seq<Seq<char>> {
    lines.filter(|l: Seq<char>| l.len() > 0)
}

/// The uncommitted work that a status listing shows: nothing, one entry, or the first and
/// how many more.
pub open spec fn work_in(text: Seq<char>) -> Option<Seq<char>> {
    let lines = filled(lines_of(text));
    if lines.len() == 0 {
        None
    } else if lines.len() == 1 {
        Some(trimmed(lines[0]))
    } else {
        Some(trimmed(lines[0]) + " (+"@ + dec((lines.len() - 1) as nat) + " more)"@)
    }
}

fn summarize_work(text: &str) -> (r: Option<String>)
    ensures
        match r {
            Some(s) => work_in(text@) == Some(s@),
            None => work_in(text@) is None,
        },
{
    let lines = split_lines(text);
    let ghost lv = views(lines@);
    let ghost keep = |l: Seq<char>| l.len() > 0;
    let mut first: String = String::new();
    let mut n: usize = 0;
    let mut i: usize = 0;
    proof {
        reveal(Seq::filter);
        assert(lv.take(0).filter(keep) =~= Seq::<Seq<char>>::empty());
    }
    while i < lines.len()
        invariant
            i <= lines.len(),
            lv == views(lines@),
            keep == (|l: Seq<char>| l.len() > 0),
            n == lv.take(i as int).filter(keep).len(),
            n <= i,
            n > 0 ==> first@ == lv.take(i as int).filter(keep)[0],
        decreases lines.len() - i,
    {
        proof {
            reveal(Seq::filter);
            assert(lv.take(i + 1).drop_last() =~= lv.take(i as int));
            assert(lv.take(i + 1).last() == lines@[i as int]@);
        }
        if !lines[i].as_str().is_empty() {
            if n == 0 {
                first = lines[i].clone();
            }
            n = n + 1;
        }
        i = i + 1;
    }
    assert(lv.take(lines.len() as int) =~= lv);
    assert(filled(lines_of(text@)) == lv.filter(keep));
    if n == 0 {
        return None;
    }
    let mut s = trim(first.as_str());
    if n > 1 {
        s.append(" (+");
        push_dec(&mut s, (n - 1) as u64);
        s.append(" more)");
    }
    Some(s)
}

/// What is uncommitted in a worktree. One that cannot be examined counts as having work.
pub open spec fn dirty_run(rs: Seq<ReplyView>, at: nat, wt: Seq<u8>) -> Run<Option<Seq<char>>> {
    match git_run(rs, at, PlaceView::At(wt), ask_status()) {
        Run::Halt(h) => Run::Halt(h),
        Run::Done(o, n) => Run::Done(
            if o.status == Some(0i32) {
                work_in(lossy_text(o.stdout))
            } else {
                Some("status failed ("@ + head_line(lossy_text(o.stderr)) + ")"@)
            },
            n,
        ),
    }
}

/// A summary of what is uncommitted in a worktree.
pub fn dirty_summary(t: &mut Talk, wt: &TreePath) -> (r: Result<Option<String>, Halt>)
    ensures
        final(t).rs() == old(t).rs(),
        match (dirty_run(old(t).rs(), old(t).at(), wt@), r) {
            (Run::Done(v, at), Ok(d)) => opt_text(d) == v && final(t).at() == at,
            (Run::Halt(h), Err(g)) => g@ == h,
            _ => false,
        },
{
    let o = match t.git(
        Place::At(wt.copy()),
        words5(
            "status",
            "--porcelain=v1",
            "--untracked-files=normal",
            "--ignore-submodules=none",
            "--no-renames",
        ),
    ) {
        Ok(o) => o,
        Err(h) => {
            return Err(h);
        },
    };
    if !o.ok() {
        let mut m: String = "status failed (".to_owned();
        let first = o.err_first_line();
        m.append(first.as_str());
        m.append(")");
        return Ok(Some(m));
    }
    Ok(summarize_work(o.out_text().as_str()))
}

/// Whether an id names a commit: it is not empty and not all zeros.
pub open spec fn names_commit(head: Seq<char>) -> bool {
    exists|i: int| 0 <= i < head.len() && #[trigger] head[i] != '0'
}

/// The commit that a worktree has checked out, if any.
pub open spec fn real_head(head: Option<Seq<char>>) -> Option<Seq<char>> {
    match head {
        Some(h) => if names_commit(h) {
            Some(h)
        } else {
            None
        },
        None => None,
    }
}

fn checked_out(head: &Option<String>) -> (h: Option<String>)
    ensures
        opt_text(h) == real_head(opt_text(*head)),
{
    match head {
        Some(h) => {
            let chars = chars_of(h.as_str());
            let mut i: usize = 0;
            while i < chars.len()
                invariant
                    i <= chars.len(),
                    chars@ == h@,
                    opt_text(*head) == Some(h@),
                    forall|k: int| 0 <= k < i ==> #[trigger] h@[k] == '0',
                decreases chars.len() - i,
            {
                if chars[i] != '0' {
                    assert(h@[i as int] != '0');
                    return Some(h.clone());
                }
                i = i + 1;
            }
            None
        },
        None => None,
    }
}

/// What the ref of a worktree's branch tells.
pub struct BranchFacts {
    pub is_base: bool,
    pub gone: bool,
    pub failed: Option<Seq<char>>,
}

/// Looking at the ref of a worktree's branch.
pub open spec fn branch_facts_run(
    rs: Seq<ReplyView>,
    at: nat,
    repo: Seq<u8>,
    branch: Option<Seq<char>>,
    head: Option<Seq<char>>,
    base: BaseView,
) -> Run<BranchFacts> {
    match branch {
        None => Run::Done(BranchFacts { is_base: false, gone: false, failed: None }, at),
        Some(b) => match lookup_ref_run(rs, at, repo, "refs/heads/"@ + b) {
            Run::Halt(h) => Run::Halt(h),
            Run::Done(LookupView::Found(_), n) => Run::Done(
                BranchFacts {
                    is_base: is_base_branch(
                        b,
                        match head {
                            Some(h) => h,
                            None => seq![],
                        },
                        base,
                    ),
                    gone: false,
                    failed: None,
                },
                n,
            ),
            Run::Done(LookupView::Missing, n) => Run::Done(
                BranchFacts { is_base: false, gone: true, failed: None },
                n,
            ),
            Run::Done(LookupView::Failed(why), n) => Run::Done(
                BranchFacts { is_base: false, gone: false, failed: Some(why) },
                n,
            ),
        },
    }
}

fn branch_facts(
    t: &mut Talk,
    repo: &TreePath,
    branch: &Option<String>,
    head: &Option<String>,
    base: &Base,
) -> (r: Result<(bool, bool, Option<String>), Halt>)
    ensures
        final(t).rs() == old(t).rs(),
        match (
            branch_facts_run(
                old(t).rs(),
                old(t).at(),
                repo@,
                opt_text(*branch),
                opt_text(*head),
                base@,
            ),
            r,
        ) {
            (Run::Done(v, at), Ok((is_base, gone, failed))) => is_base == v.is_base && gone
                == v.gone && opt_text(failed) == v.failed && final(t).at() == at,
            (Run::Halt(h), Err(g)) => g@ == h,
            _ => false,
        },
{
    match branch {
        None => Ok((false, false, None)),
        Some(b) => {
            let mut full: String = "refs/heads/".to_owned();
            full.append(b.as_str());
            match lookup_ref(t, repo, full.as_str()) {
                Ok(RefLookup::Found(_)) => {
                    let is_base = match head {
                        Some(h) => branch_is_base(b.as_str(), h.as_str(), base),
                        None => {
                            let none: String = String::new();
                            assert(none@ =~= Seq::<char>::empty());
                            branch_is_base(b.as_str(), none.as_str(), base)
                        },
                    };
                    Ok((is_base, false, None))
                },
                Ok(RefLookup::Missing) => Ok((false, true, None)),
                Ok(RefLookup::Failed(why)) => Ok((false, false, Some(why))),
                Err(h) => Err(h),
            }
        },
    }
}

/// How a worktree's commit compares with the base.
pub struct Comparison {
    pub behind: Option<u64>,
    pub ahead: Option<u64>,
    pub last_commit: Option<u64>,
    pub is_ancestor: Option<bool>,
    pub merge_tree: Option<MergeView>,
}

/// Comparing a commit with the base; whether it is merged or could be is asked only when
/// that can decide the state (`deciding`).
pub open spec fn compare_run(
    rs: Seq<ReplyView>,
    at: nat,
    repo: Seq<u8>,
    head: Seq<char>,
    base: BaseView,
    deciding: bool,
) -> Run<Comparison> {
    match count_run(rs, at, repo, base.commit, head) {
        Run::Halt(h) => Run::Halt(h),
        Run::Done(c, n) => match last_commit_run(rs, n, repo, head) {
            Run::Halt(h) => Run::Halt(h),
            Run::Done(last, m) => {
                let known = Comparison {
                    behind: match c {
                        Some((b, _)) => Some(b),
                        None => None,
                    },
                    ahead: match c {
                        Some((_, a)) => Some(a),
                        None => None,
                    },
                    last_commit: last,
                    is_ancestor: None,
                    merge_tree: None,
                };
                if !deciding {
                    Run::Done(known, m)
                } else {
                    match ancestor_run(rs, m, repo, head, base.commit) {
                        Run::Halt(h) => Run::Halt(h),
                        Run::Done(anc, k) => if anc == Some(false) {
                            match merge_run(rs, k, repo, base.commit, head) {
                                Run::Halt(h) => Run::Halt(h),
                                Run::Done(mt, j) => Run::Done(
                                    Comparison {
                                        is_ancestor: anc,
                                        merge_tree: Some(mt),
                                        ..known
                                    },
                                    j,
                                ),
                            }
                        } else {
                            Run::Done(Comparison { is_ancestor: anc, ..known }, k)
                        },
                    }
                }
            },
        },
    }
}

struct Compared {
    behind: Option<u64>,
    ahead: Option<u64>,
    last_commit: Option<u64>,
    is_ancestor: Option<bool>,
    merge_tree: Option<MergeTree>,
}

impl Compared {
    closed spec fn says(&self) -> Comparison {
        Comparison {
            behind: self.behind,
            ahead: self.ahead,
            last_commit: self.last_commit,
            is_ancestor: self.is_ancestor,
            merge_tree: match self.merge_tree {
                Some(m) => Some(m@),
                None => None,
            },
        }
    }
}

fn compare(t: &mut Talk, repo: &TreePath, head: &str, base: &Base, deciding: bool) -> (r: Result<
    Compared,
    Halt,
>)
    ensures
        final(t).rs() == old(t).rs(),
        match (compare_run(old(t).rs(), old(t).at(), repo@, head@, base@, deciding), r) {
            (Run::Done(v, at), Ok(c)) => c.says() == v && final(t).at() == at,
            (Run::Halt(h), Err(g)) => g@ == h,
            _ => false,
        },
{
    let (behind, ahead) = match ahead_behind(t, repo, base.commit.as_str(), head) {
        Ok(Some((b, a))) => (Some(b), Some(a)),
        Ok(None) => (None, None),
        Err(h) => {
            return Err(h);
        },
    };
    let last_commit = match last_commit_unix(t, repo, head) {
        Ok(last) => last,
        Err(h) => {
            return Err(h);
        },
    };
    if !deciding {
        return Ok(
            Compared { behind, ahead, last_commit, is_ancestor: None, merge_tree: None },
        );
    }
    let anc = match is_ancestor(t, repo, head, base.commit.as_str()) {
        Ok(anc) => anc,
        Err(h) => {
            return Err(h);
        },
    };
    let merge = match anc {
        Some(false) => match merge_tree(t, repo, base.commit.as_str(), head) {
            Ok(m) => Some(m),
            Err(h) => {
                return Err(h);
            },
        },
        _ => None,
    };
    Ok(Compared { behind, ahead, last_commit, is_ancestor: anc, merge_tree: merge })
}

/// The reason with the lock noted behind it.
pub open spec fn with_lock(reason: Seq<char>, locked: Option<Seq<char>>) -> Seq<char> {
    match locked {
        None => reason,
        Some(l) => if l.len() == 0 {
            reason + " [locked]"@
        } else {
            reason + " [locked: "@ + l + "]"@
        },
    }
}

/// `now - then`, not below 0.
pub open spec fn elapsed(now: u64, then: u64) -> u64 {
    if now >= then {
        (now - then) as u64
    } else {
        0
    }
}

/// The facts of a worktree from what was found.
pub open spec fn facts_of(
    e: WorktreeView,
    b: BranchFacts,
    dirty: Option<Seq<char>>,
    c: Option<Comparison>,
    now: u64,
) -> FactsView {
    FactsView {
        prunable: e.prunable,
        dirty,
        detached: e.detached || e.branch is None,
        is_base: b.is_base,
        branch_gone: b.gone,
        query_failed: b.failed,
        is_ancestor: match c {
            Some(c) => c.is_ancestor,
            None => None,
        },
        merge_tree: match c {
            Some(c) => c.merge_tree,
            None => None,
        },
        age_secs: match c {
            Some(c) => match c.last_commit {
                Some(t) => Some(elapsed(now, t)),
                None => None,
            },
            None => None,
        },
    }
}

/// The report on a worktree from what was found.
pub open spec fn report_of(
    e: WorktreeView,
    b: BranchFacts,
    dirty: Option<Seq<char>>,
    c: Option<Comparison>,
    stale_secs: u64,
    now: u64,
) -> ReportView {
    let (state, reason) = classified(facts_of(e, b, dirty, c, now), stale_secs);
    ReportView {
        state,
        path: e.path,
        branch: e.branch,
        head: e.head,
        ahead: match c {
            Some(c) => c.ahead,
            None => None,
        },
        behind: match c {
            Some(c) => c.behind,
            None => None,
        },
        locked: e.locked,
        last_commit_unix: match c {
            Some(c) => c.last_commit,
            None => None,
        },
        reason: with_lock(reason, e.locked),
    }
}

/// No facts about a branch.
pub open spec fn no_branch_facts() -> BranchFacts {
    BranchFacts { is_base: false, gone: false, failed: None }
}

/// Gathering and classifying one worktree. What cannot change its state is not asked, and a
/// prunable worktree's directory is not entered.
pub open spec fn gather_run(
    rs: Seq<ReplyView>,
    at: nat,
    repo: Seq<u8>,
    e: WorktreeView,
    base: BaseView,
    stale_secs: u64,
    now: u64,
) -> Run<ReportView> {
    let head = real_head(e.head);
    if e.prunable is Some {
        Run::Done(report_of(e, no_branch_facts(), None, None, stale_secs, now), at)
    } else {
        match branch_facts_run(rs, at, repo, e.branch, head, base) {
            Run::Halt(h) => Run::Halt(h),
            Run::Done(b, n) => match (if b.gone {
                Run::Done(None, n)
            } else {
                dirty_run(rs, n, e.path)
            }) {
                Run::Halt(h) => Run::Halt(h),
                Run::Done(dirty, m) => match head {
                    None => Run::Done(report_of(e, b, dirty, None, stale_secs, now), m),
                    Some(h) => {
                        let deciding = dirty is None && b.failed is None && !(e.detached
                            || e.branch is None) && !b.is_base && !b.gone;
                        match compare_run(rs, m, repo, h, base, deciding) {
                            Run::Halt(x) => Run::Halt(x),
                            Run::Done(c, k) => Run::Done(
                                report_of(e, b, dirty, Some(c), stale_secs, now),
                                k,
                            ),
                        }
                    },
                },
            },
        }
    }
}

fn make_report(
    e: &WorktreeEntry,
    facts: &Facts,
    ahead: Option<u64>,
    behind: Option<u64>,
    last_commit: Option<u64>,
    stale_secs: u64,
) -> (r: Report)
    ensures
        r@ == (ReportView {
            state: classified(facts@, stale_secs).0,
            path: e@.path,
            branch: e@.branch,
            head: e@.head,
            ahead,
            behind,
            locked: e@.locked,
            last_commit_unix: last_commit,
            reason: with_lock(classified(facts@, stale_secs).1, e@.locked),
        }),
{
    let (state, mut reason) = classify(facts, stale_secs);
    if let Some(l) = &e.locked {
        if l.as_str().is_empty() {
            reason.append(" [locked]");
        } else {
            reason.append(" [locked: ");
            reason.append(l.as_str());
            reason.append("]");
        }
    }
    Report {
        state,
        path: e.path.copy(),
        branch: copy_opt(&e.branch),
        head: copy_opt(&e.head),
        ahead,
        behind,
        locked: copy_opt(&e.locked),
        last_commit_unix: last_commit,
        reason,
    }
}

fn copy_opt(t: &Option<String>) -> (c: Option<String>)
    ensures
        opt_text(c) == opt_text(*t),
{
    match t {
        Some(s) => Some(s.clone()),
        None => None,
    }
}

/// Gathers the facts of one linked worktree and classifies it.
pub fn gather(
    t: &mut Talk,
    repo: &TreePath,
    e: &WorktreeEntry,
    base: &Base,
    stale_secs: u64,
    now: u64,
) -> (r: Result<Report, Halt>)
    ensures
        final(t).rs() == old(t).rs(),
        match (gather_run(old(t).rs(), old(t).at(), repo@, e@, base@, stale_secs, now), r) {
            (Run::Done(v, at), Ok(rep)) => rep@ == v && final(t).at() == at,
            (Run::Halt(h), Err(g)) => g@ == h,
            _ => false,
        },
{
    let head = checked_out(&e.head);
    let detached: bool = e.detached || e.branch.is_none();
    let mut facts = Facts {
        prunable: copy_opt(&e.prunable),
        dirty: None,
        detached,
        is_base: false,
        branch_gone: false,
        query_failed: None,
        is_ancestor: None,
        merge_tree: None,
        age_secs: None,
    };
    if e.prunable.is_some() {
        return Ok(make_report(e, &facts, None, None, None, stale_secs));
    }
    let (is_base, gone, failed) = match branch_facts(t, repo, &e.branch, &head, base) {
        Ok(b) => b,
        Err(h) => {
            return Err(h);
        },
    };
    let dirty = if gone {
        None
    } else {
        match dirty_summary(t, &e.path) {
            Ok(d) => d,
            Err(h) => {
                return Err(h);
            },
        }
    };
    let deciding: bool = dirty.is_none() && failed.is_none() && !detached && !is_base && !gone;
    facts.dirty = dirty;
    facts.is_base = is_base;
    facts.branch_gone = gone;
    facts.query_failed = failed;
    match head {
        None => Ok(make_report(e, &facts, None, None, None, stale_secs)),
        Some(h) => {
            let c = match compare(t, repo, h.as_str(), base, deciding) {
                Ok(c) => c,
                Err(x) => {
                    return Err(x);
                },
            };
            facts.is_ancestor = c.is_ancestor;
            facts.merge_tree = c.merge_tree;
            facts.age_secs = match c.last_commit {
                Some(then) => Some(now.saturating_sub(then)),
                None => None,
            };
            Ok(make_report(e, &facts, c.ahead, c.behind, c.last_commit, stale_secs))
        },
    }
}

/// What the doctor is asked to do.
#[derive(Debug, Clone)]
pub struct DoctorArgs {
    /// Where it was pointed at, for messages.
    pub start: TreePath,
    pub base: Option<String>,
    pub stale_days: u64,
    pub fetch: bool,
}

/// What [`DoctorArgs`] say.
pub struct ArgsView {
    pub start: Seq<u8>,
    pub base: Option<Seq<char>>,
    pub stale_days: u64,
    pub fetch: bool,
}

impl View for DoctorArgs {
    type V = ArgsView;

    open spec fn view(&self) -> ArgsView {
        ArgsView {
            start: self.start@,
            base: opt_text(self.base),
            stale_days: self.stale_days,
            fetch: self.fetch,
        }
    }
}

/// The arguments of a fetch that refreshes the base: one ref from the remote that owns it,
/// or the default.
pub open spec fn fetch_args(base: BaseView, source: Seq<char>) -> Seq<Seq<char>> {
    match base.branch {
        Some(BranchView::Remote(remote, _)) => fetch_command() + seq![
            "--"@,
            remote,
            "+"@ + source + ":"@ + base.full,
        ],
        _ => fetch_command(),
    }
}

/// The refusal to fetch for an expression.
pub open spec fn cannot_fetch(base: BaseView) -> ErrorView {
    refusal_next(
        ErrorKind::Usage,
        "--fetch: "@ + base.display
            + " is a revision expression, not a ref; the remote-tracking refs it depends on cannot be determined, so nothing is fetched"@,
        "run `git fetch <remote>` yourself, then re-run without --fetch, or pass --base <ref>"@,
    )
}

/// Finding the fetch's arguments.
pub open spec fn fetch_args_run(
    rs: Seq<ReplyView>,
    at: nat,
    repo: Seq<u8>,
    base: BaseView,
) -> Run<Seq<Seq<char>>> {
    match base.branch {
        Some(BranchView::Remote(remote, branch)) => match fetch_source_run(
            rs,
            at,
            repo,
            remote,
            base.full,
            "refs/heads/"@ + branch,
        ) {
            Run::Halt(h) => Run::Halt(h),
            Run::Done(src, n) => Run::Done(fetch_args(base, src), n),
        },
        _ => if base.is_ref {
            Run::Done(fetch_command(), at)
        } else {
            refused(cannot_fetch(base))
        },
    }
}

fn fetch_argv(t: &mut Talk, repo: &TreePath, base: &Base) -> (r: Result<Vec<String>, Halt>)
    ensures
        final(t).rs() == old(t).rs(),
        match (fetch_args_run(old(t).rs(), old(t).at(), repo@, base@), r) {
            (Run::Done(v, at), Ok(args)) => views(args@) == v && final(t).at() == at,
            (Run::Halt(h), Err(g)) => g@ == h,
            _ => false,
        },
{
    let mut args = words5(
        "fetch",
        "--quiet",
        "--no-prune",
        "--no-prune-tags",
        "--no-auto-maintenance",
    );
    match &base.branch {
        Some(BaseBranch::Remote(remote, branch)) => {
            let mut fallback: String = "refs/heads/".to_owned();
            fallback.append(branch.as_str());
            let src = match fetch_source_for(
                t,
                repo,
                remote.as_str(),
                base.full.as_str(),
                fallback.as_str(),
            ) {
                Ok(src) => src,
                Err(h) => {
                    return Err(h);
                },
            };
            let mut refspec: String = "+".to_owned();
            refspec.append(src.as_str());
            refspec.append(":");
            refspec.append(base.full.as_str());
            args.push("--".to_owned());
            args.push(remote.clone());
            args.push(refspec);
            assert(views(args@) =~= fetch_args(base@, src@));
            Ok(args)
        },
        _ => {
            if base.is_ref {
                Ok(args)
            } else {
                let mut m: String = "--fetch: ".to_owned();
                m.append(base.display.as_str());
                m.append(
                    " is a revision expression, not a ref; the remote-tracking refs it depends on cannot be determined, so nothing is fetched",
                );
                Err(
                    Halt::Refuse(
                        VcError::new(ErrorKind::Usage, m).with_next(
                            "run `git fetch <remote>` yourself, then re-run without --fetch, or pass --base <ref>".to_owned(),
                        ),
                    ),
                )
            }
        },
    }
}

/// Resolving the base, with the fetch in between when it is asked for.
pub open spec fn fresh_base_run(
    rs: Seq<ReplyView>,
    at: nat,
    repo: Seq<u8>,
    args: ArgsView,
) -> Run<BaseView> {
    match base_run(rs, at, repo, args.base) {
        Run::Halt(h) => Run::Halt(h),
        Run::Done(base, n) => if !args.fetch {
            Run::Done(base, n)
        } else {
            match fetch_args_run(rs, n, repo, base) {
                Run::Halt(h) => Run::Halt(h),
                Run::Done(argv, m) => match git_run(rs, m, PlaceView::At(repo), argv) {
                    Run::Halt(h) => Run::Halt(h),
                    Run::Done(o, k) => if o.status != Some(0i32) {
                        refused(
                            refusal(
                                ErrorKind::Io,
                                "git "@ + joined_with(argv, " "@) + " failed: "@ + trimmed(
                                    lossy_text(o.stderr),
                                ),
                            ),
                        )
                    } else {
                        base_run(rs, k, repo, args.base)
                    },
                },
            }
        },
    }
}

fn fresh_base(t: &mut Talk, repo: &TreePath, args: &DoctorArgs) -> (r: Result<Base, Halt>)
    ensures
        final(t).rs() == old(t).rs(),
        match (fresh_base_run(old(t).rs(), old(t).at(), repo@, args@), r) {
            (Run::Done(v, at), Ok(base)) => base@ == v && final(t).at() == at,
            (Run::Halt(h), Err(g)) => g@ == h,
            _ => false,
        },
{
    let base = match resolve_base(t, repo, &args.base) {
        Ok(base) => base,
        Err(h) => {
            return Err(h);
        },
    };
    if !args.fetch {
        return Ok(base);
    }
    let argv = match fetch_argv(t, repo, &base) {
        Ok(argv) => argv,
        Err(h) => {
            return Err(h);
        },
    };
    let line = join(&argv, " ");
    let o = match t.git(Place::At(repo.copy()), argv) {
        Ok(o) => o,
        Err(h) => {
            return Err(h);
        },
    };
    if !o.ok() {
        let mut m: String = "git ".to_owned();
        m.append(line.as_str());
        m.append(" failed: ");
        let err = o.err_trimmed();
        m.append(err.as_str());
        return Err(Halt::Refuse(VcError::new(ErrorKind::Io, m)));
    }
    resolve_base(t, repo, &args.base)
}

/// Days in seconds, as far as they fit.
pub open spec fn days_in_seconds(days: u64) -> u64 {
    if days * 86400 > u64::MAX {
        u64::MAX
    } else {
        (days * 86400) as u64
    }
}

fn stale_seconds(days: u64) -> (s: u64)
    ensures
        s == days_in_seconds(days),
{
    match days.checked_mul(86400) {
        Some(s) => s,
        None => u64::MAX,
    }
}

/// Gathering the worktrees from `i` on, added to `done`.
pub open spec fn gather_all_run(
    rs: Seq<ReplyView>,
    at: nat,
    repo: Seq<u8>,
    entries: Seq<WorktreeView>,
    i: int,
    base: BaseView,
    stale_secs: u64,
    now: u64,
    done: Seq<ReportView>,
) -> Run<Seq<ReportView>>
    decreases entries.len() - i,
{
    if i >= entries.len() {
        Run::Done(done, at)
    } else {
        match gather_run(rs, at, repo, entries[i], base, stale_secs, now) {
            Run::Halt(h) => Run::Halt(h),
            Run::Done(r, n) => gather_all_run(
                rs,
                n,
                repo,
                entries,
                i + 1,
                base,
                stale_secs,
                now,
                done.push(r),
            ),
        }
    }
}

/// The whole dialogue.
pub open spec fn doctor_run(rs: Seq<ReplyView>, args: ArgsView, now: u64) -> Run<DoctorView> {
    match git_run(rs, 0, PlaceView::Start, ask_toplevel()) {
        Run::Halt(h) => Run::Halt(h),
        Run::Done(top, n) => if top.status != Some(0i32) {
            refused(
                refusal_next(
                    ErrorKind::NotFound,
                    lossy_text(args.start) + ": not inside a git work tree"@,
                    "vc worktree doctor --repo <path>"@,
                ),
            )
        } else {
            let repo = raw_answer(top.stdout);
            match fresh_base_run(rs, n, repo, args) {
                Run::Halt(h) => Run::Halt(h),
                Run::Done(base, m) => match git_run(
                    rs,
                    m,
                    PlaceView::At(repo),
                    ask_worktrees(),
                ) {
                    Run::Halt(h) => Run::Halt(h),
                    Run::Done(list, k) => if list.status != Some(0i32) {
                        refused(
                            refusal(
                                ErrorKind::Io,
                                "git worktree list failed: "@ + trimmed(lossy_text(list.stderr)),
                            ),
                        )
                    } else {
                        let entries = listed(list.stdout);
                        match gather_all_run(
                            rs,
                            k,
                            repo,
                            entries,
                            1,
                            base,
                            days_in_seconds(args.stale_days),
                            now,
                            seq![],
                        ) {
                            Run::Halt(h) => Run::Halt(h),
                            Run::Done(worktrees, j) => Run::Done(
                                DoctorView {
                                    repo_root: repo,
                                    base: base.display,
                                    base_full: base.full,
                                    base_commit: base.commit,
                                    base_source: base.source,
                                    main_path: if entries.len() > 0 {
                                        Some(entries[0].path)
                                    } else {
                                        None
                                    },
                                    main_branch: if entries.len() > 0 {
                                        entries[0].branch
                                    } else {
                                        None
                                    },
                                    worktrees,
                                },
                                j,
                            ),
                        }
                    },
                },
            }
        },
    }
}

fn gather_all(
    t: &mut Talk,
    repo: &TreePath,
    entries: &Vec<WorktreeEntry>,
    base: &Base,
    stale_secs: u64,
    now: u64,
) -> (r: Result<Vec<Report>, Halt>)
    ensures
        final(t).rs() == old(t).rs(),
        match (
            gather_all_run(
                old(t).rs(),
                old(t).at(),
                repo@,
                views(entries@),
                1,
                base@,
                stale_secs,
                now,
                seq![],
            ),
            r,
        ) {
            (Run::Done(v, at), Ok(list)) => views(list@) == v && final(t).at() == at,
            (Run::Halt(h), Err(g)) => g@ == h,
            _ => false,
        },
{
    let ghost ev = views(entries@);
    let ghost rs = t.rs();
    let ghost whole = gather_all_run(
        t.rs(),
        t.at(),
        repo@,
        ev,
        1,
        base@,
        stale_secs,
        now,
        seq![],
    );
    let mut list: Vec<Report> = Vec::new();
    assert(views(list@) =~= Seq::<ReportView>::empty());
    let mut i: usize = 1;
    while i < entries.len()
        invariant
            1 <= i,
            i <= entries.len() || i == 1,
            ev == views(entries@),
            rs == old(t).rs(),
            t.rs() == rs,
            whole == gather_all_run(
                old(t).rs(),
                old(t).at(),
                repo@,
                ev,
                1,
                base@,
                stale_secs,
                now,
                seq![],
            ),
            whole == gather_all_run(
                rs,
                t.at(),
                repo@,
                ev,
                i as int,
                base@,
                stale_secs,
                now,
                views(list@),
            ),
        decreases entries.len() - i,
    {
        assert(ev[i as int] == entries@[i as int]@);
        match gather(t, repo, &entries[i], base, stale_secs, now) {
            Ok(r) => {
                let ghost before = views(list@);
                list.push(r);
                assert(views(list@) =~= before.push(r@));
            },
            Err(h) => {
                return Err(h);
            },
        }
        i = i + 1;
    }
    Ok(list)
}

/// One round of the doctor: with the replies so far it stops at the next question, refuses,
/// or reports. Only when asked to fetch does a question change anything, and then only the
/// ref of the base.
pub fn doctor(replies: &Vec<crate::gitbase::Reply>, args: &DoctorArgs, now: u64) -> (r: Result<
    DoctorReport,
    Halt,
>)
    ensures
        match (doctor_run(views(replies@), args@, now), r) {
            (Run::Done(v, _), Ok(report)) => report@ == v,
            (Run::Halt(h), Err(g)) => g@ == h,
            _ => false,
        },
{
    let mut t = Talk::new(replies);
    let top = match t.git(Place::Start, words2("rev-parse", "--show-toplevel")) {
        Ok(o) => o,
        Err(h) => {
            return Err(h);
        },
    };
    if !top.ok() {
        let mut m: String = args.start.display();
        m.append(": not inside a git work tree");
        return Err(
            Halt::Refuse(
                VcError::new(ErrorKind::NotFound, m).with_next(
                    "vc worktree doctor --repo <path>".to_owned(),
                ),
            ),
        );
    }
    let repo = TreePath::from_raw(strip_raw(&top.stdout));
    let base = match fresh_base(&mut t, &repo, args) {
        Ok(base) => base,
        Err(h) => {
            return Err(h);
        },
    };
    let list = match t.git(
        Place::At(repo.copy()),
        words4("worktree", "list", "--porcelain", "-z"),
    ) {
        Ok(o) => o,
        Err(h) => {
            return Err(h);
        },
    };
    if !list.ok() {
        let mut m: String = "git worktree list failed: ".to_owned();
        let err = list.err_trimmed();
        m.append(err.as_str());
        return Err(Halt::Refuse(VcError::new(ErrorKind::Io, m)));
    }
    let entries = parse_porcelain(list.stdout.as_slice());
    let worktrees = match gather_all(
        &mut t,
        &repo,
        &entries,
        &base,
        stale_seconds(args.stale_days),
        now,
    ) {
        Ok(w) => w,
        Err(h) => {
            return Err(h);
        },
    };
    assert(views(entries@).len() == entries@.len());
    let (main_path, main_branch) = if entries.len() > 0 {
        assert(views(entries@)[0] == entries@[0]@);
        (Some(entries[0].path.copy()), copy_opt(&entries[0].branch))
    } else {
        (None, None)
    };
    Ok(
        DoctorReport {
            repo_root: repo,
            base: base.display,
            base_full: base.full,
            base_commit: base.commit,
            base_source: base.source,
            main_path,
            main_branch,
            worktrees,
        },
    )
}

/// A worktree counts as clean only on git's word: its status was asked, the answer was a
/// success, and no line of it says anything. Any line, and any failure, is uncommitted work.
pub proof fn law_uncommitted_work_is_never_overlooked(rs: Seq<ReplyView>, at: nat, wt: Seq<u8>)
    ensures
        at >= rs.len() ==> dirty_run(rs, at, wt) == Run::<Option<Seq<char>>>::Halt(
            HaltView::Ask(AskView::Git { place: PlaceView::At(wt), args: ask_status() }),
        ),
        dirty_run(rs, at, wt) matches Run::Done(found, n) ==> {
            &&& at < rs.len() && n == at + 1 && rs[at as int] is Ran
            &&& found is None <==> {
                let o = rs[at as int]->Ran_0;
                &&& o.status == Some(0i32)
                &&& forall|k: int|
                    0 <= k < lines_of(lossy_text(o.stdout)).len() ==> (#[trigger] lines_of(
                        lossy_text(o.stdout),
                    )[k]).len() == 0
            }
        },
{
    if at < rs.len() {
        if let ReplyView::Ran(o) = rs[at as int] {
            let lines = lines_of(lossy_text(o.stdout));
            let keep = |l: Seq<char>| l.len() > 0;
            let kept = lines.filter(keep);
            lemma_filter_members(lines, keep);
            if kept.len() > 0 {
                assert(kept.contains(kept[0]));
                let k = lines.index_of(kept[0]);
                assert(lines[k].len() > 0);
            } else {
                assert forall|k: int| 0 <= k < lines.len() implies (#[trigger] lines[k]).len()
                    == 0 by {
                    if lines[k].len() > 0 {
                        assert(lines.contains(lines[k]));
                        assert(kept.contains(lines[k]));
                    }
                }
            }
        }
    }
}

/// What a summary of uncommitted work says: the first line that says anything, and how many
/// more there are.
pub proof fn law_a_summary_counts_every_line_of_work(text: Seq<char>)
    ensures
        ({
            let lines = lines_of(text).filter(|l: Seq<char>| l.len() > 0);
            match work_in(text) {
                None => lines.len() == 0,
                Some(said) => lines.len() > 0 && said == if lines.len() == 1 {
                    trimmed(lines[0])
                } else {
                    trimmed(lines[0]) + " (+"@ + dec((lines.len() - 1) as nat) + " more)"@
                },
            }
        }),
{
}

/// Whether a head is contained in the base, and whether it merges, is git's word alone: each
/// is asked of exactly the two commits, and only the exit codes that say so count.
pub proof fn law_merges_are_decided_by_git_alone(
    rs: Seq<ReplyView>,
    at: nat,
    repo: Seq<u8>,
    head: Seq<char>,
    base: Seq<char>,
)
    ensures
        at >= rs.len() ==> ancestor_run(rs, at, repo, head, base) == Run::<Option<bool>>::Halt(
            HaltView::Ask(
                AskView::Git { place: PlaceView::At(repo), args: ask_ancestor(head, base) },
            ),
        ),
        at >= rs.len() ==> merge_run(rs, at, repo, base, head) == Run::<MergeView>::Halt(
            HaltView::Ask(
                AskView::Git { place: PlaceView::At(repo), args: ask_merge(base, head) },
            ),
        ),
        ancestor_run(rs, at, repo, head, base) matches Run::Done(v, n) ==> {
            &&& at < rs.len() && n == at + 1 && rs[at as int] is Ran
            &&& v == Some(true) <==> rs[at as int]->Ran_0.status == Some(0i32)
            &&& v == Some(false) <==> rs[at as int]->Ran_0.status == Some(1i32)
        },
        merge_run(rs, at, repo, base, head) matches Run::Done(v, n) ==> {
            &&& at < rs.len() && n == at + 1 && rs[at as int] is Ran
            &&& v is Clean <==> rs[at as int]->Ran_0.status == Some(0i32)
            &&& v is Conflict <==> rs[at as int]->Ran_0.status == Some(1i32)
        },
{
}

/// What a report says of a worktree is of that worktree, and what it says of its state rests
/// on what git said of it: merged only when its branch is there, the status was asked and
/// showed nothing, and git said that the head is contained in the base; ready to merge only
/// when git said that it is not contained but merges cleanly; and never either for one that
/// git calls prunable.
pub proof fn law_a_report_rests_on_what_git_said(
    rs: Seq<ReplyView>,
    at: nat,
    repo: Seq<u8>,
    e: WorktreeView,
    base: BaseView,
    stale_secs: u64,
    now: u64,
)
    requires
        gather_run(rs, at, repo, e, base, stale_secs, now) is Done,
    ensures
        ({
            let r = gather_run(rs, at, repo, e, base, stale_secs, now)->Done_0;
            let h = e.head->0;
            &&& r.path == e.path && r.branch == e.branch && r.head == e.head && r.locked
                == e.locked
            &&& r.state == State::Prunable <==> e.prunable is Some
            &&& r.state == State::Merged || r.state == State::MergeReady || r.state
                == State::Conflict ==> {
                &&& e.head is Some && names_commit(h) && e.branch is Some && !e.detached
                &&& exists|k: nat| #[trigger] shows_no_work(rs, k, e.path)
                &&& exists|k: nat| #[trigger] shows_branch(rs, k, repo, e.branch->0)
            }
            &&& r.state == State::Merged ==> exists|k: nat| #[trigger]
                says_contained(rs, k, repo, h, base.commit, true)
            &&& r.state == State::MergeReady || r.state == State::Conflict ==> exists|k: nat|
                #[trigger] says_contained(rs, k, repo, h, base.commit, false)
            &&& r.state == State::MergeReady ==> exists|k: nat| #[trigger]
                says_merged(rs, k, repo, base.commit, h, MergeView::Clean)
            &&& r.state == State::Conflict ==> exists|k: nat| #[trigger]
                says_merged(rs, k, repo, base.commit, h, MergeView::Conflict)
        }),
{
    let head = real_head(e.head);
    if e.prunable is None {
        if let Run::Done(b, n) = branch_facts_run(rs, at, repo, e.branch, head, base) {
            if e.branch is Some && !b.gone && b.failed is None {
                assert(shows_branch(rs, at, repo, e.branch->0));
            }
            let asked = if b.gone {
                Run::Done(None, n)
            } else {
                dirty_run(rs, n, e.path)
            };
            if let Run::Done(dirty, m) = asked {
                if !b.gone && dirty is None {
                    assert(shows_no_work(rs, n, e.path));
                }
                if let Some(h) = head {
                    let deciding = dirty is None && b.failed is None && !(e.detached || e.branch
                        is None) && !b.is_base && !b.gone;
                    if deciding {
                        lemma_compared(rs, m, repo, h, base);
                    }
                }
            }
        }
    }
}

/// Whether the replies from `k` on show that a branch is there and stands for a commit.
pub open spec fn shows_branch(rs: Seq<ReplyView>, k: nat, repo: Seq<u8>, b: Seq<char>) -> bool {
    lookup_ref_run(rs, k, repo, "refs/heads/"@ + b) matches Run::Done(LookupView::Found(_), _)
}

/// Whether the reply at `k` to a question for a worktree's status shows no work.
pub open spec fn shows_no_work(rs: Seq<ReplyView>, k: nat, wt: Seq<u8>) -> bool {
    dirty_run(rs, k, wt) matches Run::Done(found, _) && found is None
}

/// Whether the reply at `k` says that the head is contained in the base, or that it is not.
pub open spec fn says_contained(
    rs: Seq<ReplyView>,
    k: nat,
    repo: Seq<u8>,
    head: Seq<char>,
    base: Seq<char>,
    contained: bool,
) -> bool {
    ancestor_run(rs, k, repo, head, base) matches Run::Done(v, _) && v == Some(contained)
}

/// Whether the reply at `k` says how the head merges into the base.
pub open spec fn says_merged(
    rs: Seq<ReplyView>,
    k: nat,
    repo: Seq<u8>,
    base: Seq<char>,
    head: Seq<char>,
    how: MergeView,
) -> bool {
    merge_run(rs, k, repo, base, head) matches Run::Done(v, _) && v == how
}

proof fn lemma_compared(
    rs: Seq<ReplyView>,
    at: nat,
    repo: Seq<u8>,
    head: Seq<char>,
    base: BaseView,
)
    ensures
        compare_run(rs, at, repo, head, base, true) matches Run::Done(c, _) ==> {
            &&& c.is_ancestor is Some ==> exists|k: nat| #[trigger]
                says_contained(rs, k, repo, head, base.commit, c.is_ancestor->0)
            &&& c.merge_tree is Some ==> exists|k: nat| #[trigger]
                says_merged(rs, k, repo, base.commit, head, c.merge_tree->0)
        },
{
    if let Run::Done(c, end) = compare_run(rs, at, repo, head, base, true) {
        let n = count_run(rs, at, repo, base.commit, head)->Done_1;
        let m = last_commit_run(rs, n, repo, head)->Done_1;
        let asked = ancestor_run(rs, m, repo, head, base.commit);
        assert(asked is Done);
        let anc = asked->Done_0;
        let k = asked->Done_1;
        assert(c.is_ancestor == anc);
        if anc is Some {
            assert(says_contained(rs, m, repo, head, base.commit, anc->0));
        }
        if c.merge_tree is Some {
            assert(anc == Some(false));
            assert(says_merged(rs, k, repo, base.commit, head, c.merge_tree->0));
        }
    }
}

proof fn lemma_all_gathered(
    rs: Seq<ReplyView>,
    at: nat,
    repo: Seq<u8>,
    entries: Seq<WorktreeView>,
    i: int,
    base: BaseView,
    stale_secs: u64,
    now: u64,
    done: Seq<ReportView>,
)
    requires
        1 <= i <= entries.len() || i == 1,
        done.len() == i - 1,
        forall|k: int| 0 <= k < done.len() ==> is_report_on(#[trigger] done[k], entries[k + 1]),
    ensures
        gather_all_run(rs, at, repo, entries, i, base, stale_secs, now, done) matches Run::Done(
            all,
            _,
        ) ==> {
            &&& all.len() == if entries.len() == 0 {
                0int
            } else {
                entries.len() - 1
            }
            &&& forall|k: int|
                0 <= k < all.len() ==> is_report_on(#[trigger] all[k], entries[k + 1])
        },
    decreases entries.len() - i,
{
    if i < entries.len() {
        if let Run::Done(r, n) = gather_run(rs, at, repo, entries[i], base, stale_secs, now) {
            law_a_report_rests_on_what_git_said(
                rs,
                at,
                repo,
                entries[i],
                base,
                stale_secs,
                now,
            );
            let next = done.push(r);
            assert forall|k: int| 0 <= k < next.len() implies is_report_on(
                #[trigger] next[k],
                entries[k + 1],
            ) by {
                if k < done.len() {
                    assert(next[k] == done[k]);
                }
            }
            lemma_all_gathered(
                rs,
                n,
                repo,
                entries,
                i + 1,
                base,
                stale_secs,
                now,
                next,
            );
        }
    }
}

/// Whether a report is of this worktree.
pub open spec fn is_report_on(r: ReportView, e: WorktreeView) -> bool {
    r.path == e.path && r.branch == e.branch && r.head == e.head && r.locked == e.locked
}

/// Every linked worktree is reported, once and in the order of git's listing: all of its
/// records but the first, which is the main one.
pub proof fn law_every_linked_worktree_is_reported(
    rs: Seq<ReplyView>,
    args: ArgsView,
    now: u64,
)
    ensures
        doctor_run(rs, args, now) matches Run::Done(v, _) ==> exists|k: int|
            0 <= k < rs.len() && (#[trigger] rs[k]) is Ran && reports_on(
                v,
                listed(rs[k]->Ran_0.stdout),
            ),
{
    if let Run::Done(top, n) = git_run(rs, 0, PlaceView::Start, ask_toplevel()) {
        let repo = raw_answer(top.stdout);
        if let Run::Done(base, m) = fresh_base_run(rs, n, repo, args) {
            if let Run::Done(list, k) = git_run(rs, m, PlaceView::At(repo), ask_worktrees()) {
                let entries = listed(list.stdout);
                lemma_all_gathered(
                    rs,
                    k,
                    repo,
                    entries,
                    1,
                    base,
                    days_in_seconds(args.stale_days),
                    now,
                    seq![],
                );
                assert(rs[m as int] is Ran && rs[m as int]->Ran_0 == list);
            }
        }
    }
}

/// Whether a report on a repository is of these worktrees: the first as the main one, and one
/// report for every other.
pub open spec fn reports_on(v: DoctorView, entries: Seq<WorktreeView>) -> bool {
    &&& v.worktrees.len() == if entries.len() == 0 {
        0int
    } else {
        entries.len() - 1
    }
    &&& forall|k: int|
        0 <= k < v.worktrees.len() ==> is_report_on(#[trigger] v.worktrees[k], entries[k + 1])
    &&& entries.len() > 0 ==> v.main_path == Some(entries[0].path) && v.main_branch
        == entries[0].branch
    &&& entries.len() == 0 ==> v.main_path is None && v.main_branch is None
}

/// Two counts that git gives are read as those counts: whatever white space stands between,
/// before and behind them.
pub proof fn law_two_counts_read_back(
    a: u64,
    b: u64,
    before: Seq<char>,
    between: Seq<char>,
    behind: Seq<char>,
)
    requires
        between.len() > 0,
        forall|i: int| 0 <= i < before.len() ==> is_white(#[trigger] before[i]),
        forall|i: int| 0 <= i < between.len() ==> is_white(#[trigger] between[i]),
        forall|i: int| 0 <= i < behind.len() ==> is_white(#[trigger] behind[i]),
    ensures
        two_numbers(before + dec(a as nat) + between + dec(b as nat) + behind) == Some((a, b)),
{
    let x = dec(a as nat);
    let y = dec(b as nat);
    let text = before + x + between + y + behind;
    law_decimals_spell_the_number(a as nat);
    law_decimals_spell_the_number(b as nat);
    law_numbers_read_back(a as nat, u64::MAX as nat, seq![]);
    law_numbers_read_back(b as nat, u64::MAX as nat, seq![]);
    let p = before.len() as int;
    let q = p + x.len();
    let r = q + between.len();
    let s = r + y.len();
    assert(text.subrange(0, p) =~= before);
    assert(text.subrange(p, q) =~= x);
    assert(text.subrange(q, r) =~= between);
    assert(text.subrange(r, s) =~= y);
    assert(text[q] == between[0]);
    if s < text.len() {
        assert(text[s] == behind[0]);
    }
    lemma_one_word(text, 0, p, q, before, x);
    lemma_one_word(text, q, r, s, between, y);
}

/// What stands behind white space and before white space is the next word.
proof fn lemma_one_word(
    text: Seq<char>,
    from: int,
    a: int,
    end: int,
    white: Seq<char>,
    word: Seq<char>,
)
    requires
        0 <= from <= a < end <= text.len(),
        text.subrange(from, a) == white,
        text.subrange(a, end) == word,
        forall|i: int| 0 <= i < white.len() ==> is_white(#[trigger] white[i]),
        forall|i: int| 0 <= i < word.len() ==> '0' <= #[trigger] word[i] <= '9',
        end < text.len() ==> is_white(text[end]),
    ensures
        next_word(text, from) == Some((word, end)),
{
    law_the_next_word_is_the_next(text, from);
    assert forall|i: int| from <= i < a implies is_white(#[trigger] text[i]) by {
        assert(white[i - from] == text[i]);
    }
    assert forall|i: int| a <= i < end implies !is_white(#[trigger] text[i]) by {
        assert(word[i - a] == text[i]);
    }
    if let Some((w, e)) = next_word(text, from) {
        let b = e - w.len();
        assert(is_next_word(text, from, b, e));
        if b < a {
            assert(is_white(text[b]));
        } else if b > a {
            assert(!is_white(text[a]));
        }
        if e < end {
            assert(is_white(text[e]));
        } else if e > end {
            assert(!is_white(text[end]));
        }
    } else {
        assert(is_white(text[a]));
    }
}

/// A base is fetched exactly when that is asked for, and then what is compared against is
/// what the base is after a fetch that git ended well; without it nothing is fetched.
pub proof fn law_a_fetched_base_is_resolved_after_the_fetch(
    rs: Seq<ReplyView>,
    at: nat,
    repo: Seq<u8>,
    args: ArgsView,
)
    ensures
        !args.fetch ==> fresh_base_run(rs, at, repo, args) == base_run(rs, at, repo, args.base),
        args.fetch && fresh_base_run(rs, at, repo, args) is Done ==> exists|k: int|
            #[trigger] ended_with(rs, k, 0) && fresh_base_run(rs, at, repo, args)
                == base_run(rs, (k + 1) as nat, repo, args.base),
{
    if args.fetch {
        if let Run::Done(base, n) = base_run(rs, at, repo, args.base) {
            if let Run::Done(argv, m) = fetch_args_run(rs, n, repo, base) {
                if fresh_base_run(rs, at, repo, args) is Done {
                    assert(ended_with(rs, m as int, 0));
                }
            }
        }
    }
}

/// Only the base is fetched, and from its own remote: what is fetched into a remote-tracking
/// base is the one source that maps onto it; any other ref is fetched for as git does by
/// default; and for an expression nothing is fetched.
pub proof fn law_only_the_base_is_fetched(
    rs: Seq<ReplyView>,
    at: nat,
    repo: Seq<u8>,
    base: BaseView,
)
    ensures
        match base.branch {
            Some(BranchView::Remote(remote, branch)) => {
                let usual = "refs/heads/"@ + branch;
                let asked = fetch_source_run(rs, at, repo, remote, base.full, usual);
                fetch_args_run(rs, at, repo, base) matches Run::Done(argv, n) ==> (
                asked matches Run::Done(src, m) && m == n && argv == fetch_command() + seq![
                    "--"@,
                    remote,
                    "+"@ + src + ":"@ + base.full,
                ])
            },
            _ => {
                &&& base.is_ref ==> fetch_args_run(rs, at, repo, base) == Run::Done(
                    fetch_command(),
                    at,
                )
                &&& !base.is_ref ==> (fetch_args_run(rs, at, repo, base) matches Run::Halt(
                    HaltView::Refuse(e),
                ) && e.kind == ErrorKind::Usage)
            },
        },
{
}

} // verus!
