//! Why the worktree doctor changes nothing: every question it can ever ask is one of a fixed
//! list of read-only git commands, unless it was told to fetch.

use crate::doctor::{
    ask_ancestor, ask_count, ask_last_commit, ask_merge, ask_status, ask_toplevel, ask_worktrees,
    branch_facts_run, compare_run, dirty_run, doctor_run, fetch_args, fetch_args_run, fetch_command,
    fresh_base_run, gather_all_run, gather_run, real_head, ArgsView,
};
use crate::gitbase::{
    ask_commit, ask_fetch_config, ask_git_path, ask_object_format, ask_origin_head, ask_remotes,
    ask_show_ref, ask_symbolic, base_run, canonical_run, commit_run, deref_run, existing_run,
    explicit_run, expr_commit_run, fallback_run, fallbacks_run, fetch_key, fetch_source_run,
    full_oid_run, git_run, identity_run, lookup_ref_run, may_be_pseudo, name_hits_run, operator_at,
    pinned_run, pseudo_ref_run, raw_answer, ref_candidates, ref_exists_run, remote_branch_run,
    AskView, HaltView, PlaceView, ReplyView, Run,
};
use crate::text::lossy_text;
use crate::worktree::{listed, BaseView, BranchView, ReportView, WorktreeView};
use vstd::prelude::*;

verus! {

/// Whether a git command is one of the read-only ones.
pub open spec fn reads_only(args: Seq<Seq<char>>) -> bool {
    ||| args == ask_remotes()
    ||| args == ask_object_format()
    ||| args == ask_origin_head()
    ||| args == ask_toplevel()
    ||| args == ask_worktrees()
    ||| args == ask_status()
    ||| exists|name: Seq<char>| args == #[trigger] ask_git_path(name)
    ||| exists|full: Seq<char>| args == #[trigger] ask_show_ref(full)
    ||| exists|expr: Seq<char>| args == #[trigger] ask_commit(expr)
    ||| exists|full: Seq<char>| args == #[trigger] ask_symbolic(full)
    ||| exists|key: Seq<char>| args == #[trigger] ask_fetch_config(key)
    ||| exists|base: Seq<char>, head: Seq<char>| args == #[trigger] ask_count(base, head)
    ||| exists|head: Seq<char>| args == #[trigger] ask_last_commit(head)
    ||| exists|head: Seq<char>, base: Seq<char>| args == #[trigger] ask_ancestor(head, base)
    ||| exists|base: Seq<char>, head: Seq<char>| args == #[trigger] ask_merge(base, head)
}

/// Whether a git command is the doctor's fetch.
pub open spec fn fetches(args: Seq<Seq<char>>) -> bool {
    args.len() >= 5 && args.take(5) == fetch_command()
}

/// Whether a question only looks: it reads a file or runs a read-only git command.
pub open spec fn only_looks(a: AskView) -> bool {
    match a {
        AskView::ReadFile(_) => true,
        AskView::Git { args, .. } => reads_only(args),
    }
}

/// Whether a computation, if it stops at a question, stops at one that only looks.
pub open spec fn asks_to_look<T>(r: Run<T>) -> bool {
    match r {
        Run::Halt(HaltView::Ask(a)) => only_looks(a),
        _ => true,
    }
}

proof fn looks_ref_exists(rs: Seq<ReplyView>, at: nat, repo: Seq<u8>, full: Seq<char>)
    ensures
        asks_to_look(ref_exists_run(rs, at, repo, full)),
{
    assert(reads_only(ask_show_ref(full)));
}

proof fn looks_remote_branch(rs: Seq<ReplyView>, at: nat, repo: Seq<u8>, full: Seq<char>)
    ensures
        asks_to_look(remote_branch_run(rs, at, repo, full)),
{
}

proof fn looks_identity(rs: Seq<ReplyView>, at: nat, repo: Seq<u8>, full: Seq<char>)
    ensures
        asks_to_look(identity_run(rs, at, repo, full)),
{
    looks_remote_branch(rs, at, repo, full);
}

proof fn looks_full_oid(rs: Seq<ReplyView>, at: nat, repo: Seq<u8>, name: Seq<char>)
    ensures
        asks_to_look(full_oid_run(rs, at, repo, name)),
{
}

proof fn looks_existing(
    rs: Seq<ReplyView>,
    at: nat,
    repo: Seq<u8>,
    label: Seq<char>,
    candidates: Seq<Seq<char>>,
    i: int,
    hits: Seq<Seq<char>>,
)
    ensures
        asks_to_look(existing_run(rs, at, repo, label, candidates, i, hits)),
    decreases candidates.len() - i,
{
    if i < candidates.len() {
        looks_ref_exists(rs, at, repo, candidates[i]);
        match ref_exists_run(rs, at, repo, candidates[i]) {
            Run::Done(Some(true), n) => {
                looks_existing(
                    rs,
                    n,
                    repo,
                    label,
                    candidates,
                    i + 1,
                    hits.push(candidates[i]),
                );
            },
            Run::Done(Some(false), n) => {
                looks_existing(rs, n, repo, label, candidates, i + 1, hits);
            },
            _ => {},
        }
    }
}

proof fn looks_name_hits(
    rs: Seq<ReplyView>,
    at: nat,
    repo: Seq<u8>,
    name: Seq<char>,
    label: Seq<char>,
)
    ensures
        asks_to_look(name_hits_run(rs, at, repo, name, label)),
{
    let candidates = ref_candidates(name);
    if may_be_pseudo(name) {
        assert(reads_only(ask_git_path(name)));
        match pseudo_ref_run(rs, at, repo, name) {
            Run::Done(true, n) => {
                looks_existing(rs, n, repo, label, candidates, 0, seq![name]);
            },
            Run::Done(false, n) => {
                looks_existing(rs, n, repo, label, candidates, 0, seq![]);
            },
            _ => {},
        }
    } else {
        looks_existing(rs, at, repo, label, candidates, 0, seq![]);
    }
}

proof fn looks_canonical(rs: Seq<ReplyView>, at: nat, repo: Seq<u8>, expr: Seq<char>)
    ensures
        asks_to_look(canonical_run(rs, at, repo, expr)),
{
    match operator_at(expr) {
        Some(i) if i != 0 => {
            let operand = expr.take(i);
            looks_full_oid(rs, at, repo, operand);
            match full_oid_run(rs, at, repo, operand) {
                Run::Done(false, n) => {
                    looks_name_hits(rs, n, repo, operand, expr);
                },
                _ => {},
            }
        },
        _ => {},
    }
}

proof fn looks_lookup(rs: Seq<ReplyView>, at: nat, repo: Seq<u8>, full: Seq<char>)
    ensures
        asks_to_look(lookup_ref_run(rs, at, repo, full)),
        asks_to_look(commit_run(rs, at, repo, full)),
{
    looks_ref_exists(rs, at, repo, full);
    assert(reads_only(ask_commit(full)));
}

proof fn looks_expr_commit(rs: Seq<ReplyView>, at: nat, repo: Seq<u8>, expr: Seq<char>)
    ensures
        asks_to_look(expr_commit_run(rs, at, repo, expr)),
{
    assert(reads_only(ask_commit(expr)));
}

proof fn looks_deref(rs: Seq<ReplyView>, at: nat, repo: Seq<u8>, full: Seq<char>)
    ensures
        asks_to_look(deref_run(rs, at, repo, full)),
{
    assert(reads_only(ask_symbolic(full)));
}

proof fn looks_pinned(
    rs: Seq<ReplyView>,
    at: nat,
    repo: Seq<u8>,
    b: Seq<char>,
    hits: Seq<Seq<char>>,
)
    ensures
        asks_to_look(pinned_run(rs, at, repo, b, hits)),
{
    if hits.len() == 0 {
        looks_canonical(rs, at, repo, b);
        match canonical_run(rs, at, repo, b) {
            Run::Done(expr, n) => {
                looks_expr_commit(rs, n, repo, expr);
            },
            _ => {},
        }
    } else if hits.len() == 1 {
        looks_deref(rs, at, repo, hits[0]);
        match deref_run(rs, at, repo, hits[0]) {
            Run::Done(full, n) => {
                looks_lookup(rs, n, repo, full);
                looks_expr_commit(rs, n, repo, full);
            },
            _ => {},
        }
    }
}

proof fn looks_explicit(rs: Seq<ReplyView>, at: nat, repo: Seq<u8>, b: Seq<char>)
    ensures
        asks_to_look(explicit_run(rs, at, repo, b)),
{
    looks_full_oid(rs, at, repo, b);
    match full_oid_run(rs, at, repo, b) {
        Run::Done(_, n) => {
            looks_name_hits(rs, n, repo, b, b);
            match name_hits_run(rs, n, repo, b, b) {
                Run::Done(hits, m) => {
                    looks_pinned(rs, m, repo, b, hits);
                    match pinned_run(rs, m, repo, b, hits) {
                        Run::Done(p, k) => {
                            looks_identity(rs, k, repo, p.full);
                        },
                        _ => {},
                    }
                },
                _ => {},
            }
        },
        _ => {},
    }
}

proof fn looks_fallback(rs: Seq<ReplyView>, at: nat, repo: Seq<u8>, cand: Seq<char>)
    ensures
        asks_to_look(fallback_run(rs, at, repo, cand)),
{
    let named = "refs/heads/"@ + cand;
    looks_ref_exists(rs, at, repo, named);
    match ref_exists_run(rs, at, repo, named) {
        Run::Done(_, n) => {
            looks_deref(rs, n, repo, named);
            match deref_run(rs, n, repo, named) {
                Run::Done(full, m) => {
                    looks_lookup(rs, m, repo, full);
                    match commit_run(rs, m, repo, full) {
                        Run::Done(_, k) => {
                            looks_identity(rs, k, repo, full);
                        },
                        _ => {},
                    }
                },
                _ => {},
            }
        },
        _ => {},
    }
}

proof fn looks_fallbacks(rs: Seq<ReplyView>, at: nat, repo: Seq<u8>)
    ensures
        asks_to_look(fallbacks_run(rs, at, repo)),
{
    looks_fallback(rs, at, repo, "main"@);
    match fallback_run(rs, at, repo, "main"@) {
        Run::Done(_, n) => {
            looks_fallback(rs, n, repo, "master"@);
        },
        _ => {},
    }
}

proof fn looks_base(rs: Seq<ReplyView>, at: nat, repo: Seq<u8>, explicit: Option<Seq<char>>)
    ensures
        asks_to_look(base_run(rs, at, repo, explicit)),
{
    match explicit {
        Some(b) => {
            looks_explicit(rs, at, repo, b);
        },
        None => {
            match git_run(rs, at, PlaceView::At(repo), ask_origin_head()) {
                Run::Done(o, n) => {
                    looks_fallbacks(rs, n, repo);
                    let full = crate::worktree::answer_line(lossy_text(o.stdout));
                    looks_lookup(rs, n, repo, full);
                    match commit_run(rs, n, repo, full) {
                        Run::Done(_, m) => {
                            looks_fallbacks(rs, m, repo);
                            looks_identity(rs, m, repo, full);
                        },
                        _ => {},
                    }
                },
                _ => {},
            }
        },
    }
}

proof fn looks_branch_facts(
    rs: Seq<ReplyView>,
    at: nat,
    repo: Seq<u8>,
    branch: Option<Seq<char>>,
    head: Option<Seq<char>>,
    base: BaseView,
)
    ensures
        asks_to_look(branch_facts_run(rs, at, repo, branch, head, base)),
{
    if let Some(b) = branch {
        looks_lookup(rs, at, repo, "refs/heads/"@ + b);
    }
}

proof fn looks_compare(
    rs: Seq<ReplyView>,
    at: nat,
    repo: Seq<u8>,
    head: Seq<char>,
    base: BaseView,
    deciding: bool,
)
    ensures
        asks_to_look(compare_run(rs, at, repo, head, base, deciding)),
{
    assert(reads_only(ask_count(base.commit, head)));
    assert(reads_only(ask_last_commit(head)));
    assert(reads_only(ask_ancestor(head, base.commit)));
    assert(reads_only(ask_merge(base.commit, head)));
}

proof fn looks_gather(
    rs: Seq<ReplyView>,
    at: nat,
    repo: Seq<u8>,
    e: WorktreeView,
    base: BaseView,
    stale_secs: u64,
    now: u64,
)
    ensures
        asks_to_look(gather_run(rs, at, repo, e, base, stale_secs, now)),
{
    let head = real_head(e.head);
    looks_branch_facts(rs, at, repo, e.branch, head, base);
    match branch_facts_run(rs, at, repo, e.branch, head, base) {
        Run::Done(b, n) => {
            let d = if b.gone {
                Run::Done(None, n)
            } else {
                dirty_run(rs, n, e.path)
            };
            match (d, head) {
                (Run::Done(dirty, m), Some(h)) => {
                    let deciding = dirty is None && b.failed is None && !(e.detached
                        || e.branch is None) && !b.is_base && !b.gone;
                    looks_compare(rs, m, repo, h, base, deciding);
                },
                _ => {},
            }
        },
        _ => {},
    }
}

proof fn looks_gather_all(
    rs: Seq<ReplyView>,
    at: nat,
    repo: Seq<u8>,
    entries: Seq<WorktreeView>,
    i: int,
    base: BaseView,
    stale_secs: u64,
    now: u64,
    done: Seq<ReportView>,
)
    requires
        0 <= i,
    ensures
        asks_to_look(gather_all_run(rs, at, repo, entries, i, base, stale_secs, now, done)),
    decreases entries.len() - i,
{
    if i < entries.len() {
        looks_gather(rs, at, repo, entries[i], base, stale_secs, now);
        match gather_run(rs, at, repo, entries[i], base, stale_secs, now) {
            Run::Done(r, n) => {
                looks_gather_all(
                    rs,
                    n,
                    repo,
                    entries,
                    i + 1,
                    base,
                    stale_secs,
                    now,
                    done.push(r),
                );
            },
            _ => {},
        }
    }
}

proof fn looks_fetch_args(rs: Seq<ReplyView>, at: nat, repo: Seq<u8>, base: BaseView)
    ensures
        asks_to_look(fetch_args_run(rs, at, repo, base)),
        match fetch_args_run(rs, at, repo, base) {
            Run::Done(args, _) => fetches(args),
            _ => true,
        },
{
    assert(fetch_command().take(5) =~= fetch_command());
    match base.branch {
        Some(BranchView::Remote(remote, branch)) => {
            assert(reads_only(ask_fetch_config(fetch_key(remote))));
            match fetch_source_run(rs, at, repo, remote, base.full, "refs/heads/"@ + branch) {
                Run::Done(src, _) => {
                    assert(fetch_args(base, src).take(5) =~= fetch_command());
                },
                _ => {},
            }
        },
        _ => {},
    }
}

/// Whatever the replies are, a question of the doctor only looks; the one exception is its
/// fetch, and that is asked only when the doctor was told to fetch.
pub proof fn law_doctor_only_looks(rs: Seq<ReplyView>, args: ArgsView, now: u64)
    ensures
        match doctor_run(rs, args, now) {
            Run::Halt(HaltView::Ask(a)) => only_looks(a) || (args.fetch && match a {
                AskView::Git { args: argv, .. } => fetches(argv),
                AskView::ReadFile(_) => false,
            }),
            _ => true,
        },
{
    match git_run(rs, 0, PlaceView::Start, ask_toplevel()) {
        Run::Done(top, n) => {
            let repo = raw_answer(top.stdout);
            looks_base(rs, n, repo, args.base);
            match base_run(rs, n, repo, args.base) {
                Run::Done(base, m) => {
                    looks_fetch_args(rs, m, repo, base);
                    match fetch_args_run(rs, m, repo, base) {
                        Run::Done(argv, k) => {
                            match git_run(rs, k, PlaceView::At(repo), argv) {
                                Run::Done(_, j) => {
                                    looks_base(rs, j, repo, args.base);
                                },
                                _ => {},
                            }
                        },
                        _ => {},
                    }
                },
                _ => {},
            }
            match fresh_base_run(rs, n, repo, args) {
                Run::Done(base, m) => {
                    match git_run(rs, m, PlaceView::At(repo), ask_worktrees()) {
                        Run::Done(list, k) => {
                            looks_gather_all(
                                rs,
                                k,
                                repo,
                                listed(list.stdout),
                                1,
                                base,
                                crate::doctor::days_in_seconds(args.stale_days),
                                now,
                                seq![],
                            );
                        },
                        _ => {},
                    }
                },
                _ => {},
            }
        },
        _ => {},
    }
}

} // verus!
