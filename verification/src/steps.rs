//! The order of the steps in planning a rewrite and in applying a plan.

use crate::errors::{ErrorView, VcResult};
use crate::order::views;
use crate::paths::TreePath;
use crate::scope::{
    chosen_lang, files_in, first_oversized, infer_scope_lang,
    law_every_file_of_a_language_is_kept, law_the_first_file_too_large_is_refused, oversized,
    refuse_oversized, ScopeLang, SizedFile,
};
use crate::sites::{check_expected, unexpected_count};
use crate::verbs::{MatchOrder, OrderView};
use crate::walk::{lang_of, MAX_SEARCH_FILE_BYTES};
use vstd::prelude::*;
use vstd::string::*;

verus! {

/// What is known on the way to a rewrite's plan.
#[derive(Debug)]
pub enum MatchGiven {
    Nothing,
    /// The files in scope.
    Walked(Vec<TreePath>),
    /// The files of the language, with their sizes.
    Sized(ScopeLang, Vec<SizedFile>),
    /// How many sites the matcher found.
    Found(usize),
}

/// What is needed next on the way to a rewrite's plan.
#[derive(Debug)]
pub enum MatchNeed {
    /// The files in scope.
    Walk,
    /// The sizes of these files.
    Sizes(ScopeLang),
    /// The sites in these files.
    Sites(ScopeLang),
    /// The plan of the sites.
    Build,
}

/// What a [`MatchNeed`] says; a language stands beside its files.
pub enum MatchNeedView {
    Walk,
    Sizes(Seq<char>, Seq<Seq<u8>>),
    Sites(Seq<char>, Seq<Seq<u8>>),
    Build,
}

impl View for MatchNeed {
    type V = MatchNeedView;

    open spec fn view(&self) -> MatchNeedView {
        match self {
            MatchNeed::Walk => MatchNeedView::Walk,
            MatchNeed::Sizes(s) => MatchNeedView::Sizes(s.lang@, views(s.files@)),
            MatchNeed::Sites(s) => MatchNeedView::Sites(s.lang@, views(s.files@)),
            MatchNeed::Build => MatchNeedView::Build,
        }
    }
}

/// What a rewrite needs next. The language is settled first, then that every file of it is
/// small enough to match; only then is anything matched, and only the expected number of sites
/// makes a plan.
pub open spec fn match_need(order: OrderView, given: MatchGiven) -> Result<
    MatchNeedView,
    ErrorView,
> {
    match given {
        MatchGiven::Nothing => Ok(MatchNeedView::Walk),
        MatchGiven::Walked(files) => match chosen_lang(views(files@), order.scope, order.lang) {
            Ok(l) => Ok(MatchNeedView::Sizes(l, files_in(views(files@), l))),
            Err(e) => Err(e),
        },
        MatchGiven::Sized(s, sized) => match first_oversized(views(sized@), 0) {
            Some(f) => Err(oversized(f)),
            None => Ok(MatchNeedView::Sites(s.lang@, views(s.files@))),
        },
        MatchGiven::Found(n) => match order.expect {
            Some(m) => if m != n {
                Err(unexpected_count(m, n as nat))
            } else {
                Ok(MatchNeedView::Build)
            },
            None => Ok(MatchNeedView::Build),
        },
    }
}

/// Says what a rewrite needs next, or refuses it.
pub fn match_step(order: &MatchOrder, given: MatchGiven) -> (r: VcResult<MatchNeed>)
    ensures
        match (match_need(order@, given), r) {
            (Ok(n), Ok(need)) => need@ == n,
            (Err(e), Err(f)) => f@ == e,
            _ => false,
        },
{
    match given {
        MatchGiven::Nothing => Ok(MatchNeed::Walk),
        MatchGiven::Walked(files) => {
            let lang: Option<&str> = match &order.lang {
                Some(l) => Some(l.as_str()),
                None => None,
            };
            match infer_scope_lang(&files, &order.scope, lang) {
                Ok(s) => Ok(MatchNeed::Sizes(s)),
                Err(e) => Err(e),
            }
        },
        MatchGiven::Sized(s, sized) => match refuse_oversized(&sized) {
            Ok(_) => Ok(MatchNeed::Sites(s)),
            Err(e) => Err(e),
        },
        MatchGiven::Found(n) => match check_expected(order.expect, n) {
            Ok(_) => Ok(MatchNeed::Build),
            Err(e) => Err(e),
        },
    }
}

/// What is known on the way to an applied plan.
#[derive(Debug)]
pub enum ApplyGiven {
    Nothing,
    /// What the drift check said.
    Drift(VcResult<()>),
    /// Whether the lock was taken.
    Lock(VcResult<()>),
    /// What the check of the plan's own files said, with the lock held.
    Files(VcResult<()>),
}

/// What is needed next on the way to an applied plan.
#[derive(Debug, Clone, Copy, PartialEq, Eq, Structural)]
pub enum ApplyNeed {
    CheckDrift,
    TakeLock,
    CheckFiles,
    Commit,
}

/// What an apply needs next: the drift check, the lock, the check of the plan's own files, and
/// only then the commit. The first refusal ends it.
pub open spec fn apply_need(given: ApplyGiven) -> Result<ApplyNeed, ErrorView> {
    match given {
        ApplyGiven::Nothing => Ok(ApplyNeed::CheckDrift),
        ApplyGiven::Drift(Ok(_)) => Ok(ApplyNeed::TakeLock),
        ApplyGiven::Lock(Ok(_)) => Ok(ApplyNeed::CheckFiles),
        ApplyGiven::Files(Ok(_)) => Ok(ApplyNeed::Commit),
        ApplyGiven::Drift(Err(e)) => Err(e@),
        ApplyGiven::Lock(Err(e)) => Err(e@),
        ApplyGiven::Files(Err(e)) => Err(e@),
    }
}

/// Says what an apply needs next, or passes its refusal on.
pub fn apply_step(given: ApplyGiven) -> (r: VcResult<ApplyNeed>)
    ensures
        match (apply_need(given), r) {
            (Ok(n), Ok(need)) => need == n,
            (Err(e), Err(f)) => f@ == e,
            _ => false,
        },
{
    match given {
        ApplyGiven::Nothing => Ok(ApplyNeed::CheckDrift),
        ApplyGiven::Drift(Ok(_)) => Ok(ApplyNeed::TakeLock),
        ApplyGiven::Lock(Ok(_)) => Ok(ApplyNeed::CheckFiles),
        ApplyGiven::Files(Ok(_)) => Ok(ApplyNeed::Commit),
        ApplyGiven::Drift(Err(e)) => Err(e),
        ApplyGiven::Lock(Err(e)) => Err(e),
        ApplyGiven::Files(Err(e)) => Err(e),
    }
}

/// Whether `given` is a reply to what was needed.
pub open spec fn replies_to(need: Result<ApplyNeed, ErrorView>, given: ApplyGiven) -> bool {
    match need {
        Ok(ApplyNeed::CheckDrift) => given is Drift,
        Ok(ApplyNeed::TakeLock) => given is Lock,
        Ok(ApplyNeed::CheckFiles) => given is Files,
        _ => false,
    }
}

/// Whether these are the givens of one apply, each a reply to what was needed before it.
pub open spec fn is_apply(run: Seq<ApplyGiven>) -> bool {
    &&& run.len() > 0
    &&& run[0] is Nothing
    &&& forall|i: int|
        0 <= i < run.len() - 1 ==> replies_to(#[trigger] apply_need(run[i]), run[i + 1])
}

/// Nothing is committed unless the drift check passed, the lock was taken after it, and the
/// plan's own files were then found as recorded; the first of these that fails is what the
/// apply is answered.
pub proof fn law_a_commit_comes_after_drift_check_lock_and_file_check(run: Seq<ApplyGiven>)
    requires
        is_apply(run),
    ensures
        apply_need(run.last()) == Ok::<ApplyNeed, ErrorView>(ApplyNeed::Commit) ==> {
            &&& run.len() == 4
            &&& run[1] matches ApplyGiven::Drift(Ok(_))
            &&& run[2] matches ApplyGiven::Lock(Ok(_))
            &&& run[3] matches ApplyGiven::Files(Ok(_))
        },
        forall|i: int| #![trigger run[i]] 0 <= i < run.len() - 1 ==> apply_need(run[i]) is Ok,
{
    let n = run.len();
    if n > 1 {
        assert(replies_to(apply_need(run[0]), run[1]));
    }
    if n > 2 {
        assert(replies_to(apply_need(run[1]), run[2]));
    }
    if n > 3 {
        assert(replies_to(apply_need(run[2]), run[3]));
    }
    if n > 4 {
        assert(replies_to(apply_need(run[3]), run[4]));
    }
    assert forall|i: int| #![trigger run[i]] 0 <= i < run.len() - 1 implies apply_need(
        run[i],
    ) is Ok by {
        assert(replies_to(apply_need(run[i]), run[i + 1]));
    }
}

/// A rewrite is matched over every file of its language, and over nothing unless all of them
/// are small enough; and it becomes a plan exactly when the number of sites is the expected
/// one, or none was expected.
pub proof fn law_a_rewrite_is_matched_over_all_of_its_files(order: OrderView, given: MatchGiven)
    ensures
        match given {
            MatchGiven::Nothing => match_need(order, given) == Ok::<MatchNeedView, ErrorView>(
                MatchNeedView::Walk,
            ),
            MatchGiven::Walked(files) => match_need(order, given) matches Ok(need) ==> (
            need matches MatchNeedView::Sizes(l, list) && list == views(files@).filter(
                |f: Seq<u8>| lang_of(f) == l,
            ) && (order.lang is Some ==> order.lang == Some(l))),
            MatchGiven::Sized(s, sized) => {
                &&& match_need(order, given) is Ok <==> forall|i: int|
                    0 <= i < sized@.len() ==> (#[trigger] sized@[i])@.len <= MAX_SEARCH_FILE_BYTES
                &&& match_need(order, given) matches Ok(need) ==> need == MatchNeedView::Sites(
                    s.lang@,
                    views(s.files@),
                )
            },
            MatchGiven::Found(n) => {
                &&& match_need(order, given) is Ok <==> order.expect is None || order.expect
                    == Some(n)
                &&& match_need(order, given) matches Ok(need) ==> need is Build
            },
        },
{
    match given {
        MatchGiven::Walked(files) => {
            if let Ok(l) = chosen_lang(views(files@), order.scope, order.lang) {
                law_every_file_of_a_language_is_kept(views(files@), l);
            }
        },
        MatchGiven::Sized(s, sized) => {
            let sv = views(sized@);
            law_the_first_file_too_large_is_refused(sv);
            if first_oversized(sv, 0) is None {
                assert forall|i: int| 0 <= i < sized@.len() implies (#[trigger] sized@[i])@.len
                    <= MAX_SEARCH_FILE_BYTES by {
                    assert(sv[i] == sized@[i]@);
                }
            } else {
                let k = choose|k: int|
                    0 <= k < sv.len() && (#[trigger] sv[k]).len > MAX_SEARCH_FILE_BYTES;
                assert(sv[k] == sized@[k]@);
            }
        },
        _ => {},
    }
}

} // verus!
