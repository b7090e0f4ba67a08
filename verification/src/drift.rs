//! Whether the scope of a match plan has drifted since it was made: a file outside the plan
//! that now matches, or that cannot be cleared.

use crate::errors::{refusal_next, ErrorKind, ErrorView, VcError, VcResult};
use crate::order::{lemma_filter_members, views};
use crate::ordmap::{has_rank, lookup, OrdMap};
use crate::paths::{components, path_rank, same_path, TreePath};
use crate::plan::{
    CertView, MatchSelector, Plan, PlanForm, PlanView, ProvenanceCert, SelectorView,
};
use crate::sites::{MatchSite, SiteView};
use crate::text::{dec, lossy_text, push_dec, same_text};
use crate::walk::{lang_of, lang_tag};
use vstd::prelude::*;
use vstd::string::*;

verus! {

/// The refusal for drift, with the next step.
pub open spec fn drifted(message: Seq<char>, sha8: Seq<char>) -> ErrorView {
    refusal_next(ErrorKind::ScopeDrift, message, "vc plan refresh "@ + sha8)
}

fn drift_error(message: String, sha8: &str) -> (e: VcError)
    ensures
        e@ == drifted(message@, sha8@),
{
    let mut next: String = "vc plan refresh ".to_owned();
    next.append(sha8);
    VcError::new(ErrorKind::ScopeDrift, message).with_next(next)
}

/// What a plan's scope is checked with: nothing for a plan without a selector.
pub open spec fn guard_of(p: PlanView, sha8: Seq<char>) -> Result<
    Option<(CertView, SelectorView)>,
    ErrorView,
> {
    match p.form {
        PlanForm::Match => match (p.certificate, p.selector) {
            (Some(c), Some(s)) => Ok(Some((c, s))),
            _ => Err(
                refusal_next(
                    ErrorKind::Malformed,
                    "plan "@ + sha8 + ": match-form plan has no selector or certificate"@,
                    "vc show "@ + sha8,
                ),
            ),
        },
        _ => Ok(None),
    }
}

/// What a plan's scope is checked with, by the plan's form: an edit or import plan has
/// nothing to check, and a match plan without its selector or certificate is refused.
pub fn drift_guard<'a>(p: &'a Plan, sha8: &str) -> (r: VcResult<
    Option<(&'a ProvenanceCert, &'a MatchSelector)>,
>)
    ensures
        match (guard_of(p@, sha8@), r) {
            (Ok(Some((c, s))), Ok(Some((cert, sel)))) => cert@ == c && sel@ == s && p.certificate
                == Some(*cert) && p.selector == Some(*sel),
            (Ok(None), Ok(None)) => true,
            (Err(e), Err(f)) => f@ == e,
            _ => false,
        },
{
    match p.form {
        PlanForm::Match => match (&p.certificate, &p.selector) {
            (Some(cert), Some(sel)) => Ok(Some((cert, sel))),
            _ => {
                let mut m: String = "plan ".to_owned();
                m.append(sha8);
                m.append(": match-form plan has no selector or certificate");
                let mut next: String = "vc show ".to_owned();
                next.append(sha8);
                Err(VcError::new(ErrorKind::Malformed, m).with_next(next))
            },
        },
        _ => Ok(None),
    }
}

/// The files that have to be looked at: those of the selector's language outside the plan.
pub open spec fn suspects_in(
    walked: Seq<Seq<u8>>,
    lang: Seq<char>,
    named: Seq<(Seq<u8>, Seq<char>)>,
) -> Seq<Seq<u8>>
    decreases walked.len(),
{
    if walked.len() == 0 {
        seq![]
    } else {
        let before = suspects_in(walked.drop_last(), lang, named);
        if lang_of(walked.last()) == lang && !has_rank::<TreePath, Seq<char>>(
            named,
            path_rank(walked.last()),
        ) {
            before.push(walked.last())
        } else {
            before
        }
    }
}

/// The files of the walked scope that have to be looked at. A file that the plan names is
/// not among them: that one is checked when the plan is applied.
pub fn drift_suspects(walked: &Vec<TreePath>, lang: &str, named: &OrdMap<TreePath, String>) -> (files:
    Vec<TreePath>)
    requires
        named.wf(),
    ensures
        views(files@) == suspects_in(views(walked@), lang@, named@),
{
    let mut files: Vec<TreePath> = Vec::new();
    let ghost wv = views(walked@);
    let mut i: usize = 0;
    assert(wv.take(0) =~= Seq::<Seq<u8>>::empty());
    assert(views(files@) =~= Seq::<Seq<u8>>::empty());
    while i < walked.len()
        invariant
            i <= walked.len(),
            wv == views(walked@),
            named.wf(),
            views(files@) == suspects_in(wv.take(i as int), lang@, named@),
        decreases walked.len() - i,
    {
        let ghost before = files@;
        proof {
            assert(wv.take(i + 1).drop_last() =~= wv.take(i as int));
            assert(wv.take(i + 1).last() == walked@[i as int]@);
        }
        if same_text(lang_tag(&walked[i]), lang) && !named.contains_key(&walked[i]) {
            files.push(walked[i].copy());
            assert(views(files@) =~= views(before).push(walked@[i as int]@));
        }
        i = i + 1;
    }
    assert(wv.take(walked.len() as int) =~= wv);
    files
}

/// What hashing a suspect gave.
#[derive(Debug, Clone)]
pub enum HashRead {
    Digest(String),
    /// The file is gone.
    Missing,
    Failed(String),
}

/// A suspect and what hashing it gave.
#[derive(Debug)]
pub struct Suspect {
    pub path: TreePath,
    pub hash: HashRead,
}

/// What [`HashRead`] says.
pub enum HashView {
    Digest(Seq<char>),
    Missing,
    Failed(Seq<char>),
}

/// What a [`Suspect`] says.
pub struct SuspectView {
    pub path: Seq<u8>,
    pub hash: HashView,
}

impl View for HashRead {
    type V = HashView;

    open spec fn view(&self) -> HashView {
        match self {
            HashRead::Digest(h) => HashView::Digest(h@),
            HashRead::Missing => HashView::Missing,
            HashRead::Failed(why) => HashView::Failed(why@),
        }
    }
}

impl View for Suspect {
    type V = SuspectView;

    open spec fn view(&self) -> SuspectView {
        SuspectView { path: self.path@, hash: self.hash@ }
    }
}

/// Whether a file is not as the certificate has it.
pub open spec fn changed(seen: Seq<(Seq<u8>, Seq<char>)>, path: Seq<u8>, digest: Seq<char>) -> bool {
    lookup::<TreePath, Seq<char>>(seen, path_rank(path)) != Some(digest)
}

/// The suspects from `i` on that changed, added to `done`; one that is gone is no concern,
/// and one that cannot be read is refused.
pub open spec fn changed_from(
    seen: Seq<(Seq<u8>, Seq<char>)>,
    suspects: Seq<SuspectView>,
    sha8: Seq<char>,
    i: int,
    done: Seq<Seq<u8>>,
) -> Result<Seq<Seq<u8>>, ErrorView>
    decreases suspects.len() - i,
{
    if i >= suspects.len() {
        Ok(done)
    } else {
        match suspects[i].hash {
            HashView::Missing => changed_from(seen, suspects, sha8, i + 1, done),
            HashView::Failed(why) => Err(
                drifted(
                    lossy_text(suspects[i].path) + ": "@ + why
                        + " — could not be verified against the selector since plan"@,
                    sha8,
                ),
            ),
            HashView::Digest(h) => changed_from(
                seen,
                suspects,
                sha8,
                i + 1,
                if changed(seen, suspects[i].path, h) {
                    done.push(suspects[i].path)
                } else {
                    done
                },
            ),
        }
    }
}

/// The suspects that are new or changed since the certificate was made, which the selector
/// has to be matched against again. One that cannot be read is refused.
pub fn drift_candidates(cert: &ProvenanceCert, suspects: &Vec<Suspect>, sha8: &str) -> (r: VcResult<
    Vec<TreePath>,
>)
    requires
        cert.scope_files.wf(),
    ensures
        match (changed_from(cert@.scope_files, views(suspects@), sha8@, 0, seq![]), r) {
            (Ok(c), Ok(files)) => views(files@) == c,
            (Err(e), Err(f)) => f@ == e,
            _ => false,
        },
{
    let ghost sv = views(suspects@);
    let ghost seen = cert@.scope_files;
    let ghost whole = changed_from(seen, sv, sha8@, 0, seq![]);
    let mut files: Vec<TreePath> = Vec::new();
    let mut i: usize = 0;
    assert(views(files@) =~= Seq::<Seq<u8>>::empty());
    while i < suspects.len()
        invariant
            i <= suspects.len(),
            sv == views(suspects@),
            seen == cert@.scope_files,
            cert.scope_files.wf(),
            whole == changed_from(seen, sv, sha8@, 0, seq![]),
            whole == changed_from(seen, sv, sha8@, i as int, views(files@)),
        decreases suspects.len() - i,
    {
        let s = &suspects[i];
        assert(sv[i as int] == s@);
        let ghost before = files@;
        match &s.hash {
            HashRead::Missing => {},
            HashRead::Failed(why) => {
                let mut m: String = s.path.display();
                m.append(": ");
                m.append(why.as_str());
                m.append(" — could not be verified against the selector since plan");
                return Err(drift_error(m, sha8));
            },
            HashRead::Digest(h) => {
                let same = match cert.scope_files.get(&s.path) {
                    Some(old) => same_text(old.as_str(), h.as_str()),
                    None => false,
                };
                assert(same == !changed(seen, s@.path, h@));
                if !same {
                    files.push(s.path.copy());
                    assert(views(files@) =~= views(before).push(s@.path));
                }
            },
        }
        i = i + 1;
    }
    Ok(files)
}

/// The number of the first `n` sites that are in the same file as `path`.
pub open spec fn sites_at(sites: Seq<SiteView>, path: Seq<u8>, n: nat) -> nat
    decreases n,
{
    if n == 0 {
        0
    } else {
        sites_at(sites, path, (n - 1) as nat) + if same_path(sites[n - 1].path, path) {
            1nat
        } else {
            0nat
        }
    }
}

/// Whether site `i` is the first in its file.
pub open spec fn first_in_file(sites: Seq<SiteView>, i: int) -> bool {
    forall|j: int| 0 <= j < i ==> !same_path((#[trigger] sites[j]).path, sites[i].path)
}

/// The number of files that the first `n` sites are in.
pub open spec fn files_of(sites: Seq<SiteView>, n: nat) -> nat
    decreases n,
{
    if n == 0 {
        0
    } else {
        files_of(sites, (n - 1) as nat) + if first_in_file(sites, n - 1) {
            1nat
        } else {
            0nat
        }
    }
}

/// What matching the selector against the candidates says: a site in a file outside the plan
/// is drift, and so is a candidate that could not be matched.
pub open spec fn verdict_on(
    sites: Seq<SiteView>,
    warnings: Seq<Seq<char>>,
    sha8: Seq<char>,
) -> Option<ErrorView> {
    if sites.len() > 0 {
        let path = sites[0].path;
        let gained = lossy_text(path) + " gained a match since plan ("@ + dec(
            sites_at(sites, path, sites.len()),
        ) + " new site(s))"@;
        let others = files_of(sites, sites.len()) - 1;
        Some(
            drifted(
                if others > 0 {
                    gained + " (+"@ + dec(others as nat) + " more file(s))"@
                } else {
                    gained
                },
                sha8,
            ),
        )
    } else if warnings.len() > 0 {
        Some(
            drifted(
                warnings[0] + " — could not be verified against the selector since plan"@,
                sha8,
            ),
        )
    } else {
        None
    }
}

/// How many of the sites are in the first one's file, and in how many files the sites are.
fn count_sites(sites: &Vec<MatchSite>) -> (r: (usize, usize))
    requires
        sites@.len() > 0,
    ensures
        r.0 == sites_at(views(sites@), sites@[0]@.path, sites@.len()),
        r.1 == files_of(views(sites@), sites@.len()),
        r.1 >= 1,
{
    let ghost sv = views(sites@);
    let mut same: usize = 0;
    let mut files: usize = 0;
    let mut i: usize = 0;
    while i < sites.len()
        invariant
            i <= sites.len(),
            sites@.len() > 0,
            sv == views(sites@),
            same == sites_at(sv, sites@[0]@.path, i as nat),
            files == files_of(sv, i as nat),
            same <= i,
            files <= i,
            i >= 1 ==> files >= 1,
        decreases sites.len() - i,
    {
        if sites[i].path.same(&sites[0].path) {
            same = same + 1;
        }
        let mut first: bool = true;
        let mut j: usize = 0;
        while j < i
            invariant
                j <= i < sites.len(),
                sv == views(sites@),
                first == (forall|k: int|
                    0 <= k < j ==> !same_path((#[trigger] sv[k]).path, sv[i as int].path)),
            decreases i - j,
        {
            assert(sv[j as int] == sites@[j as int]@);
            assert(sv[i as int] == sites@[i as int]@);
            if sites[j].path.same(&sites[i].path) {
                first = false;
            }
            j = j + 1;
        }
        assert(first == first_in_file(sv, i as int));
        if first {
            files = files + 1;
        }
        i = i + 1;
    }
    (same, files)
}

/// Refuses to apply a match plan when the selector, matched against the candidates, found a
/// site or could not match a candidate.
pub fn drift_verdict(sites: &Vec<MatchSite>, warnings: &Vec<String>, sha8: &str) -> (r: VcResult<()>)
    ensures
        match (verdict_on(views(sites@), views(warnings@), sha8@), r) {
            (None, Ok(_)) => true,
            (Some(e), Err(f)) => f@ == e,
            _ => false,
        },
{
    if sites.len() > 0 {
        let (n, files) = count_sites(sites);
        assert(views(sites@)[0] == sites@[0]@);
        let mut m: String = sites[0].path.display();
        m.append(" gained a match since plan (");
        push_dec(&mut m, n as u64);
        m.append(" new site(s))");
        if files - 1 > 0 {
            m.append(" (+");
            push_dec(&mut m, (files - 1) as u64);
            m.append(" more file(s))");
        }
        return Err(drift_error(m, sha8));
    }
    if warnings.len() > 0 {
        assert(views(warnings@)[0] == warnings@[0]@);
        let mut m: String = warnings[0].as_str().to_owned();
        m.append(" — could not be verified against the selector since plan");
        return Err(drift_error(m, sha8));
    }
    Ok(())
}

/// What the check has been given so far.
#[derive(Debug)]
pub enum Given {
    Nothing,
    /// The files in the selector's scope.
    Walked(Vec<TreePath>),
    /// The digests of the files that were asked for.
    Hashed(Vec<Suspect>),
    /// The sites of the selector in the files that were asked for, and the matcher's
    /// warnings.
    Matched(Vec<MatchSite>, Vec<String>),
}

/// What [`Given`] says.
pub enum GivenView {
    Nothing,
    Walked(Seq<Seq<u8>>),
    Hashed(Seq<SuspectView>),
    Matched(Seq<SiteView>, Seq<Seq<char>>),
}

impl View for Given {
    type V = GivenView;

    open spec fn view(&self) -> GivenView {
        match self {
            Given::Nothing => GivenView::Nothing,
            Given::Walked(files) => GivenView::Walked(views(files@)),
            Given::Hashed(suspects) => GivenView::Hashed(views(suspects@)),
            Given::Matched(sites, warnings) => GivenView::Matched(
                views(sites@),
                views(warnings@),
            ),
        }
    }
}

/// What the check needs next.
#[derive(Debug)]
pub enum Need {
    /// Nothing more: the scope has not drifted.
    Nothing,
    /// The files in the selector's scope.
    Walk,
    /// The digests of these files.
    Hash(Vec<TreePath>),
    /// The selector's sites in these files.
    Match(Vec<TreePath>),
}

/// What [`Need`] says.
pub enum NeedView {
    Nothing,
    Walk,
    Hash(Seq<Seq<u8>>),
    Match(Seq<Seq<u8>>),
}

impl View for Need {
    type V = NeedView;

    open spec fn view(&self) -> NeedView {
        match self {
            Need::Nothing => NeedView::Nothing,
            Need::Walk => NeedView::Walk,
            Need::Hash(files) => NeedView::Hash(views(files@)),
            Need::Match(files) => NeedView::Match(views(files@)),
        }
    }
}

/// What the check of a plan's scope needs after what it has been given: it walks the
/// selector's scope, takes the digests of the files there that the plan does not name, and
/// matches the selector against those that are not as the certificate has them. With none of
/// those it is done.
pub open spec fn next_need(p: PlanView, sha8: Seq<char>, given: GivenView) -> Result<
    NeedView,
    ErrorView,
> {
    match guard_of(p, sha8) {
        Err(e) => Err(e),
        Ok(None) => Ok(NeedView::Nothing),
        Ok(Some((cert, sel))) => match given {
            GivenView::Nothing => Ok(NeedView::Walk),
            GivenView::Walked(files) => Ok(NeedView::Hash(suspects_in(files, sel.lang, p.files))),
            GivenView::Hashed(suspects) => match changed_from(
                cert.scope_files,
                suspects,
                sha8,
                0,
                seq![],
            ) {
                Err(e) => Err(e),
                Ok(files) => if files.len() == 0 {
                    Ok(NeedView::Nothing)
                } else {
                    Ok(NeedView::Match(files))
                },
            },
            GivenView::Matched(sites, warnings) => match verdict_on(sites, warnings, sha8) {
                Some(e) => Err(e),
                None => Ok(NeedView::Nothing),
            },
        },
    }
}

/// Whether the certificate of a plan, if it has one, is in order.
pub open spec fn cert_wf(p: Plan) -> bool {
    match p.certificate {
        Some(c) => c.scope_files.wf(),
        None => true,
    }
}

/// One step of the check of a plan's scope: what it needs next, or the refusal.
pub fn check_scope_drift(p: &Plan, sha8: &str, given: &Given) -> (r: VcResult<Need>)
    requires
        p.files.wf(),
        cert_wf(*p),
    ensures
        match (next_need(p@, sha8@, given@), r) {
            (Ok(n), Ok(need)) => need@ == n,
            (Err(e), Err(f)) => f@ == e,
            _ => false,
        },
{
    let (cert, sel) = match drift_guard(p, sha8) {
        Err(e) => {
            return Err(e);
        },
        Ok(None) => {
            return Ok(Need::Nothing);
        },
        Ok(Some(pair)) => pair,
    };
    match given {
        Given::Nothing => Ok(Need::Walk),
        Given::Walked(files) => Ok(
            Need::Hash(drift_suspects(files, sel.lang.as_str(), &p.files)),
        ),
        Given::Hashed(suspects) => match drift_candidates(cert, suspects, sha8) {
            Err(e) => Err(e),
            Ok(files) => {
                assert(views(files@).len() == files@.len());
                if files.len() == 0 {
                    Ok(Need::Nothing)
                } else {
                    Ok(Need::Match(files))
                }
            },
        },
        Given::Matched(sites, warnings) => match drift_verdict(sites, warnings, sha8) {
            Err(e) => Err(e),
            Ok(_) => Ok(Need::Nothing),
        },
    }
}

proof fn lemma_suspect_kept(
    walked: Seq<Seq<u8>>,
    lang: Seq<char>,
    named: Seq<(Seq<u8>, Seq<char>)>,
    i: int,
)
    requires
        0 <= i < walked.len(),
        lang_of(walked[i]) == lang,
        !has_rank::<TreePath, Seq<char>>(named, path_rank(walked[i])),
    ensures
        suspects_in(walked, lang, named).contains(walked[i]),
    decreases walked.len(),
{
    let all = suspects_in(walked, lang, named);
    if i == walked.len() - 1 {
        assert(all[all.len() - 1] == walked[i]);
    } else {
        lemma_suspect_kept(walked.drop_last(), lang, named, i);
        let before = suspects_in(walked.drop_last(), lang, named);
        let k = before.index_of(walked[i]);
        assert(all[k] == before[k]);
    }
}

proof fn lemma_changed_kept(
    seen: Seq<(Seq<u8>, Seq<char>)>,
    suspects: Seq<SuspectView>,
    sha8: Seq<char>,
    i: int,
    done: Seq<Seq<u8>>,
    k: int,
)
    requires
        0 <= i <= suspects.len(),
        0 <= k < suspects.len(),
        k < i ==> done.contains(suspects[k].path),
        !(suspects[k].hash is Missing),
        suspects[k].hash matches HashView::Digest(h) ==> changed(seen, suspects[k].path, h),
    ensures
        changed_from(seen, suspects, sha8, i, done) matches Ok(c) ==> c.contains(suspects[k].path),
    decreases suspects.len() - i,
{
    if i < suspects.len() {
        match suspects[i].hash {
            HashView::Missing => {
                lemma_changed_kept(seen, suspects, sha8, i + 1, done, k);
            },
            HashView::Failed(_) => {},
            HashView::Digest(h) => {
                let next = if changed(seen, suspects[i].path, h) {
                    done.push(suspects[i].path)
                } else {
                    done
                };
                if k < i {
                    let at = done.index_of(suspects[k].path);
                    assert(next[at] == suspects[k].path);
                } else if k == i {
                    assert(next[next.len() - 1] == suspects[k].path);
                }
                lemma_changed_kept(seen, suspects, sha8, i + 1, next, k);
            },
        }
    }
}

/// No file slips past the check: one of the selector's language that the plan does not name
/// is looked at, and one whose contents are not those that the certificate vouches for is
/// matched again, unless the check refuses outright.
pub proof fn law_no_unnamed_change_slips_past(
    walked: Seq<Seq<u8>>,
    lang: Seq<char>,
    named: Seq<(Seq<u8>, Seq<char>)>,
    seen: Seq<(Seq<u8>, Seq<char>)>,
    suspects: Seq<SuspectView>,
    sha8: Seq<char>,
    w: int,
    k: int,
)
    requires
        0 <= w < walked.len(),
        lang_of(walked[w]) == lang,
        !has_rank::<TreePath, Seq<char>>(named, path_rank(walked[w])),
        0 <= k < suspects.len(),
        suspects[k].path == walked[w],
        !(suspects[k].hash is Missing),
        suspects[k].hash matches HashView::Digest(h) ==> changed(seen, walked[w], h),
    ensures
        suspects_in(walked, lang, named).contains(walked[w]),
        changed_from(seen, suspects, sha8, 0, seq![]) matches Ok(c) ==> c.contains(walked[w]),
{
    lemma_suspect_kept(walked, lang, named, w);
    lemma_changed_kept(seen, suspects, sha8, 0, seq![], k);
}

/// The check only ever refuses, and lets a plan pass only where the selector found nothing
/// and could be matched against everything.
pub proof fn law_drift_check_fails_closed(
    sites: Seq<SiteView>,
    warnings: Seq<Seq<char>>,
    sha8: Seq<char>,
)
    ensures
        verdict_on(sites, warnings, sha8) is None <==> sites.len() == 0 && warnings.len() == 0,
        verdict_on(sites, warnings, sha8) matches Some(e) ==> e.kind == ErrorKind::ScopeDrift,
{
}

/// Whether a suspect has to be matched again: it is there, with other contents than those the
/// certificate vouches for.
pub open spec fn is_changed(seen: Seq<(Seq<u8>, Seq<char>)>, s: SuspectView) -> bool {
    s.hash matches HashView::Digest(h) && lookup::<TreePath, Seq<char>>(seen, path_rank(s.path))
        != Some(h)
}

/// The paths of the suspects that have to be matched again.
pub open spec fn changed_paths(
    seen: Seq<(Seq<u8>, Seq<char>)>,
    suspects: Seq<SuspectView>,
) -> Seq<Seq<u8>> {
    suspects.filter(|s: SuspectView| is_changed(seen, s)).map_values(|s: SuspectView| s.path)
}

proof fn lemma_changed_exactly(
    seen: Seq<(Seq<u8>, Seq<char>)>,
    suspects: Seq<SuspectView>,
    sha8: Seq<char>,
    i: int,
    done: Seq<Seq<u8>>,
)
    requires
        0 <= i <= suspects.len(),
        done == changed_paths(seen, suspects.take(i)),
    ensures
        changed_from(seen, suspects, sha8, i, done) is Err <==> exists|k: int|
            i <= k < suspects.len() && (#[trigger] suspects[k]).hash is Failed,
        changed_from(seen, suspects, sha8, i, done) matches Ok(c) ==> c == changed_paths(
            seen,
            suspects,
        ),
        changed_from(seen, suspects, sha8, i, done) matches Err(e) ==> e.kind
            == ErrorKind::ScopeDrift,
    decreases suspects.len() - i,
{
    let keep = |s: SuspectView| is_changed(seen, s);
    let path = |s: SuspectView| s.path;
    if i < suspects.len() {
        let s = suspects[i];
        let before = suspects.take(i);
        let now = suspects.take(i + 1);
        reveal(Seq::filter);
        assert(now.drop_last() =~= before);
        assert(now.last() == s);
        let next = if is_changed(seen, s) {
            done.push(s.path)
        } else {
            done
        };
        assert(next =~= changed_paths(seen, now));
        if !(s.hash is Failed) {
            lemma_changed_exactly(seen, suspects, sha8, i + 1, next);
        } else {
            assert(suspects[i].hash is Failed);
        }
    } else {
        assert(suspects.take(i) =~= suspects);
    }
}

proof fn lemma_suspects_exactly(
    walked: Seq<Seq<u8>>,
    lang: Seq<char>,
    named: Seq<(Seq<u8>, Seq<char>)>,
)
    ensures
        suspects_in(walked, lang, named) == walked.filter(
            |f: Seq<u8>|
                lang_of(f) == lang && !has_rank::<TreePath, Seq<char>>(named, path_rank(f)),
        ),
    decreases walked.len(),
{
    reveal(Seq::filter);
    if walked.len() > 0 {
        lemma_suspects_exactly(walked.drop_last(), lang, named);
    }
}

/// The check of a scope asks for exactly what it has to know, and lets nothing pass that it
/// does not know to be harmless.
///
/// A plan that is no match plan needs no check, and a match plan without its selector or its
/// certificate is refused. Of any other the files in scope are asked for first; then the
/// digests of exactly those of the selector's language that the plan does not name; then the
/// selector's sites in exactly those that are there with other contents than the certificate
/// vouches for. Only when there are none of those, or no site and no warning in them, is the
/// scope found undrifted; a file that cannot be read, a site and a warning are all refused as
/// drift.
pub proof fn law_the_scope_check_asks_for_exactly_what_it_has_to_know(
    p: PlanView,
    sha8: Seq<char>,
    walked: Seq<Seq<u8>>,
    suspects: Seq<SuspectView>,
    sites: Seq<SiteView>,
    warnings: Seq<Seq<char>>,
)
    ensures
        p.form != PlanForm::Match ==> forall|given: GivenView| #[trigger]
            next_need(p, sha8, given) == Ok::<NeedView, ErrorView>(NeedView::Nothing),
        p.form == PlanForm::Match && (p.selector is None || p.certificate is None) ==> forall|
            given: GivenView,
        | #[trigger] next_need(p, sha8, given) is Err,
        p.form == PlanForm::Match && p.selector is Some && p.certificate is Some ==> {
            let seen = p.certificate->0.scope_files;
            let asked = next_need(p, sha8, GivenView::Walked(walked));
            let hashed = next_need(p, sha8, GivenView::Hashed(suspects));
            let matched = next_need(p, sha8, GivenView::Matched(sites, warnings));
            &&& next_need(p, sha8, GivenView::Nothing) == Ok::<NeedView, ErrorView>(NeedView::Walk)
            &&& asked matches Ok(NeedView::Hash(files)) && files == walked.filter(
                |f: Seq<u8>|
                    lang_of(f) == p.selector->0.lang && !has_rank::<TreePath, Seq<char>>(
                        p.files,
                        path_rank(f),
                    ),
            )
            &&& hashed is Err <==> exists|k: int|
                0 <= k < suspects.len() && (#[trigger] suspects[k]).hash is Failed
            &&& hashed matches Err(e) ==> e.kind == ErrorKind::ScopeDrift
            &&& hashed matches Ok(need) ==> if forall|k: int|
                0 <= k < suspects.len() ==> !is_changed(seen, #[trigger] suspects[k]) {
                need == NeedView::Nothing
            } else {
                need == NeedView::Match(changed_paths(seen, suspects))
            }
            &&& matched == Ok::<NeedView, ErrorView>(NeedView::Nothing) <==> sites.len() == 0
                && warnings.len() == 0
            &&& matched is Ok ==> matched == Ok::<NeedView, ErrorView>(NeedView::Nothing)
            &&& matched matches Err(e) ==> e.kind == ErrorKind::ScopeDrift
        },
{
    if p.form == PlanForm::Match && p.selector is Some && p.certificate is Some {
        let seen = p.certificate->0.scope_files;
        lemma_suspects_exactly(walked, p.selector->0.lang, p.files);
        reveal(Seq::filter);
        assert(suspects.take(0) =~= Seq::<SuspectView>::empty());
        assert(changed_paths(seen, suspects.take(0)) =~= Seq::<Seq<u8>>::empty());
        lemma_changed_exactly(seen, suspects, sha8, 0, seq![]);
        let keep = |s: SuspectView| is_changed(seen, s);
        let kept = suspects.filter(keep);
        lemma_filter_members(suspects, keep);
        if forall|k: int|
            0 <= k < suspects.len() ==> !is_changed(seen, #[trigger] suspects[k]) {
            if kept.len() > 0 {
                assert(kept.contains(kept[0]));
                let k = suspects.index_of(kept[0]);
                assert(is_changed(seen, suspects[k]));
            }
        } else {
            let k = choose|k: int|
                0 <= k < suspects.len() && is_changed(seen, #[trigger] suspects[k]);
            assert(suspects.contains(suspects[k]));
            assert(kept.contains(suspects[k]));
            assert(kept.len() > 0);
        }
    }
}

proof fn lemma_sites_counted(sites: Seq<SiteView>, path: Seq<u8>, n: nat)
    requires
        n <= sites.len(),
    ensures
        sites_at(sites, path, n) == sites.take(n as int).filter(
            |s: SiteView| same_path(s.path, path),
        ).len(),
    decreases n,
{
    reveal(Seq::filter);
    if n > 0 {
        lemma_sites_counted(sites, path, (n - 1) as nat);
        assert(sites.take(n as int).drop_last() =~= sites.take(n - 1));
        assert(sites.take(n as int).last() == sites[n - 1]);
    } else {
        assert(sites.take(0) =~= Seq::<SiteView>::empty());
    }
}

proof fn lemma_files_counted(sites: Seq<SiteView>, n: nat)
    requires
        n <= sites.len(),
    ensures
        ({
            let files = sites.take(n as int).map_values(|s: SiteView| components(s.path));
            files.to_set().finite() && files_of(sites, n) == files.to_set().len()
        }),
    decreases n,
{
    broadcast use vstd::set::group_set_axioms;

    let comps = |s: SiteView| components(s.path);
    let files = sites.take(n as int).map_values(comps);
    if n > 0 {
        let m = (n - 1) as nat;
        let before = sites.take(m as int).map_values(comps);
        lemma_files_counted(sites, m);
        let c = components(sites[m as int].path);
        assert(files =~= before.push(c));
        assert(files.to_set() =~= before.to_set().insert(c)) by {
            assert forall|x: Seq<Seq<u8>>| #[trigger]
                files.to_set().contains(x) <==> before.to_set().insert(c).contains(x) by {
                if before.contains(x) {
                    let k = before.index_of(x);
                    assert(files[k] == x);
                }
                if files.contains(x) && x != c {
                    let k = files.index_of(x);
                    assert(before[k] == x);
                }
                assert(files[m as int] == c);
            }
        }
        assert(first_in_file(sites, m as int) <==> !before.contains(c)) by {
            if before.contains(c) {
                let k = before.index_of(c);
                assert(same_path(sites[k].path, sites[m as int].path));
            }
            if !first_in_file(sites, m as int) {
                let k = choose|k: int|
                    0 <= k < m && same_path((#[trigger] sites[k]).path, sites[m as int].path);
                assert(before[k] == c);
            }
        }
    } else {
        assert(files =~= Seq::<Seq<Seq<u8>>>::empty());
        assert(files.to_set() =~= Set::<Seq<Seq<u8>>>::empty());
    }
}

/// A refusal for drift counts right: it names the first site's file with the number of all
/// sites in that file, and how many more files there are sites in.
pub proof fn law_drift_is_counted_by_file(
    sites: Seq<SiteView>,
    warnings: Seq<Seq<char>>,
    sha8: Seq<char>,
)
    requires
        sites.len() > 0,
    ensures
        ({
            let path = sites[0].path;
            let here = sites.filter(|s: SiteView| same_path(s.path, path)).len();
            let files = sites.map_values(|s: SiteView| components(s.path)).to_set().len();
            let told = lossy_text(path) + " gained a match since plan ("@ + dec(here)
                + " new site(s))"@;
            &&& files >= 1
            &&& verdict_on(sites, warnings, sha8) == Some(
                drifted(
                    if files > 1 {
                        told + " (+"@ + dec((files - 1) as nat) + " more file(s))"@
                    } else {
                        told
                    },
                    sha8,
                ),
            )
        }),
{
    broadcast use vstd::set::group_set_axioms;

    assert(sites.take(sites.len() as int) =~= sites);
    lemma_sites_counted(sites, sites[0].path, sites.len());
    lemma_files_counted(sites, sites.len());
    let files = sites.map_values(|s: SiteView| components(s.path));
    assert(files.to_set().contains(files[0]));
    if files.to_set().len() == 0 {
        assert(files.to_set() =~= Set::<Seq<Seq<u8>>>::empty());
    }
}

/// Every match plan is checked for drift with its own selector and certificate, or refused
/// when it lacks one; no other plan is.
pub proof fn law_every_match_plan_is_guarded(p: PlanView, sha8: Seq<char>)
    ensures
        match guard_of(p, sha8) {
            Ok(Some((c, s))) => p.form == PlanForm::Match && p.certificate == Some(c) && p.selector
                == Some(s),
            Ok(None) => p.form != PlanForm::Match,
            Err(_) => p.form == PlanForm::Match && (p.certificate is None || p.selector is None),
        },
{
}

} // verus!
