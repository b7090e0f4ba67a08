//! The places that a structural pattern matches, as hits and as edits.

use crate::codec::{b64e, base64_text};
use crate::errors::{refusal, ErrorKind, ErrorView, VcError, VcResult};
use crate::order::{
    law_stable_sort_orders_and_keeps_items, ranks_ascend, stable_sorted, views,
};
use crate::ordmap::{lookup, OrdMap};
use crate::paths::{path_rank, TreePath};
use crate::plan::{
    built_match, covers, refresh_result, Canon, CanonView, EditView, MatchSelector, Plan, PlanView,
    ResolvedEdit, SelectorView, WalkedFile, WalkedView,
};
use crate::query::{
    find_byte, hit_at, locate, refuse_if_over_hit_cap, sort_hits, too_many_hits,
    HitView, QueryHit,
};
use crate::resolve::{ContentByPath, NEWLINE};
use crate::scope::{
    first_oversized, lemma_first_oversized, oversized, refuse_oversized, SizedFile, SizedView,
};
use crate::text::{dec, push_dec};
use crate::walk::MAX_SEARCH_FILE_BYTES;
use vstd::prelude::*;
use vstd::string::*;

verus! {

/// A place that a pattern matches: the bytes there, and what a rewrite makes of them.
#[derive(Debug, Clone)]
pub struct MatchSite {
    pub path: TreePath,
    pub start: usize,
    pub end: usize,
    pub old: Vec<u8>,
    pub new: Vec<u8>,
}

/// What a [`MatchSite`] says.
pub struct SiteView {
    pub path: Seq<u8>,
    pub start: nat,
    pub end: nat,
    pub old: Seq<u8>,
    pub new: Seq<u8>,
}

impl View for MatchSite {
    type V = SiteView;

    open spec fn view(&self) -> SiteView {
        SiteView {
            path: self.path@,
            start: self.start as nat,
            end: self.end as nat,
            old: self.old@,
            new: self.new@,
        }
    }
}

/// What was read of a site's file, if anything.
pub open spec fn content_of(contents: Seq<(Seq<u8>, Seq<u8>)>, site: SiteView) -> Option<Seq<u8>> {
    lookup::<TreePath, Seq<u8>>(contents, path_rank(site.path))
}

/// Whether the place of a site, and the length of what was read of its file, can be counted
/// from one.
pub open spec fn site_fits(contents: Seq<(Seq<u8>, Seq<u8>)>, site: SiteView) -> bool {
    match content_of(contents, site) {
        Some(bytes) => site.start < usize::MAX && bytes.len() < usize::MAX,
        None => true,
    }
}

/// Whether the places of all sites, and the lengths of their files, can be counted from one.
pub open spec fn sites_fit(contents: Seq<(Seq<u8>, Seq<u8>)>, sites: Seq<SiteView>) -> bool {
    forall|i: int| 0 <= i < sites.len() ==> site_fits(contents, #[trigger] sites[i])
}

/// Whether the places of all sites, and the lengths of their files, can be counted from one.
pub fn check_sites(contents: &ContentByPath, sites: &Vec<MatchSite>) -> (yes: bool)
    requires
        contents.wf(),
    ensures
        yes == sites_fit(contents@, views(sites@)),
{
    let ghost sv = views(sites@);
    let mut i: usize = 0;
    while i < sites.len()
        invariant
            i <= sites.len(),
            contents.wf(),
            sv == views(sites@),
            forall|k: int| 0 <= k < i ==> site_fits(contents@, #[trigger] sv[k]),
        decreases sites.len() - i,
    {
        assert(sv[i as int] == sites@[i as int]@);
        match contents.get(&sites[i].path) {
            Some(bytes) => {
                if sites[i].start == usize::MAX || bytes.len() == usize::MAX {
                    assert(!site_fits(contents@, sv[i as int]));
                    return false;
                }
            },
            None => {},
        }
        i = i + 1;
    }
    true
}

/// The hits of the sites from `i` on, added to `hits`; a site whose file was not read has
/// none. Refused as soon as there are more than `cap`.
pub open spec fn site_hits_from(
    contents: Seq<(Seq<u8>, Seq<u8>)>,
    sites: Seq<SiteView>,
    cap: usize,
    i: int,
    hits: Seq<HitView>,
) -> Result<Seq<HitView>, ErrorView>
    decreases sites.len() - i,
{
    if i >= sites.len() {
        Ok(hits)
    } else {
        match content_of(contents, sites[i]) {
            None => site_hits_from(contents, sites, cap, i + 1, hits),
            Some(bytes) => {
                let next = hits.push(hit_at(sites[i].path, bytes, sites[i].start as int));
                if next.len() > cap {
                    Err(too_many_hits(cap))
                } else {
                    site_hits_from(contents, sites, cap, i + 1, next)
                }
            },
        }
    }
}

/// The hits of sites, in path, line and column order.
pub open spec fn site_hits(
    contents: Seq<(Seq<u8>, Seq<u8>)>,
    sites: Seq<SiteView>,
    cap: usize,
) -> Result<Seq<HitView>, ErrorView> {
    match site_hits_from(contents, sites, cap, 0, seq![]) {
        Ok(hits) => Ok(stable_sorted::<QueryHit>(hits)),
        Err(e) => Err(e),
    }
}

/// Shows the sites of a structural pattern as hits, each at the line and column where it
/// starts.
pub fn search_ast(contents: &ContentByPath, sites: &Vec<MatchSite>, cap: usize) -> (r: VcResult<
    Vec<QueryHit>,
>)
    requires
        contents.wf(),
        sites_fit(contents@, views(sites@)),
    ensures
        match (site_hits(contents@, views(sites@), cap), r) {
            (Ok(h), Ok(hits)) => views(hits@) == h,
            (Err(e), Err(f)) => f@ == e,
            _ => false,
        },
{
    let ghost sv = views(sites@);
    let ghost whole = site_hits_from(contents@, sv, cap, 0, seq![]);
    let mut hits: Vec<QueryHit> = Vec::new();
    let mut i: usize = 0;
    assert(views(hits@) =~= Seq::<HitView>::empty());
    while i < sites.len()
        invariant
            i <= sites.len(),
            contents.wf(),
            sv == views(sites@),
            sites_fit(contents@, sv),
            whole == site_hits_from(contents@, sv, cap, 0, seq![]),
            whole == site_hits_from(contents@, sv, cap, i as int, views(hits@)),
        decreases sites.len() - i,
    {
        let site = &sites[i];
        assert(sv[i as int] == site@);
        match contents.get(&site.path) {
            None => {},
            Some(bytes) => {
                let ghost before = views(hits@);
                assert(site_fits(contents@, sv[i as int]));
                let newlines = find_byte(NEWLINE, bytes.as_slice());
                let (line, col, line_text) = locate(bytes.as_slice(), &newlines, site.start);
                let hit = QueryHit { path: site.path.copy(), line, col, line_text };
                hits.push(hit);
                proof {
                    assert(hit@ == hit_at(site@.path, bytes@, site@.start as int));
                    assert(views(hits@) =~= before.push(hit@));
                }
                match refuse_if_over_hit_cap(hits.len(), cap) {
                    Ok(_) => {},
                    Err(e) => {
                        return Err(e);
                    },
                }
            },
        }
        i = i + 1;
    }
    Ok(sort_hits(hits))
}

proof fn lemma_site_hits_bounded(
    contents: Seq<(Seq<u8>, Seq<u8>)>,
    sites: Seq<SiteView>,
    cap: usize,
    i: int,
    hits: Seq<HitView>,
)
    requires
        hits.len() <= cap,
    ensures
        site_hits_from(contents, sites, cap, i, hits) matches Ok(h) ==> h.len() <= cap,
    decreases sites.len() - i,
{
    if i < sites.len() {
        match content_of(contents, sites[i]) {
            None => {
                lemma_site_hits_bounded(contents, sites, cap, i + 1, hits);
            },
            Some(bytes) => {
                let next = hits.push(hit_at(sites[i].path, bytes, sites[i].start as int));
                if next.len() <= cap {
                    lemma_site_hits_bounded(contents, sites, cap, i + 1, next);
                }
            },
        }
    }
}

/// A structural search answers in path, line and column order, and with no more hits than
/// the cap, as the other searches do.
pub proof fn law_structural_search_is_ordered_and_capped(
    contents: Seq<(Seq<u8>, Seq<u8>)>,
    sites: Seq<SiteView>,
    cap: usize,
)
    ensures
        site_hits(contents, sites, cap) matches Ok(h) ==> {
            &&& ranks_ascend::<QueryHit>(h)
            &&& h.len() <= cap
        },
{
    lemma_site_hits_bounded(contents, sites, cap, 0, seq![]);
    match site_hits_from(contents, sites, cap, 0, seq![]) {
        Ok(hits) => {
            law_stable_sort_orders_and_keeps_items::<QueryHit>(hits);
        },
        Err(_) => {},
    }
}

/// The edit that a site asks for.
pub open spec fn edit_of(site: SiteView) -> EditView {
    EditView {
        path: site.path,
        start: site.start,
        end: site.end,
        line_hint: None,
        old_b64: base64_text(site.old),
        new_b64: base64_text(site.new),
    }
}

/// The edits that sites ask for.
pub open spec fn edits_of(sites: Seq<SiteView>) -> Seq<EditView> {
    sites.map_values(|s: SiteView| edit_of(s))
}

/// The edits that sites ask for, in their order.
pub fn site_edits(sites: &Vec<MatchSite>) -> (edits: Vec<ResolvedEdit>)
    ensures
        views(edits@) == edits_of(views(sites@)),
{
    let mut edits: Vec<ResolvedEdit> = Vec::new();
    let ghost all = edits_of(views(sites@));
    let mut i: usize = 0;
    while i < sites.len()
        invariant
            i <= sites.len(),
            all == edits_of(views(sites@)),
            views(edits@) == all.take(i as int),
        decreases sites.len() - i,
    {
        let s = &sites[i];
        let e = ResolvedEdit {
            path: s.path.copy(),
            start: s.start,
            end: s.end,
            line_hint: None,
            old_b64: b64e(s.old.as_slice()),
            new_b64: b64e(s.new.as_slice()),
        };
        let ghost before = edits@;
        edits.push(e);
        proof {
            assert(all[i as int] == e@);
            assert(all.take(i + 1) =~= all.take(i as int).push(e@));
            assert(views(edits@) =~= views(before).push(e@));
        }
        i = i + 1;
    }
    assert(all.take(sites.len() as int) =~= all);
    edits
}

/// The refusal of a number of sites that was not expected.
pub open spec fn unexpected_count(expected: usize, found: nat) -> ErrorView {
    refusal(
        ErrorKind::Usage,
        "expected "@ + dec(expected as nat) + " sites, found "@ + dec(found)
            + " — plan not stored"@,
    )
}

/// Refuses a number of sites other than the one expected, if one is.
pub fn check_expected(expect: Option<usize>, found: usize) -> (r: VcResult<()>)
    ensures
        match r {
            Ok(_) => expect is None || expect == Some(found),
            Err(e) => match expect {
                Some(n) => n != found && e@ == unexpected_count(n, found as nat),
                None => false,
            },
        },
{
    match expect {
        Some(n) => {
            if n != found {
                let mut m: String = "expected ".to_owned();
                push_dec(&mut m, n as u64);
                m.append(" sites, found ");
                push_dec(&mut m, found as u64);
                m.append(" — plan not stored");
                return Err(VcError::new(ErrorKind::Usage, m));
            }
            Ok(())
        },
        None => Ok(()),
    }
}

/// The plan that a selector's sites make, when every file in scope is small enough to match
/// and there are as many sites as expected.
pub open spec fn planned_match(
    root_real: Seq<u8>,
    selector: SelectorView,
    in_scope: Seq<SizedView>,
    expect: Option<usize>,
    sites: Seq<SiteView>,
    contents: Seq<(Seq<u8>, Seq<u8>)>,
    canon: Seq<(Seq<u8>, CanonView)>,
    refreshed: Result<(Seq<char>, u64), ErrorView>,
    walked: Seq<WalkedView>,
    warnings: Seq<Seq<char>>,
    now: u64,
) -> Result<PlanView, ErrorView> {
    if first_oversized(in_scope, 0) is Some {
        Err(oversized(first_oversized(in_scope, 0)->0))
    } else if expect matches Some(n) && n != sites.len() {
        Err(unexpected_count(expect->0, sites.len()))
    } else {
        built_match(
            root_real,
            selector,
            edits_of(sites),
            contents,
            canon,
            refreshed,
            walked,
            warnings,
            now,
        )
    }
}

/// Makes a plan of a selector's sites in the files of its language. With a file in scope that
/// is too large to match, or with another number of sites than expected, nothing is made.
pub fn plan_match_pipeline(
    root_real: TreePath,
    selector: MatchSelector,
    in_scope: &Vec<SizedFile>,
    expect: Option<usize>,
    sites: &Vec<MatchSite>,
    contents: &ContentByPath,
    canon: &OrdMap<TreePath, Canon>,
    refreshed: VcResult<(String, u64)>,
    walked: &Vec<WalkedFile>,
    warnings: Vec<String>,
    now: u64,
) -> (r: VcResult<Plan>)
    requires
        contents.wf(),
        canon.wf(),
        covers(edits_of(views(sites@)), contents@, canon@),
    ensures
        match (
            planned_match(
                root_real@,
                selector@,
                views(in_scope@),
                expect,
                views(sites@),
                contents@,
                canon@,
                refresh_result(refreshed),
                views(walked@),
                views(warnings@),
                now,
            ),
            r,
        ) {
            (Ok(p), Ok(q)) => q@ == p && q.files.wf() && q.realpaths.wf(),
            (Err(e), Err(f)) => f@ == e,
            _ => false,
        },
{
    match refuse_oversized(in_scope) {
        Ok(_) => {},
        Err(e) => {
            return Err(e);
        },
    }
    assert(views(sites@).len() == sites@.len());
    match check_expected(expect, sites.len()) {
        Ok(_) => {},
        Err(e) => {
            return Err(e);
        },
    }
    let edits = site_edits(sites);
    Plan::build_match(
        root_real,
        selector,
        edits,
        contents,
        canon,
        refreshed,
        walked,
        warnings,
        now,
    )
}

/// A file in scope that is too large to match refuses the plan, whatever was matched in the
/// others: the refusal is of the first such file, with its path and size.
pub proof fn law_an_oversized_file_refuses_the_plan(
    root_real: Seq<u8>,
    selector: SelectorView,
    in_scope: Seq<SizedView>,
    expect: Option<usize>,
    sites: Seq<SiteView>,
    contents: Seq<(Seq<u8>, Seq<u8>)>,
    canon: Seq<(Seq<u8>, CanonView)>,
    refreshed: Result<(Seq<char>, u64), ErrorView>,
    walked: Seq<WalkedView>,
    warnings: Seq<Seq<char>>,
    now: u64,
    k: int,
)
    requires
        0 <= k < in_scope.len(),
        in_scope[k].len > MAX_SEARCH_FILE_BYTES,
    ensures
        exists|j: int|
            0 <= j <= k && (#[trigger] in_scope[j]).len > MAX_SEARCH_FILE_BYTES && planned_match(
                root_real,
                selector,
                in_scope,
                expect,
                sites,
                contents,
                canon,
                refreshed,
                walked,
                warnings,
                now,
            ) == Err::<PlanView, ErrorView>(oversized(in_scope[j])),
{
    lemma_first_oversized(in_scope, 0, k);
}

/// The hit of one site; none when its file was not read.
pub open spec fn hits_of_site(contents: Seq<(Seq<u8>, Seq<u8>)>, site: SiteView) -> Seq<HitView> {
    match lookup::<TreePath, Seq<u8>>(contents, path_rank(site.path)) {
        Some(bytes) => seq![hit_at(site.path, bytes, site.start as int)],
        None => seq![],
    }
}

/// The hits of every site, one behind the other.
pub open spec fn every_site_hit(
    contents: Seq<(Seq<u8>, Seq<u8>)>,
    sites: Seq<SiteView>,
) -> Seq<HitView> {
    sites.map_values(|s: SiteView| hits_of_site(contents, s)).flatten()
}

proof fn lemma_site_hits_complete(
    contents: Seq<(Seq<u8>, Seq<u8>)>,
    sites: Seq<SiteView>,
    cap: usize,
    i: int,
    hits: Seq<HitView>,
)
    requires
        0 <= i <= sites.len(),
        hits.len() <= cap,
    ensures
        site_hits_from(contents, sites, cap, i, hits) is Err <==> hits.len() + every_site_hit(
            contents,
            sites.skip(i),
        ).len() > cap,
        site_hits_from(contents, sites, cap, i, hits) matches Err(e) ==> e == too_many_hits(cap),
        site_hits_from(contents, sites, cap, i, hits) matches Ok(h) ==> h == hits + every_site_hit(
            contents,
            sites.skip(i),
        ),
    decreases sites.len() - i,
{
    let of_site = |s: SiteView| hits_of_site(contents, s);
    let rest = sites.skip(i);
    if i < sites.len() {
        let own = hits_of_site(contents, sites[i]);
        let tail = sites.skip(i + 1);
        assert(rest.map_values(of_site).first() == own);
        assert(rest.map_values(of_site).drop_first() =~= tail.map_values(of_site));
        assert(every_site_hit(contents, rest) == own + every_site_hit(contents, tail));
        let next = hits + own;
        if own.len() > 0 {
            assert(next =~= hits.push(own[0]));
        } else {
            assert(next =~= hits);
        }
        if next.len() <= cap {
            lemma_site_hits_complete(contents, sites, cap, i + 1, next);
            assert(next + every_site_hit(contents, tail) =~= hits + every_site_hit(
                contents,
                rest,
            ));
        }
    } else {
        assert(rest.map_values(of_site) =~= Seq::<Seq<HitView>>::empty());
        assert(hits + every_site_hit(contents, rest) =~= hits);
    }
}

/// A structural search is complete or refused: it answers with one hit for every site in a file
/// that was read, no more and no fewer, and is refused exactly when those are more than the cap.
pub proof fn law_a_structural_search_is_complete_or_refused(
    contents: Seq<(Seq<u8>, Seq<u8>)>,
    sites: Seq<SiteView>,
    cap: usize,
)
    ensures
        site_hits(contents, sites, cap) is Err <==> every_site_hit(contents, sites).len() > cap,
        site_hits(contents, sites, cap) matches Err(e) ==> e == too_many_hits(cap),
        site_hits(contents, sites, cap) matches Ok(h) ==> h.to_multiset() == every_site_hit(
            contents,
            sites,
        ).to_multiset() && h.len() == every_site_hit(contents, sites).len(),
{
    assert(sites.skip(0) =~= sites);
    lemma_site_hits_complete(contents, sites, cap, 0, seq![]);
    match site_hits_from(contents, sites, cap, 0, seq![]) {
        Ok(hits) => {
            assert(hits =~= every_site_hit(contents, sites));
            law_stable_sort_orders_and_keeps_items::<QueryHit>(hits);
        },
        Err(_) => {},
    }
}

/// Every site of a match is an edit of the plan, in the order of the sites: it replaces the
/// site's range, old text and new text as the matcher gave them.
pub proof fn law_every_site_becomes_an_edit(sites: Seq<SiteView>)
    ensures
        edits_of(sites).len() == sites.len(),
        forall|i: int|
            0 <= i < sites.len() ==> {
                let e = #[trigger] edits_of(sites)[i];
                &&& e.path == sites[i].path
                &&& e.start == sites[i].start && e.end == sites[i].end
                &&& e.old_b64 == base64_text(sites[i].old)
                &&& e.new_b64 == base64_text(sites[i].new)
            },
{
}

/// A match is planned only with as many sites as were expected, if a number was.
pub proof fn law_only_the_expected_number_of_sites_is_planned(
    root_real: Seq<u8>,
    selector: SelectorView,
    in_scope: Seq<SizedView>,
    expect: Option<usize>,
    sites: Seq<SiteView>,
    contents: Seq<(Seq<u8>, Seq<u8>)>,
    canon: Seq<(Seq<u8>, CanonView)>,
    refreshed: Result<(Seq<char>, u64), ErrorView>,
    walked: Seq<WalkedView>,
    warnings: Seq<Seq<char>>,
    now: u64,
)
    ensures
        planned_match(
            root_real,
            selector,
            in_scope,
            expect,
            sites,
            contents,
            canon,
            refreshed,
            walked,
            warnings,
            now,
        ) matches Ok(p) ==> {
            &&& expect matches Some(n) ==> n == sites.len()
            &&& p.edits.len() == sites.len()
            &&& forall|k: int|
                0 <= k < in_scope.len() ==> (#[trigger] in_scope[k]).len <= MAX_SEARCH_FILE_BYTES
        },
{
    assert forall|k: int| 0 <= k < in_scope.len() && first_oversized(in_scope, 0) is None implies (
    #[trigger] in_scope[k]).len <= MAX_SEARCH_FILE_BYTES by {
        if in_scope[k].len > MAX_SEARCH_FILE_BYTES {
            lemma_first_oversized(in_scope, 0, k);
        }
    }
}

} // verus!
