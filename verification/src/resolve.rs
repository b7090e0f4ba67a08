//! Turning requested replacements into exact byte ranges.

use crate::codec::{b64e, base64_text};
use crate::errors::{refusal, ErrorKind, ErrorView, VcError, VcResult};
use crate::order::{
    law_rank_order_is_total, law_sorting_forgets_the_order, law_stable_sort_orders_and_keeps_items,
    lemma_filter_members, lemma_same_images, lemma_same_members, lemma_stable_sort_members,
    list_less, rank_less, rank_tells_apart, ranks_ascend, stable_sort, stable_sorted, views,
    RankView, Ranked,
};
use crate::ordmap::{
    has_rank, keys_ascend, law_stored_reads_back, lemma_slot, lookup, slot, stored, OrdMap,
};
use crate::paths::{path_rank, same_path, TreePath};
use crate::plan::{EditView, ResolvedEdit};
use crate::text::{dec, lossy_text, push_dec, slice_copy};
use vstd::prelude::*;
use vstd::string::*;

verus! {

/// The byte that ends a line.
pub const NEWLINE: u8 = 10;

/// File contents by root-relative path.
pub type ContentByPath = OrdMap<TreePath, Vec<u8>>;

/// A requested replacement: `old` in `path` is to become `new`.
#[derive(Debug, Clone)]
pub struct EditRequest {
    pub path: TreePath,
    pub old: Vec<u8>,
    pub new: Vec<u8>,
    /// The line the match has to start on when `old` occurs more than once.
    pub line_hint: Option<usize>,
}

/// What an [`EditRequest`] says.
pub struct RequestView {
    pub path: Seq<u8>,
    pub old: Seq<u8>,
    pub new: Seq<u8>,
    pub line_hint: Option<usize>,
}

impl View for EditRequest {
    type V = RequestView;

    open spec fn view(&self) -> RequestView {
        RequestView {
            path: self.path@,
            old: self.old@,
            new: self.new@,
            line_hint: self.line_hint,
        }
    }
}

/// Whether `needle` stands in `hay` at `i`.
pub open spec fn occurs_at(hay: Seq<u8>, needle: Seq<u8>, i: int) -> bool {
    0 <= i && i + needle.len() <= hay.len() && hay.subrange(i, i + needle.len()) == needle
}

/// The places below `n` where `needle` stands in `hay`, overlapping ones included, in
/// ascending order.
pub open spec fn occurrences_below(hay: Seq<u8>, needle: Seq<u8>, n: nat) -> Seq<usize>
    decreases n,
{
    if n == 0 {
        seq![]
    } else {
        let before = occurrences_below(hay, needle, (n - 1) as nat);
        if occurs_at(hay, needle, n - 1) {
            before.push((n - 1) as usize)
        } else {
            before
        }
    }
}

/// All places where a non-empty `needle` stands in `hay`.
pub open spec fn occurrences(hay: Seq<u8>, needle: Seq<u8>) -> Seq<usize> {
    if needle.len() == 0 {
        seq![]
    } else {
        occurrences_below(hay, needle, hay.len())
    }
}

/// The number of line feeds in `bytes`.
pub open spec fn newline_count(bytes: Seq<u8>) -> nat
    decreases bytes.len(),
{
    if bytes.len() == 0 {
        0
    } else {
        newline_count(bytes.drop_last()) + if bytes.last() == NEWLINE {
            1nat
        } else {
            0nat
        }
    }
}

/// The 1-based line that byte `i` stands on.
pub open spec fn line_at(hay: Seq<u8>, i: int) -> nat {
    1 + newline_count(hay.take(i))
}

/// Those of `hits` that stand on line `hint`.
pub open spec fn hits_on_line(hay: Seq<u8>, hits: Seq<usize>, hint: usize) -> Seq<usize> {
    hits.filter(|h: usize| line_at(hay, h as int) == hint)
}

/// Past the last place where `needle` fits there is no occurrence.
proof fn lemma_occurrences_tail(hay: Seq<u8>, needle: Seq<u8>, n: nat, m: nat)
    requires
        n <= m,
        n + needle.len() > hay.len(),
    ensures
        occurrences_below(hay, needle, m) == occurrences_below(hay, needle, n),
    decreases m,
{
    if n < m {
        lemma_occurrences_tail(hay, needle, n, (m - 1) as nat);
    }
}

/// What `occurrences_below` lists lies below its bound and in the text.
pub proof fn lemma_occurrences_bound(hay: Seq<u8>, needle: Seq<u8>, n: nat)
    requires
        n <= usize::MAX,
    ensures
        forall|i: int|
            0 <= i < occurrences_below(hay, needle, n).len() ==> {
                let h = #[trigger] occurrences_below(hay, needle, n)[i];
                h < n && occurs_at(hay, needle, h as int)
            },
        occurrences_below(hay, needle, n).len() <= n,
    decreases n,
{
    if n > 0 {
        lemma_occurrences_bound(hay, needle, (n - 1) as nat);
    }
}

/// All places where `needle` stands in `hay`.
pub fn find_all(hay: &[u8], needle: &[u8]) -> (hits: Vec<usize>)
    ensures
        hits@ == occurrences(hay@, needle@),
{
    let mut out: Vec<usize> = Vec::new();
    if needle.len() == 0 {
        return out;
    }
    let mut i: usize = 0;
    while needle.len() <= hay.len() - i
        invariant
            needle.len() > 0,
            i <= hay.len(),
            out@ == occurrences_below(hay@, needle@, i as nat),
        decreases hay.len() - i,
    {
        let mut k: usize = 0;
        while k < needle.len() && hay[i + k] == needle[k]
            invariant
                i + needle.len() <= hay.len(),
                k <= needle.len(),
                forall|j: int| 0 <= j < k ==> hay@[i + j] == needle@[j],
            decreases needle.len() - k,
        {
            k = k + 1;
        }
        if k == needle.len() {
            assert(hay@.subrange(i as int, i + needle@.len()) =~= needle@);
            out.push(i);
        } else {
            assert(hay@.subrange(i as int, i + needle@.len())[k as int] == hay@[i + k]);
        }
        i = i + 1;
    }
    proof {
        lemma_occurrences_tail(hay@, needle@, i as nat, hay@.len());
    }
    out
}

/// The 1-based line that `byte` stands on.
pub fn line_of(hay: &[u8], byte: usize) -> (line: usize)
    requires
        byte <= hay.len(),
        byte < usize::MAX,
    ensures
        line == line_at(hay@, byte as int),
{
    let mut n: usize = 1;
    let mut i: usize = 0;
    while i < byte
        invariant
            i <= byte <= hay.len(),
            byte < usize::MAX,
            n == line_at(hay@, i as int),
            n <= i + 1,
        decreases byte - i,
    {
        assert(hay@.take(i + 1).drop_last() =~= hay@.take(i as int));
        if hay[i] == NEWLINE {
            n = n + 1;
        }
        i = i + 1;
    }
    n
}

/// The refusal for a request whose file cannot be read.
pub open spec fn no_such_file(path: Seq<u8>) -> ErrorView {
    refusal(ErrorKind::NotFound, lossy_text(path) + ": no such file"@)
}

/// Where a request lands in the contents of its file, or why it cannot be placed: the old
/// text has to occur exactly once, or exactly once on the hinted line.
pub open spec fn placed(content: Seq<u8>, req: RequestView) -> Result<usize, ErrorView> {
    let hits = occurrences(content, req.old);
    if hits.len() == 0 {
        Err(refusal(ErrorKind::NotFound, lossy_text(req.path) + ": old text not found"@))
    } else if hits.len() == 1 {
        Ok(hits[0])
    } else {
        match req.line_hint {
            Some(hint) => {
                let at = hits_on_line(content, hits, hint);
                if at.len() == 1 {
                    Ok(at[0])
                } else {
                    Err(
                        refusal(
                            ErrorKind::Ambiguous,
                            lossy_text(req.path) + ": "@ + dec(hits.len()) + " matches, line hint "@
                                + dec(hint as nat) + " selects "@ + dec(at.len()),
                        ),
                    )
                }
            },
            None => Err(
                refusal(
                    ErrorKind::Ambiguous,
                    lossy_text(req.path) + ": old text matches "@ + dec(hits.len())
                        + " times — add more context"@,
                ),
            ),
        }
    }
}

/// One request resolved against what could be read.
pub open spec fn resolved_one(disk: Seq<(Seq<u8>, Seq<u8>)>, req: RequestView) -> Result<
    EditView,
    ErrorView,
> {
    match lookup::<TreePath, Seq<u8>>(disk, path_rank(req.path)) {
        None => Err(no_such_file(req.path)),
        Some(content) => match placed(content, req) {
            Err(e) => Err(e),
            Ok(start) => Ok(
                EditView {
                    path: req.path,
                    start: start as nat,
                    end: (start + req.old.len()) as nat,
                    line_hint: req.line_hint,
                    old_b64: base64_text(req.old),
                    new_b64: base64_text(req.new),
                },
            ),
        },
    }
}

/// The requests resolved in their order; the first that fails decides.
pub open spec fn resolved_each(
    disk: Seq<(Seq<u8>, Seq<u8>)>,
    reqs: Seq<RequestView>,
) -> Result<Seq<EditView>, ErrorView>
    decreases reqs.len(),
{
    if reqs.len() == 0 {
        Ok(seq![])
    } else {
        match resolved_each(disk, reqs.drop_last()) {
            Err(e) => Err(e),
            Ok(done) => match resolved_one(disk, reqs.last()) {
                Err(e) => Err(e),
                Ok(edit) => Ok(done.push(edit)),
            },
        }
    }
}

/// Whether edit `i + 1` starts inside edit `i` of the same file.
pub open spec fn overlaps_next(edits: Seq<EditView>, i: int) -> bool {
    same_path(edits[i].path, edits[i + 1].path) && edits[i + 1].start < edits[i].end
}

/// The refusal for the edits at `i` and `i + 1`.
pub open spec fn overlap_refusal(edits: Seq<EditView>, i: int) -> ErrorView {
    refusal(
        ErrorKind::Overlap,
        lossy_text(edits[i].path) + ": edits at "@ + dec(edits[i].start) + ".."@ + dec(
            edits[i].end,
        ) + " and "@ + dec(edits[i + 1].start) + ".."@ + dec(edits[i + 1].end) + " overlap"@,
    )
}

/// The first edit, at or after `from`, that its successor starts inside of.
pub open spec fn first_overlap(edits: Seq<EditView>, from: int) -> Option<int>
    decreases edits.len() - from,
{
    if from + 1 >= edits.len() {
        None
    } else if overlaps_next(edits, from) {
        Some(from)
    } else {
        first_overlap(edits, from + 1)
    }
}

/// What resolving `reqs` gives: every request placed, the edits sorted by path and start,
/// and no two of them overlapping.
pub open spec fn resolution(
    disk: Seq<(Seq<u8>, Seq<u8>)>,
    reqs: Seq<RequestView>,
) -> Result<Seq<EditView>, ErrorView> {
    match resolved_each(disk, reqs) {
        Err(e) => Err(e),
        Ok(edits) => {
            let sorted = stable_sorted::<ResolvedEdit>(edits);
            match first_overlap(sorted, 0) {
                Some(i) => Err(overlap_refusal(sorted, i)),
                None => Ok(sorted),
            }
        },
    }
}

/// The contents of the requested files.
pub open spec fn touched(
    disk: Seq<(Seq<u8>, Seq<u8>)>,
    reqs: Seq<RequestView>,
) -> Seq<(Seq<u8>, Seq<u8>)>
    decreases reqs.len(),
{
    if reqs.len() == 0 {
        seq![]
    } else {
        let before = touched(disk, reqs.drop_last());
        let path = reqs.last().path;
        match lookup::<TreePath, Seq<u8>>(disk, path_rank(path)) {
            Some(content) if !has_rank::<TreePath, Seq<u8>>(before, path_rank(path)) => stored::<
                TreePath,
                Seq<u8>,
            >(before, path, content),
            _ => before,
        }
    }
}

/// Places one request in the contents of its file.
fn place(content: &Vec<u8>, req: &EditRequest) -> (r: VcResult<usize>)
    ensures
        match (placed(content@, req@), r) {
            (Ok(s), Ok(t)) => s == t && s + req.old@.len() <= content@.len() && s + req.old@.len()
                <= usize::MAX,
            (Err(e), Err(f)) => f@ == e,
            _ => false,
        },
{
    let hits = find_all(content.as_slice(), req.old.as_slice());
    let size: usize = content.len();
    proof {
        lemma_occurrences_bound(content@, req.old@, size as nat);
    }
    if hits.len() == 0 {
        let mut m: String = req.path.display();
        m.append(": old text not found");
        return Err(VcError::new(ErrorKind::NotFound, m));
    }
    assert(hits@ == occurrences_below(content@, req.old@, content@.len()));
    if hits.len() == 1 {
        assert(occurs_at(content@, req.old@, hits@[0] as int));
        return Ok(hits[0]);
    }
    assert(hits@.len() <= content@.len());
    match req.line_hint {
        Some(hint) => {
            let mut at: Vec<usize> = Vec::new();
            let mut i: usize = 0;
            let ghost on_line = |h: usize| line_at(content@, h as int) == hint;
            while i < hits.len()
                invariant
                    i <= hits.len(),
                    size == content@.len(),
                    hits@ == occurrences(content@, req.old@),
                    req.old@.len() > 0,
                    forall|k: int|
                        0 <= k < hits.len() ==> occurs_at(
                            content@,
                            req.old@,
                            #[trigger] hits@[k] as int,
                        ),
                    on_line == (|h: usize| line_at(content@, h as int) == hint),
                    at@ == hits@.take(i as int).filter(on_line),
                    forall|k: int|
                        0 <= k < at.len() ==> occurs_at(
                            content@,
                            req.old@,
                            #[trigger] at@[k] as int,
                        ),
                decreases hits.len() - i,
            {
                assert(occurs_at(content@, req.old@, hits@[i as int] as int));
                assert(hits@[i as int] < size);
                proof {
                    assert(hits@.take(i + 1).drop_last() =~= hits@.take(i as int));
                    reveal(Seq::filter);
                }
                if line_of(content.as_slice(), hits[i]) == hint {
                    at.push(hits[i]);
                }
                i = i + 1;
            }
            proof {
                assert(hits@.take(hits.len() as int) =~= hits@);
                assert(at@ == hits_on_line(content@, hits@, hint));
            }
            if at.len() == 1 {
                assert(occurs_at(content@, req.old@, at@[0] as int));
                Ok(at[0])
            } else {
                let mut m: String = req.path.display();
                m.append(": ");
                push_dec(&mut m, hits.len() as u64);
                m.append(" matches, line hint ");
                push_dec(&mut m, hint as u64);
                m.append(" selects ");
                push_dec(&mut m, at.len() as u64);
                Err(VcError::new(ErrorKind::Ambiguous, m))
            }
        },
        None => {
            let mut m: String = req.path.display();
            m.append(": old text matches ");
            push_dec(&mut m, hits.len() as u64);
            m.append(" times — add more context");
            Err(VcError::new(ErrorKind::Ambiguous, m))
        },
    }
}

/// Resolves every request and returns, beside the edits, the contents they were resolved
/// against. `disk` holds the requested files that could be read.
pub fn resolve_edits_with_content(disk: &ContentByPath, reqs: &Vec<EditRequest>) -> (r: VcResult<
    (Vec<ResolvedEdit>, ContentByPath),
>)
    requires
        disk.wf(),
    ensures
        match (resolution(disk@, views(reqs@)), r) {
            (Ok(edits), Ok((out, contents))) => views(out@) == edits && contents.wf() && contents@
                == touched(disk@, views(reqs@)),
            (Err(e), Err(f)) => f@ == e,
            _ => false,
        },
{
    let mut contents: ContentByPath = OrdMap::new();
    let mut out: Vec<ResolvedEdit> = Vec::new();
    let mut i: usize = 0;
    let ghost rv = views(reqs@);
    proof {
        assert(rv.take(0) =~= Seq::<RequestView>::empty());
        assert(views(out@) =~= Seq::<EditView>::empty());
    }
    while i < reqs.len()
        invariant
            disk.wf(),
            i <= reqs.len(),
            rv == views(reqs@),
            contents.wf(),
            contents@ == touched(disk@, rv.take(i as int)),
            resolved_each(disk@, rv.take(i as int)) == Ok::<Seq<EditView>, ErrorView>(
                views(out@),
            ),
        decreases reqs.len() - i,
    {
        let req = &reqs[i];
        proof {
            assert(rv.take(i + 1).drop_last() =~= rv.take(i as int));
            assert(rv.take(i + 1).last() == req@);
        }
        let content = match disk.get(&req.path) {
            Some(content) => content,
            None => {
                proof {
                    lemma_first_failure(disk@, rv, i as int);
                }
                let mut m: String = req.path.display();
                m.append(": no such file");
                return Err(VcError::new(ErrorKind::NotFound, m));
            },
        };
        if !contents.contains_key(&req.path) {
            contents.insert(
                req.path.copy(),
                slice_copy(content.as_slice(), 0, content.len()),
            );
            assert(content@.subrange(0, content@.len() as int) =~= content@);
        }
        let start = match place(content, req) {
            Ok(start) => start,
            Err(e) => {
                proof {
                    lemma_first_failure(disk@, rv, i as int);
                }
                return Err(e);
            },
        };
        let ghost before = views(out@);
        out.push(
            ResolvedEdit {
                path: req.path.copy(),
                start,
                end: start + req.old.len(),
                line_hint: req.line_hint,
                old_b64: b64e(req.old.as_slice()),
                new_b64: b64e(req.new.as_slice()),
            },
        );
        proof {
            assert(views(out@) =~= before.push(out@.last()@));
        }
        i = i + 1;
    }
    proof {
        assert(rv.take(reqs.len() as int) =~= rv);
    }
    let out = stable_sort(out);
    let ghost sorted = views(out@);
    let mut k: usize = 0;
    if out.len() > 0 {
        while k < out.len() - 1
            invariant
                0 < out.len(),
                k <= out.len() - 1,
                sorted == views(out@),
                resolved_each(disk@, views(reqs@)) is Ok,
                sorted == stable_sorted::<ResolvedEdit>(
                    resolved_each(disk@, views(reqs@))->Ok_0,
                ),
                first_overlap(sorted, 0) == first_overlap(sorted, k as int),
            decreases out.len() - 1 - k,
        {
            let a = &out[k];
            let b = &out[k + 1];
            if a.path.same(&b.path) && b.start < a.end {
                assert(overlaps_next(sorted, k as int));
                let mut m: String = a.path.display();
                m.append(": edits at ");
                push_dec(&mut m, a.start as u64);
                m.append("..");
                push_dec(&mut m, a.end as u64);
                m.append(" and ");
                push_dec(&mut m, b.start as u64);
                m.append("..");
                push_dec(&mut m, b.end as u64);
                m.append(" overlap");
                return Err(VcError::new(ErrorKind::Overlap, m));
            }
            k = k + 1;
        }
    }
    Ok((out, contents))
}

/// When every request is placed, the edits stand in the order of the requests.
pub proof fn lemma_resolved_each(disk: Seq<(Seq<u8>, Seq<u8>)>, reqs: Seq<RequestView>)
    requires
        resolved_each(disk, reqs) is Ok,
    ensures
        resolved_each(disk, reqs)->Ok_0.len() == reqs.len(),
        forall|i: int|
            0 <= i < reqs.len() ==> resolved_one(disk, #[trigger] reqs[i]) == Ok::<
                EditView,
                ErrorView,
            >(resolved_each(disk, reqs)->Ok_0[i]),
    decreases reqs.len(),
{
    if reqs.len() > 0 {
        lemma_resolved_each(disk, reqs.drop_last());
        assert forall|i: int| 0 <= i < reqs.len() implies resolved_one(disk, #[trigger] reqs[i])
            == Ok::<EditView, ErrorView>(resolved_each(disk, reqs)->Ok_0[i]) by {
            if i < reqs.len() - 1 {
                assert(reqs.drop_last()[i] == reqs[i]);
            }
        }
    }
}

/// Every edit of a resolution comes from one of the requests.
pub proof fn lemma_resolution_sources(disk: Seq<(Seq<u8>, Seq<u8>)>, reqs: Seq<RequestView>)
    requires
        resolution(disk, reqs) is Ok,
    ensures
        resolution(disk, reqs)->Ok_0.len() == reqs.len(),
        forall|i: int|
            0 <= i < reqs.len() ==> exists|j: int|
                0 <= j < reqs.len() && resolved_one(disk, #[trigger] reqs[j]) == Ok::<
                    EditView,
                    ErrorView,
                >(#[trigger] resolution(disk, reqs)->Ok_0[i]),
{
    let each = resolved_each(disk, reqs)->Ok_0;
    let out = resolution(disk, reqs)->Ok_0;
    lemma_resolved_each(disk, reqs);
    lemma_stable_sort_members::<ResolvedEdit>(each);
    assert forall|i: int| 0 <= i < reqs.len() implies exists|j: int|
        0 <= j < reqs.len() && resolved_one(disk, #[trigger] reqs[j]) == Ok::<EditView, ErrorView>(
            #[trigger] out[i],
        ) by {
        assert(each.contains(stable_sorted::<ResolvedEdit>(each)[i]));
        let j = each.index_of(out[i]);
        assert(resolved_one(disk, reqs[j]) == Ok::<EditView, ErrorView>(out[i]));
    }
}

/// A failing request makes every longer list of requests fail the same way.
proof fn lemma_first_failure(disk: Seq<(Seq<u8>, Seq<u8>)>, reqs: Seq<RequestView>, i: int)
    requires
        0 <= i < reqs.len(),
        resolved_each(disk, reqs.take(i)) is Ok,
        resolved_one(disk, reqs[i]) is Err,
    ensures
        resolved_each(disk, reqs) == Err::<Seq<EditView>, ErrorView>(
            resolved_one(disk, reqs[i])->Err_0,
        ),
    decreases reqs.len(),
{
    if i == reqs.len() - 1 {
        assert(reqs.drop_last() =~= reqs.take(i));
    } else {
        assert(reqs.drop_last().take(i) =~= reqs.take(i));
        lemma_first_failure(disk, reqs.drop_last(), i);
    }
}

/// Resolves every request.
pub fn resolve_edits(disk: &ContentByPath, reqs: &Vec<EditRequest>) -> (r: VcResult<
    Vec<ResolvedEdit>,
>)
    requires
        disk.wf(),
    ensures
        match (resolution(disk@, views(reqs@)), r) {
            (Ok(edits), Ok(out)) => views(out@) == edits,
            (Err(e), Err(f)) => f@ == e,
            _ => false,
        },
{
    match resolve_edits_with_content(disk, reqs) {
        Ok((edits, _)) => Ok(edits),
        Err(e) => Err(e),
    }
}

proof fn lemma_no_overlap(edits: Seq<EditView>, from: int, i: int)
    requires
        0 <= from <= i,
        i + 1 < edits.len(),
        first_overlap(edits, from) is None,
    ensures
        !overlaps_next(edits, i),
    decreases i - from,
{
    if from < i {
        lemma_no_overlap(edits, from + 1, i);
    }
}

proof fn lemma_same_path_runs(edits: Seq<EditView>, i: int, j: int)
    requires
        0 <= i < j < edits.len(),
        ranks_ascend::<ResolvedEdit>(edits),
        same_path(edits[i].path, edits[j].path),
        first_overlap(edits, 0) is None,
        forall|k: int| 0 <= k < edits.len() ==> (#[trigger] edits[k]).start <= edits[k].end,
    ensures
        edits[i].end <= edits[j].start,
    decreases j - i,
{
    let ri = ResolvedEdit::rank_at(edits[i]);
    let rj = ResolvedEdit::rank_at(edits[j]);
    let rm = ResolvedEdit::rank_at(edits[i + 1]);
    if i + 1 < j {
        assert(!rank_less(rm, ri) && !rank_less(rj, rm));
        law_rank_order_is_total(ri, rm, rj);
        law_rank_order_is_total(rm, rj, ri);
        if !same_path(edits[i].path, edits[i + 1].path) {
            assert(list_less(ri.list, rm.list));
            assert(ri.list == rj.list);
            assert(rank_less(rj, rm));
        }
        lemma_same_path_runs(edits, i + 1, j);
        lemma_no_overlap(edits, 0, i);
    } else {
        lemma_no_overlap(edits, 0, i);
    }
}

/// Resolved edits stand in path and start order, no two of a file overlap, and each covers
/// exactly the text it was asked to replace.
pub proof fn law_resolved_edits_are_sorted_disjoint_and_exact(
    disk: Seq<(Seq<u8>, Seq<u8>)>,
    reqs: Seq<RequestView>,
    i: int,
    j: int,
)
    requires
        resolution(disk, reqs) is Ok,
        0 <= i < reqs.len(),
        forall|k: int|
            0 <= k < disk.len() ==> (#[trigger] disk[k]).1.len() <= usize::MAX,
    ensures
        ({
            let edits = resolution(disk, reqs)->Ok_0;
            &&& edits.len() == reqs.len()
            &&& ranks_ascend::<ResolvedEdit>(edits)
            &&& i < j < edits.len() && same_path(edits[i].path, edits[j].path) ==> edits[i].end
                <= edits[j].start
            &&& exists|r: int|
                0 <= r < reqs.len() && covers_request(disk, #[trigger] reqs[r], edits[i])
        }),
{
    let edits = resolution(disk, reqs)->Ok_0;
    let each = resolved_each(disk, reqs)->Ok_0;
    lemma_resolution_sources(disk, reqs);
    law_stable_sort_orders_and_keeps_items::<ResolvedEdit>(each);
    assert forall|k: int| 0 <= k < edits.len() implies (#[trigger] edits[k]).start
        <= edits[k].end by {
        let r = choose|r: int|
            0 <= r < reqs.len() && resolved_one(disk, #[trigger] reqs[r]) == Ok::<
                EditView,
                ErrorView,
            >(resolution(disk, reqs)->Ok_0[k]);
        assert(resolved_one(disk, reqs[r]) is Ok);
    }
    if i < j < edits.len() && same_path(edits[i].path, edits[j].path) {
        lemma_same_path_runs(edits, i, j);
    }
    let r = choose|r: int|
        0 <= r < reqs.len() && resolved_one(disk, #[trigger] reqs[r]) == Ok::<
            EditView,
            ErrorView,
        >(resolution(disk, reqs)->Ok_0[i]);
    lemma_placed_covers(disk, reqs[r]);
    assert(covers_request(disk, reqs[r], edits[i]));
}

/// Whether an edit replaces, in the file it names, exactly the old text of a request by its
/// new one.
pub open spec fn covers_request(
    disk: Seq<(Seq<u8>, Seq<u8>)>,
    req: RequestView,
    e: EditView,
) -> bool {
    match lookup::<TreePath, Seq<u8>>(disk, path_rank(req.path)) {
        Some(content) => {
            &&& e.path == req.path
            &&& e.start <= e.end <= content.len()
            &&& content.subrange(e.start as int, e.end as int) == req.old
            &&& e.old_b64 == base64_text(req.old)
            &&& e.new_b64 == base64_text(req.new)
        },
        None => false,
    }
}

proof fn lemma_placed_covers(disk: Seq<(Seq<u8>, Seq<u8>)>, req: RequestView)
    requires
        resolved_one(disk, req) is Ok,
        forall|k: int|
            0 <= k < disk.len() ==> (#[trigger] disk[k]).1.len() <= usize::MAX,
    ensures
        covers_request(disk, req, resolved_one(disk, req)->Ok_0),
{
    let content = lookup::<TreePath, Seq<u8>>(disk, path_rank(req.path))->0;
    let at = slot::<TreePath, Seq<u8>>(disk, path_rank(req.path)) as int;
    assert(disk[at].1 == content);
    lemma_occurrences_bound(content, req.old, content.len());
    let hits = occurrences(content, req.old);
    let start = placed(content, req)->Ok_0;
    assert(hits == occurrences_below(content, req.old, content.len()));
    assert(occurs_at(content, req.old, start as int)) by {
        if hits.len() == 1 {
            assert(occurs_at(content, req.old, hits[0] as int));
        } else {
            let hint = req.line_hint->0;
            let on_line = |h: usize| line_at(content, h as int) == hint;
            let kept = hits.filter(on_line);
            assert(kept == hits_on_line(content, hits, hint));
            assert(kept.len() == 1 && kept[0] == start);
            assert(kept.contains(start));
            hits.lemma_filter_contains_rev(on_line, start);
            let k = hits.index_of(start);
            assert(hits.contains(start));
            assert(occurs_at(content, req.old, hits[k] as int));
        }
    }
}

/// The edit that a request which can be placed resolves to.
pub open spec fn site_of(disk: Seq<(Seq<u8>, Seq<u8>)>, req: RequestView) -> EditView {
    resolved_one(disk, req)->Ok_0
}

/// Whether two edits are of one file and share a byte of it.
pub open spec fn edits_clash(a: EditView, b: EditView) -> bool {
    same_path(a.path, b.path) && a.start < b.end && b.start < a.end
}

proof fn lemma_each_is_of_one(disk: Seq<(Seq<u8>, Seq<u8>)>, reqs: Seq<RequestView>)
    ensures
        resolved_each(disk, reqs) is Ok <==> forall|i: int|
            0 <= i < reqs.len() ==> resolved_one(disk, #[trigger] reqs[i]) is Ok,
        resolved_each(disk, reqs) is Ok ==> resolved_each(disk, reqs)->Ok_0 == reqs.map_values(
            |q: RequestView| site_of(disk, q),
        ),
    decreases reqs.len(),
{
    let f = |q: RequestView| site_of(disk, q);
    if reqs.len() > 0 {
        let rest = reqs.drop_last();
        lemma_each_is_of_one(disk, rest);
        assert(reqs[reqs.len() - 1] == reqs.last());
        if resolved_each(disk, rest) is Ok && resolved_one(disk, reqs.last()) is Ok {
            assert forall|i: int| 0 <= i < reqs.len() implies resolved_one(
                disk,
                #[trigger] reqs[i],
            ) is Ok by {
                if i < rest.len() {
                    assert(rest[i] == reqs[i]);
                }
            }
            assert(reqs.map_values(f) =~= rest.map_values(f).push(f(reqs.last())));
        } else if resolved_each(disk, rest) is Err {
            let i = choose|i: int|
                0 <= i < rest.len() && resolved_one(disk, #[trigger] rest[i]) is Err;
            assert(reqs[i] == rest[i]);
        }
    } else {
        assert(reqs.map_values(f) =~= Seq::<EditView>::empty());
    }
}

proof fn lemma_site_is_not_empty(disk: Seq<(Seq<u8>, Seq<u8>)>, req: RequestView)
    requires
        resolved_one(disk, req) is Ok,
    ensures
        site_of(disk, req).start < site_of(disk, req).end,
{
    let content = lookup::<TreePath, Seq<u8>>(disk, path_rank(req.path))->0;
    assert(req.old.len() > 0) by {
        assert(occurrences(content, req.old).len() > 0);
    }
}

proof fn lemma_first_overlap(edits: Seq<EditView>, from: int)
    requires
        0 <= from,
        first_overlap(edits, from) is Some,
    ensures
        from <= first_overlap(edits, from)->0,
        first_overlap(edits, from)->0 + 1 < edits.len(),
        overlaps_next(edits, first_overlap(edits, from)->0),
    decreases edits.len() - from,
{
    if !overlaps_next(edits, from) {
        lemma_first_overlap(edits, from + 1);
    }
}

/// Sorted edits without an overlap of neighbours have none at all, and no two of one rank.
proof fn lemma_disjoint(edits: Seq<EditView>)
    requires
        ranks_ascend::<ResolvedEdit>(edits),
        first_overlap(edits, 0) is None,
        forall|k: int| 0 <= k < edits.len() ==> (#[trigger] edits[k]).start < edits[k].end,
    ensures
        forall|i: int, j: int|
            0 <= i < edits.len() && 0 <= j < edits.len() && i != j ==> !edits_clash(
                #[trigger] edits[i],
                #[trigger] edits[j],
            ),
        edits.no_duplicates(),
        rank_tells_apart::<ResolvedEdit>(edits),
{
    assert forall|i: int, j: int|
        0 <= i < edits.len() && 0 <= j < edits.len() && i != j implies !edits_clash(
        #[trigger] edits[i],
        #[trigger] edits[j],
    ) by {
        if same_path(edits[i].path, edits[j].path) {
            if i < j {
                lemma_same_path_runs(edits, i, j);
            } else {
                lemma_same_path_runs(edits, j, i);
            }
        }
    }
    assert forall|i: int, j: int|
        0 <= i < edits.len() && 0 <= j < edits.len() && i != j implies edits[i] != edits[j] by {
        assert(!edits_clash(edits[i], edits[j]));
    }
    assert forall|i: int, j: int|
        #![trigger edits[i], edits[j]]
        0 <= i < edits.len() && 0 <= j < edits.len() && ResolvedEdit::rank_at(edits[i])
            == ResolvedEdit::rank_at(edits[j]) implies edits[i] == edits[j] by {
        if i != j {
            assert(!edits_clash(edits[i], edits[j]));
        }
    }
}

proof fn lemma_sites(disk: Seq<(Seq<u8>, Seq<u8>)>, reqs: Seq<RequestView>)
    requires
        resolved_each(disk, reqs) is Ok,
    ensures
        ({
            let each = resolved_each(disk, reqs)->Ok_0;
            let sorted = stable_sorted::<ResolvedEdit>(each);
            &&& each == reqs.map_values(|q: RequestView| site_of(disk, q))
            &&& ranks_ascend::<ResolvedEdit>(sorted)
            &&& sorted.to_multiset() == each.to_multiset()
            &&& forall|k: int| 0 <= k < each.len() ==> (#[trigger] each[k]).start < each[k].end
            &&& forall|k: int|
                0 <= k < sorted.len() ==> (#[trigger] sorted[k]).start < sorted[k].end
        }),
{
    let each = resolved_each(disk, reqs)->Ok_0;
    let sorted = stable_sorted::<ResolvedEdit>(each);
    lemma_each_is_of_one(disk, reqs);
    law_stable_sort_orders_and_keeps_items::<ResolvedEdit>(each);
    lemma_stable_sort_members::<ResolvedEdit>(each);
    assert forall|k: int| 0 <= k < each.len() implies (#[trigger] each[k]).start
        < each[k].end by {
        assert(resolved_one(disk, reqs[k]) is Ok);
        lemma_site_is_not_empty(disk, reqs[k]);
    }
    assert forall|k: int| 0 <= k < sorted.len() implies (#[trigger] sorted[k]).start
        < sorted[k].end by {
        let m = each.index_of(sorted[k]);
        assert(each.contains(sorted[k]));
        assert(each[m] == sorted[k]);
    }
}

/// Requests that can each be placed are refused together exactly when two of them want a byte
/// of one file both, and then as overlapping; sites that only touch are accepted.
pub proof fn law_only_clashing_requests_overlap(
    disk: Seq<(Seq<u8>, Seq<u8>)>,
    reqs: Seq<RequestView>,
)
    requires
        forall|i: int| 0 <= i < reqs.len() ==> resolved_one(disk, #[trigger] reqs[i]) is Ok,
    ensures
        resolution(disk, reqs) is Err <==> exists|i: int, j: int|
            0 <= i < j < reqs.len() && edits_clash(
                site_of(disk, #[trigger] reqs[i]),
                site_of(disk, #[trigger] reqs[j]),
            ),
        resolution(disk, reqs) matches Err(e) ==> e.kind == ErrorKind::Overlap,
{
    lemma_each_is_of_one(disk, reqs);
    lemma_sites(disk, reqs);
    let each = resolved_each(disk, reqs)->Ok_0;
    let sorted = stable_sorted::<ResolvedEdit>(each);
    if first_overlap(sorted, 0) is None {
        lemma_disjoint(sorted);
        sorted.lemma_multiset_has_no_duplicates();
        each.lemma_multiset_has_no_duplicates_conv();
        assert forall|i: int, j: int| 0 <= i < j < reqs.len() implies !edits_clash(
            site_of(disk, #[trigger] reqs[i]),
            site_of(disk, #[trigger] reqs[j]),
        ) by {
            assert(each.contains(each[i]) && each.contains(each[j]));
            lemma_same_members(each, sorted, each[i]);
            lemma_same_members(each, sorted, each[j]);
            let p = sorted.index_of(each[i]);
            let q = sorted.index_of(each[j]);
            assert(each[i] != each[j]);
            assert(!edits_clash(sorted[p], sorted[q]));
        }
    } else {
        lemma_first_overlap(sorted, 0);
        let k = first_overlap(sorted, 0)->0;
        let a = sorted[k];
        let b = sorted[k + 1];
        assert(!rank_less(ResolvedEdit::rank_at(b), ResolvedEdit::rank_at(a)));
        assert(a.start <= b.start);
        assert(edits_clash(a, b));
        assert(sorted.contains(a) && sorted.contains(b));
        lemma_same_members(each, sorted, a);
        lemma_same_members(each, sorted, b);
        if a != b {
            let i = each.index_of(a);
            let j = each.index_of(b);
            assert(each[i] == site_of(disk, reqs[i]) && each[j] == site_of(disk, reqs[j]));
            if i < j {
                assert(edits_clash(site_of(disk, reqs[i]), site_of(disk, reqs[j])));
            } else {
                assert(edits_clash(site_of(disk, reqs[j]), site_of(disk, reqs[i])));
            }
        } else {
            if each.no_duplicates() {
                each.lemma_multiset_has_no_duplicates();
                sorted.lemma_multiset_has_no_duplicates_conv();
            }
            let (i, j) = choose|i: int, j: int|
                0 <= i < each.len() && 0 <= j < each.len() && i != j && each[i] == each[j];
            assert(each[i] == site_of(disk, reqs[i]) && each[j] == site_of(disk, reqs[j]));
            if i < j {
                assert(edits_clash(site_of(disk, reqs[i]), site_of(disk, reqs[j])));
            } else {
                assert(edits_clash(site_of(disk, reqs[j]), site_of(disk, reqs[i])));
            }
        }
    }
}

proof fn lemma_reordered(
    disk: Seq<(Seq<u8>, Seq<u8>)>,
    reqs: Seq<RequestView>,
    other: Seq<RequestView>,
)
    requires
        reqs.to_multiset() == other.to_multiset(),
        resolution(disk, reqs) is Ok,
    ensures
        resolution(disk, other) == resolution(disk, reqs),
{
    let f = |q: RequestView| site_of(disk, q);
    lemma_each_is_of_one(disk, reqs);
    lemma_each_is_of_one(disk, other);
    lemma_sites(disk, reqs);
    assert forall|i: int| 0 <= i < other.len() implies resolved_one(
        disk,
        #[trigger] other[i],
    ) is Ok by {
        assert(other.contains(other[i]));
        lemma_same_members(reqs, other, other[i]);
        let k = reqs.index_of(other[i]);
        assert(resolved_one(disk, reqs[k]) is Ok);
    }
    let each = resolved_each(disk, reqs)->Ok_0;
    let sorted = stable_sorted::<ResolvedEdit>(each);
    lemma_disjoint(sorted);
    assert forall|i: int, j: int|
        #![trigger each[i], each[j]]
        0 <= i < each.len() && 0 <= j < each.len() && ResolvedEdit::rank_at(each[i])
            == ResolvedEdit::rank_at(each[j]) implies each[i] == each[j] by {
        assert(each.contains(each[i]) && each.contains(each[j]));
        lemma_same_members(each, sorted, each[i]);
        lemma_same_members(each, sorted, each[j]);
        let p = sorted.index_of(each[i]);
        let q = sorted.index_of(each[j]);
        assert(sorted[p] == each[i] && sorted[q] == each[j]);
    }
    lemma_same_images(reqs, other, f);
    law_sorting_forgets_the_order::<ResolvedEdit>(each, other.map_values(f));
}

/// The order in which replacements are asked for does not matter: the same requests in any
/// order resolve or are refused alike, and resolve to the same edits.
pub proof fn law_the_order_of_requests_does_not_matter(
    disk: Seq<(Seq<u8>, Seq<u8>)>,
    reqs: Seq<RequestView>,
    other: Seq<RequestView>,
)
    requires
        reqs.to_multiset() == other.to_multiset(),
    ensures
        resolution(disk, reqs) is Ok <==> resolution(disk, other) is Ok,
        resolution(disk, reqs) is Ok ==> resolution(disk, other) == resolution(disk, reqs),
{
    if resolution(disk, reqs) is Ok {
        lemma_reordered(disk, reqs, other);
    }
    if resolution(disk, other) is Ok {
        lemma_reordered(disk, other, reqs);
    }
}

/// The lines of a text are counted by its line feeds: the first byte stands on line 1, and a
/// byte on the line of the one before it, or on the next when that one is a line feed.
pub proof fn law_lines_are_counted_by_line_feeds(hay: Seq<u8>, i: int)
    requires
        0 <= i < hay.len(),
    ensures
        line_at(hay, 0) == 1,
        line_at(hay, i + 1) == line_at(hay, i) + if hay[i] == 10u8 {
            1nat
        } else {
            0nat
        },
{
    assert(hay.take(0) =~= Seq::<u8>::empty());
    assert(hay.take(i + 1).drop_last() =~= hay.take(i));
    assert(hay.take(i + 1).last() == hay[i]);
}

/// What is listed as the places of a text is every place below `n` where it stands, once and
/// in ascending order.
pub proof fn lemma_occurrences_exact(hay: Seq<u8>, needle: Seq<u8>, n: nat)
    requires
        n <= usize::MAX,
    ensures
        forall|x: usize| #[trigger]
            occurrences_below(hay, needle, n).contains(x) <==> x < n && occurs_at(
                hay,
                needle,
                x as int,
            ),
        forall|i: int, j: int|
            0 <= i < j < occurrences_below(hay, needle, n).len() ==> occurrences_below(
                hay,
                needle,
                n,
            )[i] < occurrences_below(hay, needle, n)[j],
    decreases n,
{
    let all = occurrences_below(hay, needle, n);
    if n > 0 {
        let before = occurrences_below(hay, needle, (n - 1) as nat);
        lemma_occurrences_exact(hay, needle, (n - 1) as nat);
        lemma_occurrences_bound(hay, needle, (n - 1) as nat);
        assert forall|x: usize| #[trigger] all.contains(x) <==> x < n && occurs_at(
            hay,
            needle,
            x as int,
        ) by {
            assert(before.contains(x) <==> x < n - 1 && occurs_at(hay, needle, x as int));
            if before.contains(x) {
                let k = before.index_of(x);
                assert(all[k] == x);
            }
            if all.contains(x) && !before.contains(x) {
                let k = all.index_of(x);
                assert(k == all.len() - 1);
            }
            if occurs_at(hay, needle, n - 1) {
                assert(all[all.len() - 1] == (n - 1) as usize);
            }
        }
        assert forall|i: int, j: int| 0 <= i < j < all.len() implies all[i] < all[j] by {
            assert(all[i] == before[i]);
            assert(before[i] < n - 1);
            if j < before.len() {
                assert(all[j] == before[j]);
            }
        }
    }
}

/// Whether a request's old text stands at `i`.
pub open spec fn fits_at(content: Seq<u8>, req: RequestView, i: int) -> bool {
    req.old.len() > 0 && occurs_at(content, req.old, i)
}

/// Whether `i` is the one place where a request's old text stands.
pub open spec fn sole_site(content: Seq<u8>, req: RequestView, i: int) -> bool {
    fits_at(content, req, i) && forall|j: int| #[trigger] fits_at(content, req, j) ==> j == i
}

/// Whether `i` is the one place on line `hint` where a request's old text stands.
pub open spec fn sole_site_on_line(
    content: Seq<u8>,
    req: RequestView,
    hint: usize,
    i: int,
) -> bool {
    &&& fits_at(content, req, i)
    &&& line_at(content, i) == hint
    &&& forall|j: int| #[trigger]
        fits_at(content, req, j) && line_at(content, j) == hint ==> j == i
}

/// Whether `i` is where a request lands beyond doubt: the one place of its old text, or the
/// one place on the line that it names.
pub open spec fn unmistakable(content: Seq<u8>, req: RequestView, i: int) -> bool {
    sole_site(content, req, i) || (req.line_hint is Some && sole_site_on_line(
        content,
        req,
        req.line_hint->0,
        i,
    ))
}

proof fn lemma_placed(content: Seq<u8>, req: RequestView)
    requires
        content.len() <= usize::MAX,
    ensures
        placed(content, req) matches Ok(s) ==> unmistakable(content, req, s as int),
        placed(content, req) matches Err(e) ==> {
            &&& forall|i: int| !#[trigger] unmistakable(content, req, i)
            &&& e.kind == if forall|i: int| !#[trigger] fits_at(content, req, i) {
                ErrorKind::NotFound
            } else {
                ErrorKind::Ambiguous
            }
        },
{
    let hits = occurrences(content, req.old);
    if req.old.len() > 0 {
        lemma_occurrences_exact(content, req.old, content.len());
        assert forall|i: int| #[trigger] fits_at(content, req, i) implies hits.contains(
            i as usize,
        ) && i == i as usize by {}
        if hits.len() > 0 {
            assert(hits.contains(hits[0]));
            assert(fits_at(content, req, hits[0] as int));
        }
        if hits.len() == 1 {
            assert forall|j: int| #[trigger] fits_at(content, req, j) implies j == hits[0] by {
                let k = hits.index_of(j as usize);
                assert(k == 0);
            }
            assert(sole_site(content, req, hits[0] as int));
        } else if hits.len() > 1 {
            assert(hits.contains(hits[1]));
            assert(fits_at(content, req, hits[1] as int));
            assert(hits[0] < hits[1]);
            assert forall|i: int| !#[trigger] sole_site(content, req, i) by {}
            if req.line_hint is Some {
                lemma_hint(content, req, req.line_hint->0, hits);
            }
        }
    }
}

proof fn lemma_hint(content: Seq<u8>, req: RequestView, hint: usize, hits: Seq<usize>)
    requires
        content.len() <= usize::MAX,
        req.old.len() > 0,
        hits == occurrences_below(content, req.old, content.len()),
    ensures
        ({
            let at = hits_on_line(content, hits, hint);
            &&& at.len() == 1 ==> sole_site_on_line(content, req, hint, at[0] as int)
            &&& at.len() != 1 ==> forall|i: int|
                !#[trigger] sole_site_on_line(content, req, hint, i)
        }),
{
    let on_line = |h: usize| line_at(content, h as int) == hint;
    let at = hits_on_line(content, hits, hint);
    lemma_occurrences_exact(content, req.old, content.len());
    assert(hits.no_duplicates()) by {
        assert forall|i: int, j: int|
            0 <= i < hits.len() && 0 <= j < hits.len() && i != j implies hits[i] != hits[j] by {
            if i < j {
                assert(hits[i] < hits[j]);
            } else {
                assert(hits[j] < hits[i]);
            }
        }
    }
    lemma_filter_members(hits, on_line);
    assert forall|j: int| #[trigger]
        fits_at(content, req, j) && line_at(content, j) == hint implies at.contains(j as usize)
        && j == j as usize by {
        assert(hits.contains(j as usize));
    }
    if at.len() == 1 {
        assert(at.contains(at[0]));
        assert forall|j: int| #[trigger]
            fits_at(content, req, j) && line_at(content, j) == hint implies j == at[0] by {
            let k = at.index_of(j as usize);
            assert(k == 0);
        }
    } else {
        assert forall|i: int| !#[trigger] sole_site_on_line(content, req, hint, i) by {
            if sole_site_on_line(content, req, hint, i) {
                let k = at.index_of(i as usize);
                let other = if k == 0 {
                    1int
                } else {
                    0int
                };
                assert(at.len() >= 2);
                assert(at.contains(at[other]));
                assert(hits.contains(at[other]));
                assert(fits_at(content, req, at[other] as int));
                assert(at[other] != at[k]);
            }
        }
    }
}

/// A request is placed exactly where it lands beyond doubt, or refused. It is placed when its
/// old text stands at one place of its file alone, or at one place alone on the line that it
/// names, and then there, over exactly that text; a text that stands nowhere, and a file that
/// is not there, are not found; and any other request is ambiguous.
pub proof fn law_a_request_lands_on_its_one_site(
    disk: Seq<(Seq<u8>, Seq<u8>)>,
    req: RequestView,
)
    requires
        forall|k: int| 0 <= k < disk.len() ==> (#[trigger] disk[k]).1.len() <= usize::MAX,
    ensures
        match lookup::<TreePath, Seq<u8>>(disk, path_rank(req.path)) {
            None => resolved_one(disk, req) matches Err(e) && e.kind == ErrorKind::NotFound,
            Some(content) => {
                &&& resolved_one(disk, req) is Ok <==> exists|i: int|
                    #[trigger] unmistakable(content, req, i)
                &&& resolved_one(disk, req) matches Ok(e) ==> {
                    &&& unmistakable(content, req, e.start as int)
                    &&& e.end == e.start + req.old.len()
                    &&& e.path == req.path
                    &&& e.line_hint == req.line_hint
                    &&& e.old_b64 == base64_text(req.old)
                    &&& e.new_b64 == base64_text(req.new)
                }
                &&& resolved_one(disk, req) matches Err(e) ==> e.kind == if forall|i: int|
                    !#[trigger] fits_at(content, req, i) {
                    ErrorKind::NotFound
                } else {
                    ErrorKind::Ambiguous
                }
            },
        },
{
    match lookup::<TreePath, Seq<u8>>(disk, path_rank(req.path)) {
        Some(content) => {
            let at = slot::<TreePath, Seq<u8>>(disk, path_rank(req.path)) as int;
            assert(disk[at].1 == content);
            lemma_placed(content, req);
        },
        None => {},
    }
}

/// A list of requests resolves exactly when every one of them does and no two of them clash;
/// and then to the edits of all of them, in path and start order.
pub proof fn law_every_request_is_resolved_or_none(
    disk: Seq<(Seq<u8>, Seq<u8>)>,
    reqs: Seq<RequestView>,
)
    ensures
        resolution(disk, reqs) is Ok <==> {
            &&& forall|i: int| 0 <= i < reqs.len() ==> resolved_one(disk, #[trigger] reqs[i]) is Ok
            &&& forall|i: int, j: int|
                0 <= i < j < reqs.len() ==> !edits_clash(
                    site_of(disk, #[trigger] reqs[i]),
                    site_of(disk, #[trigger] reqs[j]),
                )
        },
        resolution(disk, reqs) matches Ok(edits) ==> {
            &&& edits.to_multiset() == reqs.map_values(
                |q: RequestView| site_of(disk, q),
            ).to_multiset()
            &&& ranks_ascend::<ResolvedEdit>(edits)
        },
{
    lemma_each_is_of_one(disk, reqs);
    if resolved_each(disk, reqs) is Ok {
        law_only_clashing_requests_overlap(disk, reqs);
        lemma_sites(disk, reqs);
    }
}

/// The contents handed on with resolved edits are those of every requested file that is there,
/// and of no other.
pub proof fn law_the_contents_of_every_requested_file_are_handed_on(
    disk: Seq<(Seq<u8>, Seq<u8>)>,
    reqs: Seq<RequestView>,
    r: RankView,
)
    ensures
        keys_ascend::<TreePath, Seq<u8>>(touched(disk, reqs)),
        lookup::<TreePath, Seq<u8>>(touched(disk, reqs), r) == if exists|i: int|
            0 <= i < reqs.len() && path_rank((#[trigger] reqs[i]).path) == r {
            lookup::<TreePath, Seq<u8>>(disk, r)
        } else {
            None
        },
    decreases reqs.len(),
{
    let asked = |q: Seq<RequestView>|
        exists|i: int| 0 <= i < q.len() && path_rank((#[trigger] q[i]).path) == r;
    if reqs.len() > 0 {
        let rest = reqs.drop_last();
        let path = reqs.last().path;
        let before = touched(disk, rest);
        law_the_contents_of_every_requested_file_are_handed_on(disk, rest, r);
        law_the_contents_of_every_requested_file_are_handed_on(disk, rest, path_rank(path));
        lemma_slot::<TreePath, Seq<u8>>(before, path_rank(path));
        lemma_slot::<TreePath, Seq<u8>>(before, r);
        if asked(rest) {
            let i = choose|i: int| 0 <= i < rest.len() && path_rank((#[trigger] rest[i]).path) == r;
            assert(reqs[i] == rest[i]);
        }
        if asked(reqs) && path_rank(path) != r {
            let i = choose|i: int| 0 <= i < reqs.len() && path_rank((#[trigger] reqs[i]).path) == r;
            assert(rest[i] == reqs[i]);
        }
        assert(reqs[reqs.len() - 1] == reqs.last());
        if let Some(content) = lookup::<TreePath, Seq<u8>>(disk, path_rank(path)) {
            if !has_rank::<TreePath, Seq<u8>>(before, path_rank(path)) {
                law_stored_reads_back::<TreePath, Seq<u8>>(before, path, content, r);
            }
        }
    } else {
        lemma_slot::<TreePath, Seq<u8>>(touched(disk, reqs), r);
    }
}

/// A text stands where every byte of it does.
pub proof fn law_a_text_stands_where_every_byte_does(hay: Seq<u8>, needle: Seq<u8>, i: int)
    ensures
        occurs_at(hay, needle, i) <==> 0 <= i && i + needle.len() <= hay.len() && forall|k: int|
            0 <= k < needle.len() ==> #[trigger] hay[i + k] == needle[k],
{
    if 0 <= i && i + needle.len() <= hay.len() {
        let part = hay.subrange(i, i + needle.len());
        if forall|k: int| 0 <= k < needle.len() ==> #[trigger] hay[i + k] == needle[k] {
            assert forall|k: int| 0 <= k < needle.len() implies part[k] == needle[k] by {
                assert(hay[i + k] == needle[k]);
            }
            assert(part =~= needle);
        }
        if part == needle {
            assert forall|k: int| 0 <= k < needle.len() implies #[trigger] hay[i + k]
                == needle[k] by {
                assert(part[k] == hay[i + k]);
            }
        }
    }
}

} // verus!
