//! Plans: content-addressed sets of resolved edits.

use crate::codec::{b64d, base64_decoded, blake3_hex, bytes_hash, hex_text, sha256_hex, sha256_of};
use crate::errors::{refusal, refusal_next, ErrorKind, ErrorView, VcError, VcResult};
use crate::journal::{is_json, is_json_name, json_ext};
use crate::order::{views, Rank, RankView, Ranked};
use crate::ordmap::{
    has_rank, keys_ascend, law_stored_reads_back, lemma_slot, lookup, slot, stored, OrdMap,
};
use crate::paths::{
    components, components_from, is_absolute, law_components_are_joined_by_slashes,
    lemma_named_with, lemma_slash_from,
    path_is_root_relative, path_rank, path_starts_with, root_relative, segment_component,
    slash_from, split_name, stem, TreePath, DOT, SLASH, TAG_PARENT,
};
use crate::resolve::{
    lemma_resolution_sources, resolution, resolve_edits_with_content, ContentByPath, EditRequest,
    RequestView,
};
use crate::text::{
    begins_with, dec, lines_of, lossy, lossy_text, push_dec, same_text, slice_copy, split_lines,
    utf8_text,
};
use crate::walk::{in_scope, is_in_scope, lang_of, lang_tag};
use vstd::prelude::*;
use vstd::string::*;
use vstd::utf8::*;

verus! {

/// One replacement of a byte range in one file.
#[derive(Debug, Clone)]
pub struct ResolvedEdit {
    pub path: TreePath,
    pub start: usize,
    pub end: usize,
    /// The line hint the edit was resolved with, if any, so that a refresh resolves it the
    /// same way.
    pub line_hint: Option<usize>,
    pub old_b64: String,
    pub new_b64: String,
}

/// What a [`ResolvedEdit`] says.
pub struct EditView {
    pub path: Seq<u8>,
    pub start: nat,
    pub end: nat,
    pub line_hint: Option<usize>,
    pub old_b64: Seq<char>,
    pub new_b64: Seq<char>,
}

impl View for ResolvedEdit {
    type V = EditView;

    open spec fn view(&self) -> EditView {
        EditView {
            path: self.path@,
            start: self.start as nat,
            end: self.end as nat,
            line_hint: self.line_hint,
            old_b64: self.old_b64@,
            new_b64: self.new_b64@,
        }
    }
}

/// Edits sort by path, then by start.
impl Ranked for ResolvedEdit {
    open spec fn rank_at(v: EditView) -> RankView {
        RankView { list: components(v.path), major: v.start, minor: 0 }
    }

    fn rank_of(&self) -> (r: Rank) {
        let r = Rank { list: self.path.component_list(), major: self.start as u64, minor: 0 };
        assert(r@.list == components(self@.path));
        r
    }
}

/// Where a plan's edits came from.
#[derive(Debug, Clone, Copy, PartialEq, Eq, Structural)]
pub enum PlanForm {
    Edit,
    Import,
    Match,
}

/// The rule and the scope that a match plan was built from.
#[derive(Debug, Clone)]
pub struct MatchSelector {
    pub pattern: String,
    pub rewrite: String,
    pub lang: String,
    /// Root-relative; empty is the whole tree.
    pub paths: Vec<TreePath>,
}

/// What a [`MatchSelector`] says.
pub struct SelectorView {
    pub pattern: Seq<char>,
    pub rewrite: Seq<char>,
    pub lang: Seq<char>,
    pub paths: Seq<Seq<u8>>,
}

impl View for MatchSelector {
    type V = SelectorView;

    open spec fn view(&self) -> SelectorView {
        SelectorView {
            pattern: self.pattern@,
            rewrite: self.rewrite@,
            lang: self.lang@,
            paths: views(self.paths@),
        }
    }
}

/// Proof of what a selector saw: the digest of every file in its scope.
#[derive(Debug, Clone)]
pub struct ProvenanceCert {
    pub epoch: String,
    pub generation: u64,
    pub scope_files: OrdMap<TreePath, String>,
}

/// What a [`ProvenanceCert`] says.
pub struct CertView {
    pub epoch: Seq<char>,
    pub generation: u64,
    pub scope_files: Seq<(Seq<u8>, Seq<char>)>,
}

impl View for ProvenanceCert {
    type V = CertView;

    open spec fn view(&self) -> CertView {
        CertView {
            epoch: self.epoch@,
            generation: self.generation,
            scope_files: self.scope_files@,
        }
    }
}

/// A set of edits with everything their application is checked against.
#[derive(Debug, Clone)]
pub struct Plan {
    pub version: u32,
    pub form: PlanForm,
    pub root_real: TreePath,
    pub epoch: String,
    pub files: OrdMap<TreePath, String>,
    pub realpaths: OrdMap<TreePath, TreePath>,
    pub edits: Vec<ResolvedEdit>,
    pub expected_count: usize,
    pub created_unix: u64,
    /// Match plans only.
    pub selector: Option<MatchSelector>,
    /// Match plans only.
    pub certificate: Option<ProvenanceCert>,
    /// What the reader of the plan should know about how it was built.
    pub warnings: Vec<String>,
}

/// What a [`Plan`] says.
pub struct PlanView {
    pub version: u32,
    pub form: PlanForm,
    pub root_real: Seq<u8>,
    pub epoch: Seq<char>,
    pub files: Seq<(Seq<u8>, Seq<char>)>,
    pub realpaths: Seq<(Seq<u8>, Seq<u8>)>,
    pub edits: Seq<EditView>,
    pub expected_count: nat,
    pub created_unix: u64,
    pub selector: Option<SelectorView>,
    pub certificate: Option<CertView>,
    pub warnings: Seq<Seq<char>>,
}

impl View for Plan {
    type V = PlanView;

    open spec fn view(&self) -> PlanView {
        PlanView {
            version: self.version,
            form: self.form,
            root_real: self.root_real@,
            epoch: self.epoch@,
            files: self.files@,
            realpaths: self.realpaths@,
            edits: views(self.edits@),
            expected_count: self.expected_count as nat,
            created_unix: self.created_unix,
            selector: match self.selector {
                Some(s) => Some(s@),
                None => None,
            },
            certificate: match self.certificate {
                Some(c) => Some(c@),
                None => None,
            },
            warnings: views(self.warnings@),
        }
    }
}

/// What resolving a path to its canonical form gave.
#[derive(Debug, Clone)]
pub enum Canon {
    Real(TreePath),
    Failed(String),
}

/// What a [`Canon`] says.
pub enum CanonView {
    Real(Seq<u8>),
    Failed(Seq<char>),
}

impl View for Canon {
    type V = CanonView;

    open spec fn view(&self) -> CanonView {
        match self {
            Canon::Real(p) => CanonView::Real(p@),
            Canon::Failed(why) => CanonView::Failed(why@),
        }
    }
}

/// A file of the tree and, where it was taken, its digest.
#[derive(Debug)]
pub struct WalkedFile {
    pub path: TreePath,
    /// The digest of the contents on disk, or why they could not be read.
    pub hash: Result<String, String>,
}

/// What a [`WalkedFile`] says.
pub struct WalkedView {
    pub path: Seq<u8>,
    pub hash: Result<Seq<char>, Seq<char>>,
}

impl View for WalkedFile {
    type V = WalkedView;

    open spec fn view(&self) -> WalkedView {
        WalkedView {
            path: self.path@,
            hash: match self.hash {
                Ok(h) => Ok(h@),
                Err(why) => Err(why@),
            },
        }
    }
}

/// `rel` below the directory `root`.
pub open spec fn joined(root: Seq<u8>, rel: Seq<u8>) -> Seq<u8> {
    if root.len() == 0 || root.last() == SLASH {
        root + rel
    } else {
        root + seq![SLASH] + rel
    }
}

/// `rel` below the directory `root`.
pub fn join_below(root: &TreePath, rel: &TreePath) -> (p: TreePath)
    ensures
        p@ == joined(root@, rel@),
{
    let mut raw: Vec<u8> = slice_copy(root.raw.as_slice(), 0, root.raw.len());
    assert(raw@ =~= root@);
    if raw.len() > 0 && raw[raw.len() - 1] != SLASH {
        raw.push(SLASH);
    }
    raw.extend_from_slice(rel.raw.as_slice());
    assert(raw@ =~= joined(root@, rel@));
    TreePath { raw }
}

proof fn lemma_slash_same(base: Seq<u8>, rel: Seq<u8>, from: int)
    requires
        0 <= from < base.len(),
        base.last() == SLASH,
    ensures
        slash_from(base + rel, from) == slash_from(base, from),
        from <= slash_from(base, from) < base.len(),
    decreases base.len() - from,
{
    if base[from] != SLASH {
        lemma_slash_same(base, rel, from + 1);
    }
}

/// The components of a directory's path stand in front of those of what is joined to it.
proof fn lemma_components_of_base(base: Seq<u8>, rel: Seq<u8>, from: int)
    requires
        0 <= from <= base.len(),
        base.len() > 0,
        base.last() == SLASH,
    ensures
        components_from(base + rel, from) == components_from(base, from) + components_from(
            base + rel,
            base.len() as int,
        ),
    decreases base.len() - from,
{
    let all = base + rel;
    if from == base.len() {
        lemma_slash_from(base, from);
        assert(base.subrange(from, from).len() == 0);
        assert(components_from(base, from) =~= Seq::<Seq<u8>>::empty());
        assert(components_from(all, from) =~= components_from(base, from) + components_from(
            all,
            from,
        ));
    } else {
        lemma_slash_same(base, rel, from);
        let end = slash_from(base, from);
        lemma_components_of_base(base, rel, end + 1);
        assert(all.subrange(from, end) =~= base.subrange(from, end));
        let here = segment_component(base.subrange(from, end), from == 0, true);
        let tail = components_from(all, base.len() as int);
        assert(here + (components_from(base, end + 1) + tail) =~= (here + components_from(
            base,
            end + 1,
        )) + tail);
    }
}

/// A slash behind a path that does not end in one changes none of its components.
proof fn lemma_components_with_slash(root: Seq<u8>, from: int)
    requires
        0 <= from < root.len(),
        root.last() != SLASH,
    ensures
        components_from(root.push(SLASH), from) == components_from(root, from),
    decreases root.len() - from,
{
    let base = root.push(SLASH);
    assert(base.last() == SLASH);
    lemma_slash_from(root, from);
    lemma_slash_same(base, seq![], from);
    assert(base + Seq::<u8>::empty() =~= base);
    lemma_slash_from(base, from);
    let end = slash_from(root, from);
    if end >= root.len() {
        assert(slash_from(base, from) == root.len()) by {
            let at = slash_from(base, from);
            if at < root.len() {
                assert(base[at] == root[at]);
            }
        }
        let seg = root.subrange(from, root.len() as int);
        assert(base.subrange(from, root.len() as int) =~= seg);
        lemma_slash_from(base, base.len() as int);
        assert(base.subrange(base.len() as int, base.len() as int).len() == 0);
        assert(components_from(base, base.len() as int) =~= Seq::<Seq<u8>>::empty());
        assert(seg.len() > 0);
        assert(components_from(base, from) =~= segment_component(seg, from == 0, true));
        assert(components_from(root, from) =~= segment_component(seg, from == 0, false));
    } else {
        assert(slash_from(base, from) == end) by {
            let at = slash_from(base, from);
            assert(base[end] == SLASH);
            if at < end {
                assert(root[at] == base[at]);
            }
        }
        assert(base.subrange(from, end) =~= root.subrange(from, end));
        assert(end + 1 < root.len()) by {
            if end + 1 == root.len() {
                assert(root.last() == root[end]);
            }
        }
        lemma_components_with_slash(root, end + 1);
    }
}

/// What is joined to a directory keeps its components, but for a leading `.`.
proof fn lemma_components_of_rest(base: Seq<u8>, rel: Seq<u8>, i: int)
    requires
        base.len() > 0,
        0 <= i <= rel.len(),
        i == 0 ==> !is_absolute(rel),
    ensures
        forall|c: Seq<u8>| #[trigger]
            components_from(base + rel, base.len() + i).contains(c) ==> components_from(
                rel,
                i,
            ).contains(c),
    decreases rel.len() - i,
{
    let all = base + rel;
    let from = base.len() + i;
    lemma_slash_from(all, from);
    lemma_slash_from(rel, i);
    let end = slash_from(rel, i);
    assert(slash_from(all, from) == base.len() + end) by {
        let at = slash_from(all, from);
        if at < base.len() + end {
            assert(all[at] == rel[at - base.len()]);
        } else if at > base.len() + end {
            assert(all[base.len() + end] == rel[end]);
        }
    }
    if end >= rel.len() {
        let seg = rel.subrange(i, rel.len() as int);
        assert(all.subrange(from, all.len() as int) =~= seg);
    } else {
        let seg = rel.subrange(i, end);
        assert(all.subrange(from, base.len() + end) =~= seg);
        lemma_components_of_rest(base, rel, end + 1);
        assert(base.len() + (end + 1) == base.len() + end + 1);
        let here = segment_component(seg, false, true);
        let there = segment_component(seg, i == 0, true);
        let tail = components_from(all, base.len() + end + 1);
        let rest = components_from(rel, end + 1);
        if i == 0 {
            assert(seg.len() > 0) by {
                if end == 0 {
                    assert(rel[0] == SLASH);
                }
            }
        }
        assert forall|c: Seq<u8>| #[trigger] (here + tail).contains(c) implies (there
            + rest).contains(c) by {
            let k = (here + tail).index_of(c);
            if k < here.len() {
                assert(here[k] == c);
                assert(here == there);
                assert((there + rest)[k] == c);
            } else {
                assert(tail[k - here.len()] == c);
                assert(tail.contains(c));
                let m = rest.index_of(c);
                assert((there + rest)[there.len() + m] == c);
            }
        }
        assert(components_from(all, from) == here + tail);
        assert(components_from(rel, i) == there + rest);
    }
}

/// A root-relative path cannot leave the directory it is joined to: the joined path starts
/// with the directory, and nothing behind it leads up again.
pub proof fn law_a_root_relative_path_stays_below_its_root(root: Seq<u8>, rel: Seq<u8>)
    requires
        root.len() > 0,
        root_relative(rel),
    ensures
        path_starts_with(joined(root, rel), root),
        forall|k: int|
            components(root).len() <= k < components(joined(root, rel)).len()
                ==> #[trigger] components(joined(root, rel))[k] != seq![TAG_PARENT],
{
    let base = if root.last() == SLASH {
        root
    } else {
        root.push(SLASH)
    };
    assert(joined(root, rel) =~= base + rel);
    if root.last() != SLASH {
        lemma_components_with_slash(root, 0);
    }
    lemma_components_of_base(base, rel, 0);
    lemma_components_of_rest(base, rel, 0);
    let rest = components_from(base + rel, base.len() as int);
    let all = components(base + rel);
    assert(base.len() + 0 == base.len());
    assert(all == components(root) + rest);
    assert(all.take(components(root).len() as int) =~= components(root));
    assert forall|k: int| components(root).len() <= k < all.len() implies #[trigger] all[k]
        != seq![TAG_PARENT] by {
        let c = rest[k - components(root).len()];
        assert(all[k] == c);
        assert(rest.contains(c));
        assert(components(rel).contains(c));
    }
}

/// The refusal for an edit path that could leave the root.
pub open spec fn unsafe_path(path: Seq<u8>) -> ErrorView {
    refusal(
        ErrorKind::Usage,
        lossy_text(path) + ": edit path must be relative with no '..' components"@,
    )
}

/// The first edit, at or after `i`, whose path could leave the root.
pub open spec fn first_unsafe(edits: Seq<EditView>, i: int) -> Option<int>
    decreases edits.len() - i,
{
    if i >= edits.len() {
        None
    } else if !root_relative(edits[i].path) {
        Some(i)
    } else {
        first_unsafe(edits, i + 1)
    }
}

/// The digests and canonical paths that a plan records.
pub struct Snapshot {
    pub files: Seq<(Seq<u8>, Seq<char>)>,
    pub realpaths: Seq<(Seq<u8>, Seq<u8>)>,
}

/// The snapshot of the files that the edits from `i` on touch, added to `done`. Each file is
/// taken once; the first canonical path that cannot be had decides.
pub open spec fn snapshot_from(
    root: Seq<u8>,
    edits: Seq<EditView>,
    contents: Seq<(Seq<u8>, Seq<u8>)>,
    canon: Seq<(Seq<u8>, CanonView)>,
    i: int,
    done: Snapshot,
) -> Result<Snapshot, ErrorView>
    decreases edits.len() - i,
{
    if i >= edits.len() {
        Ok(done)
    } else {
        let path = edits[i].path;
        if has_rank::<TreePath, Seq<char>>(done.files, path_rank(path)) {
            snapshot_from(root, edits, contents, canon, i + 1, done)
        } else {
            match lookup::<TreePath, CanonView>(canon, path_rank(path))->0 {
                CanonView::Failed(why) => Err(
                    refusal(ErrorKind::Io, lossy_text(joined(root, path)) + ": "@ + why),
                ),
                CanonView::Real(target) => {
                    let content = lookup::<TreePath, Seq<u8>>(contents, path_rank(path))->0;
                    let next = Snapshot {
                        files: stored::<TreePath, Seq<char>>(
                            done.files,
                            path,
                            blake3_hex(content),
                        ),
                        realpaths: stored::<TreePath, Seq<u8>>(done.realpaths, path, target),
                    };
                    snapshot_from(root, edits, contents, canon, i + 1, next)
                },
            }
        }
    }
}

/// The safety check and the snapshot of a list of edits.
pub open spec fn snapshot(
    root: Seq<u8>,
    edits: Seq<EditView>,
    contents: Seq<(Seq<u8>, Seq<u8>)>,
    canon: Seq<(Seq<u8>, CanonView)>,
) -> Result<Snapshot, ErrorView> {
    match first_unsafe(edits, 0) {
        Some(i) => Err(unsafe_path(edits[i].path)),
        None => snapshot_from(
            root,
            edits,
            contents,
            canon,
            0,
            Snapshot { files: seq![], realpaths: seq![] },
        ),
    }
}

/// Whether `contents` and `canon` cover every edit's path.
pub open spec fn covers(
    edits: Seq<EditView>,
    contents: Seq<(Seq<u8>, Seq<u8>)>,
    canon: Seq<(Seq<u8>, CanonView)>,
) -> bool {
    forall|i: int|
        0 <= i < edits.len() ==> has_rank::<TreePath, Seq<u8>>(
            contents,
            path_rank((#[trigger] edits[i]).path),
        ) && has_rank::<TreePath, CanonView>(canon, path_rank(edits[i].path))
}

/// Takes the snapshot of a list of edits.
fn take_snapshot(
    root_real: &TreePath,
    edits: &Vec<ResolvedEdit>,
    contents: &ContentByPath,
    canon: &OrdMap<TreePath, Canon>,
) -> (r: VcResult<(OrdMap<TreePath, String>, OrdMap<TreePath, TreePath>)>)
    requires
        contents.wf(),
        canon.wf(),
        covers(views(edits@), contents@, canon@),
    ensures
        match (snapshot(root_real@, views(edits@), contents@, canon@), r) {
            (Ok(s), Ok((files, realpaths))) => files.wf() && realpaths.wf() && files@ == s.files
                && realpaths@ == s.realpaths,
            (Err(e), Err(f)) => f@ == e,
            _ => false,
        },
{
    let ghost ev = views(edits@);
    let mut i: usize = 0;
    while i < edits.len()
        invariant
            i <= edits.len(),
            ev == views(edits@),
            first_unsafe(ev, 0) == first_unsafe(ev, i as int),
        decreases edits.len() - i,
    {
        assert(ev[i as int].path == edits@[i as int].path@);
        if !path_is_root_relative(&edits[i].path) {
            let mut m: String = edits[i].path.display();
            m.append(": edit path must be relative with no '..' components");
            return Err(VcError::new(ErrorKind::Usage, m));
        }
        i = i + 1;
    }
    let mut files: OrdMap<TreePath, String> = OrdMap::new();
    let mut realpaths: OrdMap<TreePath, TreePath> = OrdMap::new();
    let mut k: usize = 0;
    let ghost whole = snapshot(root_real@, ev, contents@, canon@);
    while k < edits.len()
        invariant
            k <= edits.len(),
            ev == views(edits@),
            contents.wf(),
            canon.wf(),
            covers(ev, contents@, canon@),
            files.wf(),
            realpaths.wf(),
            whole == snapshot(root_real@, ev, contents@, canon@),
            whole == snapshot_from(
                root_real@,
                ev,
                contents@,
                canon@,
                k as int,
                (Snapshot { files: files@, realpaths: realpaths@ }),
            ),
        decreases edits.len() - k,
    {
        let path = &edits[k].path;
        assert(ev[k as int].path == path@);
        if !files.contains_key(path) {
            let target = match canon.get(path) {
                Some(Canon::Real(p)) => p.copy(),
                Some(Canon::Failed(why)) => {
                    let mut m: String = join_below(root_real, path).display();
                    m.append(": ");
                    m.append(why.as_str());
                    return Err(VcError::new(ErrorKind::Io, m));
                },
                None => path.copy(),
            };
            match contents.get(path) {
                Some(content) => {
                    files.insert(path.copy(), bytes_hash(content.as_slice()));
                    realpaths.insert(path.copy(), target);
                },
                None => {},
            }
        }
        k = k + 1;
    }
    Ok((files, realpaths))
}

/// The plan that [`Plan::build`] makes.
pub open spec fn built_plan(
    root_real: Seq<u8>,
    form: PlanForm,
    reqs: Seq<RequestView>,
    disk: Seq<(Seq<u8>, Seq<u8>)>,
    canon: Seq<(Seq<u8>, CanonView)>,
    epoch: Result<Seq<char>, ErrorView>,
    now: u64,
) -> Result<PlanView, ErrorView> {
    match resolution(disk, reqs) {
        Err(e) => Err(e),
        Ok(edits) => match snapshot(root_real, edits, disk, canon) {
            Err(e) => Err(e),
            Ok(s) => match epoch {
                Err(e) => Err(e),
                Ok(ep) => Ok(
                    PlanView {
                        version: 1,
                        form,
                        root_real,
                        epoch: ep,
                        files: s.files,
                        realpaths: s.realpaths,
                        edits,
                        expected_count: edits.len(),
                        created_unix: now,
                        selector: None,
                        certificate: None,
                        warnings: seq![],
                    },
                ),
            },
        },
    }
}

/// The view of a refusable text.
pub open spec fn text_result(r: VcResult<String>) -> Result<Seq<char>, ErrorView> {
    match r {
        Ok(t) => Ok(t@),
        Err(e) => Err(e@),
    }
}

/// The view of what refreshing the index gave: the epoch and the generation.
pub open spec fn refresh_result(r: VcResult<(String, u64)>) -> Result<(Seq<char>, u64), ErrorView> {
    match r {
        Ok((epoch, generation)) => Ok((epoch@, generation)),
        Err(e) => Err(e@),
    }
}

/// The scope of a selector, with digests: the files from `i` on that lie in its paths and
/// are in its language. A file whose contents were read for matching is recorded with the
/// digest of those; any other with its digest on disk.
pub open spec fn scope_from(
    walked: Seq<WalkedView>,
    selector: SelectorView,
    contents: Seq<(Seq<u8>, Seq<u8>)>,
    i: int,
    done: Seq<(Seq<u8>, Seq<char>)>,
) -> Result<Seq<(Seq<u8>, Seq<char>)>, ErrorView>
    decreases walked.len() - i,
{
    if i >= walked.len() {
        Ok(done)
    } else {
        let w = walked[i];
        if in_scope(w.path, selector.paths) && lang_of(w.path) == selector.lang {
            match lookup::<TreePath, Seq<u8>>(contents, path_rank(w.path)) {
                Some(content) => scope_from(
                    walked,
                    selector,
                    contents,
                    i + 1,
                    stored::<TreePath, Seq<char>>(done, w.path, blake3_hex(content)),
                ),
                None => match w.hash {
                    Ok(h) => scope_from(
                        walked,
                        selector,
                        contents,
                        i + 1,
                        stored::<TreePath, Seq<char>>(done, w.path, h),
                    ),
                    Err(why) => Err(refusal(ErrorKind::Io, why)),
                },
            }
        } else {
            scope_from(walked, selector, contents, i + 1, done)
        }
    }
}

/// The plan that [`Plan::build_match`] makes.
pub open spec fn built_match(
    root_real: Seq<u8>,
    selector: SelectorView,
    edits: Seq<EditView>,
    contents: Seq<(Seq<u8>, Seq<u8>)>,
    canon: Seq<(Seq<u8>, CanonView)>,
    refreshed: Result<(Seq<char>, u64), ErrorView>,
    walked: Seq<WalkedView>,
    warnings: Seq<Seq<char>>,
    now: u64,
) -> Result<PlanView, ErrorView> {
    match snapshot(root_real, edits, contents, canon) {
        Err(e) => Err(e),
        Ok(s) => match refreshed {
            Err(e) => Err(e),
            Ok((epoch, generation)) => match scope_from(walked, selector, contents, 0, seq![]) {
                Err(e) => Err(e),
                Ok(scope_files) => Ok(
                    PlanView {
                        version: 2,
                        form: PlanForm::Match,
                        root_real,
                        epoch,
                        files: s.files,
                        realpaths: s.realpaths,
                        edits,
                        expected_count: edits.len(),
                        created_unix: now,
                        selector: Some(selector),
                        certificate: Some(CertView { epoch, generation, scope_files }),
                        warnings,
                    },
                ),
            },
        },
    }
}

/// Whether the parts of a match plan are all there.
pub open spec fn is_complete(p: PlanView) -> bool {
    p.form == PlanForm::Match ==> p.selector is Some && p.certificate is Some
}

/// The id of a plan whose canonical JSON is `json`.
pub open spec fn plan_id(json: Seq<u8>) -> Seq<char> {
    hex_text(sha256_of(json))
}

/// The lines of `bytes`, each behind `sign` and closed by a line feed.
pub open spec fn signed_lines(sign: Seq<char>, lines: Seq<Seq<char>>) -> Seq<char>
    decreases lines.len(),
{
    if lines.len() == 0 {
        seq![]
    } else {
        signed_lines(sign, lines.drop_last()) + sign + lines.last() + "\n"@
    }
}

/// The bytes an encoded text stands for, none when it does not decode.
pub open spec fn decoded_or_empty(r: Result<Seq<u8>, Seq<char>>) -> Seq<u8> {
    match r {
        Ok(bytes) => bytes,
        Err(_) => seq![],
    }
}

/// The preview of one edit.
pub open spec fn edit_preview(e: EditView, old: Seq<u8>, new: Seq<u8>) -> Seq<char> {
    "--- "@ + lossy_text(e.path) + " @ "@ + dec(e.start) + ".."@ + dec(e.end) + "\n"@
        + signed_lines("-"@, lines_of(lossy_text(old))) + signed_lines(
        "+"@,
        lines_of(lossy_text(new)),
    )
}

/// The preview of a list of edits.
pub open spec fn preview_text(edits: Seq<EditView>) -> Seq<char>
    decreases edits.len(),
{
    if edits.len() == 0 {
        seq![]
    } else {
        let e = edits.last();
        preview_text(edits.drop_last()) + edit_preview(
            e,
            decoded_or_empty(base64_decoded(e.old_b64)),
            decoded_or_empty(base64_decoded(e.new_b64)),
        )
    }
}

impl Plan {
    /// Builds a plan from edit requests. `disk` holds the requested files that could be
    /// read, `canon` what the canonical path of each requested path is, `epoch` the index
    /// epoch at the time.
    pub fn build(
        root_real: TreePath,
        form: PlanForm,
        reqs: &Vec<EditRequest>,
        disk: &ContentByPath,
        canon: &OrdMap<TreePath, Canon>,
        epoch: VcResult<String>,
        now: u64,
    ) -> (r: VcResult<Plan>)
        requires
            disk.wf(),
            canon.wf(),
            forall|i: int|
                0 <= i < reqs@.len() ==> has_rank::<TreePath, CanonView>(
                    canon@,
                    path_rank((#[trigger] reqs@[i]).path@),
                ),
        ensures
            match (
                built_plan(root_real@, form, views(reqs@), disk@, canon@, text_result(epoch), now),
                r,
            ) {
                (Ok(p), Ok(q)) => q@ == p && q.files.wf() && q.realpaths.wf(),
                (Err(e), Err(f)) => f@ == e,
                _ => false,
            },
    {
        let edits = match resolve_edits_with_content(disk, reqs) {
            Ok((edits, _)) => edits,
            Err(e) => {
                return Err(e);
            },
        };
        proof {
            let rv = views(reqs@);
            let ev = views(edits@);
            lemma_resolution_sources(disk@, rv);
            assert forall|i: int| 0 <= i < ev.len() implies has_rank::<TreePath, Seq<u8>>(
                disk@,
                path_rank((#[trigger] ev[i]).path),
            ) && has_rank::<TreePath, CanonView>(canon@, path_rank(ev[i].path)) by {
                assert(ev[i] == resolution(disk@, rv)->Ok_0[i]);
                let j = choose|j: int|
                    0 <= j < rv.len() && crate::resolve::resolved_one(disk@, #[trigger] rv[j])
                        == Ok::<EditView, ErrorView>(ev[i]);
                assert(rv[j].path == ev[i].path);
                assert(reqs@[j].path@ == ev[i].path);
                lemma_slot::<TreePath, Seq<u8>>(disk@, path_rank(ev[i].path));
            }
        }
        let (files, realpaths) = match take_snapshot(&root_real, &edits, disk, canon) {
            Ok(maps) => maps,
            Err(e) => {
                return Err(e);
            },
        };
        let epoch = match epoch {
            Ok(epoch) => epoch,
            Err(e) => {
                return Err(e);
            },
        };
        let expected_count: usize = edits.len();
        let p = Plan {
            version: 1,
            form,
            root_real,
            epoch,
            files,
            realpaths,
            edits,
            expected_count,
            created_unix: now,
            selector: None,
            certificate: None,
            warnings: Vec::new(),
        };
        assert(p@.warnings =~= Seq::<Seq<char>>::empty());
        Ok(p)
    }

    /// Builds a match plan from edits that are already placed and the contents they were
    /// placed in. `walked` are the files of the tree in path order; the digest on disk of
    /// one matters only when it is in scope and was not read for matching.
    pub fn build_match(
        root_real: TreePath,
        selector: MatchSelector,
        edits: Vec<ResolvedEdit>,
        content_by_path: &ContentByPath,
        canon: &OrdMap<TreePath, Canon>,
        refreshed: VcResult<(String, u64)>,
        walked: &Vec<WalkedFile>,
        warnings: Vec<String>,
        now: u64,
    ) -> (r: VcResult<Plan>)
        requires
            content_by_path.wf(),
            canon.wf(),
            covers(views(edits@), content_by_path@, canon@),
        ensures
            match (
                built_match(
                    root_real@,
                    selector@,
                    views(edits@),
                    content_by_path@,
                    canon@,
                    refresh_result(refreshed),
                    views(walked@),
                    views(warnings@),
                    now,
                ),
                r,
            ) {
                (Ok(p), Ok(q)) => q@ == p && q.files.wf() && q.realpaths.wf() && is_complete(p),
                (Err(e), Err(f)) => f@ == e,
                _ => false,
            },
    {
        let (files, realpaths) = match take_snapshot(&root_real, &edits, content_by_path, canon) {
            Ok(maps) => maps,
            Err(e) => {
                return Err(e);
            },
        };
        let (epoch, generation) = match refreshed {
            Ok(pair) => pair,
            Err(e) => {
                return Err(e);
            },
        };
        let mut scope_files: OrdMap<TreePath, String> = OrdMap::new();
        let ghost wv = views(walked@);
        let ghost whole = scope_from(wv, selector@, content_by_path@, 0, seq![]);
        let mut i: usize = 0;
        while i < walked.len()
            invariant
                i <= walked.len(),
                wv == views(walked@),
                content_by_path.wf(),
                scope_files.wf(),
                snapshot(root_real@, views(edits@), content_by_path@, canon@) is Ok,
                refresh_result(refreshed) is Ok,
                whole == scope_from(wv, selector@, content_by_path@, 0, seq![]),
                whole == scope_from(
                    wv,
                    selector@,
                    content_by_path@,
                    i as int,
                    scope_files@,
                ),
            decreases walked.len() - i,
        {
            let w = &walked[i];
            assert(wv[i as int] == w@);
            if is_in_scope(&w.path, &selector.paths) && same_text(
                lang_tag(&w.path),
                selector.lang.as_str(),
            ) {
                let hash = match content_by_path.get(&w.path) {
                    Some(content) => bytes_hash(content.as_slice()),
                    None => match &w.hash {
                        Ok(h) => h.clone(),
                        Err(why) => {
                            return Err(VcError::new(ErrorKind::Io, why.clone()));
                        },
                    },
                };
                scope_files.insert(w.path.copy(), hash);
            }
            i = i + 1;
        }
        let certificate = ProvenanceCert { epoch: epoch.clone(), generation, scope_files };
        let expected_count: usize = edits.len();
        Ok(
            Plan {
                version: 2,
                form: PlanForm::Match,
                root_real,
                epoch,
                files,
                realpaths,
                edits,
                expected_count,
                created_unix: now,
                selector: Some(selector),
                certificate: Some(certificate),
                warnings,
            },
        )
    }

    /// The id of a plan: the hex SHA-256 digest of its canonical JSON.
    pub fn id(canonical_json: &[u8]) -> (id: String)
        ensures
            id@ == plan_id(canonical_json@),
            id@.len() == 64,
    {
        sha256_hex(canonical_json)
    }

    /// The first eight digits of a plan's id.
    pub fn sha8(canonical_json: &[u8]) -> (short: String)
        ensures
            short@ == plan_id(canonical_json@).take(8),
            short@.len() == 8,
    {
        let id = Plan::id(canonical_json);
        let chars = crate::text::chars_of(id.as_str());
        let short = crate::text::text_of(&chars, 0, 8);
        assert(short@ =~= id@.take(8));
        short
    }

    /// The preview of the plan's edits: a header per edit, then its old lines behind `-`
    /// and its new lines behind `+`.
    pub fn preview(&self) -> (text: String)
        ensures
            text@ == preview_text(views(self.edits@)),
    {
        let mut out: String = String::new();
        let mut i: usize = 0;
        let ghost ev = views(self.edits@);
        assert(ev.take(0) =~= Seq::<EditView>::empty());
        while i < self.edits.len()
            invariant
                i <= self.edits.len(),
                ev == views(self.edits@),
                out@ == preview_text(ev.take(i as int)),
            decreases self.edits.len() - i,
        {
            let e = &self.edits[i];
            let old = match b64d(e.old_b64.as_str()) {
                Ok(bytes) => bytes,
                Err(_) => Vec::new(),
            };
            let new = match b64d(e.new_b64.as_str()) {
                Ok(bytes) => bytes,
                Err(_) => Vec::new(),
            };
            assert(old@ =~= decoded_or_empty(base64_decoded(e.old_b64@)));
            assert(new@ =~= decoded_or_empty(base64_decoded(e.new_b64@)));
            let ghost before = out@;
            let one = Plan::preview_edit(e, &old, &new);
            out.append(one.as_str());
            proof {
                assert(ev.take(i + 1).drop_last() =~= ev.take(i as int));
                assert(ev.take(i + 1).last() == e@);
            }
            i = i + 1;
        }
        assert(ev.take(self.edits.len() as int) =~= ev);
        out
    }

    /// The preview of one edit whose texts are `old` and `new`.
    pub fn preview_edit(e: &ResolvedEdit, old: &Vec<u8>, new: &Vec<u8>) -> (text: String)
        ensures
            text@ == edit_preview(e@, old@, new@),
    {
        let mut out: String = "--- ".to_owned();
        let name = e.path.display();
        out.append(name.as_str());
        out.append(" @ ");
        push_dec(&mut out, e.start as u64);
        out.append("..");
        push_dec(&mut out, e.end as u64);
        out.append("\n");
        let old_lines = split_lines(lossy(old.as_slice()).as_str());
        let minus = sign_lines("-", &old_lines);
        out.append(minus.as_str());
        let new_lines = split_lines(lossy(new.as_slice()).as_str());
        let plus = sign_lines("+", &new_lines);
        out.append(plus.as_str());
        out
    }
}

/// The lines, each behind `sign` and closed by a line feed.
fn sign_lines(sign: &str, lines: &Vec<String>) -> (text: String)
    ensures
        text@ == signed_lines(sign@, views(lines@)),
{
    let mut out: String = String::new();
    let mut i: usize = 0;
    let ghost lv = views(lines@);
    assert(lv.take(0) =~= Seq::<Seq<char>>::empty());
    while i < lines.len()
        invariant
            i <= lines.len(),
            lv == views(lines@),
            out@ == signed_lines(sign@, lv.take(i as int)),
        decreases lines.len() - i,
    {
        out.append(sign);
        out.append(lines[i].as_str());
        out.append("\n");
        proof {
            assert(lv.take(i + 1).drop_last() =~= lv.take(i as int));
            assert(lv.take(i + 1).last() == lines@[i as int]@);
        }
        i = i + 1;
    }
    assert(lv.take(lines.len() as int) =~= lv);
    out
}

/// The name in a plan directory when it can be that of a plan that `prefix` names: a
/// `.json` name that begins with it. A name that is not UTF-8 counts as empty.
pub open spec fn plan_name_matches(name: Seq<u8>, prefix: Seq<char>) -> bool {
    is_json_name(name) && begins_with(
        if valid_utf8(name) {
            decode_utf8(name)
        } else {
            seq![]
        },
        prefix,
    )
}

/// The places among the first `n` names that `prefix` names.
pub open spec fn matching_names(names: Seq<Seq<u8>>, prefix: Seq<char>, n: int) -> Seq<usize>
    decreases n,
{
    if n <= 0 {
        seq![]
    } else {
        let before = matching_names(names, prefix, n - 1);
        if plan_name_matches(names[n - 1], prefix) {
            before.push((n - 1) as usize)
        } else {
            before
        }
    }
}

/// Which of the plan directory's names a prefix selects: it has to match exactly one.
pub open spec fn selected_plan(names: Seq<Seq<u8>>, prefix: Seq<char>) -> Result<usize, ErrorView> {
    let hits = matching_names(names, prefix, names.len() as int);
    if hits.len() == 0 {
        Err(refusal_next(ErrorKind::NotFound, "no plan matches "@ + prefix, "vc status"@))
    } else if hits.len() == 1 {
        Ok(hits[0])
    } else {
        Err(refusal(ErrorKind::Ambiguous, dec(hits.len()) + " plans match "@ + prefix))
    }
}

/// Whether `name` can be that of a plan that `prefix` names.
fn name_matches(name: &Vec<u8>, prefix: &str) -> (yes: bool)
    ensures
        yes == plan_name_matches(name@, prefix@),
{
    if !is_json(name.as_slice()) {
        return false;
    }
    let copy = slice_copy(name.as_slice(), 0, name.len());
    assert(copy@ =~= name@);
    let text = match utf8_text(copy) {
        Some(t) => t,
        None => String::new(),
    };
    let have = crate::text::chars_of(text.as_str());
    let want = crate::text::chars_of(prefix);
    if want.len() > have.len() {
        return false;
    }
    let head = crate::text::text_of(&have, 0, want.len());
    assert(head@ =~= have@.take(want@.len() as int));
    same_text(head.as_str(), prefix)
}

/// Selects the plan that `prefix` names among the names of the plan directory.
pub fn select_plan(names: &Vec<Vec<u8>>, prefix: &str) -> (r: VcResult<usize>)
    ensures
        match (selected_plan(views(names@), prefix@), r) {
            (Ok(i), Ok(j)) => i == j && i < names@.len(),
            (Err(e), Err(f)) => f@ == e,
            _ => false,
        },
{
    let mut hits: Vec<usize> = Vec::new();
    let ghost nv = views(names@);
    let mut i: usize = 0;
    while i < names.len()
        invariant
            i <= names.len(),
            nv == views(names@),
            hits@ == matching_names(nv, prefix@, i as int),
            forall|k: int| 0 <= k < hits.len() ==> #[trigger] hits@[k] < i,
        decreases names.len() - i,
    {
        assert(nv[i as int] == names@[i as int]@);
        if name_matches(&names[i], prefix) {
            hits.push(i);
        }
        i = i + 1;
    }
    if hits.len() == 0 {
        let mut m: String = "no plan matches ".to_owned();
        m.append(prefix);
        Err(VcError::new(ErrorKind::NotFound, m).with_next("vc status".to_owned()))
    } else if hits.len() == 1 {
        assert(hits@[0] < names@.len());
        Ok(hits[0])
    } else {
        let mut m: String = crate::text::dec_text(hits.len() as u64);
        m.append(" plans match ");
        m.append(prefix);
        Err(VcError::new(ErrorKind::Ambiguous, m))
    }
}

/// What reading and parsing a plan's file gave.
#[derive(Debug)]
pub enum PlanRead {
    /// It could not be read, for this reason.
    Unreadable(String),
    /// It is no plan, for this reason.
    Unparsed(String),
    /// The plan, and its canonical JSON.
    Parsed(Plan, Vec<u8>),
}

/// Why a parsed plan does not stand, if it does not: the file's name has to be the digest of
/// what it holds, and a match plan needs its selector and its certificate.
pub open spec fn admission_fault(p: PlanView, name: Seq<u8>, json: Seq<u8>) -> Option<ErrorView> {
    let id = if valid_utf8(stem(name)) {
        decode_utf8(stem(name))
    } else {
        seq![]
    };
    if plan_id(json) != id {
        Some(refusal(ErrorKind::Malformed, "plan file does not match its id"@))
    } else if !is_complete(p) {
        Some(refusal(ErrorKind::Malformed, "match plan lacks its selector or certificate"@))
    } else {
        None
    }
}

/// What [`Plan::load`] answers to what the file `name`, selected by `prefix`, holds.
pub open spec fn loaded(read: PlanRead, prefix: Seq<char>, name: Seq<u8>) -> Result<Plan, ErrorView> {
    match read {
        PlanRead::Unreadable(why) => Err(refusal(ErrorKind::Io, why@)),
        PlanRead::Unparsed(why) => Err(
            refusal(ErrorKind::Malformed, "plan "@ + prefix + ": "@ + why@),
        ),
        PlanRead::Parsed(p, json) => match admission_fault(p@, name, json@) {
            Some(e) => Err(e),
            None => Ok(p),
        },
    }
}

impl Plan {
    /// Admits the plan in the file `name`, which `prefix` selected.
    pub fn load(read: PlanRead, prefix: &str, name: &Vec<u8>) -> (r: VcResult<Plan>)
        ensures
            match (loaded(read, prefix@, name@), r) {
                (Ok(p), Ok(q)) => q == p && is_complete(q@),
                (Err(e), Err(f)) => f@ == e,
                _ => false,
            },
    {
        match read {
            PlanRead::Unreadable(why) => Err(VcError::new(ErrorKind::Io, why)),
            PlanRead::Unparsed(why) => {
                let mut m: String = "plan ".to_owned();
                m.append(prefix);
                m.append(": ");
                m.append(why.as_str());
                Err(VcError::new(ErrorKind::Malformed, m))
            },
            PlanRead::Parsed(p, json) => {
                let (stem_bytes, _) = split_name(name.as_slice());
                let file_id = match utf8_text(stem_bytes) {
                    Some(t) => t,
                    None => String::new(),
                };
                let id = Plan::id(json.as_slice());
                if !same_text(id.as_str(), file_id.as_str()) {
                    return Err(
                        VcError::new(
                            ErrorKind::Malformed,
                            "plan file does not match its id".to_owned(),
                        ),
                    );
                }
                match p.form {
                    PlanForm::Match => {
                        if p.selector.is_none() || p.certificate.is_none() {
                            return Err(
                                VcError::new(
                                    ErrorKind::Malformed,
                                    "match plan lacks its selector or certificate".to_owned(),
                                ),
                            );
                        }
                    },
                    _ => {},
                }
                Ok(p)
            },
        }
    }
}

/// Whether one of the first `n` edits is of this path.
pub open spec fn is_edited(edits: Seq<EditView>, n: int, path: Seq<u8>) -> bool {
    exists|j: int| 0 <= j < n && (#[trigger] edits[j]).path == path
}

/// Whether every key is the path of one of the first `n` edits.
pub open spec fn keys_edited<V>(edits: Seq<EditView>, n: int, map: Seq<(Seq<u8>, V)>) -> bool {
    forall|k: int| 0 <= k < map.len() ==> is_edited(edits, n, (#[trigger] map[k]).0)
}

/// Whether a snapshot is one of exactly the files of the first `n` edits: of each the digest of
/// its contents and its canonical path, and of no other file.
pub open spec fn records_files(
    s: Snapshot,
    edits: Seq<EditView>,
    contents: Seq<(Seq<u8>, Seq<u8>)>,
    canon: Seq<(Seq<u8>, CanonView)>,
    n: int,
) -> bool {
    &&& keys_ascend::<TreePath, Seq<char>>(s.files)
    &&& keys_ascend::<TreePath, Seq<u8>>(s.realpaths)
    &&& keys_edited(edits, n, s.files)
    &&& keys_edited(edits, n, s.realpaths)
    &&& forall|j: int|
        0 <= j < n ==> {
            let r = path_rank((#[trigger] edits[j]).path);
            &&& lookup::<TreePath, Seq<u8>>(contents, r) matches Some(content)
                && lookup::<TreePath, Seq<char>>(s.files, r) == Some(blake3_hex(content))
            &&& lookup::<TreePath, CanonView>(canon, r) matches Some(CanonView::Real(target))
                && lookup::<TreePath, Seq<u8>>(s.realpaths, r) == Some(target)
        }
}

proof fn lemma_keys_edited_later<V>(edits: Seq<EditView>, n: int, map: Seq<(Seq<u8>, V)>)
    requires
        keys_edited(edits, n, map),
    ensures
        keys_edited(edits, n + 1, map),
{
    assert forall|k: int| 0 <= k < map.len() implies is_edited(
        edits,
        n + 1,
        (#[trigger] map[k]).0,
    ) by {
        assert(is_edited(edits, n, map[k].0));
        let j = choose|j: int| 0 <= j < n && (#[trigger] edits[j]).path == map[k].0;
        assert(0 <= j < n + 1 && edits[j].path == map[k].0);
    }
}

proof fn lemma_stored_edited<V>(edits: Seq<EditView>, n: int, map: Seq<(Seq<u8>, V)>, v: V)
    requires
        keys_ascend::<TreePath, V>(map),
        keys_edited(edits, n, map),
        0 <= n < edits.len(),
    ensures
        keys_edited(edits, n + 1, stored::<TreePath, V>(map, edits[n].path, v)),
{
    let path = edits[n].path;
    let next = stored::<TreePath, V>(map, path, v);
    let at = slot::<TreePath, V>(map, path_rank(path)) as int;
    lemma_slot::<TreePath, V>(map, path_rank(path));
    lemma_keys_edited_later(edits, n, map);
    assert forall|k: int| 0 <= k < next.len() implies is_edited(
        edits,
        n + 1,
        (#[trigger] next[k]).0,
    ) by {
        if next.len() != map.len() && k == at {
            assert(edits[n].path == next[k].0);
        } else {
            let old_k = if next.len() == map.len() || k < at {
                k
            } else {
                k - 1
            };
            assert(next[k].0 == map[old_k].0);
            assert(is_edited(edits, n + 1, map[old_k].0));
        }
    }
}

proof fn lemma_snapshot_step(
    edits: Seq<EditView>,
    contents: Seq<(Seq<u8>, Seq<u8>)>,
    canon: Seq<(Seq<u8>, CanonView)>,
    i: int,
    done: Snapshot,
    digest: Seq<char>,
    target: Seq<u8>,
)
    requires
        0 <= i < edits.len(),
        records_files(done, edits, contents, canon, i),
        lookup::<TreePath, Seq<u8>>(contents, path_rank(edits[i].path)) matches Some(c) && digest
            == blake3_hex(c),
        lookup::<TreePath, CanonView>(canon, path_rank(edits[i].path)) == Some(
            CanonView::Real(target),
        ),
    ensures
        records_files(
            (Snapshot {
                files: stored::<TreePath, Seq<char>>(done.files, edits[i].path, digest),
                realpaths: stored::<TreePath, Seq<u8>>(done.realpaths, edits[i].path, target),
            }),
            edits,
            contents,
            canon,
            i + 1,
        ),
{
    let path = edits[i].path;
    let s = Snapshot {
        files: stored::<TreePath, Seq<char>>(done.files, path, digest),
        realpaths: stored::<TreePath, Seq<u8>>(done.realpaths, path, target),
    };
    lemma_stored_edited(edits, i, done.files, digest);
    lemma_stored_edited(edits, i, done.realpaths, target);
    law_stored_reads_back::<TreePath, Seq<char>>(done.files, path, digest, path_rank(path));
    law_stored_reads_back::<TreePath, Seq<u8>>(done.realpaths, path, target, path_rank(path));
    assert forall|j: int| 0 <= j < i + 1 implies {
        let r = path_rank((#[trigger] edits[j]).path);
        &&& lookup::<TreePath, Seq<u8>>(contents, r) matches Some(content) && lookup::<
            TreePath,
            Seq<char>,
        >(s.files, r) == Some(blake3_hex(content))
        &&& lookup::<TreePath, CanonView>(canon, r) matches Some(CanonView::Real(q)) && lookup::<
            TreePath,
            Seq<u8>,
        >(s.realpaths, r) == Some(q)
    } by {
        let r = path_rank(edits[j].path);
        law_stored_reads_back::<TreePath, Seq<char>>(done.files, path, digest, r);
        law_stored_reads_back::<TreePath, Seq<u8>>(done.realpaths, path, target, r);
    }
}

proof fn lemma_snapshot_from(
    root: Seq<u8>,
    edits: Seq<EditView>,
    contents: Seq<(Seq<u8>, Seq<u8>)>,
    canon: Seq<(Seq<u8>, CanonView)>,
    i: int,
    done: Snapshot,
)
    requires
        0 <= i <= edits.len(),
        keys_ascend::<TreePath, Seq<u8>>(contents),
        keys_ascend::<TreePath, CanonView>(canon),
        covers(edits, contents, canon),
        records_files(done, edits, contents, canon, i),
    ensures
        snapshot_from(root, edits, contents, canon, i, done) matches Ok(s) ==> records_files(
            s,
            edits,
            contents,
            canon,
            edits.len() as int,
        ),
        snapshot_from(root, edits, contents, canon, i, done) matches Err(e) ==> {
            &&& e.kind == ErrorKind::Io
            &&& exists|j: int|
                i <= j < edits.len() && lookup::<TreePath, CanonView>(
                    canon,
                    path_rank((#[trigger] edits[j]).path),
                ) matches Some(CanonView::Failed(_))
        },
    decreases edits.len() - i,
{
    if i < edits.len() {
        let path = edits[i].path;
        let r = path_rank(path);
        lemma_slot::<TreePath, Seq<u8>>(contents, r);
        lemma_slot::<TreePath, CanonView>(canon, r);
        lemma_slot::<TreePath, Seq<char>>(done.files, r);
        assert(has_rank::<TreePath, Seq<u8>>(contents, r));
        if has_rank::<TreePath, Seq<char>>(done.files, r) {
            let k = slot::<TreePath, Seq<char>>(done.files, r) as int;
            assert(is_edited(edits, i, done.files[k].0));
            let j = choose|j: int| 0 <= j < i && (#[trigger] edits[j]).path == done.files[k].0;
            assert(path_rank(edits[j].path) == r);
            lemma_keys_edited_later(edits, i, done.files);
            lemma_keys_edited_later(edits, i, done.realpaths);
            lemma_snapshot_from(root, edits, contents, canon, i + 1, done);
        } else {
            match lookup::<TreePath, CanonView>(canon, r)->0 {
                CanonView::Failed(_) => {
                    assert(lookup::<TreePath, CanonView>(canon, path_rank(edits[i].path))
                        matches Some(CanonView::Failed(_)));
                },
                CanonView::Real(target) => {
                    let content = lookup::<TreePath, Seq<u8>>(contents, r)->0;
                    lemma_snapshot_step(
                        edits,
                        contents,
                        canon,
                        i,
                        done,
                        blake3_hex(content),
                        target,
                    );
                    let next = Snapshot {
                        files: stored::<TreePath, Seq<char>>(
                            done.files,
                            path,
                            blake3_hex(content),
                        ),
                        realpaths: stored::<TreePath, Seq<u8>>(done.realpaths, path, target),
                    };
                    lemma_snapshot_from(root, edits, contents, canon, i + 1, next);
                },
            }
        }
    }
}

proof fn lemma_first_unsafe(edits: Seq<EditView>, i: int)
    requires
        0 <= i <= edits.len(),
    ensures
        match first_unsafe(edits, i) {
            Some(k) => i <= k < edits.len() && !root_relative(edits[k].path) && forall|j: int|
                i <= j < k ==> root_relative((#[trigger] edits[j]).path),
            None => forall|j: int|
                i <= j < edits.len() ==> root_relative((#[trigger] edits[j]).path),
        },
    decreases edits.len() - i,
{
    if i < edits.len() && root_relative(edits[i].path) {
        lemma_first_unsafe(edits, i + 1);
    }
}

/// A snapshot holds exactly the files of its edits: for every edit the digest of the contents
/// it was placed in and the canonical path, and nothing else. It is refused exactly when an
/// edit's path could leave the root, or a canonical path cannot be had.
pub proof fn law_a_snapshot_records_every_edited_file(
    root: Seq<u8>,
    edits: Seq<EditView>,
    contents: Seq<(Seq<u8>, Seq<u8>)>,
    canon: Seq<(Seq<u8>, CanonView)>,
)
    requires
        keys_ascend::<TreePath, Seq<u8>>(contents),
        keys_ascend::<TreePath, CanonView>(canon),
        covers(edits, contents, canon),
    ensures
        snapshot(root, edits, contents, canon) matches Ok(s) ==> {
            &&& records_files(s, edits, contents, canon, edits.len() as int)
            &&& forall|j: int| 0 <= j < edits.len() ==> root_relative((#[trigger] edits[j]).path)
        },
        snapshot(root, edits, contents, canon) matches Err(e) ==> {
            ||| e.kind == ErrorKind::Usage && exists|j: int|
                0 <= j < edits.len() && !root_relative((#[trigger] edits[j]).path)
            ||| e.kind == ErrorKind::Io && exists|j: int|
                0 <= j < edits.len() && lookup::<TreePath, CanonView>(
                    canon,
                    path_rank((#[trigger] edits[j]).path),
                ) matches Some(CanonView::Failed(_))
        },
{
    let none = Snapshot { files: seq![], realpaths: seq![] };
    lemma_first_unsafe(edits, 0);
    if first_unsafe(edits, 0) is Some {
        let k = first_unsafe(edits, 0)->0;
        assert(!root_relative(edits[k].path));
    }
    lemma_snapshot_from(root, edits, contents, canon, 0, none);
}

/// A plan that was built records every file it touches: its edits are those that its requests
/// resolve to, and its files and canonical paths are of exactly the paths of those edits, each
/// with the digest of the contents that the edits were placed in.
pub proof fn law_a_built_plan_records_every_edited_file(
    root_real: Seq<u8>,
    form: PlanForm,
    reqs: Seq<RequestView>,
    disk: Seq<(Seq<u8>, Seq<u8>)>,
    canon: Seq<(Seq<u8>, CanonView)>,
    epoch: Result<Seq<char>, ErrorView>,
    now: u64,
)
    requires
        keys_ascend::<TreePath, Seq<u8>>(disk),
        keys_ascend::<TreePath, CanonView>(canon),
        forall|i: int|
            0 <= i < reqs.len() ==> has_rank::<TreePath, CanonView>(
                canon,
                path_rank((#[trigger] reqs[i]).path),
            ),
        built_plan(root_real, form, reqs, disk, canon, epoch, now) is Ok,
    ensures
        ({
            let p = built_plan(root_real, form, reqs, disk, canon, epoch, now)->Ok_0;
            &&& resolution(disk, reqs) == Ok::<Seq<EditView>, ErrorView>(p.edits)
            &&& p.expected_count == p.edits.len()
            &&& records_files(
                (Snapshot { files: p.files, realpaths: p.realpaths }),
                p.edits,
                disk,
                canon,
                p.edits.len() as int,
            )
            &&& forall|j: int|
                0 <= j < p.edits.len() ==> root_relative((#[trigger] p.edits[j]).path)
            &&& epoch == Ok::<Seq<char>, ErrorView>(p.epoch)
            &&& p.form == form && p.root_real == root_real && p.created_unix == now
            &&& p.selector is None && p.certificate is None && p.warnings.len() == 0
        }),
{
    let edits = resolution(disk, reqs)->Ok_0;
    lemma_resolution_sources(disk, reqs);
    assert forall|i: int| 0 <= i < edits.len() implies has_rank::<TreePath, Seq<u8>>(
        disk,
        path_rank((#[trigger] edits[i]).path),
    ) && has_rank::<TreePath, CanonView>(canon, path_rank(edits[i].path)) by {
        let j = choose|j: int|
            0 <= j < reqs.len() && crate::resolve::resolved_one(disk, #[trigger] reqs[j]) == Ok::<
                EditView,
                ErrorView,
            >(resolution(disk, reqs)->Ok_0[i]);
        assert(reqs[j].path == edits[i].path);
        lemma_slot::<TreePath, Seq<u8>>(disk, path_rank(edits[i].path));
    }
    law_a_snapshot_records_every_edited_file(root_real, edits, disk, canon);
}

/// Whether a walked file is one that a selector can see.
pub open spec fn visible(w: WalkedView, selector: SelectorView) -> bool {
    in_scope(w.path, selector.paths) && lang_of(w.path) == selector.lang
}

/// The digest that a visible file is certified with: that of the contents that were matched,
/// if it was read for matching, else its digest on disk.
pub open spec fn certified(w: WalkedView, contents: Seq<(Seq<u8>, Seq<u8>)>) -> Result<
    Seq<char>,
    Seq<char>,
> {
    match lookup::<TreePath, Seq<u8>>(contents, path_rank(w.path)) {
        Some(content) => Ok(blake3_hex(content)),
        None => w.hash,
    }
}

/// Whether a file was walked in one way only.
pub open spec fn walked_once(walked: Seq<WalkedView>) -> bool {
    forall|i: int, j: int|
        #![trigger walked[i], walked[j]]
        0 <= i < walked.len() && 0 <= j < walked.len() && path_rank(walked[i].path) == path_rank(
            walked[j].path,
        ) ==> walked[i] == walked[j]
}

/// Whether a scope vouches for exactly the visible ones of the first `n` files.
pub open spec fn certifies(
    scope: Seq<(Seq<u8>, Seq<char>)>,
    walked: Seq<WalkedView>,
    selector: SelectorView,
    contents: Seq<(Seq<u8>, Seq<u8>)>,
    n: int,
) -> bool {
    &&& keys_ascend::<TreePath, Seq<char>>(scope)
    &&& forall|j: int|
        0 <= j < n && visible(#[trigger] walked[j], selector) ==> {
            &&& certified(walked[j], contents) is Ok
            &&& lookup::<TreePath, Seq<char>>(scope, path_rank(walked[j].path)) == Some(
                certified(walked[j], contents)->Ok_0,
            )
        }
    &&& forall|k: int|
        0 <= k < scope.len() ==> is_visible_path(walked, selector, n, (#[trigger] scope[k]).0)
}

/// Whether this is the path of a visible one of the first `n` files.
pub open spec fn is_visible_path(
    walked: Seq<WalkedView>,
    selector: SelectorView,
    n: int,
    path: Seq<u8>,
) -> bool {
    exists|j: int|
        0 <= j < n && visible(#[trigger] walked[j], selector) && walked[j].path == path
}

proof fn lemma_visible_later(
    walked: Seq<WalkedView>,
    selector: SelectorView,
    n: int,
    path: Seq<u8>,
)
    requires
        is_visible_path(walked, selector, n, path),
    ensures
        is_visible_path(walked, selector, n + 1, path),
{
    let j = choose|j: int|
        0 <= j < n && visible(#[trigger] walked[j], selector) && walked[j].path == path;
    assert(0 <= j < n + 1 && visible(walked[j], selector) && walked[j].path == path);
}

proof fn lemma_certifies_step(
    walked: Seq<WalkedView>,
    selector: SelectorView,
    contents: Seq<(Seq<u8>, Seq<u8>)>,
    i: int,
    done: Seq<(Seq<u8>, Seq<char>)>,
    digest: Seq<char>,
)
    requires
        0 <= i < walked.len(),
        walked_once(walked),
        certifies(done, walked, selector, contents, i),
        visible(walked[i], selector),
        certified(walked[i], contents) == Ok::<Seq<char>, Seq<char>>(digest),
    ensures
        certifies(
            stored::<TreePath, Seq<char>>(done, walked[i].path, digest),
            walked,
            selector,
            contents,
            i + 1,
        ),
{
    let path = walked[i].path;
    let next = stored::<TreePath, Seq<char>>(done, path, digest);
    let at = slot::<TreePath, Seq<char>>(done, path_rank(path)) as int;
    lemma_slot::<TreePath, Seq<char>>(done, path_rank(path));
    law_stored_reads_back::<TreePath, Seq<char>>(done, path, digest, path_rank(path));
    assert forall|j: int| 0 <= j < i + 1 && visible(#[trigger] walked[j], selector) implies {
        &&& certified(walked[j], contents) is Ok
        &&& lookup::<TreePath, Seq<char>>(next, path_rank(walked[j].path)) == Some(
            certified(walked[j], contents)->Ok_0,
        )
    } by {
        law_stored_reads_back::<TreePath, Seq<char>>(
            done,
            path,
            digest,
            path_rank(walked[j].path),
        );
    }
    assert forall|k: int| 0 <= k < next.len() implies is_visible_path(
        walked,
        selector,
        i + 1,
        (#[trigger] next[k]).0,
    ) by {
        if next.len() != done.len() && k == at {
            assert(visible(walked[i], selector) && walked[i].path == next[k].0);
        } else {
            let old_k = if next.len() == done.len() || k < at {
                k
            } else {
                k - 1
            };
            assert(next[k].0 == done[old_k].0);
            assert(is_visible_path(walked, selector, i, done[old_k].0));
            lemma_visible_later(walked, selector, i, done[old_k].0);
        }
    }
}

proof fn lemma_scope_from(
    walked: Seq<WalkedView>,
    selector: SelectorView,
    contents: Seq<(Seq<u8>, Seq<u8>)>,
    i: int,
    done: Seq<(Seq<u8>, Seq<char>)>,
)
    requires
        0 <= i <= walked.len(),
        walked_once(walked),
        certifies(done, walked, selector, contents, i),
    ensures
        match scope_from(walked, selector, contents, i, done) {
            Ok(scope) => certifies(scope, walked, selector, contents, walked.len() as int),
            Err(e) => e.kind == ErrorKind::Io && exists|j: int|
                0 <= j < walked.len() && visible(#[trigger] walked[j], selector) && certified(
                    walked[j],
                    contents,
                ) is Err,
        },
    decreases walked.len() - i,
{
    if i < walked.len() {
        let w = walked[i];
        if visible(w, selector) {
            match certified(w, contents) {
                Ok(h) => {
                    lemma_certifies_step(walked, selector, contents, i, done, h);
                    lemma_scope_from(
                        walked,
                        selector,
                        contents,
                        i + 1,
                        stored::<TreePath, Seq<char>>(done, w.path, h),
                    );
                },
                Err(_) => {
                    assert(visible(walked[i], selector) && certified(walked[i], contents) is Err);
                },
            }
        } else {
            assert forall|k: int| 0 <= k < done.len() implies is_visible_path(
                walked,
                selector,
                i + 1,
                (#[trigger] done[k]).0,
            ) by {
                lemma_visible_later(walked, selector, i, done[k].0);
            }
            lemma_scope_from(walked, selector, contents, i + 1, done);
        }
    }
}

/// A match plan that was built records every file it touches, as any plan does, and its
/// certificate vouches for exactly the files that its selector can see: those in its paths and
/// of its language, each with the digest of the contents that were matched or, if it was not
/// read for matching, with its digest on disk. The edits, the selector and the warnings are
/// those it was built from.
pub proof fn law_a_match_plan_certifies_everything_its_selector_sees(
    root_real: Seq<u8>,
    selector: SelectorView,
    edits: Seq<EditView>,
    contents: Seq<(Seq<u8>, Seq<u8>)>,
    canon: Seq<(Seq<u8>, CanonView)>,
    refreshed: Result<(Seq<char>, u64), ErrorView>,
    walked: Seq<WalkedView>,
    warnings: Seq<Seq<char>>,
    now: u64,
)
    requires
        keys_ascend::<TreePath, Seq<u8>>(contents),
        keys_ascend::<TreePath, CanonView>(canon),
        covers(edits, contents, canon),
        walked_once(walked),
    ensures
        match built_match(
            root_real,
            selector,
            edits,
            contents,
            canon,
            refreshed,
            walked,
            warnings,
            now,
        ) {
            Ok(p) => {
                &&& p.form == PlanForm::Match && p.root_real == root_real && p.created_unix == now
                &&& p.edits == edits && p.expected_count == edits.len()
                &&& p.selector == Some(selector) && p.warnings == warnings
                &&& p.certificate is Some
                &&& refreshed == Ok::<(Seq<char>, u64), ErrorView>(
                    (p.epoch, p.certificate->0.generation),
                )
                &&& p.certificate->0.epoch == p.epoch
                &&& certifies(
                    p.certificate->0.scope_files,
                    walked,
                    selector,
                    contents,
                    walked.len() as int,
                )
                &&& records_files(
                    (Snapshot { files: p.files, realpaths: p.realpaths }),
                    edits,
                    contents,
                    canon,
                    edits.len() as int,
                )
            },
            Err(e) => {
                ||| refreshed == Err::<(Seq<char>, u64), ErrorView>(e)
                ||| snapshot(root_real, edits, contents, canon) == Err::<Snapshot, ErrorView>(e)
                ||| e.kind == ErrorKind::Io && exists|j: int|
                    0 <= j < walked.len() && visible(#[trigger] walked[j], selector) && certified(
                        walked[j],
                        contents,
                    ) is Err
            },
        },
{
    law_a_snapshot_records_every_edited_file(root_real, edits, contents, canon);
    lemma_scope_from(walked, selector, contents, 0, seq![]);
}

proof fn lemma_matching_names(names: Seq<Seq<u8>>, prefix: Seq<char>, n: int)
    requires
        0 <= n <= names.len() <= usize::MAX,
    ensures
        forall|x: usize| #[trigger]
            matching_names(names, prefix, n).contains(x) <==> x < n && plan_name_matches(
                names[x as int],
                prefix,
            ),
        matching_names(names, prefix, n).no_duplicates(),
    decreases n,
{
    let all = matching_names(names, prefix, n);
    if n > 0 {
        let before = matching_names(names, prefix, n - 1);
        lemma_matching_names(names, prefix, n - 1);
        assert forall|x: usize| #[trigger] all.contains(x) <==> x < n && plan_name_matches(
            names[x as int],
            prefix,
        ) by {
            assert(before.contains(x) <==> x < n - 1 && plan_name_matches(
                names[x as int],
                prefix,
            ));
            if before.contains(x) {
                let k = before.index_of(x);
                assert(all[k] == x);
            }
            if all.contains(x) && !before.contains(x) {
                let k = all.index_of(x);
                assert(k == all.len() - 1);
            }
            if plan_name_matches(names[n - 1], prefix) {
                assert(all[all.len() - 1] == (n - 1) as usize);
            }
        }
        assert forall|i: int, j: int|
            0 <= i < all.len() && 0 <= j < all.len() && i != j implies all[i] != all[j] by {
            if i < before.len() {
                assert(before.contains(before[i]));
            }
            if j < before.len() {
                assert(before.contains(before[j]));
            }
        }
    }
}

/// A prefix selects a plan exactly when one name alone is of a plan that it begins; none is
/// not found, and several are ambiguous.
pub proof fn law_a_prefix_selects_the_one_plan_it_names(names: Seq<Seq<u8>>, prefix: Seq<char>)
    requires
        names.len() <= usize::MAX,
    ensures
        match selected_plan(names, prefix) {
            Ok(i) => {
                &&& i < names.len()
                &&& plan_name_matches(names[i as int], prefix)
                &&& forall|k: int|
                    0 <= k < names.len() && plan_name_matches(#[trigger] names[k], prefix) ==> k
                        == i
            },
            Err(e) => {
                ||| e.kind == ErrorKind::NotFound && forall|k: int|
                    0 <= k < names.len() ==> !plan_name_matches(#[trigger] names[k], prefix)
                ||| e.kind == ErrorKind::Ambiguous && exists|j: int, k: int|
                    0 <= j < names.len() && 0 <= k < names.len() && j != k && plan_name_matches(
                        #[trigger] names[j],
                        prefix,
                    ) && plan_name_matches(#[trigger] names[k], prefix)
            },
        },
{
    let hits = matching_names(names, prefix, names.len() as int);
    lemma_matching_names(names, prefix, names.len() as int);
    if hits.len() == 0 {
        assert forall|k: int| 0 <= k < names.len() implies !plan_name_matches(
            #[trigger] names[k],
            prefix,
        ) by {
            assert(hits.contains(k as usize) <==> plan_name_matches(names[k], prefix));
        }
    } else {
        assert(hits.contains(hits[0]));
        if hits.len() == 1 {
            assert forall|k: int|
                0 <= k < names.len() && plan_name_matches(#[trigger] names[k], prefix) implies k
                == hits[0] by {
                assert(hits.contains(k as usize));
                let m = hits.index_of(k as usize);
                assert(m == 0);
            }
        } else {
            assert(hits.contains(hits[1]));
            assert(hits[0] != hits[1]);
            let (j, k) = (hits[0] as int, hits[1] as int);
            assert(plan_name_matches(names[j], prefix) && plan_name_matches(names[k], prefix));
        }
    }
}

/// The preview of one edit of a plan.
pub open spec fn preview_of(e: EditView) -> Seq<char> {
    edit_preview(
        e,
        decoded_or_empty(base64_decoded(e.old_b64)),
        decoded_or_empty(base64_decoded(e.new_b64)),
    )
}

/// A preview shows every edit, one behind the other in their order, each with its file, its
/// range, and every line of its old and its new text.
pub proof fn law_a_preview_shows_every_edit(edits: Seq<EditView>, n: int)
    requires
        0 <= n < edits.len(),
    ensures
        preview_text(edits) == preview_text(edits.take(n)) + preview_of(edits[n]) + preview_text(
            edits.skip(n + 1),
        ),
        preview_text(seq![]) == Seq::<char>::empty(),
        preview_of(edits[n]) == "--- "@ + lossy_text(edits[n].path) + " @ "@ + dec(edits[n].start)
            + ".."@ + dec(edits[n].end) + "\n"@ + lines_of(
            lossy_text(decoded_or_empty(base64_decoded(edits[n].old_b64))),
        ).map_values(|l: Seq<char>| "-"@ + l + "\n"@).flatten() + lines_of(
            lossy_text(decoded_or_empty(base64_decoded(edits[n].new_b64))),
        ).map_values(|l: Seq<char>| "+"@ + l + "\n"@).flatten(),
{
    lemma_preview_split(edits, n);
    let old = decoded_or_empty(base64_decoded(edits[n].old_b64));
    let new = decoded_or_empty(base64_decoded(edits[n].new_b64));
    lemma_signed_lines("-"@, lines_of(lossy_text(old)));
    lemma_signed_lines("+"@, lines_of(lossy_text(new)));
}

proof fn lemma_preview_split(edits: Seq<EditView>, n: int)
    requires
        0 <= n < edits.len(),
    ensures
        preview_text(edits) == preview_text(edits.take(n)) + preview_of(edits[n]) + preview_text(
            edits.skip(n + 1),
        ),
    decreases edits.len(),
{
    let rest = edits.drop_last();
    if n == edits.len() - 1 {
        assert(rest =~= edits.take(n));
        assert(edits.skip(n + 1) =~= Seq::<EditView>::empty());
        assert(preview_text(edits) =~= preview_text(edits.take(n)) + preview_of(edits[n])
            + preview_text(edits.skip(n + 1)));
    } else {
        lemma_preview_split(rest, n);
        assert(rest.take(n) =~= edits.take(n));
        assert(edits.skip(n + 1).drop_last() =~= rest.skip(n + 1));
        assert(edits.skip(n + 1).last() == edits.last());
        assert(preview_text(edits) =~= preview_text(edits.take(n)) + preview_of(edits[n])
            + preview_text(edits.skip(n + 1)));
    }
}

proof fn lemma_signed_lines(sign: Seq<char>, lines: Seq<Seq<char>>)
    ensures
        signed_lines(sign, lines) == lines.map_values(
            |l: Seq<char>| sign + l + "\n"@,
        ).flatten(),
    decreases lines.len(),
{
    let show = |l: Seq<char>| sign + l + "\n"@;
    let shown = lines.map_values(show);
    if lines.len() > 0 {
        lemma_signed_lines(sign, lines.drop_last());
        shown.lemma_flatten_and_flatten_alt_are_equivalent();
        lines.drop_last().map_values(show).lemma_flatten_and_flatten_alt_are_equivalent();
        assert(shown.drop_last() =~= lines.drop_last().map_values(show));
        assert(shown.last() == show(lines.last()));
        assert(signed_lines(sign, lines) =~= lines.drop_last().map_values(show).flatten() + show(
            lines.last(),
        ));
    } else {
        assert(shown =~= Seq::<Seq<char>>::empty());
    }
}

/// A plan is safe exactly when every edit of it stays below the root; otherwise the first
/// that could leave it is named.
pub proof fn law_the_first_path_that_could_leave_is_named(edits: Seq<EditView>)
    ensures
        match first_unsafe(edits, 0) {
            None => forall|i: int|
                0 <= i < edits.len() ==> root_relative((#[trigger] edits[i]).path),
            Some(k) => 0 <= k < edits.len() && !root_relative(edits[k].path) && forall|i: int|
                0 <= i < k ==> root_relative((#[trigger] edits[i]).path),
        },
{
    lemma_first_unsafe(edits, 0);
}

/// A stored plan is admitted exactly as it was saved: when the name of its file is the digest
/// of what the file holds, and a match plan has both its selector and its certificate; and
/// then it is the plan that was read. Nothing that could not be read is admitted.
pub proof fn law_a_plan_is_admitted_exactly_under_its_own_digest(
    read: PlanRead,
    prefix: Seq<char>,
    name: Seq<u8>,
)
    ensures
        match read {
            PlanRead::Parsed(p, json) => plan_id(json@).len() > 0 ==> {
                &&& loaded(read, prefix, name) is Ok <==> stem(name) == encode_utf8(plan_id(json@))
                    && (p.form == PlanForm::Match ==> p@.selector is Some && p@.certificate is Some)
                &&& loaded(read, prefix, name) matches Ok(q) ==> q == p
            },
            _ => loaded(read, prefix, name) is Err,
        },
{
    if let PlanRead::Parsed(p, json) = read {
        let id = plan_id(json@);
        encode_utf8_valid_utf8(id);
        encode_utf8_decode_utf8(id);
        if valid_utf8(stem(name)) {
            decode_utf8_encode_utf8(stem(name));
        }
    }
}

/// A plan is named by the beginning of its id: the file of an id is selected by exactly the
/// beginnings of its name.
pub proof fn law_a_plan_is_named_by_the_beginning_of_its_id(id: Seq<char>, prefix: Seq<char>)
    requires
        id.len() > 0 && is_ascii_chars(id),
    ensures
        plan_name_matches(encode_utf8(id + ".json"@), prefix) <==> prefix.is_prefix_of(
            id + ".json"@,
        ),
{
    reveal_strlit(".json");
    let text = id + ".json"@;
    let name = encode_utf8(text);
    assert(is_ascii_chars(text));
    is_ascii_chars_encode_utf8(text);
    is_ascii_chars_encode_utf8(id);
    encode_utf8_valid_utf8(text);
    encode_utf8_decode_utf8(text);
    let base = encode_utf8(id);
    let ext = json_ext();
    assert(name =~= base + seq![DOT] + ext) by {
        assert(name.len() == id.len() + 5);
        let parts = base + seq![DOT] + ext;
        assert forall|i: int| 0 <= i < name.len() implies name[i] == parts[i] by {
            assert(name[i] == text[i] as u8);
            if i < id.len() {
                assert(text[i] == id[i]);
                assert(base[i] == id[i] as u8);
            } else {
                assert(text[i] == ".json"@[i - id.len()]);
            }
        }
    }
    assert(!ext.contains(DOT));
    lemma_named_with(base, ext);
    if begins_with(text, prefix) {
        assert(prefix.is_prefix_of(text));
    }
    if prefix.is_prefix_of(text) {
        assert(text.take(prefix.len() as int) =~= prefix);
    }
}

/// A path below a directory has the components of the directory and then its own, whether the
/// directory is written with a slash at its end or without.
pub proof fn law_a_path_below_has_the_components_of_both(root: Seq<u8>, rel: Seq<u8>)
    requires
        root.len() > 1,
        rel.len() > 0 && rel[0] != SLASH && rel[0] != DOT,
    ensures
        components(joined(root, rel)) == components(root) + components(rel),
{
    let name = seq![97u8];
    assert(name[0] == 97u8 && seq![DOT][0] == DOT && seq![DOT, DOT][0] == DOT);
    if root.last() == SLASH {
        let dir = root.drop_last();
        assert(root =~= dir + seq![SLASH]);
        law_components_are_joined_by_slashes(dir, rel, name);
        assert(joined(root, rel) =~= dir + seq![SLASH] + rel);
    } else {
        law_components_are_joined_by_slashes(root, rel, name);
    }
}

} // verus!
