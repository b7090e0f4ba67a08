//! The fail-closed application of a plan and its undoing: what is checked, what each file
//! becomes, and in which order the changes reach the disk.

use crate::codec::{b64d, b64e, base64_decoded, base64_text, blake3_hex, bytes_hash};
use crate::crash::{distinct_files, records};
use crate::errors::{refusal, refusal_next, ErrorKind, ErrorView, VcError, VcResult};
use crate::fault::FaultPoint;
use crate::journal::{journal_ids, DirEntry, EntryView, FileImage, ImageView, Journal, JournalEntry};
use crate::order::{
    law_rank_order_is_total, law_stable_sort_orders_and_keeps_items, lemma_filter_members,
    rank_less, ranks_ascend, stable_sort, stable_sorted, views, Rank, RankView, Ranked,
};
use crate::ordmap::{
    has_rank, keys_ascend, law_stored_reads_back, lemma_slot, lookup, slot, stored, OrdMap,
};
use crate::paths::{
    components, path_is_root_relative, path_rank, path_starts_with, root_relative, same_path,
    TreePath,
};
use crate::plan::{first_unsafe, EditView, Plan, PlanView, ResolvedEdit};
use crate::strings::joined_with;
use crate::text::{dec, lossy_text, push_dec, same_text, slice_copy};
use vstd::prelude::*;
use vstd::string::*;

verus! {

/// What a successful apply or undo reports.
#[derive(Debug, Clone)]
pub struct ApplyReport {
    pub journal_id: String,
    pub files: usize,
    pub edits: usize,
    pub epoch_after: String,
    /// Set when the change itself is committed but the index could not be refreshed.
    pub warning: Option<String>,
}

/// What was seen at a path that is about to be changed. What comes later in this list was
/// looked at only when what comes earlier did not hold.
#[derive(Debug)]
pub enum Sighting {
    /// There is no file.
    Missing,
    /// The path could not be examined, for this reason.
    Unreadable(String),
    /// The path itself is a symbolic link.
    Symlink,
    /// The canonical path of the parent directory could not be had, for this reason.
    LostParent(String),
    /// There is a file below the canonical directory `parent`; `hash` is the digest of its
    /// contents, or why they could not be read.
    Present { parent: TreePath, hash: Result<String, String> },
}

/// What a [`Sighting`] says.
pub enum SightingView {
    Missing,
    Unreadable(Seq<char>),
    Symlink,
    LostParent(Seq<char>),
    Present { parent: Seq<u8>, hash: Result<Seq<char>, Seq<char>> },
}

impl View for Sighting {
    type V = SightingView;

    open spec fn view(&self) -> SightingView {
        match self {
            Sighting::Missing => SightingView::Missing,
            Sighting::Unreadable(why) => SightingView::Unreadable(why@),
            Sighting::Symlink => SightingView::Symlink,
            Sighting::LostParent(why) => SightingView::LostParent(why@),
            Sighting::Present { parent, hash } => SightingView::Present {
                parent: parent@,
                hash: match hash {
                    Ok(h) => Ok(h@),
                    Err(why) => Err(why@),
                },
            },
        }
    }
}

/// The verdict on one file.
pub enum Verdict {
    Fresh,
    Stale,
    Refused(ErrorView),
}

/// The refusal for a recorded path that could leave the root.
pub open spec fn escaping_path(rel: Seq<u8>) -> ErrorView {
    refusal(
        ErrorKind::Malformed,
        lossy_text(rel) + ": path must be relative with no '..' components"@,
    )
}

/// Whether the file at `rel` is still what was recorded: not a link, in a directory that is
/// still below the root, and with the recorded digest. When `undoing`, whatever cannot be
/// examined or read counts as changed; otherwise only a missing file does, and the rest
/// refuses.
pub open spec fn verdict(
    rel: Seq<u8>,
    expected: Seq<char>,
    seen: SightingView,
    root_real: Seq<u8>,
    undoing: bool,
) -> Verdict {
    if !root_relative(rel) {
        Verdict::Refused(escaping_path(rel))
    } else {
        match seen {
            SightingView::Missing => Verdict::Stale,
            SightingView::Unreadable(why) => if undoing {
                Verdict::Stale
            } else {
                Verdict::Refused(refusal(ErrorKind::Io, why))
            },
            SightingView::Symlink => Verdict::Refused(
                refusal(ErrorKind::Toctou, lossy_text(rel) + ": refusing to follow symlink"@),
            ),
            SightingView::LostParent(why) => Verdict::Refused(
                refusal(ErrorKind::Toctou, lossy_text(rel) + ": "@ + why),
            ),
            SightingView::Present { parent, hash } => if !path_starts_with(parent, root_real) {
                Verdict::Refused(
                    refusal(
                        ErrorKind::Toctou,
                        lossy_text(rel) + ": parent directory escaped the plan root"@,
                    ),
                )
            } else {
                match hash {
                    Ok(h) => if h == expected {
                        Verdict::Fresh
                    } else {
                        Verdict::Stale
                    },
                    Err(why) => if undoing {
                        Verdict::Stale
                    } else {
                        Verdict::Refused(refusal(ErrorKind::Io, why))
                    },
                }
            },
        }
    }
}

/// The changed files among those from `i` on, added to `stale`; the first refusal decides.
pub open spec fn stale_from(
    files: Seq<(Seq<u8>, Seq<char>)>,
    seen: Seq<SightingView>,
    root_real: Seq<u8>,
    undoing: bool,
    i: int,
    stale: Seq<Seq<u8>>,
) -> Result<Seq<Seq<u8>>, ErrorView>
    decreases files.len() - i,
{
    if i >= files.len() {
        Ok(stale)
    } else {
        match verdict(files[i].0, files[i].1, seen[i], root_real, undoing) {
            Verdict::Refused(e) => Err(e),
            Verdict::Stale => stale_from(
                files,
                seen,
                root_real,
                undoing,
                i + 1,
                stale.push(files[i].0),
            ),
            Verdict::Fresh => stale_from(files, seen, root_real, undoing, i + 1, stale),
        }
    }
}

/// The texts, with `, ` between them.
pub open spec fn comma_list(paths: Seq<Seq<u8>>) -> Seq<char>
    decreases paths.len(),
{
    if paths.len() == 0 {
        seq![]
    } else if paths.len() == 1 {
        lossy_text(paths[0])
    } else {
        comma_list(paths.drop_last()) + ", "@ + lossy_text(paths.last())
    }
}

/// Paths for a message, with `, ` between them.
pub fn display_list(paths: &Vec<TreePath>) -> (text: String)
    ensures
        text@ == comma_list(views(paths@)),
{
    let mut out: String = String::new();
    let ghost pv = views(paths@);
    let mut i: usize = 0;
    assert(pv.take(0) =~= Seq::<Seq<u8>>::empty());
    while i < paths.len()
        invariant
            i <= paths.len(),
            pv == views(paths@),
            out@ == comma_list(pv.take(i as int)),
        decreases paths.len() - i,
    {
        proof {
            assert(pv.take(i + 1).drop_last() =~= pv.take(i as int));
            assert(pv.take(i + 1).last() == paths@[i as int]@);
        }
        if i > 0 {
            out.append(", ");
        }
        let name = paths[i].display();
        let ghost before = out@;
        out.append(name.as_str());
        proof {
            if i == 0 {
                assert(before =~= Seq::<char>::empty());
                assert(out@ =~= name@);
            }
        }
        i = i + 1;
    }
    assert(pv.take(paths.len() as int) =~= pv);
    out
}

/// The files of a list of images, with the digests they should have now.
pub open spec fn image_files(images: Seq<ImageView>) -> Seq<(Seq<u8>, Seq<char>)> {
    images.map_values(|f: ImageView| (f.path, f.post_hash))
}

/// The verdict on one file, executably: `Ok(true)` when it is still as recorded.
fn judge(rel: &TreePath, expected: &str, seen: &Sighting, root_real: &TreePath, undoing: bool) -> (r:
    VcResult<bool>)
    ensures
        match (verdict(rel@, expected@, seen@, root_real@, undoing), r) {
            (Verdict::Fresh, Ok(b)) => b,
            (Verdict::Stale, Ok(b)) => !b,
            (Verdict::Refused(e), Err(f)) => f@ == e,
            _ => false,
        },
{
    if !path_is_root_relative(rel) {
        let mut m: String = rel.display();
        m.append(": path must be relative with no '..' components");
        return Err(VcError::new(ErrorKind::Malformed, m));
    }
    match seen {
        Sighting::Missing => Ok(false),
        Sighting::Unreadable(why) => {
            if undoing {
                Ok(false)
            } else {
                Err(VcError::new(ErrorKind::Io, why.clone()))
            }
        },
        Sighting::Symlink => {
            let mut m: String = rel.display();
            m.append(": refusing to follow symlink");
            Err(VcError::new(ErrorKind::Toctou, m))
        },
        Sighting::LostParent(why) => {
            let mut m: String = rel.display();
            m.append(": ");
            m.append(why.as_str());
            Err(VcError::new(ErrorKind::Toctou, m))
        },
        Sighting::Present { parent, hash } => {
            if !parent.starts_with(root_real) {
                let mut m: String = rel.display();
                m.append(": parent directory escaped the plan root");
                return Err(VcError::new(ErrorKind::Toctou, m));
            }
            match hash {
                Ok(h) => Ok(same_text(h.as_str(), expected)),
                Err(why) => {
                    if undoing {
                        Ok(false)
                    } else {
                        Err(VcError::new(ErrorKind::Io, why.clone()))
                    }
                },
            }
        },
    }
}

/// What checking a plan's files gives.
pub open spec fn verification(p: PlanView, sha8: Seq<char>, seen: Seq<SightingView>) -> Result<
    (),
    ErrorView,
> {
    match stale_from(p.files, seen, p.root_real, false, 0, seq![]) {
        Err(e) => Err(e),
        Ok(stale) => if stale.len() == 0 {
            Ok(())
        } else {
            Err(
                refusal_next(
                    ErrorKind::Stale,
                    "changed since plan: "@ + comma_list(stale),
                    "vc plan refresh "@ + sha8,
                ),
            )
        },
    }
}

/// Checks every file that the plan names against what was seen at its path. Changed files
/// are collected, so that the refusal names all of them.
pub fn verify_files(p: &Plan, sha8: &str, seen: &Vec<Sighting>) -> (r: VcResult<()>)
    requires
        seen@.len() == p.files@.len(),
    ensures
        match (verification(p@, sha8@, views(seen@)), r) {
            (Ok(_), Ok(_)) => true,
            (Err(e), Err(f)) => f@ == e,
            _ => false,
        },
{
    let mut stale: Vec<TreePath> = Vec::new();
    let ghost sv = views(seen@);
    let ghost whole = stale_from(p.files@, sv, p.root_real@, false, 0, seq![]);
    let mut i: usize = 0;
    assert(views(stale@) =~= Seq::<Seq<u8>>::empty());
    while i < p.files.entries.len()
        invariant
            i <= p.files.entries.len(),
            seen@.len() == p.files@.len(),
            sv == views(seen@),
            whole == stale_from(p.files@, sv, p.root_real@, false, 0, seq![]),
            whole == stale_from(p.files@, sv, p.root_real@, false, i as int, views(stale@)),
        decreases p.files.entries.len() - i,
    {
        let entry = &p.files.entries[i];
        assert(p.files@[i as int] == (entry.0@, entry.1@));
        assert(sv[i as int] == seen@[i as int]@);
        let fresh = match judge(&entry.0, entry.1.as_str(), &seen[i], &p.root_real, false) {
            Ok(fresh) => fresh,
            Err(e) => {
                return Err(e);
            },
        };
        if !fresh {
            let ghost before = views(stale@);
            stale.push(entry.0.copy());
            assert(views(stale@) =~= before.push(entry.0@));
        }
        i = i + 1;
    }
    if stale.len() > 0 {
        let mut m: String = "changed since plan: ".to_owned();
        let list = display_list(&stale);
        m.append(list.as_str());
        let mut next: String = "vc plan refresh ".to_owned();
        next.append(sha8);
        return Err(VcError::new(ErrorKind::Stale, m).with_next(next));
    }
    Ok(())
}

/// The edits' places by file, from edit `i` on, added to `done`: files in path order, the
/// edits of each in their order.
pub open spec fn grouped_from(
    edits: Seq<EditView>,
    i: int,
    done: Seq<(Seq<u8>, Seq<usize>)>,
) -> Seq<(Seq<u8>, Seq<usize>)>
    decreases edits.len() - i,
{
    if i >= edits.len() {
        done
    } else {
        let path = edits[i].path;
        let places = match lookup::<TreePath, Seq<usize>>(done, path_rank(path)) {
            Some(list) => list,
            None => seq![],
        };
        grouped_from(
            edits,
            i + 1,
            stored::<TreePath, Seq<usize>>(done, path, places.push(i as usize)),
        )
    }
}

/// The edits' places by file.
pub open spec fn grouped(edits: Seq<EditView>) -> Seq<(Seq<u8>, Seq<usize>)> {
    grouped_from(edits, 0, seq![])
}

/// Whether every place in the groups is one of the first `n` edits.
pub open spec fn places_below(groups: Seq<(Seq<u8>, Seq<usize>)>, n: int) -> bool {
    forall|g: int, k: int|
        0 <= g < groups.len() && 0 <= k < groups[g].1.len() ==> (#[trigger] groups[g].1[k]) < n
}

proof fn lemma_stored_places(
    groups: Seq<(Seq<u8>, Seq<usize>)>,
    path: Seq<u8>,
    places: Seq<usize>,
    n: int,
)
    requires
        crate::ordmap::keys_ascend::<TreePath, Seq<usize>>(groups),
        places_below(groups, n),
        forall|k: int| 0 <= k < places.len() ==> #[trigger] places[k] <= n,
    ensures
        places_below(stored::<TreePath, Seq<usize>>(groups, path, places), n + 1),
{
    crate::ordmap::lemma_slot::<TreePath, Seq<usize>>(groups, path_rank(path));
    let at = crate::ordmap::slot::<TreePath, Seq<usize>>(groups, path_rank(path)) as int;
    let now = stored::<TreePath, Seq<usize>>(groups, path, places);
    assert forall|g: int, k: int|
        0 <= g < now.len() && 0 <= k < now[g].1.len() implies (#[trigger] now[g].1[k]) < n + 1 by {
        if g == at {
            assert(now[g].1 == places);
        } else if now.len() == groups.len() {
            assert(now[g] == groups[g]);
            assert(groups[g].1[k] < n);
        } else {
            let old_g = if g < at {
                g
            } else {
                g - 1
            };
            assert(now[g] == groups[old_g]);
            assert(groups[old_g].1[k] < n);
        }
    }
}

/// The places of the plan's edits by file: files in path order, the edits of each in their
/// order.
pub fn group_edits_by_file(p: &Plan) -> (groups: OrdMap<TreePath, Vec<usize>>)
    ensures
        groups.wf(),
        groups@ == grouped(views(p.edits@)),
        places_below(groups@, p.edits@.len() as int),
{
    let mut groups: OrdMap<TreePath, Vec<usize>> = OrdMap::new();
    let ghost ev = views(p.edits@);
    let mut i: usize = 0;
    while i < p.edits.len()
        invariant
            i <= p.edits.len(),
            ev == views(p.edits@),
            groups.wf(),
            grouped(ev) == grouped_from(ev, i as int, groups@),
            places_below(groups@, i as int),
        decreases p.edits.len() - i,
    {
        let path = &p.edits[i].path;
        assert(ev[i as int].path == path@);
        let ghost before = groups@;
        let mut places: Vec<usize> = match groups.get(path) {
            Some(list) => {
                let copy = list.clone();
                assert(copy@ =~= list@);
                copy
            },
            None => Vec::new(),
        };
        proof {
            crate::ordmap::lemma_slot::<TreePath, Seq<usize>>(before, path_rank(path@));
            if lookup::<TreePath, Seq<usize>>(before, path_rank(path@)) is None {
                assert(places@ =~= Seq::<usize>::empty());
            }
            assert forall|k: int| 0 <= k < places@.len() implies #[trigger] places@[k] < i by {
                let at = crate::ordmap::slot::<TreePath, Seq<usize>>(before, path_rank(path@));
                assert(before[at as int].1[k] < i);
            }
        }
        places.push(i);
        groups.insert(path.copy(), places);
        proof {
            lemma_stored_places(before, path@, places@, i as int);
        }
        i = i + 1;
    }
    groups
}

/// `buf` with `start..end` replaced by `new`.
pub open spec fn spliced(buf: Seq<u8>, start: nat, end: nat, new: Seq<u8>) -> Seq<u8> {
    buf.take(start as int) + new + buf.skip(end as int)
}

/// The refusal for an edit whose range does not fit the file.
pub open spec fn bad_range(path: Seq<u8>, e: EditView, pre_len: nat) -> ErrorView {
    refusal(
        ErrorKind::Malformed,
        lossy_text(path) + ": edit range "@ + dec(e.start) + ".."@ + dec(e.end)
            + " invalid for a "@ + dec(pre_len) + "-byte file"@,
    )
}

/// The contents after the first `n` edits at `places`, the last of them first. An edit has
/// to fit the file as it was read and as it stands.
pub open spec fn patched(
    path: Seq<u8>,
    edits: Seq<EditView>,
    places: Seq<usize>,
    pre_len: nat,
    buf: Seq<u8>,
    n: nat,
) -> Result<Seq<u8>, ErrorView>
    decreases n,
{
    if n == 0 {
        Ok(buf)
    } else {
        let e = edits[places[n - 1] as int];
        if e.start > e.end || e.end > pre_len || e.end > buf.len() {
            Err(bad_range(path, e, pre_len))
        } else {
            match base64_decoded(e.new_b64) {
                Err(why) => Err(refusal(ErrorKind::Malformed, "base64: "@ + why)),
                Ok(new) => patched(
                    path,
                    edits,
                    places,
                    pre_len,
                    spliced(buf, e.start, e.end, new),
                    (n - 1) as nat,
                ),
            }
        }
    }
}

/// A copy of `buf` with `start..end` replaced by `new`.
fn splice(buf: &Vec<u8>, start: usize, end: usize, new: &Vec<u8>) -> (out: Vec<u8>)
    requires
        start <= end <= buf@.len(),
    ensures
        out@ == spliced(buf@, start as nat, end as nat, new@),
{
    let mut out: Vec<u8> = slice_copy(buf.as_slice(), 0, start);
    out.extend_from_slice(new.as_slice());
    let tail = slice_copy(buf.as_slice(), end, buf.len());
    out.extend_from_slice(tail.as_slice());
    assert(out@ =~= spliced(buf@, start as nat, end as nat, new@));
    out
}

/// The contents of one file after its edits.
pub fn patch_file(
    path: &TreePath,
    edits: &Vec<ResolvedEdit>,
    places: &Vec<usize>,
    pre: &Vec<u8>,
) -> (r: VcResult<Vec<u8>>)
    requires
        forall|k: int| 0 <= k < places@.len() ==> #[trigger] places@[k] < edits@.len(),
    ensures
        match (
            patched(path@, views(edits@), places@, pre@.len(), pre@, places@.len()),
            r,
        ) {
            (Ok(post), Ok(out)) => out@ == post,
            (Err(e), Err(f)) => f@ == e,
            _ => false,
        },
{
    let ghost ev = views(edits@);
    let ghost whole = patched(path@, ev, places@, pre@.len(), pre@, places@.len());
    let mut post: Vec<u8> = slice_copy(pre.as_slice(), 0, pre.len());
    let mut n: usize = places.len();
    assert(post@ =~= pre@);
    while n > 0
        invariant
            n <= places@.len(),
            ev == views(edits@),
            forall|k: int| 0 <= k < places@.len() ==> #[trigger] places@[k] < edits@.len(),
            whole == patched(path@, ev, places@, pre@.len(), pre@, places@.len()),
            whole == patched(path@, ev, places@, pre@.len(), post@, n as nat),
        decreases n,
    {
        assert(places@[n - 1] < edits@.len());
        let e = &edits[places[n - 1]];
        assert(ev[places@[n - 1] as int] == e@);
        if e.start > e.end || e.end > pre.len() || e.end > post.len() {
            let mut m: String = path.display();
            m.append(": edit range ");
            push_dec(&mut m, e.start as u64);
            m.append("..");
            push_dec(&mut m, e.end as u64);
            m.append(" invalid for a ");
            push_dec(&mut m, pre.len() as u64);
            m.append("-byte file");
            return Err(VcError::new(ErrorKind::Malformed, m));
        }
        let new = match b64d(e.new_b64.as_str()) {
            Ok(new) => new,
            Err(e) => {
                return Err(e);
            },
        };
        post = splice(&post, e.start, e.end, &new);
        n = n - 1;
    }
    Ok(post)
}

/// A change of one file: the contents found, and what they become.
#[derive(Debug, Clone)]
pub struct Change {
    pub path: TreePath,
    pub pre: Vec<u8>,
    pub post: Vec<u8>,
}

/// What a [`Change`] says.
pub struct ChangeView {
    pub path: Seq<u8>,
    pub pre: Seq<u8>,
    pub post: Seq<u8>,
}

impl View for Change {
    type V = ChangeView;

    open spec fn view(&self) -> ChangeView {
        ChangeView { path: self.path@, pre: self.pre@, post: self.post@ }
    }
}

impl Ranked for Change {
    open spec fn rank_at(v: ChangeView) -> RankView {
        path_rank(v.path)
    }

    fn rank_of(&self) -> (r: Rank) {
        self.path.rank_of()
    }
}

/// The contents read from a file, or why they could not be.
#[derive(Debug)]
pub enum FileRead {
    Bytes(Vec<u8>),
    Failed(String),
}

/// What a [`FileRead`] says.
pub enum ReadView {
    Bytes(Seq<u8>),
    Failed(Seq<char>),
}

impl View for FileRead {
    type V = ReadView;

    open spec fn view(&self) -> ReadView {
        match self {
            FileRead::Bytes(b) => ReadView::Bytes(b@),
            FileRead::Failed(why) => ReadView::Failed(why@),
        }
    }
}

/// The changes of the files from group `i` on, added to `done`; the first that cannot be
/// made decides.
pub open spec fn changes_from(
    edits: Seq<EditView>,
    groups: Seq<(Seq<u8>, Seq<usize>)>,
    reads: Seq<ReadView>,
    i: int,
    done: Seq<ChangeView>,
) -> Result<Seq<ChangeView>, ErrorView>
    decreases groups.len() - i,
{
    if i >= groups.len() {
        Ok(done)
    } else {
        let (path, places) = groups[i];
        match reads[i] {
            ReadView::Failed(why) => Err(refusal(ErrorKind::Io, why)),
            ReadView::Bytes(pre) => match patched(
                path,
                edits,
                places,
                pre.len(),
                pre,
                places.len(),
            ) {
                Err(e) => Err(e),
                Ok(post) => changes_from(
                    edits,
                    groups,
                    reads,
                    i + 1,
                    done.push(ChangeView { path, pre, post }),
                ),
            },
        }
    }
}

/// The refusal while an earlier change is neither committed nor rolled back.
pub open spec fn pending_refusal(pending: Seq<Seq<char>>) -> ErrorView {
    refusal_next(
        ErrorKind::JournalBlocked,
        "pending journal entry "@ + pending.last(),
        "vc doctor --rollback"@,
    )
}

/// What applying a plan gives: the changes, in path order, or the first refusal.
pub open spec fn application(
    p: PlanView,
    sha8: Seq<char>,
    pending: Seq<Seq<char>>,
    seen: Seq<SightingView>,
    reads: Seq<ReadView>,
) -> Result<Seq<ChangeView>, ErrorView> {
    if pending.len() > 0 {
        Err(pending_refusal(pending))
    } else {
        match verification(p, sha8, seen) {
            Err(e) => Err(e),
            Ok(_) => if p.edits.len() != p.expected_count {
                Err(
                    refusal(
                        ErrorKind::Malformed,
                        "plan expected "@ + dec(p.expected_count) + " edits but has "@ + dec(
                            p.edits.len(),
                        ),
                    ),
                )
            } else {
                match first_unsafe(p.edits, 0) {
                    Some(i) => Err(escaping_path(p.edits[i].path)),
                    None => changes_from(p.edits, grouped(p.edits), reads, 0, seq![]),
                }
            },
        }
    }
}

/// Refuses while a journal entry is pending.
pub fn refuse_if_pending(pending: &Vec<String>) -> (r: VcResult<()>)
    ensures
        match r {
            Ok(_) => pending@.len() == 0,
            Err(e) => pending@.len() > 0 && e@ == pending_refusal(views(pending@)),
        },
{
    if pending.len() == 0 {
        return Ok(());
    }
    let mut m: String = "pending journal entry ".to_owned();
    m.append(pending[pending.len() - 1].as_str());
    assert(views(pending@).last() == pending@.last()@);
    Err(
        VcError::new(ErrorKind::JournalBlocked, m).with_next("vc doctor --rollback".to_owned()),
    )
}

/// Decides the application of a plan: refused while a journal entry is pending, when a file
/// is not as recorded, or when the plan is damaged; otherwise every touched file's new
/// contents. `seen` are the sightings of the plan's files, `reads` the contents of the
/// files with edits, each in path order. Nothing is written before all of it is decided.
pub fn apply_plan(
    p: &Plan,
    sha8: &str,
    pending: &Vec<String>,
    seen: &Vec<Sighting>,
    reads: &Vec<FileRead>,
) -> (r: VcResult<Vec<Change>>)
    requires
        seen@.len() == p.files@.len(),
        reads@.len() == grouped(p@.edits).len(),
    ensures
        match (application(p@, sha8@, views(pending@), views(seen@), views(reads@)), r) {
            (Ok(c), Ok(d)) => views(d@) == c,
            (Err(e), Err(f)) => f@ == e,
            _ => false,
        },
{
    match refuse_if_pending(pending) {
        Ok(_) => {},
        Err(e) => {
            return Err(e);
        },
    }
    match verify_files(p, sha8, seen) {
        Ok(_) => {},
        Err(e) => {
            return Err(e);
        },
    }
    if p.edits.len() != p.expected_count {
        let mut m: String = "plan expected ".to_owned();
        push_dec(&mut m, p.expected_count as u64);
        m.append(" edits but has ");
        push_dec(&mut m, p.edits.len() as u64);
        return Err(VcError::new(ErrorKind::Malformed, m));
    }
    let ghost ev = views(p.edits@);
    let mut u: usize = 0;
    while u < p.edits.len()
        invariant
            u <= p.edits.len(),
            ev == views(p.edits@),
            first_unsafe(ev, 0) == first_unsafe(ev, u as int),
            pending@.len() == 0,
            verification(p@, sha8@, views(seen@)) is Ok,
            p@.edits.len() == p@.expected_count,
        decreases p.edits.len() - u,
    {
        assert(ev[u as int].path == p.edits@[u as int].path@);
        if !path_is_root_relative(&p.edits[u].path) {
            let mut m: String = p.edits[u].path.display();
            m.append(": path must be relative with no '..' components");
            return Err(VcError::new(ErrorKind::Malformed, m));
        }
        u = u + 1;
    }
    let groups = group_edits_by_file(p);
    let ghost rv = views(reads@);
    let ghost gv = groups@;
    let ghost whole = changes_from(ev, gv, rv, 0, seq![]);
    let mut changes: Vec<Change> = Vec::new();
    assert(views(changes@) =~= Seq::<ChangeView>::empty());
    let mut i: usize = 0;
    while i < groups.entries.len()
        invariant
            i <= groups.entries.len(),
            ev == views(p.edits@),
            rv == views(reads@),
            gv == groups@,
            reads@.len() == gv.len(),
            places_below(gv, p.edits@.len() as int),
            application(p@, sha8@, views(pending@), views(seen@), views(reads@)) == whole,
            whole == changes_from(ev, gv, rv, i as int, views(changes@)),
        decreases groups.entries.len() - i,
    {
        let entry = &groups.entries[i];
        assert(gv[i as int] == (entry.0@, entry.1@));
        assert(rv[i as int] == reads@[i as int]@);
        match &reads[i] {
            FileRead::Failed(why) => {
                return Err(VcError::new(ErrorKind::Io, why.clone()));
            },
            FileRead::Bytes(pre) => {
                assert forall|k: int| 0 <= k < entry.1@.len() implies #[trigger] entry.1@[k]
                    < p.edits@.len() by {
                    assert(gv[i as int].1[k] < p.edits@.len());
                }
                match patch_file(&entry.0, &p.edits, &entry.1, pre) {
                    Ok(post) => {
                        let ghost before = views(changes@);
                        let kept = slice_copy(pre.as_slice(), 0, pre.len());
                        assert(kept@ =~= pre@);
                        let change = Change { path: entry.0.copy(), pre: kept, post };
                        changes.push(change);
                        assert(views(changes@) =~= before.push(change@));
                    },
                    Err(e) => {
                        return Err(e);
                    },
                }
            },
        }
        i = i + 1;
    }
    Ok(changes)
}

/// Which entry an undo goes back over: the named one, or the last committed.
pub open spec fn undo_choice(id: Option<Seq<char>>, committed: Seq<Seq<char>>) -> Result<
    Seq<char>,
    ErrorView,
> {
    match id {
        Some(s) => Ok(s),
        None => if committed.len() == 0 {
            Err(refusal_next(ErrorKind::NotFound, "nothing to undo"@, "vc status"@))
        } else {
            Ok(committed.last())
        },
    }
}

/// Chooses the entry that an undo goes back over.
pub fn undo_target(id: Option<String>, dir: &Vec<DirEntry>) -> (r: VcResult<String>)
    ensures
        match (
            undo_choice(crate::errors::opt_text(id), journal_ids(views(dir@), true)),
            r,
        ) {
            (Ok(s), Ok(t)) => t@ == s,
            (Err(e), Err(f)) => f@ == e,
            _ => false,
        },
{
    match id {
        Some(s) => Ok(s),
        None => match Journal::last_committed(dir) {
            Some(s) => Ok(s),
            None => Err(
                VcError::new(ErrorKind::NotFound, "nothing to undo".to_owned()).with_next(
                    "vc status".to_owned(),
                ),
            ),
        },
    }
}

/// The reversing changes of the files from image `i` on, added to `done`.
pub open spec fn reversals_from(
    images: Seq<ImageView>,
    reads: Seq<ReadView>,
    i: int,
    done: Seq<ChangeView>,
) -> Result<Seq<ChangeView>, ErrorView>
    decreases images.len() - i,
{
    if i >= images.len() {
        Ok(done)
    } else {
        match reads[i] {
            ReadView::Failed(why) => Err(refusal(ErrorKind::Io, why)),
            ReadView::Bytes(current) => match base64_decoded(images[i].pre_b64) {
                Err(why) => Err(refusal(ErrorKind::Malformed, "base64: "@ + why)),
                Ok(pre) => reversals_from(
                    images,
                    reads,
                    i + 1,
                    done.push(ChangeView { path: images[i].path, pre: current, post: pre }),
                ),
            },
        }
    }
}

/// What checking the files of an entry before undoing it gives.
pub open spec fn undo_verification(
    entry: EntryView,
    root_real: Seq<u8>,
    seen: Seq<SightingView>,
) -> Result<(), ErrorView> {
    match stale_from(image_files(entry.files), seen, root_real, true, 0, seq![]) {
        Err(e) => Err(e),
        Ok(stale) => if stale.len() > 0 {
            Err(
                refusal_next(
                    ErrorKind::Stale,
                    "changed since apply: "@ + comma_list(stale),
                    "vc status"@,
                ),
            )
        } else {
            Ok(())
        },
    }
}

/// What undoing an entry gives: every file back to what it was, in path order; refused when
/// a file is no longer what the entry left behind.
pub open spec fn reversal(
    entry: EntryView,
    root_real: Seq<u8>,
    seen: Seq<SightingView>,
    reads: Seq<ReadView>,
) -> Result<Seq<ChangeView>, ErrorView> {
    match undo_verification(entry, root_real, seen) {
        Err(e) => Err(e),
        Ok(_) => match reversals_from(entry.files, reads, 0, seq![]) {
            Err(e) => Err(e),
            Ok(changes) => Ok(stable_sorted::<Change>(changes)),
        },
    }
}

/// Checks the files of an entry against what was seen at their paths before undoing it.
pub fn verify_undo(entry: &JournalEntry, root_real: &TreePath, seen: &Vec<Sighting>) -> (r: VcResult<
    (),
>)
    requires
        seen@.len() == entry.files@.len(),
    ensures
        match (undo_verification(entry@, root_real@, views(seen@)), r) {
            (Ok(_), Ok(_)) => true,
            (Err(e), Err(f)) => f@ == e,
            _ => false,
        },
{
    let ghost files = image_files(entry@.files);
    let ghost sv = views(seen@);
    let ghost whole = stale_from(files, sv, root_real@, true, 0, seq![]);
    let mut stale: Vec<TreePath> = Vec::new();
    let mut i: usize = 0;
    assert(views(stale@) =~= Seq::<Seq<u8>>::empty());
    while i < entry.files.len()
        invariant
            i <= entry.files.len(),
            seen@.len() == entry.files@.len(),
            files == image_files(entry@.files),
            sv == views(seen@),
            whole == stale_from(files, sv, root_real@, true, 0, seq![]),
            whole == stale_from(files, sv, root_real@, true, i as int, views(stale@)),
        decreases entry.files.len() - i,
    {
        let fi = &entry.files[i];
        assert(entry@.files[i as int] == fi@);
        assert(files[i as int] == (fi.path@, fi.post_hash@));
        assert(sv[i as int] == seen@[i as int]@);
        let fresh = match judge(&fi.path, fi.post_hash.as_str(), &seen[i], root_real, true) {
            Ok(fresh) => fresh,
            Err(e) => {
                return Err(e);
            },
        };
        if !fresh {
            let ghost before = views(stale@);
            stale.push(fi.path.copy());
            assert(views(stale@) =~= before.push(fi.path@));
        }
        i = i + 1;
    }
    if stale.len() > 0 {
        let mut m: String = "changed since apply: ".to_owned();
        let list = display_list(&stale);
        m.append(list.as_str());
        return Err(VcError::new(ErrorKind::Stale, m).with_next("vc status".to_owned()));
    }
    Ok(())
}

/// Decides the undoing of a committed entry. `seen` are the sightings of its files and
/// `reads` their contents, in the entry's order.
pub fn undo(
    entry: &JournalEntry,
    root_real: &TreePath,
    seen: &Vec<Sighting>,
    reads: &Vec<FileRead>,
) -> (r: VcResult<Vec<Change>>)
    requires
        seen@.len() == entry.files@.len(),
        reads@.len() == entry.files@.len(),
    ensures
        match (reversal(entry@, root_real@, views(seen@), views(reads@)), r) {
            (Ok(c), Ok(d)) => views(d@) == c,
            (Err(e), Err(f)) => f@ == e,
            _ => false,
        },
{
    match verify_undo(entry, root_real, seen) {
        Ok(_) => {},
        Err(e) => {
            return Err(e);
        },
    }
    let ghost images = entry@.files;
    let ghost rv = views(reads@);
    let ghost whole = reversals_from(images, rv, 0, seq![]);
    let mut changes: Vec<Change> = Vec::new();
    assert(views(changes@) =~= Seq::<ChangeView>::empty());
    let mut i: usize = 0;
    while i < entry.files.len()
        invariant
            i <= entry.files.len(),
            reads@.len() == entry.files@.len(),
            images == entry@.files,
            rv == views(reads@),
            undo_verification(entry@, root_real@, views(seen@)) is Ok,
            whole == reversals_from(images, rv, 0, seq![]),
            whole == reversals_from(images, rv, i as int, views(changes@)),
        decreases entry.files.len() - i,
    {
        let fi = &entry.files[i];
        assert(images[i as int] == fi@);
        assert(rv[i as int] == reads@[i as int]@);
        match &reads[i] {
            FileRead::Failed(why) => {
                return Err(VcError::new(ErrorKind::Io, why.clone()));
            },
            FileRead::Bytes(current) => match b64d(fi.pre_b64.as_str()) {
                Ok(pre) => {
                    let ghost before = views(changes@);
                    let kept = slice_copy(current.as_slice(), 0, current.len());
                    assert(kept@ =~= current@);
                    let change = Change { path: fi.path.copy(), pre: kept, post: pre };
                    changes.push(change);
                    assert(views(changes@) =~= before.push(change@));
                },
                Err(e) => {
                    return Err(e);
                },
            },
        }
        i = i + 1;
    }
    Ok(stable_sort(changes))
}

/// The image of one change.
pub open spec fn image_of(c: ChangeView) -> ImageView {
    ImageView {
        path: c.path,
        pre_b64: base64_text(c.pre),
        pre_hash: blake3_hex(c.pre),
        post_hash: blake3_hex(c.post),
    }
}

/// The journal entry of a list of changes.
pub open spec fn entry_of(
    id: Seq<char>,
    plan_id: Seq<char>,
    now: u64,
    changes: Seq<ChangeView>,
) -> EntryView {
    EntryView {
        id,
        plan_id,
        created_unix: now,
        files: changes.map_values(|c: ChangeView| image_of(c)),
    }
}

/// The journal entry that has to be durable before any of `changes` is written. What it
/// records decodes to the contents found.
pub fn journal_entry(id: String, plan_id: String, now: u64, changes: &Vec<Change>) -> (e:
    JournalEntry)
    ensures
        e@ == entry_of(id@, plan_id@, now, views(changes@)),
        records(e@, views(changes@)),
{
    let mut files: Vec<FileImage> = Vec::new();
    let ghost cv = views(changes@);
    let ghost wanted = cv.map_values(|c: ChangeView| image_of(c));
    let mut i: usize = 0;
    assert(views(files@) =~= wanted.take(0));
    while i < changes.len()
        invariant
            i <= changes.len(),
            cv == views(changes@),
            wanted == cv.map_values(|c: ChangeView| image_of(c)),
            views(files@) == wanted.take(i as int),
            files@.len() == i,
            forall|k: int|
                0 <= k < i ==> base64_decoded((#[trigger] views(files@)[k]).pre_b64) == Ok::<
                    Seq<u8>,
                    Seq<char>,
                >(changes@[k].pre@),
        decreases changes.len() - i,
    {
        let c = &changes[i];
        let ghost before = views(files@);
        let fi = FileImage {
            path: c.path.copy(),
            pre_b64: b64e(c.pre.as_slice()),
            pre_hash: bytes_hash(c.pre.as_slice()),
            post_hash: bytes_hash(c.post.as_slice()),
        };
        files.push(fi);
        proof {
            assert(views(files@) =~= before.push(fi@));
            assert(fi@ == image_of(c@));
            assert(wanted.take(i + 1) =~= wanted.take(i as int).push(image_of(c@)));
            assert forall|k: int| 0 <= k < i + 1 implies base64_decoded(
                (#[trigger] views(files@)[k]).pre_b64,
            ) == Ok::<Seq<u8>, Seq<char>>(changes@[k].pre@) by {
                if k < i {
                    assert(views(files@)[k] == before[k]);
                }
            }
        }
        i = i + 1;
    }
    assert(wanted.take(changes.len() as int) =~= wanted);
    JournalEntry { id, plan_id, created_unix: now, files }
}

/// The journal entry of undoing `undone`: it belongs to the same plan, and has to be durable
/// before any of `changes` is written.
pub fn undo_entry(id: String, undone: &JournalEntry, now: u64, changes: &Vec<Change>) -> (e:
    JournalEntry)
    ensures
        e@ == entry_of(id@, undone@.plan_id, now, views(changes@)),
        records(e@, views(changes@)),
{
    journal_entry(id, undone.plan_id.clone(), now, changes)
}

/// One step of carrying changes to the disk.
#[derive(Debug, Clone, Copy, PartialEq, Eq, Structural)]
pub enum CommitStep {
    /// Write the journal entry durably.
    WriteEntry,
    /// Replace the file of this change atomically and durably.
    WriteFile(usize),
    /// Write the entry's commit marker durably.
    MarkCommitted,
    /// Refresh the index.
    RefreshIndex,
    /// A moment at which a crash is simulated.
    Fault(FaultPoint),
}

/// The steps that write the first `i` of `n` files.
pub open spec fn file_steps(i: nat, n: nat) -> Seq<CommitStep>
    decreases i,
{
    if i == 0 {
        seq![]
    } else {
        let before = file_steps((i - 1) as nat, n).push(CommitStep::WriteFile((i - 1) as usize));
        if i == 1 && n > 1 {
            before.push(CommitStep::Fault(FaultPoint::MidFiles))
        } else {
            before
        }
    }
}

/// The steps before any file is written.
pub open spec fn opening_steps() -> Seq<CommitStep> {
    seq![
        CommitStep::Fault(FaultPoint::PreJournal),
        CommitStep::WriteEntry,
        CommitStep::Fault(FaultPoint::PostJournalEntry),
    ]
}

/// The steps after every file is written.
pub open spec fn closing_steps() -> Seq<CommitStep> {
    seq![
        CommitStep::Fault(FaultPoint::PreCommitMarker),
        CommitStep::MarkCommitted,
        CommitStep::Fault(FaultPoint::PostCommitMarker),
        CommitStep::RefreshIndex,
    ]
}

/// The steps that carry `n` changes to the disk.
pub open spec fn steps_for(n: nat) -> Seq<CommitStep> {
    opening_steps() + file_steps(n, n) + closing_steps()
}

/// The steps that carry `changes` to the disk: the journal entry first, then every file,
/// then the commit marker, then the index.
pub fn commit_files(changes: &Vec<Change>) -> (steps: Vec<CommitStep>)
    ensures
        steps@ == steps_for(changes@.len()),
{
    let mut steps: Vec<CommitStep> = Vec::new();
    steps.push(CommitStep::Fault(FaultPoint::PreJournal));
    steps.push(CommitStep::WriteEntry);
    steps.push(CommitStep::Fault(FaultPoint::PostJournalEntry));
    let n: usize = changes.len();
    let mut i: usize = 0;
    assert(steps@ =~= opening_steps() + file_steps(0, n as nat));
    while i < n
        invariant
            i <= n,
            steps@ == opening_steps() + file_steps(i as nat, n as nat),
        decreases n - i,
    {
        let ghost before = file_steps(i as nat, n as nat);
        steps.push(CommitStep::WriteFile(i));
        assert(steps@ =~= opening_steps() + before.push(CommitStep::WriteFile(i)));
        if i == 0 && n > 1 {
            steps.push(CommitStep::Fault(FaultPoint::MidFiles));
        }
        i = i + 1;
        assert(steps@ =~= opening_steps() + file_steps(i as nat, n as nat));
    }
    let ghost body = steps@;
    steps.push(CommitStep::Fault(FaultPoint::PreCommitMarker));
    steps.push(CommitStep::MarkCommitted);
    steps.push(CommitStep::Fault(FaultPoint::PostCommitMarker));
    steps.push(CommitStep::RefreshIndex);
    assert(steps@ =~= body + closing_steps());
    steps
}

/// The warning when the index could not be refreshed after a commit.
pub open spec fn refresh_warning(e: ErrorView) -> Seq<char> {
    "index refresh failed after commit ("@ + crate::errors::error_line(e) + ") — run vc status"@
}

/// The report of a committed change. A failed index refresh does not fail it: the change is
/// on disk and journaled.
pub fn apply_report(journal_id: String, files: usize, edits: usize, refreshed: VcResult<String>) -> (r:
    ApplyReport)
    ensures
        r.journal_id@ == journal_id@,
        r.files == files,
        r.edits == edits,
        match refreshed {
            Ok(epoch) => r.epoch_after@ == epoch@ && r.warning is None,
            Err(e) => r.epoch_after@ == Seq::<char>::empty() && r.warning is Some
                && r.warning->0@ == refresh_warning(e@),
        },
{
    match refreshed {
        Ok(epoch_after) => ApplyReport { journal_id, files, edits, epoch_after, warning: None },
        Err(e) => {
            let mut w: String = "index refresh failed after commit (".to_owned();
            let line = e.to_string();
            w.append(line.as_str());
            w.append(") — run vc status");
            ApplyReport {
                journal_id,
                files,
                edits,
                epoch_after: String::new(),
                warning: Some(w),
            }
        },
    }
}

/// The report of an undo: one of a committed change, without edits.
pub fn undo_report(journal_id: String, files: usize, refreshed: VcResult<String>) -> (r:
    ApplyReport)
    ensures
        r.journal_id@ == journal_id@,
        r.files == files,
        r.edits == 0,
        match refreshed {
            Ok(epoch) => r.epoch_after@ == epoch@ && r.warning is None,
            Err(e) => r.epoch_after@ == Seq::<char>::empty() && r.warning is Some
                && r.warning->0@ == refresh_warning(e@),
        },
{
    apply_report(journal_id, files, 0, refreshed)
}

/// The replacement text of an edit.
pub open spec fn new_text(e: EditView) -> Seq<u8> {
    base64_decoded(e.new_b64)->Ok_0
}

/// Whether the edits at `places` lie one behind the other in a file of `len` bytes, and
/// their replacements decode.
pub open spec fn in_line(edits: Seq<EditView>, places: Seq<usize>, len: nat) -> bool {
    &&& forall|k: int|
        0 <= k < places.len() ==> {
            let e = edits[#[trigger] places[k] as int];
            e.start <= e.end <= len && base64_decoded(e.new_b64) is Ok
        }
    &&& forall|j: int, k: int|
        0 <= j < k < places.len() ==> edits[#[trigger] places[j] as int].end
            <= edits[#[trigger] places[k] as int].start
}

/// The file from byte `from` on with the edits from `n` on in place: what no edit covers
/// stays, what an edit covers is its replacement.
pub open spec fn woven(
    pre: Seq<u8>,
    edits: Seq<EditView>,
    places: Seq<usize>,
    n: int,
    from: nat,
) -> Seq<u8>
    decreases places.len() - n,
{
    if n >= places.len() {
        pre.skip(from as int)
    } else {
        let e = edits[places[n] as int];
        pre.subrange(from as int, e.start as int) + new_text(e) + woven(
            pre,
            edits,
            places,
            n + 1,
            e.end,
        )
    }
}

/// Where edit `n - 1` ends, or the front of the file.
spec fn edge(edits: Seq<EditView>, places: Seq<usize>, n: nat) -> nat {
    if n == 0 {
        0
    } else {
        edits[places[n - 1] as int].end
    }
}

proof fn lemma_patch_steps(
    path: Seq<u8>,
    pre: Seq<u8>,
    edits: Seq<EditView>,
    places: Seq<usize>,
    buf: Seq<u8>,
    n: nat,
)
    requires
        in_line(edits, places, pre.len()),
        n <= places.len(),
        buf == pre.take(edge(edits, places, n) as int) + woven(
            pre,
            edits,
            places,
            n as int,
            edge(edits, places, n),
        ),
    ensures
        patched(path, edits, places, pre.len(), buf, n) == Ok::<Seq<u8>, ErrorView>(
            woven(pre, edits, places, 0, 0),
        ),
    decreases n,
{
    if n > 0 {
        let e = edits[places[n - 1] as int];
        let b = edge(edits, places, (n - 1) as nat);
        assert(e.start <= e.end <= pre.len());
        if n > 1 {
            assert(edits[places[n - 2] as int].end <= edits[places[n - 1] as int].start);
        }
        let next = spliced(buf, e.start, e.end, new_text(e));
        assert(buf.take(e.start as int) =~= pre.take(e.start as int));
        assert(buf.skip(e.end as int) =~= woven(pre, edits, places, n as int, e.end));
        assert(pre.take(e.start as int) =~= pre.take(b as int) + pre.subrange(
            b as int,
            e.start as int,
        ));
        assert(next =~= pre.take(b as int) + woven(pre, edits, places, n - 1, b));
        lemma_patch_steps(path, pre, edits, places, next, (n - 1) as nat);
    } else {
        assert(buf =~= woven(pre, edits, places, 0, 0));
    }
}

/// Patching a file with edits that lie one behind the other replaces each edited range by
/// its new text and leaves every other byte alone, whatever the lengths.
pub proof fn law_patch_replaces_exactly_the_edited_ranges(
    path: Seq<u8>,
    pre: Seq<u8>,
    edits: Seq<EditView>,
    places: Seq<usize>,
)
    requires
        in_line(edits, places, pre.len()),
    ensures
        patched(path, edits, places, pre.len(), pre, places.len()) == Ok::<Seq<u8>, ErrorView>(
            woven(pre, edits, places, 0, 0),
        ),
{
    let b = edge(edits, places, places.len());
    if places.len() > 0 {
        assert(edits[places[places.len() - 1] as int].end <= pre.len());
    }
    assert(pre =~= pre.take(b as int) + pre.skip(b as int));
    lemma_patch_steps(path, pre, edits, places, pre, places.len());
}

proof fn lemma_grouped_keys(edits: Seq<EditView>, i: int, done: Seq<(Seq<u8>, Seq<usize>)>)
    requires
        0 <= i,
        keys_ascend::<TreePath, Seq<usize>>(done),
        forall|g: int|
            0 <= g < done.len() ==> exists|k: int|
                0 <= k < edits.len() && (#[trigger] edits[k]).path == (#[trigger] done[g]).0,
    ensures
        keys_ascend::<TreePath, Seq<usize>>(grouped_from(edits, i, done)),
        forall|g: int|
            0 <= g < grouped_from(edits, i, done).len() ==> exists|k: int|
                0 <= k < edits.len() && (#[trigger] edits[k]).path == (#[trigger] grouped_from(
                    edits,
                    i,
                    done,
                )[g]).0,
    decreases edits.len() - i,
{
    if i < edits.len() {
        let path = edits[i].path;
        let places = match lookup::<TreePath, Seq<usize>>(done, path_rank(path)) {
            Some(list) => list,
            None => seq![],
        };
        let next = stored::<TreePath, Seq<usize>>(done, path, places.push(i as usize));
        law_stored_reads_back::<TreePath, Seq<usize>>(
            done,
            path,
            places.push(i as usize),
            path_rank(path),
        );
        crate::ordmap::lemma_slot::<TreePath, Seq<usize>>(done, path_rank(path));
        let at = crate::ordmap::slot::<TreePath, Seq<usize>>(done, path_rank(path)) as int;
        assert forall|g: int| 0 <= g < next.len() implies exists|k: int|
            0 <= k < edits.len() && (#[trigger] edits[k]).path == (#[trigger] next[g]).0 by {
            if next.len() == done.len() {
                assert(next[g].0 == done[g].0);
            } else if g == at {
                assert(edits[i].path == next[g].0);
            } else {
                let o = if g < at { g } else { g - 1 };
                assert(next[g] == done[o]);
            }
        }
        lemma_grouped_keys(edits, i + 1, next);
    }
}

proof fn lemma_changes_follow_groups(
    edits: Seq<EditView>,
    groups: Seq<(Seq<u8>, Seq<usize>)>,
    reads: Seq<ReadView>,
    i: int,
    done: Seq<ChangeView>,
)
    requires
        0 <= i <= groups.len(),
        done.len() == i,
        forall|k: int|
            0 <= k < i ==> (#[trigger] done[k]).path == groups[k].0 && reads[k] == ReadView::Bytes(
                done[k].pre,
            ),
        changes_from(edits, groups, reads, i, done) is Ok,
    ensures
        ({
            let c = changes_from(edits, groups, reads, i, done)->Ok_0;
            &&& c.len() == groups.len()
            &&& forall|k: int|
                0 <= k < c.len() ==> (#[trigger] c[k]).path == groups[k].0 && reads[k]
                    == ReadView::Bytes(c[k].pre)
        }),
    decreases groups.len() - i,
{
    if i < groups.len() {
        let (path, places) = groups[i];
        let pre = reads[i]->Bytes_0;
        let post = patched(path, edits, places, pre.len(), pre, places.len())->Ok_0;
        lemma_changes_follow_groups(
            edits,
            groups,
            reads,
            i + 1,
            done.push(ChangeView { path, pre, post }),
        );
    }
}

proof fn lemma_no_unsafe(edits: Seq<EditView>, i: int, k: int)
    requires
        0 <= i <= k < edits.len(),
        first_unsafe(edits, i) is None,
    ensures
        root_relative(edits[k].path),
    decreases k - i,
{
    if i < k {
        lemma_no_unsafe(edits, i + 1, k);
    }
}

/// The changes of an admitted plan are each of another file, each of a file below the root,
/// and each starts from the contents that were read.
pub proof fn law_admitted_changes_are_well_placed(
    p: PlanView,
    sha8: Seq<char>,
    pending: Seq<Seq<char>>,
    seen: Seq<SightingView>,
    reads: Seq<ReadView>,
)
    requires
        application(p, sha8, pending, seen, reads) is Ok,
    ensures
        ({
            let c = application(p, sha8, pending, seen, reads)->Ok_0;
            &&& distinct_files(c)
            &&& c.len() == grouped(p.edits).len()
            &&& forall|k: int|
                0 <= k < c.len() ==> root_relative((#[trigger] c[k]).path) && c[k].path == grouped(
                    p.edits,
                )[k].0 && reads[k] == ReadView::Bytes(c[k].pre)
        }),
{
    let groups = grouped(p.edits);
    let c = application(p, sha8, pending, seen, reads)->Ok_0;
    lemma_grouped_keys(p.edits, 0, seq![]);
    lemma_changes_follow_groups(p.edits, groups, reads, 0, seq![]);
    assert forall|i: int, j: int| 0 <= i < j < c.len() implies components(
        (#[trigger] c[i]).path,
    ) != components((#[trigger] c[j]).path) by {
        assert(c[i].path == groups[i].0 && c[j].path == groups[j].0);
        law_rank_order_is_total(
            path_rank(groups[i].0),
            path_rank(groups[j].0),
            path_rank(groups[i].0),
        );
    }
    assert forall|k: int| 0 <= k < c.len() implies root_relative((#[trigger] c[k]).path)
        && c[k].path == groups[k].0 && reads[k] == ReadView::Bytes(c[k].pre) by {
        assert(c[k].path == groups[k].0);
        let m = choose|m: int|
            0 <= m < p.edits.len() && (#[trigger] p.edits[m]).path == groups[k].0;
        lemma_no_unsafe(p.edits, 0, m);
    }
}

/// A plan is never applied over a pending journal entry, nor when one of its files is not
/// as it was recorded.
pub proof fn law_apply_fails_closed(
    p: PlanView,
    sha8: Seq<char>,
    pending: Seq<Seq<char>>,
    seen: Seq<SightingView>,
    reads: Seq<ReadView>,
    i: int,
)
    requires
        0 <= i < p.files.len(),
    ensures
        pending.len() > 0 ==> application(p, sha8, pending, seen, reads) is Err,
        !(verdict(p.files[i].0, p.files[i].1, seen[i], p.root_real, false) is Fresh)
            ==> application(p, sha8, pending, seen, reads) is Err,
{
    if !(verdict(p.files[i].0, p.files[i].1, seen[i], p.root_real, false) is Fresh) {
        lemma_stale_is_seen(p.files, seen, p.root_real, 0, seq![], i);
    }
}

proof fn lemma_stale_is_seen(
    files: Seq<(Seq<u8>, Seq<char>)>,
    seen: Seq<SightingView>,
    root_real: Seq<u8>,
    from: int,
    stale: Seq<Seq<u8>>,
    i: int,
)
    requires
        0 <= from <= files.len(),
        0 <= i < files.len(),
        stale.len() > 0 || i >= from,
        stale.len() == 0 ==> !(verdict(files[i].0, files[i].1, seen[i], root_real, false)
            is Fresh),
    ensures
        match stale_from(files, seen, root_real, false, from, stale) {
            Ok(list) => list.len() > 0,
            Err(_) => true,
        },
    decreases files.len() - from,
{
    if from < files.len() {
        match verdict(files[from].0, files[from].1, seen[from], root_real, false) {
            Verdict::Refused(_) => {},
            Verdict::Stale => {
                lemma_stale_is_seen(
                    files,
                    seen,
                    root_real,
                    from + 1,
                    stale.push(files[from].0),
                    i,
                );
            },
            Verdict::Fresh => {
                lemma_stale_is_seen(files, seen, root_real, from + 1, stale, i);
            },
        }
    }
}

/// Whether the groups are those of the first `n` edits: a group for every file that one of
/// them is of, in path order, and in it the places of exactly the edits of that file, ascending.
pub open spec fn groups_edits(
    groups: Seq<(Seq<u8>, Seq<usize>)>,
    edits: Seq<EditView>,
    n: int,
) -> bool {
    &&& keys_ascend::<TreePath, Seq<usize>>(groups)
    &&& forall|g: int, x: usize|
        0 <= g < groups.len() ==> (#[trigger] groups[g].1.contains(x) <==> x < n && same_path(
            edits[x as int].path,
            groups[g].0,
        ))
    &&& forall|g: int, j: int, k: int|
        0 <= g < groups.len() && 0 <= j < k < groups[g].1.len() ==> #[trigger] groups[g].1[j]
            < #[trigger] groups[g].1[k]
    &&& forall|i: int|
        0 <= i < n ==> has_rank::<TreePath, Seq<usize>>(
            groups,
            path_rank((#[trigger] edits[i]).path),
        )
    &&& forall|g: int| 0 <= g < groups.len() ==> (#[trigger] groups[g]).1.len() > 0
}

proof fn lemma_grown_list(
    edits: Seq<EditView>,
    done: Seq<(Seq<u8>, Seq<usize>)>,
    i: int,
    list: Seq<usize>,
)
    requires
        0 <= i < edits.len() <= usize::MAX,
        groups_edits(done, edits, i),
        list == match lookup::<TreePath, Seq<usize>>(done, path_rank(edits[i].path)) {
            Some(l) => l,
            None => seq![],
        },
    ensures
        forall|x: usize| #[trigger]
            list.push(i as usize).contains(x) <==> x < i + 1 && same_path(
                edits[x as int].path,
                edits[i].path,
            ),
        forall|j: int, k: int|
            0 <= j < k <= list.len() ==> #[trigger] list.push(i as usize)[j] < #[trigger] list.push(
                i as usize,
            )[k],
{
    let path = edits[i].path;
    let grown = list.push(i as usize);
    let at = slot::<TreePath, Seq<usize>>(done, path_rank(path)) as int;
    lemma_slot::<TreePath, Seq<usize>>(done, path_rank(path));
    let known = has_rank::<TreePath, Seq<usize>>(done, path_rank(path));
    if known {
        assert(list == done[at].1);
        assert(path_rank(done[at].0) == path_rank(path));
        assert(path_rank(done[at].0).list == path_rank(path).list);
    }
    assert forall|x: usize| #[trigger] grown.contains(x) <==> x < i + 1 && same_path(
        edits[x as int].path,
        path,
    ) by {
        if known {
            assert(done[at].1.contains(x) <==> x < i && same_path(
                edits[x as int].path,
                done[at].0,
            ));
        } else if x < i && same_path(edits[x as int].path, path) {
            assert(path_rank(edits[x as int].path) == path_rank(path));
            assert(has_rank::<TreePath, Seq<usize>>(done, path_rank(edits[x as int].path)));
        }
        if list.contains(x) {
            let k = list.index_of(x);
            assert(grown[k] == x);
        }
        if grown.contains(x) && !list.contains(x) {
            let k = grown.index_of(x);
            assert(k == list.len());
        }
        assert(grown[list.len() as int] == i as usize);
    }
    assert forall|j: int, k: int| 0 <= j < k <= list.len() implies #[trigger] grown[j]
        < #[trigger] grown[k] by {
        assert(known);
        if k < list.len() {
            assert(done[at].1[j] < done[at].1[k]);
        } else {
            assert(done[at].1.contains(done[at].1[j]));
        }
    }
}

proof fn lemma_groups_step(
    edits: Seq<EditView>,
    done: Seq<(Seq<u8>, Seq<usize>)>,
    i: int,
    list: Seq<usize>,
)
    requires
        0 <= i < edits.len() <= usize::MAX,
        groups_edits(done, edits, i),
        list == match lookup::<TreePath, Seq<usize>>(done, path_rank(edits[i].path)) {
            Some(l) => l,
            None => seq![],
        },
    ensures
        groups_edits(
            stored::<TreePath, Seq<usize>>(done, edits[i].path, list.push(i as usize)),
            edits,
            i + 1,
        ),
{
    let path = edits[i].path;
    let r = path_rank(path);
    let grown = list.push(i as usize);
    let next = stored::<TreePath, Seq<usize>>(done, path, grown);
    let at = slot::<TreePath, Seq<usize>>(done, r) as int;
    lemma_slot::<TreePath, Seq<usize>>(done, r);
    lemma_grown_list(edits, done, i, list);
    law_stored_reads_back::<TreePath, Seq<usize>>(done, path, grown, r);
    lemma_slot::<TreePath, Seq<usize>>(next, r);
    assert(next[at].1 == grown && path_rank(next[at].0) == r);
    assert(path_rank(next[at].0).list == r.list);
    assert(same_path(next[at].0, path));
    assert forall|g: int| 0 <= g < next.len() && g != at implies !same_path(
        (#[trigger] next[g]).0,
        path,
    ) && exists|o: int| 0 <= o < done.len() && next[g] == #[trigger] done[o] by {
        law_rank_order_is_total(r, r, r);
        if g < at {
            assert(rank_less(path_rank(next[g].0), path_rank(next[at].0)));
        } else {
            assert(rank_less(path_rank(next[at].0), path_rank(next[g].0)));
        }
        let o = if next.len() == done.len() || g < at {
            g
        } else {
            g - 1
        };
        assert(next[g] == done[o]);
    }
    assert forall|g: int, x: usize| 0 <= g < next.len() implies (#[trigger] next[g].1.contains(x)
        <==> x < i + 1 && same_path(edits[x as int].path, next[g].0)) by {
        if g != at {
            assert(!same_path(next[g].0, path));
            let o = choose|o: int| 0 <= o < done.len() && next[g] == #[trigger] done[o];
            assert(done[o].1.contains(x) <==> x < i && same_path(edits[x as int].path, done[o].0));
        } else {
            assert(grown.contains(x) <==> x < i + 1 && same_path(edits[x as int].path, path));
        }
    }
    assert forall|g: int, j: int, k: int|
        0 <= g < next.len() && 0 <= j < k < next[g].1.len() implies #[trigger] next[g].1[j]
        < #[trigger] next[g].1[k] by {
        if g != at {
            assert(!same_path(next[g].0, path));
            let o = choose|o: int| 0 <= o < done.len() && next[g] == #[trigger] done[o];
            assert(done[o].1[j] < done[o].1[k]);
        } else {
            assert(grown[j] < grown[k]);
        }
    }
    assert forall|k: int| 0 <= k < i + 1 implies has_rank::<TreePath, Seq<usize>>(
        next,
        path_rank((#[trigger] edits[k]).path),
    ) by {
        let q = path_rank(edits[k].path);
        law_stored_reads_back::<TreePath, Seq<usize>>(done, path, grown, q);
        lemma_slot::<TreePath, Seq<usize>>(done, q);
        lemma_slot::<TreePath, Seq<usize>>(next, q);
        if k < i {
            assert(has_rank::<TreePath, Seq<usize>>(done, path_rank(edits[k].path)));
        }
    }
    assert forall|g: int| 0 <= g < next.len() implies (#[trigger] next[g]).1.len() > 0 by {
        if g != at {
            assert(!same_path(next[g].0, path));
        }
    }
}

proof fn lemma_groups_from(edits: Seq<EditView>, i: int, done: Seq<(Seq<u8>, Seq<usize>)>)
    requires
        0 <= i <= edits.len() <= usize::MAX,
        groups_edits(done, edits, i),
    ensures
        groups_edits(grouped_from(edits, i, done), edits, edits.len() as int),
    decreases edits.len() - i,
{
    if i < edits.len() {
        let path = edits[i].path;
        let list = match lookup::<TreePath, Seq<usize>>(done, path_rank(path)) {
            Some(l) => l,
            None => seq![],
        };
        lemma_groups_step(edits, done, i, list);
        lemma_groups_from(
            edits,
            i + 1,
            stored::<TreePath, Seq<usize>>(done, path, list.push(i as usize)),
        );
    }
}

/// The groups of a plan's edits part them by file: every edit is in exactly the group of its
/// file, once, the files are in path order, and within a file the edits are in their order.
pub proof fn law_groups_part_the_edits_by_file(edits: Seq<EditView>)
    requires
        edits.len() <= usize::MAX,
    ensures
        groups_edits(grouped(edits), edits, edits.len() as int),
{
    lemma_groups_from(edits, 0, seq![]);
}

/// How much an edit makes a file grow.
pub open spec fn growth_of(e: EditView) -> int {
    new_text(e).len() - (e.end - e.start)
}

/// How much those of the first `n` edits that are of this file make it grow.
pub open spec fn growth(edits: Seq<EditView>, path: Seq<u8>, n: int) -> int
    decreases n,
{
    if n <= 0 {
        0
    } else {
        growth(edits, path, n - 1) + if same_path(edits[n - 1].path, path) {
            growth_of(edits[n - 1])
        } else {
            0
        }
    }
}

/// Whether the edits of one file follow one behind the other.
pub open spec fn edits_follow(edits: Seq<EditView>) -> bool {
    forall|i: int, j: int|
        0 <= i < j < edits.len() && same_path(
            (#[trigger] edits[i]).path,
            (#[trigger] edits[j]).path,
        ) ==> edits[i].end <= edits[j].start
}

/// How much the first `n` of the edits at `places` make a file grow.
spec fn shift(edits: Seq<EditView>, places: Seq<usize>, n: int) -> int
    decreases n,
{
    if n <= 0 {
        0
    } else {
        shift(edits, places, n - 1) + growth_of(edits[places[n - 1] as int])
    }
}

/// The places of exactly the edits of this file, ascending.
spec fn places_of_file(edits: Seq<EditView>, path: Seq<u8>, places: Seq<usize>) -> bool {
    &&& forall|x: usize| #[trigger]
        places.contains(x) <==> x < edits.len() && same_path(edits[x as int].path, path)
    &&& forall|j: int, k: int|
        0 <= j < k < places.len() ==> #[trigger] places[j] < #[trigger] places[k]
}

proof fn lemma_shift_is_growth(
    edits: Seq<EditView>,
    path: Seq<u8>,
    places: Seq<usize>,
    n: int,
    k: int,
)
    requires
        edits.len() <= usize::MAX,
        places_of_file(edits, path, places),
        0 <= n <= edits.len(),
        0 <= k <= places.len(),
        forall|j: int| 0 <= j < k ==> #[trigger] places[j] < n,
        forall|j: int| k <= j < places.len() ==> #[trigger] places[j] >= n,
    ensures
        growth(edits, path, n) == shift(edits, places, k),
    decreases n,
{
    if n > 0 {
        let x = (n - 1) as usize;
        if same_path(edits[n - 1].path, path) {
            assert(places.contains(x));
            let m = places.index_of(x);
            assert(places[m] == x);
            assert(m < k) by {
                if m >= k {
                    assert(places[m] >= n);
                }
            }
            assert(m == k - 1) by {
                if m < k - 1 {
                    assert(places[m] < places[k - 1]);
                    assert(places[k - 1] < n);
                }
            }
            assert forall|j: int| 0 <= j < k - 1 implies #[trigger] places[j] < n - 1 by {
                assert(places[j] < places[k - 1]);
            }
            assert forall|j: int| k - 1 <= j < places.len() implies #[trigger] places[j]
                >= n - 1 by {
                if j > k - 1 {
                    assert(places[k - 1] < places[j]);
                }
            }
            lemma_shift_is_growth(edits, path, places, n - 1, k - 1);
        } else {
            assert forall|j: int| 0 <= j < k implies #[trigger] places[j] < n - 1 by {
                assert(places.contains(places[j]));
            }
            lemma_shift_is_growth(edits, path, places, n - 1, k);
        }
    } else {
        assert(k == 0) by {
            if k > 0 {
                assert(places[0] < n);
            }
        }
    }
}

/// How many of the places are below `n`.
proof fn lemma_cut(places: Seq<usize>, n: int) -> (k: int)
    requires
        forall|i: int, j: int|
            0 <= i < j < places.len() ==> #[trigger] places[i] < #[trigger] places[j],
    ensures
        0 <= k <= places.len(),
        forall|j: int| 0 <= j < k ==> #[trigger] places[j] < n,
        forall|j: int| k <= j < places.len() ==> #[trigger] places[j] >= n,
    decreases places.len(),
{
    if places.len() == 0 {
        0
    } else if places.last() < n {
        assert forall|j: int| 0 <= j < places.len() implies #[trigger] places[j] < n by {
            if j < places.len() - 1 {
                assert(places[j] < places[places.len() - 1]);
            }
        }
        places.len() as int
    } else {
        let rest = places.drop_last();
        let k = lemma_cut(rest, n);
        assert forall|j: int| 0 <= j < k implies #[trigger] places[j] < n by {
            assert(rest[j] == places[j]);
        }
        assert forall|j: int| k <= j < places.len() implies #[trigger] places[j] >= n by {
            if j < rest.len() {
                assert(rest[j] == places[j]);
            }
        }
        k
    }
}

proof fn lemma_woven_len(
    pre: Seq<u8>,
    edits: Seq<EditView>,
    places: Seq<usize>,
    n: int,
    from: nat,
)
    requires
        in_line(edits, places, pre.len()),
        0 <= n <= places.len(),
        from <= pre.len(),
        n < places.len() ==> from <= edits[places[n] as int].start,
    ensures
        woven(pre, edits, places, n, from).len() == pre.len() - from + shift(
            edits,
            places,
            places.len() as int,
        ) - shift(edits, places, n),
    decreases places.len() - n,
{
    if n < places.len() {
        let e = edits[places[n] as int];
        assert(e.start <= e.end <= pre.len());
        if n + 1 < places.len() {
            assert(edits[places[n] as int].end <= edits[places[n + 1] as int].start);
        }
        lemma_woven_len(pre, edits, places, n + 1, e.end);
    }
}

/// Where the text of an edit stands in the file from byte `from` on.
proof fn lemma_woven_text(
    pre: Seq<u8>,
    edits: Seq<EditView>,
    places: Seq<usize>,
    n: int,
    from: nat,
    k: int,
)
    requires
        in_line(edits, places, pre.len()),
        0 <= n <= k < places.len(),
        from <= pre.len(),
        from <= edits[places[n] as int].start,
    ensures
        ({
            let w = woven(pre, edits, places, n, from);
            let e = edits[places[k] as int];
            let at = e.start - from + shift(edits, places, k) - shift(edits, places, n);
            &&& 0 <= at <= at + new_text(e).len() <= w.len()
            &&& w.subrange(at, at + new_text(e).len()) == new_text(e)
        }),
    decreases places.len() - n,
{
    let w = woven(pre, edits, places, n, from);
    let e = edits[places[n] as int];
    let head = pre.subrange(from as int, e.start as int);
    let text = new_text(e);
    let tail = woven(pre, edits, places, n + 1, e.end);
    assert(e.start <= e.end <= pre.len());
    assert(w == head + text + tail);
    if k == n {
        let at = e.start - from;
        assert(w.subrange(at, at + text.len()) =~= text);
    } else {
        let f = edits[places[k] as int];
        assert(edits[places[n] as int].end <= edits[places[n + 1] as int].start);
        lemma_woven_text(pre, edits, places, n + 1, e.end, k);
        let there = f.start - e.end + shift(edits, places, k) - shift(edits, places, n + 1);
        let at = f.start - from + shift(edits, places, k) - shift(edits, places, n);
        assert(at == there + head.len() + text.len());
        assert(w.subrange(at, at + new_text(f).len()) =~= tail.subrange(
            there,
            there + new_text(f).len(),
        ));
    }
}

/// Where a byte between edits `k - 1` and `k` stands in the file from byte `from` on.
proof fn lemma_woven_byte(
    pre: Seq<u8>,
    edits: Seq<EditView>,
    places: Seq<usize>,
    n: int,
    from: nat,
    x: int,
    k: int,
)
    requires
        in_line(edits, places, pre.len()),
        0 <= n <= k <= places.len(),
        from <= x < pre.len(),
        n < places.len() ==> from <= edits[places[n] as int].start,
        k > n ==> edits[places[k - 1] as int].end <= x,
        k < places.len() ==> x < edits[places[k] as int].start,
    ensures
        ({
            let w = woven(pre, edits, places, n, from);
            let at = x - from + shift(edits, places, k) - shift(edits, places, n);
            0 <= at < w.len() && w[at] == pre[x]
        }),
    decreases places.len() - n,
{
    let w = woven(pre, edits, places, n, from);
    if n < places.len() {
        let e = edits[places[n] as int];
        let head = pre.subrange(from as int, e.start as int);
        let text = new_text(e);
        let tail = woven(pre, edits, places, n + 1, e.end);
        assert(e.start <= e.end <= pre.len());
        assert(w == head + text + tail);
        if k == n {
            assert(w[x - from] == head[x - from]);
        } else {
            if k > n + 1 {
                assert(edits[places[n] as int].end <= edits[places[k - 1] as int].start);
            }
            if n + 1 < places.len() {
                assert(edits[places[n] as int].end <= edits[places[n + 1] as int].start);
            }
            lemma_woven_byte(pre, edits, places, n + 1, e.end, x, k);
            let there = x - e.end + shift(edits, places, k) - shift(edits, places, n + 1);
            assert(w[there + head.len() + text.len()] == tail[there]);
        }
    }
}

/// Edits that all fit a file, and follow one behind the other, are in line.
proof fn lemma_patched_in_line(
    path: Seq<u8>,
    edits: Seq<EditView>,
    places: Seq<usize>,
    pre_len: nat,
    buf: Seq<u8>,
    n: nat,
)
    requires
        n <= places.len(),
        patched(path, edits, places, pre_len, buf, n) is Ok,
    ensures
        forall|k: int|
            0 <= k < n ==> {
                let e = edits[#[trigger] places[k] as int];
                e.start <= e.end <= pre_len && base64_decoded(e.new_b64) is Ok
            },
    decreases n,
{
    if n > 0 {
        let e = edits[places[n - 1] as int];
        lemma_patched_in_line(
            path,
            edits,
            places,
            pre_len,
            spliced(buf, e.start, e.end, new_text(e)),
            (n - 1) as nat,
        );
    }
}

proof fn lemma_changes_are_patches(
    edits: Seq<EditView>,
    groups: Seq<(Seq<u8>, Seq<usize>)>,
    reads: Seq<ReadView>,
    i: int,
    done: Seq<ChangeView>,
)
    requires
        0 <= i <= groups.len(),
        done.len() == i,
        forall|k: int| 0 <= k < i ==> is_patch(edits, groups[k], #[trigger] done[k]),
        changes_from(edits, groups, reads, i, done) is Ok,
    ensures
        ({
            let c = changes_from(edits, groups, reads, i, done)->Ok_0;
            &&& c.len() == groups.len()
            &&& forall|k: int| 0 <= k < c.len() ==> is_patch(edits, groups[k], #[trigger] c[k])
        }),
    decreases groups.len() - i,
{
    if i < groups.len() {
        let (path, places) = groups[i];
        let pre = reads[i]->Bytes_0;
        let post = patched(path, edits, places, pre.len(), pre, places.len())->Ok_0;
        let next = done.push(ChangeView { path, pre, post });
        assert forall|k: int| 0 <= k < i + 1 implies is_patch(
            edits,
            groups[k],
            #[trigger] next[k],
        ) by {
            if k < i {
                assert(next[k] == done[k]);
            }
        }
        lemma_changes_are_patches(edits, groups, reads, i + 1, next);
    }
}

spec fn is_patch(edits: Seq<EditView>, group: (Seq<u8>, Seq<usize>), c: ChangeView) -> bool {
    c.path == group.0 && patched(
        group.0,
        edits,
        group.1,
        c.pre.len(),
        c.pre,
        group.1.len(),
    ) == Ok::<Seq<u8>, ErrorView>(c.post)
}

/// Whether byte `x` of a file lies behind those of its edits that are among the first `n`, and
/// before all others.
pub open spec fn lies_between(edits: Seq<EditView>, path: Seq<u8>, n: int, x: int) -> bool {
    &&& 0 <= n <= edits.len()
    &&& forall|j: int|
        0 <= j < n && same_path((#[trigger] edits[j]).path, path) ==> edits[j].end <= x
    &&& forall|j: int|
        n <= j < edits.len() && same_path((#[trigger] edits[j]).path, path) ==> x < edits[j].start
}

/// Whether a change makes the edits of its file: the text of each stands where its range was,
/// moved by what the edits before it made the file grow; every byte that no edit covers stays,
/// moved by what the edits before it made the file grow; and there is nothing else.
pub open spec fn makes_its_edits(edits: Seq<EditView>, c: ChangeView) -> bool {
    &&& c.post.len() == c.pre.len() + growth(edits, c.path, edits.len() as int)
    &&& forall|i: int|
        0 <= i < edits.len() && same_path((#[trigger] edits[i]).path, c.path) ==> {
            let at = edits[i].start + growth(edits, c.path, i);
            let new = new_text(edits[i]);
            &&& 0 <= at <= at + new.len() <= c.post.len()
            &&& c.post.subrange(at, at + new.len()) == new
        }
    &&& forall|x: int, n: int|
        0 <= x < c.pre.len() && #[trigger] lies_between(edits, c.path, n, x) ==> {
            let at = x + growth(edits, c.path, n);
            0 <= at < c.post.len() && c.post[at] == c.pre[x]
        }
}

proof fn lemma_makes_its_edits(
    edits: Seq<EditView>,
    group: (Seq<u8>, Seq<usize>),
    c: ChangeView,
)
    requires
        edits.len() <= usize::MAX,
        edits_follow(edits),
        places_of_file(edits, group.0, group.1),
        is_patch(edits, group, c),
    ensures
        makes_its_edits(edits, c),
{
    let places = group.1;
    let path = group.0;
    lemma_patched_in_line(path, edits, places, c.pre.len(), c.pre, places.len());
    assert forall|j: int, k: int| 0 <= j < k < places.len() implies edits[#[trigger] places[j]
        as int].end <= edits[#[trigger] places[k] as int].start by {
        assert(places.contains(places[j]) && places.contains(places[k]));
        assert(places[j] < places[k]);
        assert(same_path(edits[places[j] as int].path, edits[places[k] as int].path));
    }
    assert(in_line(edits, places, c.pre.len()));
    law_patch_replaces_exactly_the_edited_ranges(path, c.pre, edits, places);
    assert(c.post == woven(c.pre, edits, places, 0, 0));
    lemma_woven_len(c.pre, edits, places, 0, 0);
    assert(shift(edits, places, 0) == 0);
    assert forall|j: int| 0 <= j < places.len() implies #[trigger] places[j] < edits.len() by {
        assert(places.contains(places[j]));
    }
    lemma_shift_is_growth(edits, path, places, edits.len() as int, places.len() as int);
    assert forall|i: int| 0 <= i < edits.len() && same_path((#[trigger] edits[i]).path, path)
        implies {
        let at = edits[i].start + growth(edits, path, i);
        let new = new_text(edits[i]);
        &&& 0 <= at <= at + new.len() <= c.post.len()
        &&& c.post.subrange(at, at + new.len()) == new
    } by {
        let x = i as usize;
        assert(places.contains(x));
        let k = places.index_of(x);
        assert(places[k] == x);
        lemma_shift_is_growth(edits, path, places, i, k);
        lemma_woven_text(c.pre, edits, places, 0, 0, k);
    }
    assert forall|x: int, n: int|
        0 <= x < c.pre.len() && #[trigger] lies_between(edits, path, n, x) implies {
        let at = x + growth(edits, path, n);
        0 <= at < c.post.len() && c.post[at] == c.pre[x]
    } by {
        let k = lemma_cut(places, n);
        lemma_shift_is_growth(edits, path, places, n, k);
        if k > 0 {
            assert(places.contains(places[k - 1]));
            assert(edits[places[k - 1] as int].end <= x);
        }
        if k < places.len() {
            assert(places.contains(places[k]));
            assert(x < edits[places[k] as int].start);
        }
        lemma_woven_byte(c.pre, edits, places, 0, 0, x, k);
    }
}

/// An admitted plan is applied whole: every edit's file is changed, once, and each change makes
/// all the edits of its file and nothing else. Edits of one file follow one behind the other,
/// as resolved edits do.
pub proof fn law_an_admitted_plan_is_applied_whole(
    p: PlanView,
    sha8: Seq<char>,
    pending: Seq<Seq<char>>,
    seen: Seq<SightingView>,
    reads: Seq<ReadView>,
)
    requires
        p.edits.len() <= usize::MAX,
        edits_follow(p.edits),
        application(p, sha8, pending, seen, reads) is Ok,
    ensures
        ({
            let c = application(p, sha8, pending, seen, reads)->Ok_0;
            &&& forall|i: int|
                0 <= i < p.edits.len() ==> exists|k: int|
                    0 <= k < c.len() && same_path(
                        (#[trigger] c[k]).path,
                        (#[trigger] p.edits[i]).path,
                    )
            &&& distinct_files(c)
            &&& forall|k: int| 0 <= k < c.len() ==> makes_its_edits(p.edits, #[trigger] c[k])
            &&& forall|k: int|
                0 <= k < c.len() ==> exists|i: int|
                    0 <= i < p.edits.len() && (#[trigger] p.edits[i]).path == (#[trigger] c[k]).path
        }),
{
    let groups = grouped(p.edits);
    let c = application(p, sha8, pending, seen, reads)->Ok_0;
    law_groups_part_the_edits_by_file(p.edits);
    law_admitted_changes_are_well_placed(p, sha8, pending, seen, reads);
    lemma_grouped_keys(p.edits, 0, seq![]);
    lemma_changes_are_patches(p.edits, groups, reads, 0, seq![]);
    assert forall|k: int| 0 <= k < c.len() implies makes_its_edits(p.edits, #[trigger] c[k]) by {
        assert(is_patch(p.edits, groups[k], c[k]));
        assert forall|x: usize| #[trigger] groups[k].1.contains(x) <==> x < p.edits.len()
            && same_path(p.edits[x as int].path, groups[k].0) by {}
        assert(places_of_file(p.edits, groups[k].0, groups[k].1));
        lemma_makes_its_edits(p.edits, groups[k], c[k]);
    }
    assert forall|i: int| 0 <= i < p.edits.len() implies exists|k: int|
        0 <= k < c.len() && same_path((#[trigger] c[k]).path, (#[trigger] p.edits[i]).path) by {
        let r = path_rank(p.edits[i].path);
        assert(has_rank::<TreePath, Seq<usize>>(groups, r));
        let k = choose|k: int|
            0 <= k < groups.len() && TreePath::rank_at((#[trigger] groups[k]).0) == r;
        assert(path_rank(groups[k].0).list == r.list);
        assert(c[k].path == groups[k].0);
    }
    assert forall|k: int| 0 <= k < c.len() implies exists|i: int|
        0 <= i < p.edits.len() && (#[trigger] p.edits[i]).path == (#[trigger] c[k]).path by {
        assert(c[k].path == groups[k].0);
    }
}

/// A file is taken for unchanged exactly when it is one: a plain file at a path that stays
/// below the root, in a directory that is really below the root, with the recorded digest. It
/// counts as changed when it is gone or has another digest and, before an undo, also when it
/// cannot be examined or read; anything else refuses, with the kind of refusal that says why.
pub proof fn law_a_file_is_fresh_exactly_when_it_is_as_recorded(
    rel: Seq<u8>,
    expected: Seq<char>,
    seen: SightingView,
    root_real: Seq<u8>,
    undoing: bool,
)
    ensures
        verdict(rel, expected, seen, root_real, undoing) is Fresh <==> root_relative(rel) && (
        seen matches SightingView::Present { parent, hash } && path_starts_with(parent, root_real)
            && hash == Ok::<Seq<char>, Seq<char>>(expected)),
        verdict(rel, expected, seen, root_real, undoing) is Stale <==> root_relative(rel)
            && match seen {
            SightingView::Missing => true,
            SightingView::Unreadable(_) => undoing,
            SightingView::Symlink => false,
            SightingView::LostParent(_) => false,
            SightingView::Present { parent, hash } => path_starts_with(parent, root_real)
                && match hash {
                Ok(h) => h != expected,
                Err(_) => undoing,
            },
        },
        verdict(rel, expected, seen, root_real, undoing) matches Verdict::Refused(e) ==> e.kind
            == if !root_relative(rel) {
            ErrorKind::Malformed
        } else {
            match seen {
                SightingView::Unreadable(_) => ErrorKind::Io,
                SightingView::Present { parent, hash } => if path_starts_with(parent, root_real) {
                    ErrorKind::Io
                } else {
                    ErrorKind::Toctou
                },
                _ => ErrorKind::Toctou,
            }
        },
{
}

/// The numbers below `n`.
pub open spec fn places_to(n: nat) -> Seq<int> {
    Seq::new(n, |k: int| k)
}

/// The paths of the files that changed.
pub open spec fn changed_files(
    files: Seq<(Seq<u8>, Seq<char>)>,
    seen: Seq<SightingView>,
    root_real: Seq<u8>,
    undoing: bool,
    n: nat,
) -> Seq<Seq<u8>> {
    places_to(n).filter(
        |k: int| verdict(files[k].0, files[k].1, seen[k], root_real, undoing) is Stale,
    ).map_values(|k: int| files[k].0)
}

proof fn lemma_stale_exactly(
    files: Seq<(Seq<u8>, Seq<char>)>,
    seen: Seq<SightingView>,
    root_real: Seq<u8>,
    undoing: bool,
    i: int,
    stale: Seq<Seq<u8>>,
)
    requires
        0 <= i <= files.len(),
        stale == changed_files(files, seen, root_real, undoing, i as nat),
        forall|k: int|
            #![trigger files[k]]
            0 <= k < i ==> !(verdict(files[k].0, files[k].1, seen[k], root_real, undoing)
                is Refused),
    ensures
        match stale_from(files, seen, root_real, undoing, i, stale) {
            Ok(list) => {
                &&& list == changed_files(files, seen, root_real, undoing, files.len())
                &&& forall|k: int|
                    #![trigger files[k]]
                    0 <= k < files.len() ==> !(verdict(
                        files[k].0,
                        files[k].1,
                        seen[k],
                        root_real,
                        undoing,
                    ) is Refused)
            },
            Err(e) => first_refusal(files, seen, root_real, undoing, e),
        },
    decreases files.len() - i,
{
    if i < files.len() {
        let stale_at = |k: int|
            verdict(files[k].0, files[k].1, seen[k], root_real, undoing) is Stale;
        reveal(Seq::filter);
        let now = places_to((i + 1) as nat);
        assert(now.drop_last() =~= places_to(i as nat));
        assert(now.last() == i);
        let next = if stale_at(i) {
            stale.push(files[i].0)
        } else {
            stale
        };
        assert(next =~= changed_files(files, seen, root_real, undoing, (i + 1) as nat));
        match verdict(files[i].0, files[i].1, seen[i], root_real, undoing) {
            Verdict::Refused(e) => {
                assert(refuses_first(files, seen, root_real, undoing, e, i));
            },
            _ => {
                lemma_stale_exactly(files, seen, root_real, undoing, i + 1, next);
            },
        }
    }
}

/// Whether file `k` is refused with `e`, and none before it is refused.
pub open spec fn refuses_first(
    files: Seq<(Seq<u8>, Seq<char>)>,
    seen: Seq<SightingView>,
    root_real: Seq<u8>,
    undoing: bool,
    e: ErrorView,
    k: int,
) -> bool {
    &&& 0 <= k < files.len()
    &&& verdict(files[k].0, files[k].1, seen[k], root_real, undoing) == Verdict::Refused(e)
    &&& forall|j: int|
        #![trigger files[j]]
        0 <= j < k ==> !(verdict(files[j].0, files[j].1, seen[j], root_real, undoing) is Refused)
}

/// Whether `e` is the refusal of the first file that is refused.
pub open spec fn first_refusal(
    files: Seq<(Seq<u8>, Seq<char>)>,
    seen: Seq<SightingView>,
    root_real: Seq<u8>,
    undoing: bool,
    e: ErrorView,
) -> bool {
    exists|k: int| #[trigger] refuses_first(files, seen, root_real, undoing, e, k)
}

/// The check of some files names exactly those that changed, in their order; and it is refused
/// exactly when one of them is, with the refusal of the first.
pub proof fn law_a_check_names_exactly_the_changed_files(
    files: Seq<(Seq<u8>, Seq<char>)>,
    seen: Seq<SightingView>,
    root_real: Seq<u8>,
    undoing: bool,
)
    ensures
        match stale_from(files, seen, root_real, undoing, 0, seq![]) {
            Ok(list) => {
                &&& list == changed_files(files, seen, root_real, undoing, files.len())
                &&& forall|k: int|
                    #![trigger files[k]]
                    0 <= k < files.len() ==> !(verdict(
                        files[k].0,
                        files[k].1,
                        seen[k],
                        root_real,
                        undoing,
                    ) is Refused)
            },
            Err(e) => first_refusal(files, seen, root_real, undoing, e),
        },
{
    reveal(Seq::filter);
    assert(places_to(0) =~= Seq::<int>::empty());
    assert(changed_files(files, seen, root_real, undoing, 0) =~= Seq::<Seq<u8>>::empty());
    lemma_stale_exactly(files, seen, root_real, undoing, 0, seq![]);
}

/// Whether every file is as recorded.
pub open spec fn all_fresh(
    files: Seq<(Seq<u8>, Seq<char>)>,
    seen: Seq<SightingView>,
    root_real: Seq<u8>,
    undoing: bool,
) -> bool {
    forall|k: int|
        #![trigger files[k]]
        0 <= k < files.len() ==> verdict(files[k].0, files[k].1, seen[k], root_real, undoing)
            is Fresh
}

proof fn lemma_fresh_means_none_stale(
    files: Seq<(Seq<u8>, Seq<char>)>,
    seen: Seq<SightingView>,
    root_real: Seq<u8>,
    undoing: bool,
)
    ensures
        all_fresh(files, seen, root_real, undoing) <==> match stale_from(
            files,
            seen,
            root_real,
            undoing,
            0,
            seq![],
        ) {
            Ok(list) => list.len() == 0,
            Err(_) => false,
        },
{
    let stale_at = |k: int|
        verdict(files[k].0, files[k].1, seen[k], root_real, undoing) is Stale;
    let all = places_to(files.len());
    let kept = all.filter(stale_at);
    law_a_check_names_exactly_the_changed_files(files, seen, root_real, undoing);
    lemma_filter_members(all, stale_at);
    if all_fresh(files, seen, root_real, undoing) {
        match stale_from(files, seen, root_real, undoing, 0, seq![]) {
            Ok(list) => {
                if kept.len() > 0 {
                    assert(kept.contains(kept[0]));
                    let k = all.index_of(kept[0]);
                    assert(verdict(files[k].0, files[k].1, seen[k], root_real, undoing) is Fresh);
                }
                assert(list =~= Seq::<Seq<u8>>::empty());
            },
            Err(e) => {
                let k = choose|k: int| #[trigger]
                    refuses_first(files, seen, root_real, undoing, e, k);
                assert(verdict(files[k].0, files[k].1, seen[k], root_real, undoing) is Fresh);
            },
        }
    } else {
        let k = choose|k: int|
            #![trigger files[k]]
            0 <= k < files.len() && !(verdict(
                files[k].0,
                files[k].1,
                seen[k],
                root_real,
                undoing,
            ) is Fresh);
        if stale_at(k) {
            assert(all[k] == k);
            assert(all.contains(k));
            assert(kept.contains(k));
            assert(changed_files(files, seen, root_real, undoing, files.len()).len() > 0);
        }
    }
}

/// Whether an edit's range lies in a file of `len` bytes, and its text decodes.
pub open spec fn edit_fits(e: EditView, len: nat) -> bool {
    e.start <= e.end <= len && base64_decoded(e.new_b64) is Ok
}

proof fn lemma_changes_possible(
    edits: Seq<EditView>,
    groups: Seq<(Seq<u8>, Seq<usize>)>,
    reads: Seq<ReadView>,
    i: int,
    done: Seq<ChangeView>,
)
    requires
        0 <= i <= groups.len(),
        forall|g: int| i <= g < groups.len() ==> #[trigger] reads[g] is Bytes,
        forall|g: int|
            i <= g < groups.len() ==> in_line(
                edits,
                (#[trigger] groups[g]).1,
                reads[g]->Bytes_0.len(),
            ),
    ensures
        changes_from(edits, groups, reads, i, done) is Ok,
    decreases groups.len() - i,
{
    if i < groups.len() {
        let (path, places) = groups[i];
        assert(reads[i] is Bytes);
        let pre = reads[i]->Bytes_0;
        assert(in_line(edits, groups[i].1, pre.len()));
        law_patch_replaces_exactly_the_edited_ranges(path, pre, edits, places);
        let post = woven(pre, edits, places, 0, 0);
        lemma_changes_possible(
            edits,
            groups,
            reads,
            i + 1,
            done.push(ChangeView { path, pre, post }),
        );
    }
}

/// A plan is applied exactly when nothing speaks against it: no journal entry is pending, every
/// file is as recorded, there are as many edits as were planned, every path stays below the
/// root, every file with edits can be read, and every edit fits its file.
pub proof fn law_a_plan_is_applied_exactly_when_nothing_speaks_against_it(
    p: PlanView,
    sha8: Seq<char>,
    pending: Seq<Seq<char>>,
    seen: Seq<SightingView>,
    reads: Seq<ReadView>,
)
    requires
        p.edits.len() <= usize::MAX,
        edits_follow(p.edits),
        reads.len() == grouped(p.edits).len(),
    ensures
        application(p, sha8, pending, seen, reads) is Ok <==> {
            let groups = grouped(p.edits);
            &&& pending.len() == 0
            &&& all_fresh(p.files, seen, p.root_real, false)
            &&& p.edits.len() == p.expected_count
            &&& forall|i: int|
                0 <= i < p.edits.len() ==> root_relative((#[trigger] p.edits[i]).path)
            &&& forall|g: int| 0 <= g < groups.len() ==> #[trigger] reads[g] is Bytes
            &&& forall|g: int, i: int|
                0 <= g < groups.len() && 0 <= i < p.edits.len() && same_path(
                    (#[trigger] p.edits[i]).path,
                    (#[trigger] groups[g]).0,
                ) ==> edit_fits(p.edits[i], reads[g]->Bytes_0.len())
        },
        pending.len() > 0 ==> (application(p, sha8, pending, seen, reads) matches Err(e) && e.kind
            == ErrorKind::JournalBlocked),
{
    let groups = grouped(p.edits);
    lemma_fresh_means_none_stale(p.files, seen, p.root_real, false);
    law_groups_part_the_edits_by_file(p.edits);
    if pending.len() == 0 && all_fresh(p.files, seen, p.root_real, false) && p.edits.len()
        == p.expected_count {
        assert(verification(p, sha8, seen) is Ok);
        lemma_unsafe_or_none(p.edits, 0);
        if first_unsafe(p.edits, 0) is None {
            if application(p, sha8, pending, seen, reads) is Ok {
                lemma_changes_are_patches(p.edits, groups, reads, 0, seq![]);
                lemma_changes_follow_groups(p.edits, groups, reads, 0, seq![]);
                let c = changes_from(p.edits, groups, reads, 0, seq![])->Ok_0;
                assert forall|g: int| 0 <= g < groups.len() implies #[trigger] reads[g]
                    is Bytes by {
                    assert(c[g].path == groups[g].0);
                }
                assert forall|g: int, i: int|
                    0 <= g < groups.len() && 0 <= i < p.edits.len() && same_path(
                        (#[trigger] p.edits[i]).path,
                        (#[trigger] groups[g]).0,
                    ) implies edit_fits(p.edits[i], reads[g]->Bytes_0.len()) by {
                    assert(is_patch(p.edits, groups[g], c[g]));
                    assert(c[g].path == groups[g].0);
                    lemma_patched_in_line(
                        groups[g].0,
                        p.edits,
                        groups[g].1,
                        c[g].pre.len(),
                        c[g].pre,
                        groups[g].1.len(),
                    );
                    assert(groups[g].1.contains(i as usize));
                    let k = groups[g].1.index_of(i as usize);
                    assert(groups[g].1[k] == i);
                }
            } else if (forall|g: int| 0 <= g < groups.len() ==> #[trigger] reads[g] is Bytes) && (
            forall|g: int, i: int|
                0 <= g < groups.len() && 0 <= i < p.edits.len() && same_path(
                    (#[trigger] p.edits[i]).path,
                    (#[trigger] groups[g]).0,
                ) ==> edit_fits(p.edits[i], reads[g]->Bytes_0.len())) {
                assert forall|g: int| 0 <= g < groups.len() implies in_line(
                    p.edits,
                    (#[trigger] groups[g]).1,
                    reads[g]->Bytes_0.len(),
                ) by {
                    let places = groups[g].1;
                    assert forall|k: int| 0 <= k < places.len() implies {
                        let e = p.edits[#[trigger] places[k] as int];
                        e.start <= e.end <= reads[g]->Bytes_0.len() && base64_decoded(e.new_b64)
                            is Ok
                    } by {
                        assert(groups[g].1.contains(places[k]));
                        assert(edit_fits(
                            p.edits[places[k] as int],
                            reads[g]->Bytes_0.len(),
                        ));
                    }
                    assert forall|j: int, k: int| 0 <= j < k < places.len() implies p.edits[
                    #[trigger] places[j] as int].end <= p.edits[#[trigger] places[k]
                        as int].start by {
                        assert(groups[g].1.contains(places[j]) && groups[g].1.contains(places[k]));
                        assert(groups[g].1[j] < groups[g].1[k]);
                        assert(same_path(
                            p.edits[places[j] as int].path,
                            p.edits[places[k] as int].path,
                        ));
                    }
                }
                lemma_changes_possible(p.edits, groups, reads, 0, seq![]);
            }
        }
    }
}

proof fn lemma_unsafe_or_none(edits: Seq<EditView>, i: int)
    requires
        0 <= i <= edits.len(),
    ensures
        first_unsafe(edits, i) is None <==> forall|k: int|
            i <= k < edits.len() ==> root_relative((#[trigger] edits[k]).path),
    decreases edits.len() - i,
{
    if i < edits.len() {
        if root_relative(edits[i].path) {
            lemma_unsafe_or_none(edits, i + 1);
        }
    }
}

/// What putting one recorded file back is: from what is there to what was recorded.
pub open spec fn put_back_of(f: ImageView, read: ReadView) -> ChangeView {
    ChangeView {
        path: f.path,
        pre: read->Bytes_0,
        post: base64_decoded(f.pre_b64)->Ok_0,
    }
}

proof fn lemma_reversals_exactly(
    images: Seq<ImageView>,
    reads: Seq<ReadView>,
    i: int,
    done: Seq<ChangeView>,
)
    requires
        0 <= i <= images.len(),
        done == Seq::new(i as nat, |k: int| put_back_of(images[k], reads[k])),
    ensures
        reversals_from(images, reads, i, done) is Ok <==> forall|k: int|
            i <= k < images.len() ==> base64_decoded((#[trigger] images[k]).pre_b64) is Ok
                && reads[k] is Bytes,
        reversals_from(images, reads, i, done) matches Ok(c) ==> c == Seq::new(
            images.len(),
            |k: int| put_back_of(images[k], reads[k]),
        ),
    decreases images.len() - i,
{
    if i < images.len() {
        let next = done.push(put_back_of(images[i], reads[i]));
        assert(next =~= Seq::new((i + 1) as nat, |k: int| put_back_of(images[k], reads[k])));
        if base64_decoded(images[i].pre_b64) is Ok && reads[i] is Bytes {
            lemma_reversals_exactly(images, reads, i + 1, next);
        } else {
            assert(!(base64_decoded(images[i].pre_b64) is Ok && reads[i] is Bytes));
        }
    }
}

/// An undo puts back every file that its entry recorded, each from what is there to what was
/// recorded, and no other. It is admitted exactly when every one of them is still what the
/// entry left behind and can be read, and what was recorded of it decodes.
pub proof fn law_an_undo_puts_back_every_recorded_file(
    entry: EntryView,
    root_real: Seq<u8>,
    seen: Seq<SightingView>,
    reads: Seq<ReadView>,
)
    ensures
        reversal(entry, root_real, seen, reads) is Ok <==> all_fresh(
            image_files(entry.files),
            seen,
            root_real,
            true,
        ) && forall|k: int|
            0 <= k < entry.files.len() ==> base64_decoded((#[trigger] entry.files[k]).pre_b64)
                is Ok && reads[k] is Bytes,
        reversal(entry, root_real, seen, reads) matches Ok(c) ==> {
            &&& c.to_multiset() == Seq::new(
                entry.files.len(),
                |k: int| put_back_of(entry.files[k], reads[k]),
            ).to_multiset()
            &&& ranks_ascend::<Change>(c)
        },
{
    let files = image_files(entry.files);
    lemma_fresh_means_none_stale(files, seen, root_real, true);
    assert(Seq::new(0, |k: int| put_back_of(entry.files[k], reads[k])) =~= Seq::<
        ChangeView,
    >::empty());
    lemma_reversals_exactly(entry.files, reads, 0, seq![]);
    match reversals_from(entry.files, reads, 0, seq![]) {
        Ok(c) => {
            law_stable_sort_orders_and_keeps_items::<Change>(c);
        },
        Err(_) => {},
    }
}

/// Where the steps that carry `n` changes to the disk write file `i`.
pub open spec fn write_step(n: nat, i: int) -> int {
    3 + i + if n > 1 && i > 0 {
        1int
    } else {
        0int
    }
}

proof fn lemma_file_steps(i: nat, n: nat)
    requires
        i <= n <= usize::MAX,
    ensures
        file_steps(i, n).len() == i + if n > 1 && i > 0 {
            1nat
        } else {
            0nat
        },
        forall|k: int|
            0 <= k < i ==> file_steps(i, n)[#[trigger] write_step(n, k) - 3]
                == CommitStep::WriteFile(k as usize),
        n > 1 && i > 0 ==> file_steps(i, n)[1] == CommitStep::Fault(FaultPoint::MidFiles),
    decreases i,
{
    if i > 0 {
        lemma_file_steps((i - 1) as nat, n);
        let before = file_steps((i - 1) as nat, n);
        let all = file_steps(i, n);
        assert forall|k: int| 0 <= k < i implies all[#[trigger] write_step(n, k) - 3]
            == CommitStep::WriteFile(k as usize) by {
            if k < i - 1 {
                assert(all[write_step(n, k) - 3] == before[write_step(n, k) - 3]);
            }
        }
    }
}

/// A commit writes every file, each once and in order, after the journal entry and before the
/// marker; the index is refreshed last. There is no other step that touches the disk.
pub proof fn law_a_commit_writes_every_file_between_entry_and_marker(n: nat)
    requires
        n <= usize::MAX,
    ensures
        ({
            let steps = steps_for(n);
            let marker = steps.len() - 3;
            &&& steps.len() == 7 + n + if n > 1 {
                1nat
            } else {
                0nat
            }
            &&& steps[1] == CommitStep::WriteEntry
            &&& steps[marker] == CommitStep::MarkCommitted
            &&& steps[steps.len() - 1] == CommitStep::RefreshIndex
            &&& forall|i: int|
                0 <= i < n ==> 1 < #[trigger] write_step(n, i) < marker && steps[write_step(n, i)]
                    == CommitStep::WriteFile(i as usize)
            &&& forall|k: int|
                0 <= k < steps.len() ==> {
                    ||| #[trigger] steps[k] is Fault
                    ||| k == 1 || k == marker || k == steps.len() - 1
                    ||| exists|i: int| 0 <= i < n && k == #[trigger] write_step(n, i)
                }
        }),
{
    lemma_file_steps(n, n);
    let steps = steps_for(n);
    let body = file_steps(n, n);
    let marker = steps.len() - 3;
    assert forall|i: int| 0 <= i < n implies 1 < #[trigger] write_step(n, i) < marker
        && steps[write_step(n, i)] == CommitStep::WriteFile(i as usize) by {
        assert(steps[write_step(n, i)] == body[write_step(n, i) - 3]);
    }
    assert forall|k: int| 0 <= k < steps.len() implies {
        ||| #[trigger] steps[k] is Fault
        ||| k == 1 || k == marker || k == steps.len() - 1
        ||| exists|i: int| 0 <= i < n && k == #[trigger] write_step(n, i)
    } by {
        if 3 <= k < 3 + body.len() {
            let i = if k <= 3 || n <= 1 {
                k - 3
            } else {
                k - 4
            };
            if n > 1 && k == 4 {
                assert(steps[k] == body[1]);
            } else {
                assert(k == write_step(n, i));
            }
        }
    }
}

/// A list for a message names every path, in order.
pub proof fn law_a_list_names_every_path(paths: Seq<Seq<u8>>)
    ensures
        comma_list(paths) == joined_with(
            paths.map_values(|p: Seq<u8>| lossy_text(p)),
            ", "@,
        ),
    decreases paths.len(),
{
    let f = |p: Seq<u8>| lossy_text(p);
    let texts = paths.map_values(f);
    if paths.len() > 1 {
        law_a_list_names_every_path(paths.drop_last());
        assert(texts.drop_last() =~= paths.drop_last().map_values(f));
        assert(texts.last() == lossy_text(paths.last()));
    }
    assert(comma_list(paths) =~= joined_with(texts, ", "@));
}

/// A journal entry records every change, in order: the file's path, what was in it, and the
/// digests of what was in it and of what the change makes of it; and the files that an undo of
/// the entry checks are all of these, each against what the change made of it.
pub proof fn law_an_entry_records_every_change(
    id: Seq<char>,
    plan_id: Seq<char>,
    now: u64,
    changes: Seq<ChangeView>,
)
    ensures
        ({
            let entry = entry_of(id, plan_id, now, changes);
            let checked = image_files(entry.files);
            &&& entry.id == id && entry.plan_id == plan_id && entry.created_unix == now
            &&& entry.files.len() == changes.len() && checked.len() == changes.len()
            &&& forall|i: int|
                #![trigger changes[i]]
                0 <= i < changes.len() ==> {
                    &&& entry.files[i].path == changes[i].path
                    &&& entry.files[i].pre_b64 == base64_text(changes[i].pre)
                    &&& entry.files[i].pre_hash == blake3_hex(changes[i].pre)
                    &&& entry.files[i].post_hash == blake3_hex(changes[i].post)
                    &&& checked[i] == (changes[i].path, blake3_hex(changes[i].post))
                }
        }),
{
}

} // verus!
