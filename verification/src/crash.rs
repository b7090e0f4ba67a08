//! What a crash can leave behind, and why recovery always ends in the old tree or the new
//! one.

use crate::apply::{
    application, closing_steps, entry_of, file_steps, grouped, image_files, image_of,
    law_admitted_changes_are_well_placed, opening_steps, reversal, reversals_from, stale_from,
    steps_for, verdict, Change, ChangeView, CommitStep, ReadView, SightingView,
};
use crate::codec::{base64_decoded, blake3_hex};
use crate::errors::ErrorView;
use crate::journal::{EntryView, ImageView};
use crate::order::{
    law_stable_sort_orders_and_keeps_items, lemma_stable_sort_members, stable_sorted,
};
use crate::paths::{components, path_starts_with, root_relative};
use crate::plan::PlanView;
use crate::recover::{
    entry_steps, repair_steps, restorations_from, DoctorStepView, RestorationView,
};
use vstd::prelude::*;

verus! {

/// The durable state that a change runs over: the files by their path's components, the
/// journal entry of the change, and whether its commit marker is there.
pub struct Disk {
    pub files: Map<Seq<Seq<u8>>, Seq<u8>>,
    pub entry: Option<EntryView>,
    pub committed: bool,
}

/// The state after one step.
pub open spec fn after_step(
    d: Disk,
    step: CommitStep,
    entry: EntryView,
    changes: Seq<ChangeView>,
) -> Disk {
    match step {
        CommitStep::WriteEntry => Disk { entry: Some(entry), committed: false, ..d },
        CommitStep::WriteFile(i) => Disk {
            files: d.files.insert(components(changes[i as int].path), changes[i as int].post),
            ..d
        },
        CommitStep::MarkCommitted => Disk { committed: true, ..d },
        CommitStep::RefreshIndex => d,
        CommitStep::Fault(_) => d,
    }
}

/// The state after a run of steps.
pub open spec fn after_steps(
    d: Disk,
    steps: Seq<CommitStep>,
    entry: EntryView,
    changes: Seq<ChangeView>,
) -> Disk
    decreases steps.len(),
{
    if steps.len() == 0 {
        d
    } else {
        after_step(after_steps(d, steps.drop_last(), entry, changes), steps.last(), entry, changes)
    }
}

/// The files after the first `n` changes are written.
pub open spec fn written(
    files: Map<Seq<Seq<u8>>, Seq<u8>>,
    changes: Seq<ChangeView>,
    n: nat,
) -> Map<Seq<Seq<u8>>, Seq<u8>>
    decreases n,
{
    if n == 0 {
        files
    } else {
        written(files, changes, (n - 1) as nat).insert(
            components(changes[n - 1].path),
            changes[n - 1].post,
        )
    }
}

/// The files after the first `n` restorations.
pub open spec fn restored(
    files: Map<Seq<Seq<u8>>, Seq<u8>>,
    list: Seq<RestorationView>,
    n: nat,
) -> Map<Seq<Seq<u8>>, Seq<u8>>
    decreases n,
{
    if n == 0 {
        files
    } else {
        restored(files, list, (n - 1) as nat).insert(
            components(list[n - 1].path),
            list[n - 1].bytes,
        )
    }
}

/// The state after a rollback: an entry without its marker is restored and forgotten.
pub open spec fn rolled_back(d: Disk) -> Disk {
    match d.entry {
        Some(e) if !d.committed => {
            let list = restorations_from(e, 0, seq![]).0;
            Disk { files: restored(d.files, list, list.len()), entry: None, committed: false }
        },
        _ => d,
    }
}

/// Whether one of the first `n` restorations is of the file `p`.
spec fn restores(list: Seq<RestorationView>, n: nat, p: Seq<Seq<u8>>) -> bool {
    exists|k: int| 0 <= k < n && components((#[trigger] list[k]).path) == p
}

/// A restored file does not depend on what was there, and no other file changes.
proof fn lemma_restored_alike(
    f: Map<Seq<Seq<u8>>, Seq<u8>>,
    g: Map<Seq<Seq<u8>>, Seq<u8>>,
    list: Seq<RestorationView>,
    n: nat,
    p: Seq<Seq<u8>>,
)
    requires
        n <= list.len(),
    ensures
        restores(list, n, p) ==> restored(f, list, n).dom().contains(p) && restored(
            g,
            list,
            n,
        ).dom().contains(p) && restored(f, list, n)[p] == restored(g, list, n)[p],
        !restores(list, n, p) ==> restored(f, list, n).dom().contains(p) == f.dom().contains(p)
            && (f.dom().contains(p) ==> restored(f, list, n)[p] == f[p]),
    decreases n,
{
    if n > 0 {
        lemma_restored_alike(f, g, list, (n - 1) as nat, p);
        if components(list[n - 1].path) == p {
            assert(restores(list, n, p));
        } else if restores(list, n, p) {
            let k = choose|k: int| 0 <= k < n && components((#[trigger] list[k]).path) == p;
            assert(0 <= k < n - 1);
            assert(restores(list, (n - 1) as nat, p));
        } else {
            assert(!restores(list, (n - 1) as nat, p)) by {
                if restores(list, (n - 1) as nat, p) {
                    let k = choose|k: int|
                        0 <= k < n - 1 && components((#[trigger] list[k]).path) == p;
                    assert(restores(list, n, p));
                }
            }
        }
    }
}

/// A rollback that was itself interrupted can be repeated: whatever number of files it had
/// restored, restoring all of them again gives what it would have given in one go.
pub proof fn law_an_interrupted_rollback_can_be_repeated(
    files: Map<Seq<Seq<u8>>, Seq<u8>>,
    list: Seq<RestorationView>,
    m: nat,
)
    requires
        m <= list.len(),
    ensures
        restored(restored(files, list, m), list, list.len()) == restored(files, list, list.len()),
{
    let part = restored(files, list, m);
    let n = list.len();
    let again = restored(part, list, n);
    let once = restored(files, list, n);
    assert forall|p: Seq<Seq<u8>>| #[trigger] again.dom().contains(p) == once.dom().contains(p)
        && (once.dom().contains(p) ==> again[p] == once[p]) by {
        lemma_restored_alike(part, files, list, n, p);
        lemma_restored_alike(files, part, list, n, p);
        lemma_restored_alike(files, part, list, m, p);
        if !restores(list, n, p) {
            assert(!restores(list, m, p)) by {
                if restores(list, m, p) {
                    let k = choose|k: int|
                        0 <= k < m && components((#[trigger] list[k]).path) == p;
                    assert(restores(list, n, p));
                }
            }
        }
    }
    assert(again =~= once);
}

/// Whether no two changes are of the same file.
pub open spec fn distinct_files(changes: Seq<ChangeView>) -> bool {
    forall|i: int, j: int|
        0 <= i < j < changes.len() ==> components((#[trigger] changes[i]).path) != components(
            (#[trigger] changes[j]).path,
        )
}

/// Whether every change starts from what is on disk, at a path below the root.
pub open spec fn starts_from(
    files: Map<Seq<Seq<u8>>, Seq<u8>>,
    changes: Seq<ChangeView>,
) -> bool {
    forall|i: int|
        0 <= i < changes.len() ==> {
            let c = #[trigger] changes[i];
            root_relative(c.path) && files.dom().contains(components(c.path))
                && files[components(c.path)] == c.pre
        }
}

/// Whether the entry's pre-images decode to the contents that the changes found.
pub open spec fn records(entry: EntryView, changes: Seq<ChangeView>) -> bool {
    &&& entry.files.len() == changes.len()
    &&& forall|i: int|
        0 <= i < changes.len() ==> (#[trigger] entry.files[i]).path == changes[i].path
            && base64_decoded(entry.files[i].pre_b64) == Ok::<Seq<u8>, Seq<char>>(changes[i].pre)
}

proof fn lemma_written_others(
    files: Map<Seq<Seq<u8>>, Seq<u8>>,
    changes: Seq<ChangeView>,
    n: nat,
    p: Seq<Seq<u8>>,
)
    requires
        n <= changes.len(),
        forall|i: int| 0 <= i < n ==> components((#[trigger] changes[i]).path) != p,
    ensures
        written(files, changes, n).dom().contains(p) == files.dom().contains(p),
        files.dom().contains(p) ==> written(files, changes, n)[p] == files[p],
    decreases n,
{
    if n > 0 {
        assert(components(changes[n - 1].path) != p);
        lemma_written_others(files, changes, (n - 1) as nat, p);
    }
}

proof fn lemma_written_at(
    files: Map<Seq<Seq<u8>>, Seq<u8>>,
    changes: Seq<ChangeView>,
    n: nat,
    k: int,
)
    requires
        0 <= k < n <= changes.len(),
        distinct_files(changes),
    ensures
        written(files, changes, n).dom().contains(components(changes[k].path)),
        written(files, changes, n)[components(changes[k].path)] == changes[k].post,
    decreases n,
{
    if k < n - 1 {
        assert(components(changes[k].path) != components(changes[n - 1].path));
        lemma_written_at(files, changes, (n - 1) as nat, k);
    }
}

proof fn lemma_restored_others(
    files: Map<Seq<Seq<u8>>, Seq<u8>>,
    list: Seq<RestorationView>,
    n: nat,
    p: Seq<Seq<u8>>,
)
    requires
        n <= list.len(),
        forall|i: int| 0 <= i < n ==> components((#[trigger] list[i]).path) != p,
    ensures
        restored(files, list, n).dom().contains(p) == files.dom().contains(p),
        files.dom().contains(p) ==> restored(files, list, n)[p] == files[p],
    decreases n,
{
    if n > 0 {
        assert(components(list[n - 1].path) != p);
        lemma_restored_others(files, list, (n - 1) as nat, p);
    }
}

proof fn lemma_restored_at(
    files: Map<Seq<Seq<u8>>, Seq<u8>>,
    list: Seq<RestorationView>,
    n: nat,
    k: int,
)
    requires
        0 <= k < n <= list.len(),
        forall|i: int, j: int|
            0 <= i < j < list.len() ==> components((#[trigger] list[i]).path) != components(
                (#[trigger] list[j]).path,
            ),
    ensures
        restored(files, list, n).dom().contains(components(list[k].path)),
        restored(files, list, n)[components(list[k].path)] == list[k].bytes,
    decreases n,
{
    if k < n - 1 {
        assert(components(list[k].path) != components(list[n - 1].path));
        lemma_restored_at(files, list, (n - 1) as nat, k);
    }
}

/// The restorations of an entry that records `changes` are their pre-images, in order.
proof fn lemma_restorations(
    entry: EntryView,
    changes: Seq<ChangeView>,
    i: int,
    done: Seq<RestorationView>,
)
    requires
        records(entry, changes),
        forall|k: int| 0 <= k < changes.len() ==> root_relative((#[trigger] changes[k]).path),
        0 <= i <= changes.len(),
        done.len() == i,
        forall|k: int|
            0 <= k < i ==> (#[trigger] done[k]).path == changes[k].path && done[k].bytes
                == changes[k].pre,
    ensures
        ({
            let r = restorations_from(entry, i, done);
            &&& r.1 is None
            &&& r.0.len() == changes.len()
            &&& forall|k: int|
                0 <= k < changes.len() ==> (#[trigger] r.0[k]).path == changes[k].path
                    && r.0[k].bytes == changes[k].pre
        }),
    decreases changes.len() - i,
{
    if i < changes.len() {
        assert(entry.files[i].path == changes[i].path);
        assert(root_relative(changes[i].path));
        let next = done.push(
            RestorationView { path: entry.files[i].path, bytes: changes[i].pre },
        );
        lemma_restorations(entry, changes, i + 1, next);
    }
}

/// Undoing the first `n` writes from the entry's pre-images gives the old files.
proof fn lemma_restore_undoes_writes(
    files: Map<Seq<Seq<u8>>, Seq<u8>>,
    changes: Seq<ChangeView>,
    list: Seq<RestorationView>,
    n: nat,
)
    requires
        n <= changes.len(),
        distinct_files(changes),
        starts_from(files, changes),
        list.len() == changes.len(),
        forall|k: int|
            0 <= k < changes.len() ==> (#[trigger] list[k]).path == changes[k].path
                && list[k].bytes == changes[k].pre,
    ensures
        restored(written(files, changes, n), list, list.len()) == files,
{
    let mid = written(files, changes, n);
    let end = restored(mid, list, list.len());
    assert forall|i: int, j: int| 0 <= i < j < list.len() implies components(
        (#[trigger] list[i]).path,
    ) != components((#[trigger] list[j]).path) by {
        assert(components(changes[i].path) != components(changes[j].path));
    }
    assert forall|p: Seq<Seq<u8>>| #[trigger] end.dom().contains(p) == files.dom().contains(p)
        && (files.dom().contains(p) ==> end[p] == files[p]) by {
        if exists|k: int| 0 <= k < list.len() && components((#[trigger] list[k]).path) == p {
            let k = choose|k: int|
                0 <= k < list.len() && components((#[trigger] list[k]).path) == p;
            lemma_restored_at(mid, list, list.len(), k);
            assert(list[k].path == changes[k].path);
        } else {
            lemma_restored_others(mid, list, list.len(), p);
            assert forall|i: int| 0 <= i < n implies components((#[trigger] changes[i]).path)
                != p by {
                assert(components(list[i].path) != p);
            }
            lemma_written_others(files, changes, n, p);
        }
    }
    assert(end =~= files);
}

/// How many of the files are written after `k` of the file steps.
spec fn files_done(k: nat, n: nat) -> nat {
    if n > 1 && k >= 2 {
        (k - 1) as nat
    } else {
        k
    }
}

proof fn lemma_file_steps_len(i: nat, n: nat)
    requires
        i <= n,
    ensures
        file_steps(i, n).len() == if i > 0 && n > 1 {
            i + 1
        } else {
            i
        },
    decreases i,
{
    if i > 0 {
        lemma_file_steps_len((i - 1) as nat, n);
    }
}

proof fn lemma_file_steps_at(i: nat, n: nat, k: int)
    requires
        i <= n <= usize::MAX,
        0 <= k < file_steps(i, n).len(),
    ensures
        file_steps(i, n)[k] == if n > 1 && k == 1 {
            CommitStep::Fault(crate::fault::FaultPoint::MidFiles)
        } else {
            CommitStep::WriteFile(files_done(k as nat, n) as usize)
        },
        !(n > 1 && k == 1) ==> files_done(k as nat, n) < i,
    decreases i,
{
    lemma_file_steps_len(i, n);
    if i > 0 {
        lemma_file_steps_len((i - 1) as nat, n);
        if k < file_steps((i - 1) as nat, n).len() {
            lemma_file_steps_at((i - 1) as nat, n, k);
        }
    }
}

/// The state after the first `k` steps of a commit, short of the marker.
proof fn lemma_before_marker(d: Disk, entry: EntryView, changes: Seq<ChangeView>, k: int)
    requires
        changes.len() <= usize::MAX,
        0 <= k <= steps_for(changes.len()).len() - 3,
    ensures
        ({
            let s = after_steps(d, steps_for(changes.len()).take(k), entry, changes);
            &&& k <= 1 ==> s == d
            &&& k > 1 ==> s.entry == Some(entry) && !s.committed
            &&& k <= 3 ==> s.files == d.files
            &&& k > 3 ==> exists|n: nat|
                n <= changes.len() && s.files == #[trigger] written(d.files, changes, n)
            &&& k == steps_for(changes.len()).len() - 3 ==> s.files == written(
                d.files,
                changes,
                changes.len(),
            )
        }),
    decreases k,
{
    let n = changes.len();
    let steps = steps_for(n);
    lemma_file_steps_len(n, n);
    let body = file_steps(n, n);
    assert(steps.len() == 3 + body.len() + 4);
    lemma_state_after(d, entry, changes, k);
    if k > 3 && k <= 3 + body.len() {
        assert(written(d.files, changes, files_done((k - 3) as nat, n))
            == after_steps(d, steps.take(k), entry, changes).files);
    } else if k > 3 {
        assert(written(d.files, changes, n) == after_steps(
            d,
            steps.take(k),
            entry,
            changes,
        ).files);
    }
}

/// The exact state after the first `k` steps, short of the marker.
proof fn lemma_state_after(d: Disk, entry: EntryView, changes: Seq<ChangeView>, k: int)
    requires
        changes.len() <= usize::MAX,
        0 <= k <= steps_for(changes.len()).len() - 3,
    ensures
        ({
            let n = changes.len();
            let s = after_steps(d, steps_for(n).take(k), entry, changes);
            let m = file_steps(n, n).len();
            &&& k <= 1 ==> s == d
            &&& k > 1 ==> s.entry == Some(entry) && !s.committed
            &&& k <= 3 ==> s.files == d.files
            &&& 3 < k <= 3 + m ==> files_done((k - 3) as nat, n) <= n && s.files == written(
                d.files,
                changes,
                files_done((k - 3) as nat, n),
            )
            &&& k >= 3 + m ==> s.files == written(d.files, changes, n)
        }),
    decreases k,
{
    let n = changes.len();
    let steps = steps_for(n);
    let body = file_steps(n, n);
    lemma_file_steps_len(n, n);
    if k > 0 {
        lemma_state_after(d, entry, changes, k - 1);
        assert(steps.take(k).drop_last() =~= steps.take(k - 1));
        assert(steps.take(k).last() == steps[k - 1]);
        let before = after_steps(d, steps.take(k - 1), entry, changes);
        let s = after_steps(d, steps.take(k), entry, changes);
        assert(s == after_step(before, steps[k - 1], entry, changes));
        if k <= 3 {
            assert(steps[k - 1] == opening_steps()[k - 1]);
            if k == 3 && body.len() == 0 {
                assert(s.files == written(d.files, changes, 0));
            }
        } else if k <= 3 + body.len() {
            assert(steps[k - 1] == body[k - 4]);
            lemma_file_steps_at(n, n, k - 4);
            let done = files_done((k - 3) as nat, n);
            let was = files_done((k - 4) as nat, n);
            assert(before.files == written(d.files, changes, was));
            if n > 1 && k == 5 {
                assert(done == was);
            } else {
                assert(done == was + 1);
                assert(s.files == before.files.insert(
                    components(changes[was as int].path),
                    changes[was as int].post,
                ));
                assert(s.files == written(d.files, changes, done));
            }
            if k == 3 + body.len() {
                assert(done == n);
            }
        } else {
            assert(steps[k - 1] == closing_steps()[k - 4 - body.len()]);
            assert(k - 4 - body.len() == 0);
        }
    } else {
        assert(steps.take(0) =~= Seq::<CommitStep>::empty());
    }
}

/// A crash after any number of steps, followed by a rollback, leaves every file as it was
/// before the change or every file as the change makes it, never a mixture: the old files
/// while the commit marker is not written, the new ones from then on.
pub proof fn law_a_crash_never_leaves_a_mixture(
    d: Disk,
    entry: EntryView,
    changes: Seq<ChangeView>,
    k: int,
)
    requires
        changes.len() <= usize::MAX,
        d.entry is None,
        distinct_files(changes),
        starts_from(d.files, changes),
        records(entry, changes),
        0 <= k <= steps_for(changes.len()).len(),
    ensures
        ({
            let steps = steps_for(changes.len());
            let after = rolled_back(after_steps(d, steps.take(k), entry, changes));
            &&& !steps.take(k).contains(CommitStep::MarkCommitted) ==> after.files == d.files
            &&& steps.take(k).contains(CommitStep::MarkCommitted) ==> after.files == written(
                d.files,
                changes,
                changes.len(),
            )
        }),
    decreases k,
{
    let n = changes.len();
    let steps = steps_for(n);
    let body = file_steps(n, n);
    lemma_file_steps_len(n, n);
    let marker = 3 + body.len() + 1;
    assert(steps[marker as int] == closing_steps()[1]);
    let s = after_steps(d, steps.take(k), entry, changes);
    if k <= marker {
        assert forall|i: int| 0 <= i < k implies steps.take(k)[i]
            != CommitStep::MarkCommitted by {
            if i < 3 {
                assert(steps[i] == opening_steps()[i]);
            } else if i < 3 + body.len() {
                assert(steps[i] == body[i - 3]);
                lemma_file_steps_at(n, n, i - 3);
            } else {
                assert(steps[i] == closing_steps()[i - 3 - body.len()]);
            }
        }
        lemma_before_marker(d, entry, changes, k);
        if k > 1 {
            assert forall|i: int| 0 <= i < changes.len() implies root_relative(
                (#[trigger] changes[i]).path,
            ) by {}
            lemma_restorations(entry, changes, 0, seq![]);
            let list = restorations_from(entry, 0, seq![]).0;
            if k <= 3 {
                lemma_restore_undoes_writes(d.files, changes, list, 0);
            } else {
                let m = choose|m: nat|
                    m <= changes.len() && s.files == #[trigger] written(d.files, changes, m);
                lemma_restore_undoes_writes(d.files, changes, list, m);
            }
        }
    } else {
        assert(steps.take(k)[marker as int] == CommitStep::MarkCommitted);
        assert(steps.take(k).drop_last() =~= steps.take(k - 1));
        assert(steps.take(k).last() == steps[k - 1]);
        assert(steps[k - 1] == closing_steps()[k - 1 - 3 - body.len()]);
        if k == marker + 1 {
            lemma_before_marker(d, entry, changes, k - 1);
        } else {
            law_a_crash_never_leaves_a_mixture(d, entry, changes, k - 1);
            lemma_after_marker(d, entry, changes, k - 1);
        }
    }
}

/// After the marker nothing that recovery looks at changes.
proof fn lemma_after_marker(d: Disk, entry: EntryView, changes: Seq<ChangeView>, k: int)
    requires
        changes.len() <= usize::MAX,
        3 + file_steps(changes.len(), changes.len()).len() + 2 <= k <= steps_for(
            changes.len(),
        ).len(),
    ensures
        after_steps(d, steps_for(changes.len()).take(k), entry, changes).committed,
        after_steps(d, steps_for(changes.len()).take(k), entry, changes).files == written(
            d.files,
            changes,
            changes.len(),
        ),
    decreases k,
{
    let n = changes.len();
    let steps = steps_for(n);
    let body = file_steps(n, n);
    assert(steps.take(k).drop_last() =~= steps.take(k - 1));
    assert(steps.take(k).last() == steps[k - 1]);
    assert(steps[k - 1] == closing_steps()[k - 1 - 3 - body.len()]);
    if k == 3 + body.len() + 2 {
        lemma_before_marker(d, entry, changes, k - 1);
    } else {
        lemma_after_marker(d, entry, changes, k - 1);
    }
}

/// The reversing changes of an entry that records `changes`, read back from a tree that
/// holds their new contents.
proof fn lemma_reversals(
    images: Seq<ImageView>,
    reads: Seq<ReadView>,
    changes: Seq<ChangeView>,
    i: int,
    done: Seq<ChangeView>,
)
    requires
        images.len() == changes.len(),
        reads.len() == changes.len(),
        forall|k: int|
            0 <= k < changes.len() ==> (#[trigger] images[k]).path == changes[k].path
                && base64_decoded(images[k].pre_b64) == Ok::<Seq<u8>, Seq<char>>(changes[k].pre),
        forall|k: int|
            0 <= k < changes.len() ==> (#[trigger] reads[k]) == ReadView::Bytes(changes[k].post),
        0 <= i <= changes.len(),
        done.len() == i,
        forall|k: int|
            0 <= k < i ==> (#[trigger] done[k]) == (ChangeView {
                path: changes[k].path,
                pre: changes[k].post,
                post: changes[k].pre,
            }),
    ensures
        reversals_from(images, reads, i, done) == Ok::<Seq<ChangeView>, ErrorView>(
            changes.map_values(
                |c: ChangeView| ChangeView { path: c.path, pre: c.post, post: c.pre },
            ),
        ),
    decreases changes.len() - i,
{
    if i < changes.len() {
        assert(reads[i] == ReadView::Bytes(changes[i].post));
        assert(images[i].path == changes[i].path);
        let next = done.push(
            ChangeView { path: changes[i].path, pre: changes[i].post, post: changes[i].pre },
        );
        lemma_reversals(images, reads, changes, i + 1, next);
    } else {
        assert(done =~= changes.map_values(
            |c: ChangeView| ChangeView { path: c.path, pre: c.post, post: c.pre },
        ));
    }
}

/// Undoing a committed change gives back every file byte for byte: whenever an undo of its
/// entry is admitted on the tree it left behind, writing what the undo decides gives the
/// files from before the change.
pub proof fn law_undo_restores_every_byte(
    files: Map<Seq<Seq<u8>>, Seq<u8>>,
    entry: EntryView,
    changes: Seq<ChangeView>,
    root_real: Seq<u8>,
    seen: Seq<SightingView>,
    reads: Seq<ReadView>,
)
    requires
        distinct_files(changes),
        starts_from(files, changes),
        records(entry, changes),
        reads.len() == changes.len(),
        forall|k: int|
            0 <= k < changes.len() ==> (#[trigger] reads[k]) == ReadView::Bytes(changes[k].post),
        reversal(entry, root_real, seen, reads) is Ok,
    ensures
        ({
            let back = reversal(entry, root_real, seen, reads)->Ok_0;
            written(written(files, changes, changes.len()), back, back.len()) == files
        }),
{
    let mid = written(files, changes, changes.len());
    let plain = changes.map_values(
        |c: ChangeView| ChangeView { path: c.path, pre: c.post, post: c.pre },
    );
    lemma_reversals(entry.files, reads, changes, 0, seq![]);
    let back = stable_sorted::<Change>(plain);
    assert(reversal(entry, root_real, seen, reads)->Ok_0 == back);
    law_stable_sort_orders_and_keeps_items::<Change>(plain);
    lemma_stable_sort_members::<Change>(plain);
    lemma_sorted_distinct(changes, plain, back);
    let end = written(mid, back, back.len());
    assert forall|p: Seq<Seq<u8>>| #[trigger] end.dom().contains(p) == files.dom().contains(p)
        && (files.dom().contains(p) ==> end[p] == files[p]) by {
        if exists|k: int| 0 <= k < changes.len() && components((#[trigger] changes[k]).path) == p {
            let k = choose|k: int|
                0 <= k < changes.len() && components((#[trigger] changes[k]).path) == p;
            assert(plain[k].path == changes[k].path);
            lemma_sorted_keeps(plain, back, k);
            let j = choose|j: int| 0 <= j < back.len() && #[trigger] back[j] == plain[k];
            lemma_written_at(mid, back, back.len(), j);
        } else {
            assert forall|i: int| 0 <= i < back.len() implies components(
                (#[trigger] back[i]).path,
            ) != p by {
                assert(plain.contains(back[i]));
                let m = plain.index_of(back[i]);
                assert(plain[m].path == changes[m].path);
            }
            lemma_written_others(mid, back, back.len(), p);
            lemma_written_others(files, changes, changes.len(), p);
        }
    }
    assert(end =~= files);
}

/// Every item of the input is an item of its stable sort.
proof fn lemma_sorted_keeps(plain: Seq<ChangeView>, back: Seq<ChangeView>, k: int)
    requires
        back == stable_sorted::<Change>(plain),
        0 <= k < plain.len(),
    ensures
        exists|j: int| 0 <= j < back.len() && #[trigger] back[j] == plain[k],
{
    broadcast use vstd::seq_lib::group_to_multiset_ensures;

    law_stable_sort_orders_and_keeps_items::<Change>(plain);
    assert(plain.contains(plain[k]));
    assert(plain.to_multiset().count(plain[k]) > 0);
    assert(back.to_multiset().count(plain[k]) > 0);
    assert(back.contains(plain[k]));
    let j = back.index_of(plain[k]);
    assert(back[j] == plain[k]);
}

/// The stable sort of changes of distinct files is of distinct files.
proof fn lemma_sorted_distinct(
    changes: Seq<ChangeView>,
    plain: Seq<ChangeView>,
    back: Seq<ChangeView>,
)
    requires
        distinct_files(changes),
        plain.len() == changes.len(),
        forall|i: int|
            0 <= i < plain.len() ==> (#[trigger] plain[i]).path == changes[i].path,
        back == stable_sorted::<Change>(plain),
    ensures
        distinct_files(back),
{
    broadcast use vstd::seq_lib::group_to_multiset_ensures;

    law_stable_sort_orders_and_keeps_items::<Change>(plain);
    lemma_stable_sort_members::<Change>(plain);
    assert(plain.no_duplicates()) by {
        assert forall|i: int, j: int|
            0 <= i < plain.len() && 0 <= j < plain.len() && i != j implies plain[i]
            != plain[j] by {
            if i < j {
                assert(components(changes[i].path) != components(changes[j].path));
            } else {
                assert(components(changes[j].path) != components(changes[i].path));
            }
            assert(plain[i].path == changes[i].path && plain[j].path == changes[j].path);
        }
    }
    plain.lemma_multiset_has_no_duplicates();
    back.lemma_multiset_has_no_duplicates_conv();
    assert forall|i: int, j: int| 0 <= i < j < back.len() implies components(
        (#[trigger] back[i]).path,
    ) != components((#[trigger] back[j]).path) by {
        assert(back[i] != back[j]);
        assert(plain.contains(back[i]) && plain.contains(back[j]));
        let a = plain.index_of(back[i]);
        let b = plain.index_of(back[j]);
        assert(plain[a] == back[i] && plain[b] == back[j]);
        assert(a != b);
        assert(plain[a].path == changes[a].path && plain[b].path == changes[b].path);
        if a < b {
            assert(components(changes[a].path) != components(changes[b].path));
        } else {
            assert(components(changes[b].path) != components(changes[a].path));
        }
    }
}

/// Whether `seen` and `reads` are what looking at the changed files finds in a tree with these
/// contents: plain files in directories below the root, with the digests of what they hold.
pub open spec fn looks_at(
    files: Map<Seq<Seq<u8>>, Seq<u8>>,
    changes: Seq<ChangeView>,
    root_real: Seq<u8>,
    seen: Seq<SightingView>,
    reads: Seq<ReadView>,
) -> bool {
    &&& seen.len() == changes.len()
    &&& reads.len() == changes.len()
    &&& forall|k: int|
        0 <= k < changes.len() ==> {
            let held = files[components((#[trigger] changes[k]).path)];
            &&& seen[k] matches SightingView::Present { parent, hash } && path_starts_with(
                parent,
                root_real,
            ) && hash == Ok::<Seq<char>, Seq<char>>(blake3_hex(held))
            &&& reads[k] == ReadView::Bytes(held)
        }
}

/// Files that are all as recorded pass the check.
proof fn lemma_all_fresh(
    files: Seq<(Seq<u8>, Seq<char>)>,
    seen: Seq<SightingView>,
    root_real: Seq<u8>,
    undoing: bool,
    i: int,
)
    requires
        0 <= i <= files.len(),
        forall|k: int|
            #![trigger files[k]]
            0 <= k < files.len() ==> verdict(
                files[k].0,
                files[k].1,
                seen[k],
                root_real,
                undoing,
            ) is Fresh,
    ensures
        stale_from(files, seen, root_real, undoing, i, seq![]) == Ok::<Seq<Seq<u8>>, ErrorView>(
            seq![],
        ),
    decreases files.len() - i,
{
    if i < files.len() {
        assert(verdict(files[i].0, files[i].1, seen[i], root_real, undoing) is Fresh);
        lemma_all_fresh(files, seen, root_real, undoing, i + 1);
    }
}

/// An undo of a change is admitted in the tree that the change left behind, and decides the
/// change turned round.
proof fn lemma_undo_admitted(
    files: Map<Seq<Seq<u8>>, Seq<u8>>,
    entry: EntryView,
    changes: Seq<ChangeView>,
    root_real: Seq<u8>,
    seen: Seq<SightingView>,
    reads: Seq<ReadView>,
)
    requires
        distinct_files(changes),
        starts_from(files, changes),
        entry.files == changes.map_values(|c: ChangeView| image_of(c)),
        records(entry, changes),
        looks_at(written(files, changes, changes.len()), changes, root_real, seen, reads),
    ensures
        reversal(entry, root_real, seen, reads) == Ok::<Seq<ChangeView>, ErrorView>(
            stable_sorted::<Change>(
                changes.map_values(
                    |c: ChangeView| ChangeView { path: c.path, pre: c.post, post: c.pre },
                ),
            ),
        ),
        forall|k: int|
            0 <= k < changes.len() ==> (#[trigger] reads[k]) == ReadView::Bytes(changes[k].post),
{
    let after = written(files, changes, changes.len());
    let images = image_files(entry.files);
    assert forall|k: int| 0 <= k < changes.len() implies (#[trigger] reads[k]) == ReadView::Bytes(
        changes[k].post,
    ) by {
        lemma_written_at(files, changes, changes.len(), k);
        assert(reads[k] == ReadView::Bytes(after[components(changes[k].path)]));
    }
    assert forall|k: int| #![trigger images[k]] 0 <= k < images.len() implies verdict(
        images[k].0,
        images[k].1,
        seen[k],
        root_real,
        true,
    ) is Fresh by {
        lemma_written_at(files, changes, changes.len(), k);
        assert(root_relative(changes[k].path));
        assert(entry.files[k] == image_of(changes[k]));
        assert(images[k] == (changes[k].path, blake3_hex(changes[k].post)));
    }
    lemma_all_fresh(images, seen, root_real, true, 0);
    lemma_reversals(entry.files, reads, changes, 0, seq![]);
}

/// Whether an undo of `changes` is admitted in the tree that they left behind, touches as many
/// files, and gives back the tree from before them, byte for byte.
pub open spec fn taken_back(
    files: Map<Seq<Seq<u8>>, Seq<u8>>,
    changes: Seq<ChangeView>,
    entry: EntryView,
    root_real: Seq<u8>,
    seen: Seq<SightingView>,
    reads: Seq<ReadView>,
) -> bool {
    let after = written(files, changes, changes.len());
    match reversal(entry, root_real, seen, reads) {
        Ok(back) => back.len() == changes.len() && written(after, back, back.len()) == files,
        Err(_) => false,
    }
}

proof fn lemma_taken_back(
    files: Map<Seq<Seq<u8>>, Seq<u8>>,
    changes: Seq<ChangeView>,
    entry: EntryView,
    root_real: Seq<u8>,
    seen: Seq<SightingView>,
    reads: Seq<ReadView>,
)
    requires
        distinct_files(changes),
        starts_from(files, changes),
        entry.files == changes.map_values(|c: ChangeView| image_of(c)),
        records(entry, changes),
        looks_at(written(files, changes, changes.len()), changes, root_real, seen, reads),
    ensures
        taken_back(files, changes, entry, root_real, seen, reads),
        ({
            let back = reversal(entry, root_real, seen, reads)->Ok_0;
            distinct_files(back) && starts_from(written(files, changes, changes.len()), back)
        }),
{
    let n = changes.len();
    let after = written(files, changes, n);
    let turn = |c: ChangeView| ChangeView { path: c.path, pre: c.post, post: c.pre };
    let plain = changes.map_values(turn);
    lemma_undo_admitted(files, entry, changes, root_real, seen, reads);
    law_undo_restores_every_byte(files, entry, changes, root_real, seen, reads);
    let back = reversal(entry, root_real, seen, reads)->Ok_0;
    assert(back == stable_sorted::<Change>(plain));
    law_stable_sort_orders_and_keeps_items::<Change>(plain);
    lemma_stable_sort_members::<Change>(plain);
    lemma_sorted_distinct(changes, plain, back);
    assert forall|i: int| 0 <= i < back.len() implies {
        let c = #[trigger] back[i];
        root_relative(c.path) && after.dom().contains(components(c.path))
            && after[components(c.path)] == c.pre
    } by {
        assert(plain.contains(back[i]));
        let k = plain.index_of(back[i]);
        assert(back[i] == turn(changes[k]));
        assert(root_relative(changes[k].path));
        lemma_written_at(files, changes, n, k);
    }
}

/// Whether `reads` are what the files with edits hold in this tree.
pub open spec fn reads_tree(
    files: Map<Seq<Seq<u8>>, Seq<u8>>,
    groups: Seq<(Seq<u8>, Seq<usize>)>,
    reads: Seq<ReadView>,
) -> bool {
    &&& reads.len() == groups.len()
    &&& forall|k: int|
        0 <= k < groups.len() ==> files.dom().contains(components((#[trigger] groups[k]).0))
            && reads[k] == ReadView::Bytes(files[components(groups[k].0)])
}

/// An undo right after an apply is admitted, and so is another undo right after that one. The
/// first gives back the tree from before the apply, byte for byte, and touches as many files
/// as the apply did; the second brings back the tree that the apply had made.
///
/// `files` is the tree before the apply, `seen` and `reads` what the apply found in it. What
/// the first undo finds, `undo_seen` and `undo_reads`, is the tree that the apply left, and
/// what the second finds, `redo_seen` and `redo_reads`, the tree that the first left: nobody
/// else changed anything in between.
pub proof fn law_an_apply_can_be_undone_and_the_undo_too(
    files: Map<Seq<Seq<u8>>, Seq<u8>>,
    p: PlanView,
    sha8: Seq<char>,
    pending: Seq<Seq<char>>,
    seen: Seq<SightingView>,
    reads: Seq<ReadView>,
    entry: EntryView,
    undo_seen: Seq<SightingView>,
    undo_reads: Seq<ReadView>,
    undo_entry: EntryView,
    redo_seen: Seq<SightingView>,
    redo_reads: Seq<ReadView>,
)
    requires
        application(p, sha8, pending, seen, reads) is Ok,
        reads_tree(files, grouped(p.edits), reads),
        ({
            let changes = application(p, sha8, pending, seen, reads)->Ok_0;
            let after = written(files, changes, changes.len());
            &&& entry == entry_of(entry.id, entry.plan_id, entry.created_unix, changes)
            &&& records(entry, changes)
            &&& looks_at(after, changes, p.root_real, undo_seen, undo_reads)
        }),
    ensures
        ({
            let changes = application(p, sha8, pending, seen, reads)->Ok_0;
            let after = written(files, changes, changes.len());
            let back = reversal(entry, p.root_real, undo_seen, undo_reads)->Ok_0;
            &&& taken_back(files, changes, entry, p.root_real, undo_seen, undo_reads)
            &&& undo_entry == entry_of(
                undo_entry.id,
                entry.plan_id,
                undo_entry.created_unix,
                back,
            ) && records(undo_entry, back) && looks_at(
                files,
                back,
                p.root_real,
                redo_seen,
                redo_reads,
            ) ==> taken_back(after, back, undo_entry, p.root_real, redo_seen, redo_reads)
        }),
{
    let changes = application(p, sha8, pending, seen, reads)->Ok_0;
    let after = written(files, changes, changes.len());
    let groups = grouped(p.edits);
    law_admitted_changes_are_well_placed(p, sha8, pending, seen, reads);
    assert forall|i: int| 0 <= i < changes.len() implies {
        let c = #[trigger] changes[i];
        root_relative(c.path) && files.dom().contains(components(c.path))
            && files[components(c.path)] == c.pre
    } by {
        assert(reads[i] == ReadView::Bytes(files[components(groups[i].0)]));
    }
    lemma_taken_back(files, changes, entry, p.root_real, undo_seen, undo_reads);
    let back = reversal(entry, p.root_real, undo_seen, undo_reads)->Ok_0;
    if undo_entry == entry_of(undo_entry.id, entry.plan_id, undo_entry.created_unix, back)
        && records(undo_entry, back) && looks_at(files, back, p.root_real, redo_seen, redo_reads) {
        lemma_taken_back(after, back, undo_entry, p.root_real, redo_seen, redo_reads);
    }
}

/// What restoring an entry puts back, in order.
pub open spec fn put_back(entry: EntryView) -> Seq<RestorationView> {
    restorations_from(entry, 0, seq![]).0
}

/// The files after a repair's steps, with the journal's entries by their ids.
pub open spec fn repaired(
    files: Map<Seq<Seq<u8>>, Seq<u8>>,
    steps: Seq<DoctorStepView>,
    entries: Map<Seq<char>, EntryView>,
) -> Map<Seq<Seq<u8>>, Seq<u8>>
    decreases steps.len(),
{
    if steps.len() == 0 {
        files
    } else {
        let next = match steps.first() {
            DoctorStepView::Restore(id) => restored(
                files,
                put_back(entries[id]),
                put_back(entries[id]).len(),
            ),
            _ => files,
        };
        repaired(next, steps.drop_first(), entries)
    }
}

/// Whether the `k`th restoration is the last of its entry for the file `p`.
pub open spec fn settles(list: Seq<RestorationView>, k: int, p: Seq<Seq<u8>>) -> bool {
    &&& 0 <= k < list.len()
    &&& components(list[k].path) == p
    &&& forall|l: int| k < l < list.len() ==> components((#[trigger] list[l]).path) != p
}

/// Whether an entry holds the file `p`.
pub open spec fn holds_file(entry: EntryView, p: Seq<Seq<u8>>) -> bool {
    exists|k: int|
        0 <= k < put_back(entry).len() && components((#[trigger] put_back(entry)[k]).path) == p
}

proof fn lemma_settled(
    files: Map<Seq<Seq<u8>>, Seq<u8>>,
    list: Seq<RestorationView>,
    n: nat,
    k: int,
    p: Seq<Seq<u8>>,
)
    requires
        settles(list, k, p),
        k < n <= list.len(),
    ensures
        restored(files, list, n).dom().contains(p),
        restored(files, list, n)[p] == list[k].bytes,
    decreases n,
{
    if n > k + 1 {
        lemma_settled(files, list, (n - 1) as nat, k, p);
        assert(components(list[n - 1].path) != p);
    }
}

proof fn lemma_repaired_push(
    files: Map<Seq<Seq<u8>>, Seq<u8>>,
    ids: Seq<Seq<char>>,
    entries: Map<Seq<char>, EntryView>,
    tail: Seq<DoctorStepView>,
)
    requires
        ids.len() > 0,
    ensures
        repaired(files, entry_steps(ids, true) + tail, entries) == repaired(
            restored(files, put_back(entries[ids.last()]), put_back(entries[ids.last()]).len()),
            entry_steps(ids.drop_last(), true) + tail,
            entries,
        ),
{
    let steps = entry_steps(ids, true) + tail;
    let rest = entry_steps(ids.drop_last(), true) + tail;
    assert(steps.first() == DoctorStepView::Restore(ids.last()));
    let one = steps.drop_first();
    assert(one.first() == DoctorStepView::DeleteEntry(ids.last()));
    assert(one.drop_first() =~= rest);
    reveal_with_fuel(repaired, 3);
}

proof fn lemma_oldest(
    files: Map<Seq<Seq<u8>>, Seq<u8>>,
    ids: Seq<Seq<char>>,
    entries: Map<Seq<char>, EntryView>,
    tail: Seq<DoctorStepView>,
    p: Seq<Seq<u8>>,
)
    requires
        forall|i: int| 0 <= i < tail.len() ==> !(#[trigger] tail[i] is Restore),
    ensures
        forall|j: int, k: int|
            0 <= j < ids.len() && #[trigger] settles(put_back(entries[ids[j]]), k, p) && (forall|
                i: int,
            |
                0 <= i < j ==> !holds_file(entries[#[trigger] ids[i]], p)) ==> {
                let end = repaired(files, entry_steps(ids, true) + tail, entries);
                end.dom().contains(p) && end[p] == put_back(entries[ids[j]])[k].bytes
            },
        (forall|i: int| 0 <= i < ids.len() ==> !holds_file(entries[#[trigger] ids[i]], p)) ==> {
            let end = repaired(files, entry_steps(ids, true) + tail, entries);
            end.dom().contains(p) == files.dom().contains(p) && (files.dom().contains(p) ==> end[p]
                == files[p])
        },
    decreases ids.len(),
{
    let end = repaired(files, entry_steps(ids, true) + tail, entries);
    if ids.len() == 0 {
        assert(entry_steps(ids, true) + tail =~= tail);
        lemma_nothing_restored(files, tail, entries);
    } else {
        let rest = ids.drop_last();
        let list = put_back(entries[ids.last()]);
        let next = restored(files, list, list.len());
        lemma_repaired_push(files, ids, entries, tail);
        lemma_oldest(next, rest, entries, tail, p);
        lemma_restored_alike(files, files, list, list.len(), p);
        assert forall|j: int, k: int|
            0 <= j < ids.len() && #[trigger] settles(put_back(entries[ids[j]]), k, p) && (forall|
                i: int,
            |
                0 <= i < j ==> !holds_file(entries[#[trigger] ids[i]], p)) implies end.dom().contains(
            p,
        ) && end[p] == put_back(entries[ids[j]])[k].bytes by {
            if j < rest.len() {
                assert(rest[j] == ids[j]);
                assert(settles(put_back(entries[rest[j]]), k, p));
                assert forall|i: int| 0 <= i < j implies !holds_file(
                    entries[#[trigger] rest[i]],
                    p,
                ) by {
                    assert(rest[i] == ids[i]);
                }
            } else {
                assert(ids[j] == ids.last());
                lemma_settled(files, list, list.len(), k, p);
                assert forall|i: int| 0 <= i < rest.len() implies !holds_file(
                    entries[#[trigger] rest[i]],
                    p,
                ) by {
                    assert(rest[i] == ids[i]);
                }
            }
        }
        if forall|i: int| 0 <= i < ids.len() ==> !holds_file(entries[#[trigger] ids[i]], p) {
            assert forall|i: int| 0 <= i < rest.len() implies !holds_file(
                entries[#[trigger] rest[i]],
                p,
            ) by {
                assert(rest[i] == ids[i]);
            }
            assert(ids[ids.len() - 1] == ids.last());
            assert(!holds_file(entries[ids.last()], p));
            if restores(list, list.len(), p) {
                let k = choose|k: int|
                    0 <= k < list.len() && components((#[trigger] list[k]).path) == p;
                assert(components(put_back(entries[ids.last()])[k].path) == p);
            }
        }
    }
}

proof fn lemma_nothing_restored(
    files: Map<Seq<Seq<u8>>, Seq<u8>>,
    steps: Seq<DoctorStepView>,
    entries: Map<Seq<char>, EntryView>,
)
    requires
        forall|i: int| 0 <= i < steps.len() ==> !(#[trigger] steps[i] is Restore),
    ensures
        repaired(files, steps, entries) == files,
    decreases steps.len(),
{
    if steps.len() > 0 {
        assert(!(steps[0] is Restore));
        let rest = steps.drop_first();
        assert forall|i: int| 0 <= i < rest.len() implies !(#[trigger] rest[i] is Restore) by {
            assert(rest[i] == steps[i + 1]);
        }
        lemma_nothing_restored(files, rest, entries);
    }
}

/// Rolling back several entries leaves each file as the oldest entry that holds it recorded
/// it, and every file that none of them holds as it was. `ids` are the entries from the oldest
/// to the newest, each of which can be restored to its end; `p` is the file, `j` the oldest
/// entry that holds it, and `k` its place there.
pub proof fn law_rollback_goes_back_to_the_oldest_record(
    files: Map<Seq<Seq<u8>>, Seq<u8>>,
    ids: Seq<Seq<char>>,
    entries: Map<Seq<char>, EntryView>,
    stale_lock: bool,
    p: Seq<Seq<u8>>,
    j: int,
    k: int,
)
    requires
        forall|i: int|
            0 <= i < ids.len() ==> entries.dom().contains(#[trigger] ids[i]) && restorations_from(
                entries[ids[i]],
                0,
                seq![],
            ).1 is None,
    ensures
        ({
            let end = repaired(files, repair_steps(ids, true, stale_lock), entries);
            &&& 0 <= j < ids.len() && settles(put_back(entries[ids[j]]), k, p) && (forall|i: int|
                0 <= i < j ==> !holds_file(entries[#[trigger] ids[i]], p))
                ==> end.dom().contains(p) && end[p] == put_back(entries[ids[j]])[k].bytes
            &&& (forall|i: int| 0 <= i < ids.len() ==> !holds_file(entries[#[trigger] ids[i]], p))
                ==> end.dom().contains(p) == files.dom().contains(p) && (files.dom().contains(p)
                ==> end[p] == files[p])
        }),
{
    let tail = if stale_lock {
        seq![DoctorStepView::RemoveLock]
    } else {
        seq![]
    };
    assert(repair_steps(ids, true, stale_lock) =~= entry_steps(ids, true) + tail);
    lemma_oldest(files, ids, entries, tail, p);
}

} // verus!
