//! Recovery from a crash in the middle of an apply or an undo.

use crate::codec::{b64d, base64_decoded};
use crate::errors::{refusal, refusal_next, ErrorKind, ErrorView, VcError, VcResult};
use crate::index::{can_cut, epoch8, short_epoch};
use crate::journal::{
    is_json, is_json_name, journal_ids, DirEntry, EntryView, ImageView, Journal, JournalEntry,
};
use crate::order::views;
use crate::paths::{path_is_root_relative, root_relative, TreePath};
use crate::text::{trim, trimmed};
use vstd::prelude::*;
use vstd::string::*;

verus! {

/// A snapshot of the repository.
#[derive(Debug, Clone)]
pub struct RepoStatus {
    pub epoch8: String,
    pub files: usize,
    pub plans: usize,
    pub journal_head: Option<String>,
    pub uncommitted: Vec<String>,
    pub lock_held: bool,
}

/// The number of plan files among `names`.
pub open spec fn plan_count(names: Seq<Seq<u8>>) -> nat
    decreases names.len(),
{
    if names.len() == 0 {
        0
    } else {
        plan_count(names.drop_last()) + if is_json_name(names.last()) {
            1nat
        } else {
            0nat
        }
    }
}

/// The number of plan files among the names of the plan directory.
pub fn count_plans(names: &Vec<Vec<u8>>) -> (n: usize)
    ensures
        n == plan_count(views(names@)),
{
    let mut n: usize = 0;
    let mut i: usize = 0;
    let ghost nv = views(names@);
    assert(nv.take(0) =~= Seq::<Seq<u8>>::empty());
    while i < names.len()
        invariant
            i <= names.len(),
            nv == views(names@),
            n == plan_count(nv.take(i as int)),
            n <= i,
        decreases names.len() - i,
    {
        assert(nv.take(i + 1).drop_last() =~= nv.take(i as int));
        assert(nv.take(i + 1).last() == names@[i as int]@);
        if is_json(names[i].as_slice()) {
            n = n + 1;
        }
        i = i + 1;
    }
    assert(nv.take(names.len() as int) =~= nv);
    n
}

/// The snapshot of a repository whose index has just been refreshed to `epoch` with
/// `files` entries, whose journal directory holds `dir`, whose plan directory holds
/// `plan_names`, and whose lock file is or is not there.
pub fn status(
    epoch: &str,
    files: usize,
    dir: &Vec<DirEntry>,
    plan_names: &Vec<Vec<u8>>,
    lock_held: bool,
) -> (s: RepoStatus)
    requires
        can_cut(epoch@),
    ensures
        s.epoch8@ == short_epoch(epoch@),
        s.files == files,
        s.plans == plan_count(views(plan_names@)),
        match s.journal_head {
            Some(id) => journal_ids(views(dir@), true).len() > 0 && id@ == journal_ids(
                views(dir@),
                true,
            ).last(),
            None => journal_ids(views(dir@), true).len() == 0,
        },
        views(s.uncommitted@) == journal_ids(views(dir@), false),
        s.lock_held == lock_held,
{
    let (_, uncommitted) = Journal::scan(dir);
    RepoStatus {
        epoch8: epoch8(epoch).to_owned(),
        files,
        plans: count_plans(plan_names),
        journal_head: Journal::last_committed(dir),
        uncommitted,
        lock_held,
    }
}

/// What the doctor is asked to do.
#[derive(Debug, Clone, Copy, PartialEq, Eq, Structural)]
pub enum DoctorAction {
    /// Look, and change nothing.
    Report,
    /// Restore the pre-images of every uncommitted entry.
    Rollback,
    /// Forget every uncommitted entry and keep the files as they are.
    Discard,
}

/// What the doctor found or did.
#[derive(Debug, Clone)]
pub struct DoctorReport {
    pub rolled_back: Vec<String>,
    pub discarded: Vec<String>,
    pub lock_removed: bool,
    pub healthy: bool,
}

/// What reading the lock file gave.
#[derive(Debug, Clone)]
pub enum LockRead {
    /// There is no lock file.
    Absent,
    /// There is one that cannot be read as text.
    Unreadable,
    /// Its text.
    Text(String),
}

/// The state of the lock.
#[derive(Debug, Clone)]
pub enum LockState {
    /// There is no lock file.
    Absent,
    /// It names a process that is running.
    Alive(String),
    /// It can be cleared: no running process holds it.
    Stale,
}

/// What a [`LockState`] says.
pub enum LockView {
    Absent,
    Alive(Seq<char>),
    Stale,
}

impl View for LockState {
    type V = LockView;

    open spec fn view(&self) -> LockView {
        match self {
            LockState::Absent => LockView::Absent,
            LockState::Alive(pid) => LockView::Alive(pid@),
            LockState::Stale => LockView::Stale,
        }
    }
}

/// The process id in a lock file, when it names one.
pub open spec fn named_pid(read: LockRead) -> Option<Seq<char>> {
    match read {
        LockRead::Text(t) => if trimmed(t@).len() > 0 {
            Some(trimmed(t@))
        } else {
            None
        },
        _ => None,
    }
}

/// The process whose liveness decides the state of the lock, if any.
pub fn lock_pid(read: &LockRead) -> (pid: Option<String>)
    ensures
        match pid {
            Some(p) => named_pid(*read) == Some(p@),
            None => named_pid(*read) is None,
        },
{
    match read {
        LockRead::Text(t) => {
            let pid = trim(t.as_str());
            if pid.as_str().is_empty() {
                None
            } else {
                Some(pid)
            }
        },
        _ => None,
    }
}

/// The state of the lock, given whether the process it names is running.
pub open spec fn lock_state(read: LockRead, alive: bool) -> LockView {
    match read {
        LockRead::Absent => LockView::Absent,
        _ => match named_pid(read) {
            Some(pid) => if alive {
                LockView::Alive(pid)
            } else {
                LockView::Stale
            },
            None => LockView::Stale,
        },
    }
}

/// Classifies the lock file; `alive` tells whether the process it names is running.
pub fn inspect_lock(read: &LockRead, alive: bool) -> (state: LockState)
    ensures
        state@ == lock_state(*read, alive),
{
    match read {
        LockRead::Absent => LockState::Absent,
        _ => match lock_pid(read) {
            Some(pid) => {
                if alive {
                    LockState::Alive(pid)
                } else {
                    LockState::Stale
                }
            },
            None => LockState::Stale,
        },
    }
}

/// The refusal while a running process holds the lock.
pub open spec fn lock_alive_refusal(pid: Seq<char>) -> ErrorView {
    refusal_next(
        ErrorKind::JournalBlocked,
        "apply in progress (pid "@ + pid + ")"@,
        "wait or kill the process"@,
    )
}

/// Refuses while a running process holds the lock.
pub fn refuse_if_lock_alive(state: &LockState) -> (r: VcResult<()>)
    ensures
        match (state@, r) {
            (LockView::Alive(pid), Err(e)) => e@ == lock_alive_refusal(pid),
            (LockView::Alive(_), Ok(_)) => false,
            (_, r) => r is Ok,
        },
{
    match state {
        LockState::Alive(pid) => {
            let mut m: String = "apply in progress (pid ".to_owned();
            m.append(pid.as_str());
            m.append(")");
            Err(
                VcError::new(ErrorKind::JournalBlocked, m).with_next(
                    "wait or kill the process".to_owned(),
                ),
            )
        },
        _ => Ok(()),
    }
}

/// One step of a repair.
#[derive(Debug, Clone)]
pub enum DoctorStep {
    /// Restore every file of this entry.
    Restore(String),
    /// Delete this entry.
    DeleteEntry(String),
    /// Remove the stale lock file.
    RemoveLock,
}

/// What a [`DoctorStep`] says.
pub enum DoctorStepView {
    Restore(Seq<char>),
    DeleteEntry(Seq<char>),
    RemoveLock,
}

impl View for DoctorStep {
    type V = DoctorStepView;

    open spec fn view(&self) -> DoctorStepView {
        match self {
            DoctorStep::Restore(id) => DoctorStepView::Restore(id@),
            DoctorStep::DeleteEntry(id) => DoctorStepView::DeleteEntry(id@),
            DoctorStep::RemoveLock => DoctorStepView::RemoveLock,
        }
    }
}

/// The steps over the uncommitted entries, the newest first; each entry is deleted only
/// after its own files are restored.
pub open spec fn entry_steps(ids: Seq<Seq<char>>, restore: bool) -> Seq<DoctorStepView>
    decreases ids.len(),
{
    if ids.len() == 0 {
        seq![]
    } else {
        let rest = entry_steps(ids.drop_last(), restore);
        if restore {
            seq![
                DoctorStepView::Restore(ids.last()),
                DoctorStepView::DeleteEntry(ids.last()),
            ] + rest
        } else {
            seq![DoctorStepView::DeleteEntry(ids.last())] + rest
        }
    }
}

/// The steps of a repair.
pub open spec fn repair_steps(ids: Seq<Seq<char>>, restore: bool, stale_lock: bool) -> Seq<
    DoctorStepView,
> {
    if stale_lock {
        entry_steps(ids, restore).push(DoctorStepView::RemoveLock)
    } else {
        entry_steps(ids, restore)
    }
}

/// The report and the steps that it describes.
#[derive(Debug, Clone)]
pub struct DoctorPlan {
    pub steps: Vec<DoctorStep>,
    pub report: DoctorReport,
}

/// Looks at the journal and the lock; there is nothing to do for it.
pub fn doctor_report(lock: &LockState, dir: &Vec<DirEntry>) -> (r: DoctorReport)
    ensures
        r.rolled_back@.len() == 0,
        r.discarded@.len() == 0,
        !r.lock_removed,
        r.healthy <==> journal_ids(views(dir@), false).len() == 0 && !(lock@ is Stale),
{
    let (_, uncommitted) = Journal::scan(dir);
    let stale = match lock {
        LockState::Stale => true,
        _ => false,
    };
    assert(views(uncommitted@).len() == uncommitted@.len());
    DoctorReport {
        rolled_back: Vec::new(),
        discarded: Vec::new(),
        lock_removed: false,
        healthy: uncommitted.len() == 0 && !stale,
    }
}

/// Plans a repair.
fn doctor_mutate(lock: &LockState, dir: &Vec<DirEntry>, restore: bool) -> (r: VcResult<DoctorPlan>)
    ensures
        match (lock@, r) {
            (LockView::Alive(pid), Err(e)) => e@ == lock_alive_refusal(pid),
            (LockView::Alive(_), Ok(_)) => false,
            (_, Err(_)) => false,
            (l, Ok(plan)) => {
                let ids = journal_ids(views(dir@), false);
                &&& views(plan.steps@) == repair_steps(ids, restore, l is Stale)
                &&& views(plan.report.rolled_back@) == if restore {
                    ids.reverse()
                } else {
                    seq![]
                }
                &&& views(plan.report.discarded@) == if restore {
                    seq![]
                } else {
                    ids.reverse()
                }
                &&& plan.report.lock_removed == (l is Stale)
                &&& plan.report.healthy
            },
        },
{
    match refuse_if_lock_alive(lock) {
        Ok(_) => {},
        Err(e) => {
            return Err(e);
        },
    }
    let (_, uncommitted) = Journal::scan(dir);
    let ghost ids = views(uncommitted@);
    let mut steps: Vec<DoctorStep> = Vec::new();
    let mut touched: Vec<String> = Vec::new();
    let mut n: usize = uncommitted.len();
    proof {
        assert(ids.take(n as int) =~= ids);
        assert(views(steps@) + entry_steps(ids, restore) =~= entry_steps(ids, restore));
        assert(views(touched@) =~= ids.reverse().take(0));
    }
    while n > 0
        invariant
            n <= uncommitted.len(),
            ids == views(uncommitted@),
            entry_steps(ids, restore) == views(steps@) + entry_steps(ids.take(n as int), restore),
            views(touched@) == ids.reverse().take(ids.len() - n),
        decreases n,
    {
        let id = &uncommitted[n - 1];
        let ghost before = views(steps@);
        let ghost named = views(touched@);
        proof {
            assert(ids.take(n as int).last() == id@);
            assert(ids.take(n as int).drop_last() =~= ids.take(n - 1));
        }
        if restore {
            steps.push(DoctorStep::Restore(id.clone()));
        }
        steps.push(DoctorStep::DeleteEntry(id.clone()));
        touched.push(id.clone());
        proof {
            let rest = entry_steps(ids.take(n - 1), restore);
            if restore {
                assert(views(steps@) =~= before.push(DoctorStepView::Restore(id@)).push(
                    DoctorStepView::DeleteEntry(id@),
                ));
                assert(views(steps@) + rest =~= before + (seq![
                    DoctorStepView::Restore(id@),
                    DoctorStepView::DeleteEntry(id@),
                ] + rest));
            } else {
                assert(views(steps@) =~= before.push(DoctorStepView::DeleteEntry(id@)));
                assert(views(steps@) + rest =~= before + (seq![DoctorStepView::DeleteEntry(id@)]
                    + rest));
            }
            assert(views(touched@) =~= named.push(id@));
            assert(ids.reverse().take(ids.len() - n + 1) =~= ids.reverse().take(
                ids.len() - n,
            ).push(id@));
        }
        n = n - 1;
    }
    proof {
        assert(entry_steps(ids.take(0), restore) =~= Seq::<DoctorStepView>::empty());
        assert(views(steps@) + Seq::<DoctorStepView>::empty() =~= views(steps@));
        assert(ids.reverse().take(ids.len() as int) =~= ids.reverse());
    }
    let lock_removed = match lock {
        LockState::Stale => true,
        _ => false,
    };
    if lock_removed {
        let ghost before = views(steps@);
        steps.push(DoctorStep::RemoveLock);
        assert(views(steps@) =~= before.push(DoctorStepView::RemoveLock));
    }
    let nothing: Vec<String> = Vec::new();
    assert(views(nothing@) =~= Seq::<Seq<char>>::empty());
    let report = if restore {
        DoctorReport { rolled_back: touched, discarded: nothing, lock_removed, healthy: true }
    } else {
        DoctorReport { rolled_back: nothing, discarded: touched, lock_removed, healthy: true }
    };
    Ok(DoctorPlan { steps, report })
}

/// Inspects or repairs what a crash left behind. A report has no steps; a repair is refused
/// while a running process holds the lock.
pub fn doctor(action: DoctorAction, lock: &LockState, dir: &Vec<DirEntry>) -> (r: VcResult<
    DoctorPlan,
>)
    ensures
        match action {
            DoctorAction::Report => match r {
                Ok(plan) => {
                    &&& plan.steps@.len() == 0
                    &&& plan.report.rolled_back@.len() == 0
                    &&& plan.report.discarded@.len() == 0
                    &&& !plan.report.lock_removed
                    &&& plan.report.healthy <==> journal_ids(views(dir@), false).len() == 0 && !(
                    lock@ is Stale)
                },
                Err(_) => false,
            },
            _ => match (lock@, r) {
                (LockView::Alive(pid), Err(e)) => e@ == lock_alive_refusal(pid),
                (LockView::Alive(_), Ok(_)) => false,
                (_, Err(_)) => false,
                (l, Ok(plan)) => {
                    let ids = journal_ids(views(dir@), false);
                    let restore = action == DoctorAction::Rollback;
                    &&& views(plan.steps@) == repair_steps(ids, restore, l is Stale)
                    &&& views(plan.report.rolled_back@) == if restore {
                        ids.reverse()
                    } else {
                        seq![]
                    }
                    &&& views(plan.report.discarded@) == if restore {
                        seq![]
                    } else {
                        ids.reverse()
                    }
                    &&& plan.report.lock_removed == (l is Stale)
                    &&& plan.report.healthy
                },
            },
        },
{
    match action {
        DoctorAction::Report => Ok(
            DoctorPlan { steps: Vec::new(), report: doctor_report(lock, dir) },
        ),
        DoctorAction::Rollback => doctor_mutate(lock, dir, true),
        DoctorAction::Discard => doctor_mutate(lock, dir, false),
    }
}

/// A file to be put back to these contents.
#[derive(Debug, Clone)]
pub struct Restoration {
    pub path: TreePath,
    pub bytes: Vec<u8>,
}

/// What a [`Restoration`] says.
pub struct RestorationView {
    pub path: Seq<u8>,
    pub bytes: Seq<u8>,
}

impl View for Restoration {
    type V = RestorationView;

    open spec fn view(&self) -> RestorationView {
        RestorationView { path: self.path@, bytes: self.bytes@ }
    }
}

/// The files that can be restored from image `i` on, in order, added to `done`, and what
/// stops it before the end.
pub open spec fn restorations_from(
    entry: EntryView,
    i: int,
    done: Seq<RestorationView>,
) -> (Seq<RestorationView>, Option<ErrorView>)
    decreases entry.files.len() - i,
{
    if i >= entry.files.len() {
        (done, None)
    } else {
        let f = entry.files[i];
        if !root_relative(f.path) {
            (done, Some(crate::apply::escaping_path(f.path)))
        } else {
            match base64_decoded(f.pre_b64) {
                Err(why) => (done, Some(refusal(ErrorKind::Malformed, "base64: "@ + why))),
                Ok(bytes) => restorations_from(
                    entry,
                    i + 1,
                    done.push(RestorationView { path: f.path, bytes }),
                ),
            }
        }
    }
}

/// The files of an entry with their pre-images, in the entry's order, and what stops the
/// restoration before its end: a path that could leave the root, or a pre-image that does
/// not decode.
pub fn restore_entry(entry: &JournalEntry) -> (r: (Vec<Restoration>, Option<VcError>))
    ensures
        views(r.0@) == restorations_from(entry@, 0, seq![]).0,
        match (restorations_from(entry@, 0, seq![]).1, r.1) {
            (None, None) => true,
            (Some(e), Some(f)) => f@ == e,
            _ => false,
        },
{
    let mut out: Vec<Restoration> = Vec::new();
    let ghost ev = entry@;
    let ghost whole = restorations_from(ev, 0, seq![]);
    let mut i: usize = 0;
    assert(views(out@) =~= Seq::<RestorationView>::empty());
    while i < entry.files.len()
        invariant
            i <= entry.files.len(),
            ev == entry@,
            whole == restorations_from(ev, 0, seq![]),
            whole == restorations_from(ev, i as int, views(out@)),
        decreases entry.files.len() - i,
    {
        let f = &entry.files[i];
        assert(ev.files[i as int] == f@);
        if !path_is_root_relative(&f.path) {
            let mut m: String = f.path.display();
            m.append(": path must be relative with no '..' components");
            return (out, Some(VcError::new(ErrorKind::Malformed, m)));
        }
        match b64d(f.pre_b64.as_str()) {
            Ok(bytes) => {
                let ghost before = views(out@);
                let one = Restoration { path: f.path.copy(), bytes };
                out.push(one);
                assert(views(out@) =~= before.push(one@));
            },
            Err(e) => {
                return (out, Some(e));
            },
        }
        i = i + 1;
    }
    (out, None)
}

proof fn lemma_plan_count(names: Seq<Seq<u8>>)
    ensures
        plan_count(names) == names.filter(|n: Seq<u8>| is_json_name(n)).len(),
    decreases names.len(),
{
    reveal(Seq::filter);
    if names.len() > 0 {
        lemma_plan_count(names.drop_last());
    }
}

/// The status counts every plan file once.
pub proof fn law_every_plan_file_is_counted(names: Seq<Seq<u8>>)
    ensures
        plan_count(names) == names.filter(|n: Seq<u8>| is_json_name(n)).len(),
{
    lemma_plan_count(names);
}

/// What a lock file says of its holder: it is held by the process it names as long as that one
/// is running, and stale when that one is not, or none is named.
pub proof fn law_a_lock_is_alive_exactly_with_its_process(read: LockRead, alive: bool)
    ensures
        lock_state(read, alive) is Absent <==> read is Absent,
        lock_state(read, alive) is Alive <==> alive && (read matches LockRead::Text(t) && trimmed(
            t@,
        ).len() > 0),
        lock_state(read, alive) matches LockView::Alive(pid) ==> (read matches LockRead::Text(t)
            && pid == trimmed(t@)),
{
}

/// A repair goes over every entry once, from the newest to the oldest. A rollback restores
/// each before it deletes it, and a discard deletes it only. A stale lock is removed last, and
/// any other stays.
pub proof fn law_a_repair_goes_over_every_entry_from_the_newest(
    ids: Seq<Seq<char>>,
    restore: bool,
    stale_lock: bool,
)
    ensures
        ({
            let n = ids.len() as int;
            let each = if restore {
                2int
            } else {
                1int
            };
            let steps = repair_steps(ids, restore, stale_lock);
            &&& steps.len() == each * n + if stale_lock {
                1int
            } else {
                0int
            }
            &&& stale_lock ==> steps.last() == DoctorStepView::RemoveLock
            &&& forall|k: int|
                0 <= k < n ==> steps[each * k + each - 1] == DoctorStepView::DeleteEntry(
                    #[trigger] ids[n - 1 - k],
                )
            &&& restore ==> forall|k: int|
                0 <= k < n ==> steps[each * k] == DoctorStepView::Restore(
                    #[trigger] ids[n - 1 - k],
                )
        }),
{
    lemma_entry_steps(ids, restore);
}

proof fn lemma_entry_steps(ids: Seq<Seq<char>>, restore: bool)
    ensures
        ({
            let n = ids.len() as int;
            let each = if restore {
                2int
            } else {
                1int
            };
            let steps = entry_steps(ids, restore);
            &&& steps.len() == each * n
            &&& forall|k: int|
                0 <= k < n ==> steps[each * k + each - 1] == DoctorStepView::DeleteEntry(
                    #[trigger] ids[n - 1 - k],
                )
            &&& restore ==> forall|k: int|
                0 <= k < n ==> steps[each * k] == DoctorStepView::Restore(
                    #[trigger] ids[n - 1 - k],
                )
        }),
    decreases ids.len(),
{
    if ids.len() > 0 {
        let n = ids.len() as int;
        let each = if restore {
            2int
        } else {
            1int
        };
        let rest = ids.drop_last();
        let steps = entry_steps(ids, restore);
        let tail = entry_steps(rest, restore);
        lemma_entry_steps(rest, restore);
        assert forall|k: int| 0 <= k < n implies steps[each * k + each - 1]
            == DoctorStepView::DeleteEntry(#[trigger] ids[n - 1 - k]) by {
            if k > 0 {
                assert(rest[n - 2 - (k - 1)] == ids[n - 1 - k]);
                assert(steps[each * k + each - 1] == tail[each * (k - 1) + each - 1]);
            }
        }
        if restore {
            assert forall|k: int| 0 <= k < n implies steps[each * k] == DoctorStepView::Restore(
                #[trigger] ids[n - 1 - k],
            ) by {
                if k > 0 {
                    assert(rest[n - 2 - (k - 1)] == ids[n - 1 - k]);
                    assert(steps[each * k] == tail[each * (k - 1)]);
                }
            }
        }
    }
}

/// What restoring one recorded file is.
pub open spec fn restoration_of(f: ImageView) -> RestorationView {
    RestorationView { path: f.path, bytes: base64_decoded(f.pre_b64)->Ok_0 }
}

/// Whether a recorded file can be restored: its path stays below the root and what was
/// recorded decodes.
pub open spec fn can_restore(f: ImageView) -> bool {
    root_relative(f.path) && base64_decoded(f.pre_b64) is Ok
}

proof fn lemma_restorations_exactly(entry: EntryView, i: int, done: Seq<RestorationView>)
    requires
        0 <= i <= entry.files.len(),
        done == Seq::new(i as nat, |k: int| restoration_of(entry.files[k])),
        forall|k: int| 0 <= k < i ==> can_restore(#[trigger] entry.files[k]),
    ensures
        ({
            let (list, fault) = restorations_from(entry, i, done);
            &&& list.len() <= entry.files.len()
            &&& list == Seq::new(list.len(), |k: int| restoration_of(entry.files[k]))
            &&& forall|k: int| 0 <= k < list.len() ==> can_restore(#[trigger] entry.files[k])
            &&& fault is None ==> list.len() == entry.files.len()
            &&& fault is Some ==> list.len() < entry.files.len() && !can_restore(
                entry.files[list.len() as int],
            )
        }),
    decreases entry.files.len() - i,
{
    if i < entry.files.len() && can_restore(entry.files[i]) {
        let next = done.push(restoration_of(entry.files[i]));
        assert(next =~= Seq::new((i + 1) as nat, |k: int| restoration_of(entry.files[k])));
        lemma_restorations_exactly(entry, i + 1, next);
    }
}

/// Restoring an entry puts back every file it recorded, in order, with the recorded contents;
/// it stops only at a file that cannot be restored, and says so.
pub proof fn law_every_recorded_file_is_restored(entry: EntryView)
    ensures
        ({
            let (list, fault) = restorations_from(entry, 0, seq![]);
            &&& list.len() <= entry.files.len()
            &&& list == Seq::new(list.len(), |k: int| restoration_of(entry.files[k]))
            &&& fault is None <==> forall|k: int|
                0 <= k < entry.files.len() ==> can_restore(#[trigger] entry.files[k])
            &&& fault is None ==> list.len() == entry.files.len()
            &&& fault is Some ==> list.len() < entry.files.len() && !can_restore(
                entry.files[list.len() as int],
            )
        }),
{
    assert(Seq::new(0, |k: int| restoration_of(entry.files[k])) =~= Seq::<
        RestorationView,
    >::empty());
    lemma_restorations_exactly(entry, 0, seq![]);
}

} // verus!
