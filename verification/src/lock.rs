//! Taking the lock that keeps two mutating commands apart.

use crate::errors::{refusal, refusal_next, ErrorKind, ErrorView, VcError, VcResult};
use crate::paths::TreePath;
use crate::plan::{join_below, joined};
use crate::root::Marker;
use vstd::prelude::*;
use vstd::string::*;
use vstd::utf8::*;

verus! {

/// What creating the lock file, where there must not be one, gave.
#[derive(Debug, Clone)]
pub enum LockAttempt {
    Created,
    /// There is a lock file already.
    Exists,
    Failed(String),
}

/// What a [`LockAttempt`] says.
pub enum AttemptView {
    Created,
    Exists,
    Failed(Seq<char>),
}

impl View for LockAttempt {
    type V = AttemptView;

    open spec fn view(&self) -> AttemptView {
        match self {
            LockAttempt::Created => AttemptView::Created,
            LockAttempt::Exists => AttemptView::Exists,
            LockAttempt::Failed(why) => AttemptView::Failed(why@),
        }
    }
}

/// The refusal of a linked state directory.
pub open spec fn linked_state() -> ErrorView {
    refusal(ErrorKind::Toctou, ".vc: refusing to follow symlink"@)
}

/// The refusal while a lock file is there.
pub open spec fn locked_out() -> ErrorView {
    refusal_next(ErrorKind::JournalBlocked, "apply in progress or stale lock"@, "vc doctor"@)
}

/// Refuses to go through a state directory that is a symbolic link, before anything is
/// created in it.
pub fn check_state_dir(marker: Marker) -> (r: VcResult<()>)
    ensures
        match r {
            Ok(_) => marker != Marker::Symlink,
            Err(e) => marker == Marker::Symlink && e@ == linked_state(),
        },
{
    match marker {
        Marker::Symlink => Err(
            VcError::new(ErrorKind::Toctou, ".vc: refusing to follow symlink".to_owned()),
        ),
        _ => Ok(()),
    }
}

/// The lock, while it is held: the file that says so.
#[derive(Debug)]
pub struct Lock {
    pub path: TreePath,
}

/// Where the lock file of a root is.
pub open spec fn lock_file(root: Seq<u8>) -> Seq<u8> {
    joined(root, encode_utf8(".vc/journal/LOCK"@))
}

/// What an attempt to take the lock gives: nothing is taken through a linked state
/// directory, or while there is a lock file.
pub open spec fn acquired(marker: Marker, attempt: AttemptView) -> Result<(), ErrorView> {
    if marker == Marker::Symlink {
        Err(linked_state())
    } else {
        match attempt {
            AttemptView::Created => Ok(()),
            AttemptView::Exists => Err(locked_out()),
            AttemptView::Failed(why) => Err(refusal(ErrorKind::Io, why)),
        }
    }
}

impl Lock {
    /// The lock file of a root.
    pub fn file(root: &TreePath) -> (p: TreePath)
        ensures
            p@ == lock_file(root@),
    {
        join_below(root, &TreePath::from_text(".vc/journal/LOCK"))
    }

    /// The lock, when creating its file succeeded.
    pub fn acquire(root: &TreePath, marker: Marker, attempt: &LockAttempt) -> (r: VcResult<Lock>)
        ensures
            match (acquired(marker, attempt@), r) {
                (Ok(_), Ok(lock)) => lock.path@ == lock_file(root@),
                (Err(e), Err(f)) => f@ == e,
                _ => false,
            },
    {
        match check_state_dir(marker) {
            Ok(_) => {},
            Err(e) => {
                return Err(e);
            },
        }
        match attempt {
            LockAttempt::Created => Ok(Lock { path: Lock::file(root) }),
            LockAttempt::Exists => Err(
                VcError::new(
                    ErrorKind::JournalBlocked,
                    "apply in progress or stale lock".to_owned(),
                ).with_next("vc doctor".to_owned()),
            ),
            LockAttempt::Failed(why) => Err(
                VcError::new(ErrorKind::Io, why.as_str().to_owned()),
            ),
        }
    }
}

/// While a lock file is there nobody takes the lock.
pub proof fn law_the_lock_is_exclusive(marker: Marker)
    ensures
        acquired(marker, AttemptView::Exists) is Err,
{
}

/// The lock is taken exactly by the one that created its file, below a state directory that
/// is no link.
pub proof fn law_the_lock_is_taken_exactly_by_its_creator(marker: Marker, attempt: AttemptView)
    ensures
        acquired(marker, attempt) is Ok <==> marker != Marker::Symlink && attempt
            == AttemptView::Created,
{
}

} // verus!
