//! Where the repository root is, and which file below it a user means.

use crate::errors::{refusal, ErrorKind, ErrorView, VcError, VcResult};
use crate::order::views;
use crate::paths::{is_absolute, TreePath, SLASH};
use crate::plan::{join_below, joined};
use crate::text::{bytes_begin_with, lossy_text, same_bytes, slice_copy};
use vstd::prelude::*;
use vstd::string::*;
use vstd::utf8::*;

verus! {

/// What stands under the name `.vc` in a directory.
#[derive(Debug, Clone, Copy, PartialEq, Eq, Structural)]
pub enum Marker {
    /// Nothing, or something that cannot be looked at.
    Absent,
    /// A symbolic link; it was not followed.
    Symlink,
    Directory,
    /// Anything else.
    Other,
}

/// A directory and what its marker is.
#[derive(Debug)]
pub struct Look {
    pub dir: TreePath,
    pub marker: Marker,
}

/// What a [`Look`] says.
pub struct LookView {
    pub dir: Seq<u8>,
    pub marker: Marker,
}

impl View for Look {
    type V = LookView;

    open spec fn view(&self) -> LookView {
        LookView { dir: self.dir@, marker: self.marker }
    }
}

/// The refusal of a marker that is a symbolic link.
pub open spec fn linked_marker(dir: Seq<u8>) -> ErrorView {
    refusal(
        ErrorKind::Toctou,
        lossy_text(joined(dir, encode_utf8(".vc"@))) + ": refusing to follow symlink"@,
    )
}

/// The nearest directory, from the `i`th on, whose marker is a directory; a symbolic link on
/// the way is refused. Nothing when there is neither.
pub open spec fn marked_from(looks: Seq<LookView>, i: int) -> Result<Option<Seq<u8>>, ErrorView>
    decreases looks.len() - i,
{
    if i >= looks.len() {
        Ok(None)
    } else {
        match looks[i].marker {
            Marker::Symlink => Err(linked_marker(looks[i].dir)),
            Marker::Directory => Ok(Some(looks[i].dir)),
            _ => marked_from(looks, i + 1),
        }
    }
}

/// The root of the repository that `start` is in: the nearest ancestor with a marker, or
/// `start` itself. `looks` are `start` and its ancestors, nearest first.
pub fn find_root(start: &TreePath, looks: &Vec<Look>) -> (r: VcResult<TreePath>)
    ensures
        match (marked_from(views(looks@), 0), r) {
            (Ok(Some(dir)), Ok(p)) => p@ == dir,
            (Ok(None), Ok(p)) => p@ == start@,
            (Err(e), Err(f)) => f@ == e,
            _ => false,
        },
{
    let ghost lv = views(looks@);
    let mut i: usize = 0;
    while i < looks.len()
        invariant
            i <= looks.len(),
            lv == views(looks@),
            marked_from(lv, 0) == marked_from(lv, i as int),
        decreases looks.len() - i,
    {
        let look = &looks[i];
        assert(lv[i as int] == look@);
        match look.marker {
            Marker::Symlink => {
                let mut m: String = join_below(&look.dir, &TreePath::from_text(".vc")).display();
                m.append(": refusing to follow symlink");
                return Err(VcError::new(ErrorKind::Toctou, m));
            },
            Marker::Directory => {
                return Ok(look.dir.copy());
            },
            _ => {},
        }
        i = i + 1;
    }
    Ok(start.copy())
}

/// A symbolic link at a marker is never followed: a root is only ever found where no linked
/// marker is nearer.
pub proof fn law_no_root_behind_a_linked_marker(looks: Seq<LookView>, k: int)
    requires
        0 <= k < looks.len(),
        looks[k].marker == Marker::Symlink,
        forall|i: int| 0 <= i < k ==> (#[trigger] looks[i]).marker != Marker::Directory,
    ensures
        marked_from(looks, 0) is Err,
{
    lemma_link_refuses(looks, k, 0);
}

proof fn lemma_link_refuses(looks: Seq<LookView>, k: int, i: int)
    requires
        0 <= i <= k < looks.len(),
        looks[k].marker == Marker::Symlink,
        forall|j: int| i <= j < k ==> (#[trigger] looks[j]).marker != Marker::Directory,
    ensures
        marked_from(looks, i) is Err,
    decreases k - i,
{
    if i < k && looks[i].marker != Marker::Symlink {
        lemma_link_refuses(looks, k, i + 1);
    }
}

/// What making a path canonical gave.
#[derive(Debug)]
pub enum Located {
    Real(TreePath),
    /// There is no such file.
    Missing,
    /// It failed for another reason.
    Failed(String),
}

/// What [`Located`] says.
pub enum LocatedView {
    Real(Seq<u8>),
    Missing,
    Failed(Seq<char>),
}

impl View for Located {
    type V = LocatedView;

    open spec fn view(&self) -> LocatedView {
        match self {
            Located::Real(p) => LocatedView::Real(p@),
            Located::Missing => LocatedView::Missing,
            Located::Failed(why) => LocatedView::Failed(why@),
        }
    }
}

/// The path that a user means: relative to the working directory unless it is absolute.
pub open spec fn meant(cwd: Seq<u8>, user: Seq<u8>) -> Seq<u8> {
    if is_absolute(user) {
        user
    } else {
        joined(cwd, user)
    }
}

/// The path that a user means: relative to the working directory unless it is absolute.
pub fn meant_path(cwd: &TreePath, user: &TreePath) -> (p: TreePath)
    ensures
        p@ == meant(cwd@, user@),
{
    if user.raw.len() > 0 && user.raw[0] == SLASH {
        user.copy()
    } else {
        join_below(cwd, user)
    }
}

/// What is left of a canonical path behind a canonical directory; nothing when it is not
/// there or below.
pub open spec fn below_root(root: Seq<u8>, path: Seq<u8>) -> Option<Seq<u8>> {
    let edge = joined(root, seq![]);
    if path == root {
        Some(seq![])
    } else if path.len() >= edge.len() && path.take(edge.len() as int) == edge {
        Some(path.skip(edge.len() as int))
    } else {
        None
    }
}

/// What is left of a canonical path behind a canonical directory.
pub fn strip_root(root: &TreePath, path: &TreePath) -> (rel: Option<TreePath>)
    ensures
        match (below_root(root@, path@), rel) {
            (Some(b), Some(p)) => p@ == b,
            (None, None) => true,
            _ => false,
        },
{
    let none = TreePath { raw: Vec::new() };
    assert(none@ =~= Seq::<u8>::empty());
    let edge = join_below(root, &none);
    if same_bytes(path.raw.as_slice(), root.raw.as_slice()) {
        return Some(none);
    }
    if path.raw.len() >= edge.raw.len() && bytes_begin_with(
        path.raw.as_slice(),
        edge.raw.as_slice(),
    ) {
        let raw = slice_copy(path.raw.as_slice(), edge.raw.len(), path.raw.len());
        assert(raw@ =~= path@.skip(edge@.len() as int));
        return Some(TreePath { raw });
    }
    None
}

/// The root-relative path that a user means, from the canonical root and what making the
/// meant path canonical gave.
pub open spec fn rebased(
    root: Seq<u8>,
    root_real: Result<Seq<u8>, Seq<char>>,
    user: Seq<u8>,
    located: LocatedView,
) -> Result<Seq<u8>, ErrorView> {
    match root_real {
        Err(why) => Err(refusal(ErrorKind::Io, lossy_text(root) + ": "@ + why)),
        Ok(real_root) => match located {
            LocatedView::Missing => Err(
                refusal(ErrorKind::NotFound, lossy_text(user) + ": no such file"@),
            ),
            LocatedView::Failed(why) => Err(
                refusal(ErrorKind::Io, lossy_text(user) + ": "@ + why),
            ),
            LocatedView::Real(p) => match below_root(real_root, p) {
                Some(rel) => Ok(rel),
                None => Err(refusal(ErrorKind::Usage, "path outside repo root"@)),
            },
        },
    }
}

/// The view of a canonical root.
pub open spec fn root_result(r: Result<TreePath, String>) -> Result<Seq<u8>, Seq<char>> {
    match r {
        Ok(p) => Ok(p@),
        Err(why) => Err(why@),
    }
}

/// The root-relative path that a user means. A missing file, and one outside the root, are
/// refused; the message names the path as the user gave it.
pub fn rebase_user_path(
    root: &TreePath,
    root_real: &Result<TreePath, String>,
    user: &TreePath,
    located: &Located,
) -> (r: VcResult<TreePath>)
    ensures
        match (rebased(root@, root_result(*root_real), user@, located@), r) {
            (Ok(rel), Ok(p)) => p@ == rel,
            (Err(e), Err(f)) => f@ == e,
            _ => false,
        },
{
    let real_root = match root_real {
        Err(why) => {
            let mut m: String = root.display();
            m.append(": ");
            m.append(why.as_str());
            return Err(VcError::new(ErrorKind::Io, m));
        },
        Ok(p) => p,
    };
    match located {
        Located::Missing => {
            let mut m: String = user.display();
            m.append(": no such file");
            Err(VcError::new(ErrorKind::NotFound, m))
        },
        Located::Failed(why) => {
            let mut m: String = user.display();
            m.append(": ");
            m.append(why.as_str());
            Err(VcError::new(ErrorKind::Io, m))
        },
        Located::Real(p) => match strip_root(real_root, p) {
            Some(rel) => Ok(rel),
            None => Err(VcError::new(ErrorKind::Usage, "path outside repo root".to_owned())),
        },
    }
}

/// A rebased path names, below the canonical root, exactly the file that the user means.
pub proof fn law_a_rebased_path_is_the_file_meant(
    root: Seq<u8>,
    real_root: Seq<u8>,
    user: Seq<u8>,
    file: Seq<u8>,
)
    ensures
        rebased(root, Ok(real_root), user, LocatedView::Real(file)) matches Ok(rel) ==> file
            == real_root || file == joined(real_root, rel),
{
    let edge = joined(real_root, seq![]);
    match below_root(real_root, file) {
        Some(rel) => {
            if file != real_root {
                assert(edge + rel =~= file);
                assert(joined(real_root, rel) =~= edge + rel);
            }
        },
        None => {},
    }
}

/// The root is the nearest directory with a marker: nothing decides before the first marker
/// that is a directory or a link, a directory there is the root, and a link there is refused.
pub proof fn law_the_nearest_marker_decides(looks: Seq<LookView>, k: int)
    requires
        0 <= k <= looks.len(),
        forall|i: int|
            0 <= i < k ==> (#[trigger] looks[i]).marker != Marker::Directory && looks[i].marker
                != Marker::Symlink,
    ensures
        k == looks.len() ==> marked_from(looks, 0) == Ok::<Option<Seq<u8>>, ErrorView>(None),
        k < looks.len() && looks[k].marker == Marker::Directory ==> marked_from(looks, 0) == Ok::<
            Option<Seq<u8>>,
            ErrorView,
        >(Some(looks[k].dir)),
        k < looks.len() && looks[k].marker == Marker::Symlink ==> marked_from(looks, 0) is Err,
{
    lemma_marked_from(looks, 0, k);
}

proof fn lemma_marked_from(looks: Seq<LookView>, i: int, k: int)
    requires
        0 <= i <= k <= looks.len(),
        forall|j: int|
            0 <= j < k ==> (#[trigger] looks[j]).marker != Marker::Directory && looks[j].marker
                != Marker::Symlink,
    ensures
        marked_from(looks, i) == marked_from(looks, k),
    decreases k - i,
{
    if i < k {
        assert(looks[i].marker != Marker::Directory && looks[i].marker != Marker::Symlink);
        lemma_marked_from(looks, i + 1, k);
    }
}

} // verus!
