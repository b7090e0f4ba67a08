//! Which files of the tree count, in which order, and in which language.

use crate::order::{
    law_stable_sort_orders_and_keeps_items, lemma_same_members, rank_less, ranks_ascend,
    stable_sort, stable_sorted, views, Ranked,
};
use crate::paths::{
    components, extension_of, path_extension, path_starts_with, TreePath,
};
use crate::text::same_bytes;
use vstd::prelude::*;
use vstd::string::*;
use vstd::utf8::*;

verus! {

/// The largest file that content search and match planning read.
pub const MAX_SEARCH_FILE_BYTES: u64 = 16777216;

/// Whether a directory entry is never walked: git's own directory and this tool's.
pub open spec fn is_private_dir(name: Seq<u8>) -> bool {
    name == seq![46u8, 103, 105, 116] || name == seq![46u8, 118, 99]
}

/// Whether a directory entry (`.git`, `.vc`) is never walked.
pub fn skips_entry(name: &[u8]) -> (skip: bool)
    ensures
        skip == is_private_dir(name@),
{
    let git: Vec<u8> = vec![46, 103, 105, 116];
    let vc: Vec<u8> = vec![46, 118, 99];
    assert(git@ =~= seq![46u8, 103, 105, 116]);
    assert(vc@ =~= seq![46u8, 118, 99]);
    same_bytes(name, git.as_slice()) || same_bytes(name, vc.as_slice())
}

/// Whether `path` lies under one of `scope`; an empty scope is the whole tree.
pub open spec fn in_scope(path: Seq<u8>, scope: Seq<Seq<u8>>) -> bool {
    scope.len() == 0 || exists|i: int|
        0 <= i < scope.len() && path_starts_with(path, #[trigger] scope[i])
}

/// The walked files under `scope`, in path order.
pub open spec fn scoped(found: Seq<Seq<u8>>, scope: Seq<Seq<u8>>) -> Seq<Seq<u8>> {
    stable_sorted::<TreePath>(found).filter(|p: Seq<u8>| in_scope(p, scope))
}

/// Whether `path` lies under one of `scope`.
pub fn is_in_scope(path: &TreePath, scope: &Vec<TreePath>) -> (yes: bool)
    ensures
        yes == in_scope(path@, views(scope@)),
{
    if scope.len() == 0 {
        return true;
    }
    let mut i: usize = 0;
    while i < scope.len()
        invariant
            i <= scope.len(),
            forall|k: int| 0 <= k < i ==> !path_starts_with(path@, #[trigger] views(scope@)[k]),
        decreases scope.len() - i,
    {
        if path.starts_with(&scope[i]) {
            assert(path_starts_with(path@, views(scope@)[i as int]));
            return true;
        }
        i = i + 1;
    }
    false
}

/// The walked files under `scope` (all of them when it is empty), in path order.
pub fn walk_scoped(found: Vec<TreePath>, scope: &Vec<TreePath>) -> (files: Vec<TreePath>)
    ensures
        views(files@) == scoped(views(found@), views(scope@)),
{
    let sorted = stable_sort(found);
    let ghost sv = views(sorted@);
    let ghost keep = |p: Seq<u8>| in_scope(p, views(scope@));
    let mut files: Vec<TreePath> = Vec::new();
    let mut i: usize = 0;
    proof {
        assert(sv.take(0).filter(keep) =~= Seq::<Seq<u8>>::empty());
        assert(views(files@) =~= Seq::<Seq<u8>>::empty());
    }
    while i < sorted.len()
        invariant
            i <= sorted.len(),
            sv == views(sorted@),
            keep == (|p: Seq<u8>| in_scope(p, views(scope@))),
            views(files@) == sv.take(i as int).filter(keep),
        decreases sorted.len() - i,
    {
        proof {
            reveal(Seq::filter);
            assert(sv.take(i + 1).drop_last() =~= sv.take(i as int));
            assert(sv.take(i + 1).last() == sorted@[i as int]@);
        }
        if is_in_scope(&sorted[i], scope) {
            let ghost before = views(files@);
            files.push(sorted[i].copy());
            assert(views(files@) =~= before.push(sorted@[i as int]@));
        }
        i = i + 1;
    }
    assert(sv.take(sorted.len() as int) =~= sv);
    files
}

proof fn lemma_filter_keeps_order(s: Seq<Seq<u8>>, keep: spec_fn(Seq<u8>) -> bool)
    requires
        ranks_ascend::<TreePath>(s),
    ensures
        ranks_ascend::<TreePath>(s.filter(keep)),
        s.no_duplicates() ==> s.filter(keep).no_duplicates(),
        forall|x: Seq<u8>| #[trigger] s.filter(keep).contains(x) <==> s.contains(x) && keep(x),
    decreases s.len(),
{
    reveal(Seq::filter);
    let out = s.filter(keep);
    if s.len() > 0 {
        let rest = s.drop_last();
        let kept = rest.filter(keep);
        assert(ranks_ascend::<TreePath>(rest));
        lemma_filter_keeps_order(rest, keep);
        assert(s[s.len() - 1] == s.last());
        assert forall|x: Seq<u8>| #[trigger] out.contains(x) <==> s.contains(x) && keep(x) by {
            assert(kept.contains(x) <==> rest.contains(x) && keep(x));
            if s.contains(x) && x != s.last() {
                let k = s.index_of(x);
                assert(rest[k] == x);
            }
            if rest.contains(x) {
                let k = rest.index_of(x);
                assert(s[k] == x);
            }
            if kept.contains(x) {
                let k = kept.index_of(x);
                assert(out[k] == x);
            }
            if out.contains(x) && !kept.contains(x) {
                let k = out.index_of(x);
                assert(k == out.len() - 1);
            }
            if keep(s.last()) {
                assert(out[out.len() - 1] == s.last());
            }
        }
        if keep(s.last()) {
            assert forall|i: int, j: int| 0 <= i < j < out.len() implies !rank_less(
                TreePath::rank_at(out[j]),
                TreePath::rank_at(out[i]),
            ) by {
                assert(out[i] == kept[i]);
                if j < out.len() - 1 {
                    assert(out[j] == kept[j]);
                } else {
                    assert(kept.contains(kept[i]));
                    let k = rest.index_of(kept[i]);
                    assert(s[k] == kept[i]);
                    assert(!rank_less(
                        TreePath::rank_at(s[s.len() - 1]),
                        TreePath::rank_at(s[k]),
                    ));
                }
            }
            if s.no_duplicates() {
                assert forall|i: int, j: int|
                    0 <= i < out.len() && 0 <= j < out.len() && i != j implies out[i]
                    != out[j] by {
                    if i < kept.len() {
                        assert(kept.contains(kept[i]));
                        let k = rest.index_of(kept[i]);
                        assert(s[k] == kept[i]);
                    }
                    if j < kept.len() {
                        assert(kept.contains(kept[j]));
                        let k = rest.index_of(kept[j]);
                        assert(s[k] == kept[j]);
                    }
                }
            }
        }
    }
}

proof fn lemma_filter_all(s: Seq<Seq<u8>>, keep: spec_fn(Seq<u8>) -> bool)
    requires
        forall|x: Seq<u8>| #[trigger] keep(x),
    ensures
        s.filter(keep) == s,
    decreases s.len(),
{
    reveal(Seq::filter);
    if s.len() > 0 {
        lemma_filter_all(s.drop_last(), keep);
        assert(s.drop_last().push(s.last()) =~= s);
    } else {
        assert(s.filter(keep) =~= s);
    }
}

/// Walking a scope gives what walking the whole tree gives, without what lies outside of the
/// scope; an empty scope leaves everything in. A file lies in a scope when the components of
/// one of its paths begin the file's own. Either way the files are in path order, and each is
/// there once, however the paths of the scope overlap.
pub proof fn law_a_scoped_walk_is_the_whole_walk_filtered(
    found: Seq<Seq<u8>>,
    scope: Seq<Seq<u8>>,
)
    ensures
        scoped(found, seq![]) == stable_sorted::<TreePath>(found),
        scoped(found, scope) == scoped(found, seq![]).filter(|p: Seq<u8>| in_scope(p, scope)),
        forall|p: Seq<u8>|
            #[trigger] scoped(found, scope).contains(p) <==> found.contains(p) && (scope.len() == 0
                || exists|i: int|
                0 <= i < scope.len() && components(#[trigger] scope[i]).is_prefix_of(
                    components(p),
                )),
        ranks_ascend::<TreePath>(scoped(found, scope)),
        found.no_duplicates() ==> scoped(found, scope).no_duplicates(),
{
    let all = stable_sorted::<TreePath>(found);
    law_stable_sort_orders_and_keeps_items::<TreePath>(found);
    let everything = |p: Seq<u8>| in_scope(p, seq![]);
    lemma_filter_all(all, everything);
    lemma_filter_keeps_order(all, |p: Seq<u8>| in_scope(p, scope));
    assert forall|p: Seq<u8>| all.contains(p) <==> found.contains(p) by {
        lemma_same_members(all, found, p);
    }
    assert forall|i: int, p: Seq<u8>| 0 <= i < scope.len() implies path_starts_with(
        p,
        #[trigger] scope[i],
    ) == components(scope[i]).is_prefix_of(#[trigger] components(p)) by {
        let n = components(scope[i]).len() as int;
        if n <= components(p).len() {
            assert(components(p).take(n) =~= components(p).subrange(0, n));
        }
    }
    if found.no_duplicates() {
        found.lemma_multiset_has_no_duplicates();
        all.lemma_multiset_has_no_duplicates_conv();
    }
}

/// The language tag of an extension: empty for a language without symbol support.
pub open spec fn tag_of_extension(ext: Option<Seq<u8>>) -> Seq<char> {
    match ext {
        Some(e) => if e == seq![114u8, 115] {
            "rust"@
        } else if e == seq![112u8, 121] {
            "python"@
        } else {
            ""@
        },
        None => ""@,
    }
}

/// The language tag of a path: `rust` for `.rs`, `python` for `.py`, else empty.
pub open spec fn lang_of(path: Seq<u8>) -> Seq<char> {
    tag_of_extension(path_extension(path))
}

/// The language tag of a path.
pub fn lang_tag(path: &TreePath) -> (tag: &'static str)
    ensures
        tag@ == lang_of(path@),
{
    match extension_of(path) {
        Some(ext) => {
            let rs: Vec<u8> = vec![114, 115];
            let py: Vec<u8> = vec![112, 121];
            assert(rs@ =~= seq![114u8, 115]);
            assert(py@ =~= seq![112u8, 121]);
            if same_bytes(ext.as_slice(), rs.as_slice()) {
                "rust"
            } else if same_bytes(ext.as_slice(), py.as_slice()) {
                "python"
            } else {
                ""
            }
        },
        None => "",
    }
}

/// Only git's own directory and this tool's are private.
pub proof fn law_only_two_directories_are_private(name: Seq<u8>)
    ensures
        is_private_dir(name) <==> name == encode_utf8(".git"@) || name == encode_utf8(".vc"@),
{
    reveal_strlit(".git");
    reveal_strlit(".vc");
    assert(is_ascii_chars(".git"@));
    assert(is_ascii_chars(".vc"@));
    is_ascii_chars_encode_utf8(".git"@);
    is_ascii_chars_encode_utf8(".vc"@);
    assert(encode_utf8(".git"@) =~= seq![46u8, 103, 105, 116]);
    assert(encode_utf8(".vc"@) =~= seq![46u8, 118, 99]);
}

/// A language is told by the extension alone: `rs` is Rust, `py` is Python, and there is none
/// for any other.
pub proof fn law_a_language_is_told_by_the_extension(path: Seq<u8>)
    ensures
        lang_of(path) == "rust"@ <==> path_extension(path) == Some(encode_utf8("rs"@)),
        lang_of(path) == "python"@ <==> path_extension(path) == Some(encode_utf8("py"@)),
        lang_of(path) == "rust"@ || lang_of(path) == "python"@ || lang_of(path).len() == 0,
{
    reveal_strlit("rs");
    reveal_strlit("py");
    reveal_strlit("");
    reveal_strlit("rust");
    reveal_strlit("python");
    assert(is_ascii_chars("rs"@));
    assert(is_ascii_chars("py"@));
    is_ascii_chars_encode_utf8("rs"@);
    is_ascii_chars_encode_utf8("py"@);
    assert(encode_utf8("rs"@) =~= seq![114u8, 115]);
    assert(encode_utf8("py"@) =~= seq![112u8, 121]);
    assert(seq![114u8, 115][0] != seq![112u8, 121][0]);
    assert("rust"@.len() == 4 && "python"@.len() == 6 && ""@.len() == 0);
}

} // verus!
