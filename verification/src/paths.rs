//! Root-relative paths as raw bytes, split and ordered by component.

use crate::order::{list_view, Rank, RankView, Ranked};
use crate::text::{lossy, lossy_text, same_bytes, slice_copy};
use vstd::prelude::*;
use vstd::utf8::*;

verus! {

/// The byte `/`.
pub const SLASH: u8 = 47;

/// The byte `.`.
pub const DOT: u8 = 46;

/// The tag in front of the root component.
pub const TAG_ROOT: u8 = 1;

/// The tag in front of a leading `.` component.
pub const TAG_CUR: u8 = 2;

/// The tag in front of a `..` component.
pub const TAG_PARENT: u8 = 3;

/// The tag in front of a named component.
pub const TAG_NAME: u8 = 4;

/// A path as its raw bytes.
#[derive(Debug, Clone)]
pub struct TreePath {
    pub raw: Vec<u8>,
}

impl View for TreePath {
    type V = Seq<u8>;

    open spec fn view(&self) -> Seq<u8> {
        self.raw@
    }
}

/// The index of the first `/` at or after `from`, or the length.
pub open spec fn slash_from(raw: Seq<u8>, from: int) -> int
    decreases raw.len() - from,
{
    if from >= raw.len() {
        raw.len() as int
    } else if raw[from] == SLASH {
        from
    } else {
        slash_from(raw, from + 1)
    }
}

/// The components that one segment gives. An empty segment is the root when it opens a
/// path and a `/` follows; a `.` counts only when it opens the path.
pub open spec fn segment_component(seg: Seq<u8>, opens: bool, slash_follows: bool) -> Seq<Seq<u8>> {
    if seg.len() == 0 {
        if opens && slash_follows {
            seq![seq![TAG_ROOT]]
        } else {
            seq![]
        }
    } else if seg == seq![DOT] {
        if opens {
            seq![seq![TAG_CUR]]
        } else {
            seq![]
        }
    } else if seg == seq![DOT, DOT] {
        seq![seq![TAG_PARENT]]
    } else {
        seq![seq![TAG_NAME] + seg]
    }
}

/// The components of the path from byte `from` on; each is tagged so that the root sorts
/// before `.`, `.` before `..`, and `..` before a name.
pub open spec fn components_from(raw: Seq<u8>, from: int) -> Seq<Seq<u8>>
    decreases raw.len() - from,
    when 0 <= from
{
    let end = slash_from(raw, from);
    if from > raw.len() {
        seq![]
    } else if end >= raw.len() || end < from {
        segment_component(raw.subrange(from, raw.len() as int), from == 0, false)
    } else {
        segment_component(raw.subrange(from, end), from == 0, true) + components_from(raw, end + 1)
    }
}

/// The components of a path.
pub open spec fn components(raw: Seq<u8>) -> Seq<Seq<u8>> {
    components_from(raw, 0)
}

/// The sort position of a path: component by component.
pub open spec fn path_rank(raw: Seq<u8>) -> RankView {
    RankView { list: components(raw), major: 0, minor: 0 }
}

/// Whether two paths have the same components.
pub open spec fn same_path(a: Seq<u8>, b: Seq<u8>) -> bool {
    components(a) == components(b)
}

/// Whether the components of `base` begin those of `p`.
pub open spec fn path_starts_with(p: Seq<u8>, base: Seq<u8>) -> bool {
    components(base).len() <= components(p).len() && components(p).take(
        components(base).len() as int,
    ) == components(base)
}

/// Whether the path starts at the file system's root.
pub open spec fn is_absolute(raw: Seq<u8>) -> bool {
    raw.len() > 0 && raw[0] == SLASH
}

/// Whether a path stays below whatever directory it is joined to: relative, and without a
/// `..` component.
pub open spec fn root_relative(raw: Seq<u8>) -> bool {
    !is_absolute(raw) && !components(raw).contains(seq![TAG_PARENT])
}

/// `slash_from` is the first slash at or after `from`, or the end.
pub proof fn lemma_slash_from(raw: Seq<u8>, from: int)
    requires
        0 <= from <= raw.len(),
    ensures
        from <= slash_from(raw, from) <= raw.len(),
        slash_from(raw, from) < raw.len() ==> raw[slash_from(raw, from)] == SLASH,
        forall|i: int| from <= i < slash_from(raw, from) ==> raw[i] != SLASH,
    decreases raw.len() - from,
{
    if from < raw.len() && raw[from] != SLASH {
        lemma_slash_from(raw, from + 1);
    }
}

impl TreePath {
    /// The path that `text` spells.
    pub fn from_text(text: &str) -> (p: Self)
        ensures
            p@ == encode_utf8(text@),
    {
        TreePath { raw: vstd::slice::slice_to_vec(text.as_bytes()) }
    }

    /// The path with these raw bytes.
    pub fn from_raw(raw: Vec<u8>) -> (p: Self)
        ensures
            p@ == raw@,
    {
        TreePath { raw }
    }

    /// Another copy of the path.
    pub fn copy(&self) -> (p: Self)
        ensures
            p@ == self@,
    {
        TreePath { raw: slice_copy(self.raw.as_slice(), 0, self.raw.len()) }
    }

    /// The path as text, with what is not UTF-8 replaced.
    pub fn display(&self) -> (text: String)
        ensures
            text@ == lossy_text(self@),
            valid_utf8(self@) ==> text@ == decode_utf8(self@),
    {
        lossy(self.raw.as_slice())
    }

    /// The tagged components of the path.
    pub fn component_list(&self) -> (list: Vec<Vec<u8>>)
        ensures
            list_view(list@) == components(self@),
    {
        let raw = self.raw.as_slice();
        let mut list: Vec<Vec<u8>> = Vec::new();
        let mut from: usize = 0;
        proof {
            assert(list_view(list@) =~= Seq::<Seq<u8>>::empty());
            assert(Seq::<Seq<u8>>::empty() + components_from(raw@, 0) =~= components(raw@));
        }
        loop
            invariant
                raw@ == self@,
                from <= raw.len(),
                components(raw@) == list_view(list@) + components_from(raw@, from as int),
            decreases raw.len() - from,
        {
            let mut end: usize = from;
            proof {
                lemma_slash_from(raw@, from as int);
            }
            while end < raw.len() && raw[end] != SLASH
                invariant
                    from <= end <= raw.len(),
                    slash_from(raw@, from as int) == slash_from(raw@, end as int),
                decreases raw.len() - end,
            {
                end = end + 1;
            }
            let seg = slice_copy(raw, from, end);
            let ghost before = list_view(list@);
            let ghost seg_view = raw@.subrange(from as int, end as int);
            push_component(&mut list, seg, from == 0, end < raw.len());
            if end >= raw.len() {
                proof {
                    assert(raw@.subrange(from as int, raw.len() as int) == seg_view);
                    assert(list_view(list@) == components(raw@));
                }
                return list;
            }
            proof {
                assert(list_view(list@) + components_from(raw@, end + 1) =~= before + (
                segment_component(seg_view, from == 0, true) + components_from(raw@, end + 1)));
            }
            from = end + 1;
        }
    }

    /// Whether two paths name the same place, component by component.
    pub fn same(&self, other: &TreePath) -> (same: bool)
        ensures
            same == same_path(self@, other@),
    {
        let a = self.component_list();
        let b = other.component_list();
        match crate::order::list_side(&a, &b) {
            crate::order::Side::Same => true,
            _ => false,
        }
    }

    /// Whether `base` is this path or an ancestor of it, component by component.
    pub fn starts_with(&self, base: &TreePath) -> (yes: bool)
        ensures
            yes == path_starts_with(self@, base@),
    {
        let a = self.component_list();
        let b = base.component_list();
        let ghost av = components(self@);
        let ghost bv = components(base@);
        if b.len() > a.len() {
            return false;
        }
        let mut i: usize = 0;
        while i < b.len()
            invariant
                i <= b.len() <= a.len(),
                av == list_view(a@),
                bv == list_view(b@),
                av == components(self@),
                bv == components(base@),
                forall|k: int| 0 <= k < i ==> av[k] == bv[k],
            decreases b.len() - i,
        {
            proof {
                assert(av[i as int] == a@[i as int]@);
                assert(bv[i as int] == b@[i as int]@);
            }
            if !same_bytes(a[i].as_slice(), b[i].as_slice()) {
                proof {
                    assert(av[i as int] != bv[i as int]);
                    assert(av.take(bv.len() as int)[i as int] == av[i as int]);
                }
                return false;
            }
            i = i + 1;
        }
        proof {
            assert(av.take(bv.len() as int) =~= bv);
        }
        true
    }
}

/// Appends what one segment gives.
fn push_component(list: &mut Vec<Vec<u8>>, seg: Vec<u8>, opens: bool, slash_follows: bool)
    ensures
        list_view(final(list)@) == list_view(old(list)@) + segment_component(
            seg@,
            opens,
            slash_follows,
        ),
{
    let ghost before = list_view(list@);
    let ghost seg_view = seg@;
    if seg.len() == 0 {
        if opens && slash_follows {
            let mut c: Vec<u8> = Vec::new();
            c.push(TAG_ROOT);
            assert(c@ =~= seq![TAG_ROOT]);
            list.push(c);
            assert(list_view(list@) =~= before.push(c@));
        }
    } else if seg.len() == 1 && seg[0] == DOT {
        assert(seg_view =~= seq![DOT]);
        if opens {
            let mut c: Vec<u8> = Vec::new();
            c.push(TAG_CUR);
            assert(c@ =~= seq![TAG_CUR]);
            list.push(c);
            assert(list_view(list@) =~= before.push(c@));
        }
    } else if seg.len() == 2 && seg[0] == DOT && seg[1] == DOT {
        assert(seg_view =~= seq![DOT, DOT]);
        let mut c: Vec<u8> = Vec::new();
        c.push(TAG_PARENT);
        assert(c@ =~= seq![TAG_PARENT]);
        list.push(c);
        assert(list_view(list@) =~= before.push(c@));
    } else {
        assert(seg_view != seq![DOT]);
        assert(seg_view != seq![DOT, DOT]);
        let mut c: Vec<u8> = Vec::new();
        c.push(TAG_NAME);
        c.extend_from_slice(seg.as_slice());
        assert(c@ =~= seq![TAG_NAME] + seg_view);
        list.push(c);
        assert(list_view(list@) =~= before.push(c@));
    }
    assert(list_view(list@) =~= before + segment_component(seg_view, opens, slash_follows));
}

impl Ranked for TreePath {
    open spec fn rank_at(v: Seq<u8>) -> RankView {
        path_rank(v)
    }

    fn rank_of(&self) -> (r: Rank) {
        let r = Rank { list: self.component_list(), major: 0, minor: 0 };
        assert(r@ == path_rank(self@));
        assert(TreePath::rank_at(self@) == path_rank(self@));
        r
    }
}

/// The sort position of a text: by its UTF-8 bytes.
pub open spec fn text_rank(text: Seq<char>) -> RankView {
    RankView { list: seq![encode_utf8(text)], major: 0, minor: 0 }
}

impl Ranked for String {
    open spec fn rank_at(v: Seq<char>) -> RankView {
        text_rank(v)
    }

    fn rank_of(&self) -> (r: Rank) {
        let mut list: Vec<Vec<u8>> = Vec::new();
        list.push(vstd::slice::slice_to_vec(self.as_str().as_bytes()));
        let r = Rank { list, major: 0, minor: 0 };
        assert(r@.list =~= seq![encode_utf8(self@)]);
        r
    }
}

/// Whether `p` is safe to join onto a root: relative, and without a `..` component.
pub fn path_is_root_relative(p: &TreePath) -> (safe: bool)
    ensures
        safe == root_relative(p@),
{
    let raw = p.raw.as_slice();
    if raw.len() > 0 && raw[0] == SLASH {
        return false;
    }
    let list = p.component_list();
    let mut i: usize = 0;
    while i < list.len()
        invariant
            i <= list.len(),
            list_view(list@) == components(p@),
            forall|k: int| 0 <= k < i ==> components(p@)[k] != seq![TAG_PARENT],
        decreases list.len() - i,
    {
        if list[i].len() == 1 && list[i][0] == TAG_PARENT {
            proof {
                assert(list@[i as int]@ =~= seq![TAG_PARENT]);
                assert(components(p@)[i as int] == seq![TAG_PARENT]);
            }
            return false;
        }
        proof {
            assert(list_view(list@)[i as int] == list@[i as int]@);
        }
        i = i + 1;
    }
    true
}

/// The index of the last `.` below `n`, or -1.
pub open spec fn last_dot(name: Seq<u8>, n: int) -> int
    decreases n,
{
    if n <= 0 {
        -1
    } else if name[n - 1] == DOT {
        n - 1
    } else {
        last_dot(name, n - 1)
    }
}

/// Whether a file name has an extension: a `.` that does not open it (and the name is not
/// `..`).
pub open spec fn has_extension(name: Seq<u8>) -> bool {
    last_dot(name, name.len() as int) > 0 && name != seq![DOT, DOT]
}

/// What stands after the last `.` of a name that has an extension.
pub open spec fn extension(name: Seq<u8>) -> Seq<u8> {
    name.skip(last_dot(name, name.len() as int) + 1)
}

/// The name without its extension.
pub open spec fn stem(name: Seq<u8>) -> Seq<u8> {
    if has_extension(name) {
        name.take(last_dot(name, name.len() as int))
    } else {
        name
    }
}

/// `last_dot` is the last dot before `n`, or -1.
pub proof fn lemma_last_dot(name: Seq<u8>, n: int)
    requires
        0 <= n <= name.len(),
    ensures
        -1 <= last_dot(name, n) < n || (n == 0 && last_dot(name, n) == -1),
        last_dot(name, n) >= 0 ==> name[last_dot(name, n)] == DOT,
        forall|i: int| last_dot(name, n) < i < n ==> name[i] != DOT,
    decreases n,
{
    if n > 0 && name[n - 1] != DOT {
        lemma_last_dot(name, n - 1);
    }
}

/// The stem and the extension of a file name.
pub fn split_name(name: &[u8]) -> (parts: (Vec<u8>, Option<Vec<u8>>))
    ensures
        parts.0@ == stem(name@),
        match parts.1 {
            Some(ext) => has_extension(name@) && ext@ == extension(name@),
            None => !has_extension(name@),
        },
{
    let mut n: usize = name.len();
    while n > 0 && name[n - 1] != DOT
        invariant
            n <= name.len(),
            last_dot(name@, name@.len() as int) == last_dot(name@, n as int),
        decreases n,
    {
        n = n - 1;
    }
    let dots: bool = name.len() == 2 && name[0] == DOT && name[1] == DOT;
    proof {
        if dots {
            assert(name@ =~= seq![DOT, DOT]);
        }
        lemma_last_dot(name@, name@.len() as int);
    }
    if n <= 1 || dots {
        assert(name@.subrange(0, name@.len() as int) =~= name@);
        return (slice_copy(name, 0, name.len()), None);
    }
    let head = slice_copy(name, 0, n - 1);
    let tail = slice_copy(name, n, name.len());
    proof {
        assert(head@ =~= name@.take(n - 1));
        assert(tail@ =~= name@.skip(n as int));
    }
    (head, Some(tail))
}

/// The extension bytes of a path's last component, when that is a name with one.
pub open spec fn path_extension(raw: Seq<u8>) -> Option<Seq<u8>> {
    let list = components(raw);
    if list.len() > 0 && list.last().len() > 0 && list.last()[0] == TAG_NAME && has_extension(
        list.last().skip(1),
    ) {
        Some(extension(list.last().skip(1)))
    } else {
        None
    }
}

/// The extension of a path's last component.
pub fn extension_of(path: &TreePath) -> (ext: Option<Vec<u8>>)
    ensures
        match ext {
            Some(e) => path_extension(path@) == Some(e@),
            None => path_extension(path@) is None,
        },
{
    let list = path.component_list();
    if list.len() == 0 {
        return None;
    }
    let last = &list[list.len() - 1];
    assert(components(path@).last() == last@);
    if last.len() == 0 || last[0] != TAG_NAME {
        return None;
    }
    let name = slice_copy(last.as_slice(), 1, last.len());
    assert(name@ =~= last@.skip(1));
    let (_, ext) = split_name(name.as_slice());
    ext
}

proof fn lemma_slash_is(raw: Seq<u8>, from: int, end: int)
    requires
        0 <= from <= end <= raw.len(),
        end == raw.len() || raw[end] == SLASH,
        forall|i: int| from <= i < end ==> raw[i] != SLASH,
    ensures
        slash_from(raw, from) == end,
    decreases end - from,
{
    if from < end {
        assert(raw[from] != SLASH);
        lemma_slash_is(raw, from + 1, end);
    }
}

proof fn lemma_components_before(p: Seq<u8>, q: Seq<u8>, from: int)
    requires
        p.len() > 0,
        0 <= from <= p.len(),
    ensures
        components_from(p + seq![SLASH] + q, from) == components_from(p, from) + components_from(
            p + seq![SLASH] + q,
            p.len() as int + 1,
        ),
    decreases p.len() - from,
{
    let s = p + seq![SLASH] + q;
    lemma_slash_from(p, from);
    let end = slash_from(p, from);
    assert(s[p.len() as int] == SLASH);
    assert forall|i: int| from <= i < end implies s[i] != SLASH by {
        assert(s[i] == p[i]);
    }
    if end < p.len() {
        assert(s[end] == p[end]);
        lemma_slash_is(s, from, end);
        assert(s.subrange(from, end) =~= p.subrange(from, end));
        lemma_components_before(p, q, end + 1);
        assert(components_from(s, from) =~= components_from(p, from) + components_from(
            s,
            p.len() as int + 1,
        ));
    } else {
        lemma_slash_is(s, from, p.len() as int);
        assert(s.subrange(from, p.len() as int) =~= p.subrange(from, p.len() as int));
    }
}

proof fn lemma_components_behind(p: Seq<u8>, q: Seq<u8>, k: int)
    requires
        0 <= k <= q.len(),
        q.len() > 0 && q[0] != SLASH && q[0] != DOT,
    ensures
        components_from(p + seq![SLASH] + q, p.len() + 1 + k) == components_from(q, k),
    decreases q.len() - k,
{
    let s = p + seq![SLASH] + q;
    let from = p.len() + 1 + k;
    lemma_slash_from(q, k);
    let end = slash_from(q, k);
    assert forall|i: int| from <= i < p.len() + 1 + end implies s[i] != SLASH by {
        assert(s[i] == q[i - p.len() - 1]);
    }
    if end < q.len() {
        assert(s[p.len() + 1 + end] == q[end]);
    }
    lemma_slash_is(s, from, p.len() + 1 + end);
    assert(s.subrange(from, p.len() + 1 + end) =~= q.subrange(k, end));
    if k == 0 {
        assert(q.subrange(k, end).len() == end);
        if end == 0 {
            assert(q[0] == SLASH);
        }
        assert(q.subrange(k, end)[0] == q[0]);
    }
    if end < q.len() {
        lemma_components_behind(p, q, end + 1);
    } else {
        assert(s.len() == p.len() + 1 + q.len());
    }
}

/// The components of a path are those of what stands before a `/` and then those of what
/// stands behind it, where that begins with a name; a name alone is one component; and `..` is
/// one of its own.
pub proof fn law_components_are_joined_by_slashes(p: Seq<u8>, q: Seq<u8>, name: Seq<u8>)
    requires
        p.len() > 0,
        q.len() > 0 && q[0] != SLASH && q[0] != DOT,
        name.len() > 0 && !name.contains(SLASH) && name != seq![DOT] && name != seq![DOT, DOT],
    ensures
        components(p + seq![SLASH] + q) == components(p) + components(q),
        components(name) == seq![seq![TAG_NAME] + name],
        components(p + seq![SLASH, DOT, DOT]) == components(p) + seq![seq![TAG_PARENT]],
        components(p + seq![SLASH]) == components(p),
{
    lemma_components_before(p, q, 0);
    lemma_components_behind(p, q, 0);
    assert forall|i: int| 0 <= i < name.len() implies name[i] != SLASH by {
        assert(name.contains(name[i]));
    }
    lemma_slash_is(name, 0, name.len() as int);
    assert(name.subrange(0, name.len() as int) =~= name);
    let up = seq![DOT, DOT];
    let s = p + seq![SLASH] + up;
    assert(p + seq![SLASH, DOT, DOT] =~= s);
    lemma_components_before(p, up, 0);
    lemma_slash_is(s, p.len() as int + 1, s.len() as int);
    assert(s.subrange(p.len() as int + 1, s.len() as int) =~= up);
    let none = Seq::<u8>::empty();
    let t = p + seq![SLASH] + none;
    assert(p + seq![SLASH] =~= t);
    lemma_components_before(p, none, 0);
    lemma_slash_is(t, p.len() as int + 1, t.len() as int);
    assert(t.subrange(p.len() as int + 1, t.len() as int) =~= none);
    assert(components(t) =~= components(p));
}

/// An extension is what stands behind the last dot, and the stem what stands before it: with
/// the dot they make up the name.
pub proof fn law_stem_and_extension_make_up_the_name(name: Seq<u8>)
    ensures
        has_extension(name) ==> {
            &&& stem(name) + seq![DOT] + extension(name) == name
            &&& !extension(name).contains(DOT)
            &&& stem(name).len() > 0
        },
        !has_extension(name) ==> stem(name) == name,
        !has_extension(name) <==> name == seq![DOT, DOT] || forall|i: int|
            0 < i < name.len() ==> name[i] != DOT,
{
    let n = name.len() as int;
    lemma_last_dot(name, n);
    let d = last_dot(name, n);
    if has_extension(name) {
        assert(stem(name) + seq![DOT] + extension(name) =~= name);
        if extension(name).contains(DOT) {
            let k = extension(name).index_of(DOT);
            assert(name[d + 1 + k] == DOT);
        }
    }
}

/// A name made of two parts with a dot between has the second as its extension.
pub proof fn lemma_named_with(base: Seq<u8>, ext: Seq<u8>)
    requires
        base.len() > 0,
        !ext.contains(DOT),
        ext.len() > 0 || base != seq![DOT],
    ensures
        has_extension(base + seq![DOT] + ext),
        extension(base + seq![DOT] + ext) == ext,
        stem(base + seq![DOT] + ext) == base,
{
    let name = base + seq![DOT] + ext;
    let n = name.len() as int;
    lemma_last_dot(name, n);
    let d = last_dot(name, n);
    assert(name[base.len() as int] == DOT);
    if d > base.len() {
        assert(name[d] == ext[d - base.len() - 1]);
        assert(ext.contains(ext[d - base.len() - 1]));
    }
    assert(d == base.len());
    if name == seq![DOT, DOT] {
        assert(name.len() == 2);
        assert(base =~= seq![DOT]);
        assert(ext.len() == 0);
    }
    assert(name.skip(d + 1) =~= ext);
    assert(name.take(d) =~= base);
}

/// A file has the extension of its name, in whatever directory it is: what stands behind the
/// last dot of `base.ext` is `ext`, and what stands before it is `base`.
pub proof fn law_a_file_has_its_names_extension(dir: Seq<u8>, base: Seq<u8>, ext: Seq<u8>)
    requires
        dir.len() > 0,
        base.len() > 0 && base[0] != DOT && !base.contains(SLASH),
        !ext.contains(SLASH) && !ext.contains(DOT),
    ensures
        stem(base + seq![DOT] + ext) == base,
        extension(base + seq![DOT] + ext) == ext,
        path_extension(base + seq![DOT] + ext) == Some(ext),
        path_extension(dir + seq![SLASH] + (base + seq![DOT] + ext)) == Some(ext),
{
    let name = base + seq![DOT] + ext;
    assert(name[0] == base[0]);
    if name.contains(SLASH) {
        let k = name.index_of(SLASH);
        if k < base.len() {
            assert(base[k] == SLASH);
        } else if k > base.len() {
            assert(ext[k - base.len() - 1] == SLASH);
        }
    }
    assert(base[0] == name[0] && base != seq![DOT]) by {
        if base == seq![DOT] {
            assert(base[0] == DOT);
        }
    }
    assert(name[0] != SLASH) by {
        assert(base.contains(base[0]));
    }
    assert(name != seq![DOT] && name != seq![DOT, DOT]) by {
        assert(seq![DOT][0] == DOT && seq![DOT, DOT][0] == DOT);
    }
    lemma_named_with(base, ext);
    law_components_are_joined_by_slashes(dir, name, name);
    let tagged = seq![TAG_NAME] + name;
    assert(tagged.skip(1) =~= name);
    assert(components(name).last() == tagged);
    assert(components(dir + seq![SLASH] + name).last() == tagged);
}

/// A path that starts at the root of the file system, or that has a step up anywhere behind
/// its first component, does not count as staying below a directory.
pub proof fn law_a_step_up_is_never_safe(p: Seq<u8>, q: Seq<u8>)
    requires
        p.len() > 0,
        q.len() > 0 && q[0] != SLASH && q[0] != DOT,
    ensures
        !root_relative(seq![SLASH] + p),
        !root_relative(p + seq![SLASH, DOT, DOT]),
        !root_relative(p + seq![SLASH, DOT, DOT] + seq![SLASH] + q),
        !root_relative(seq![DOT, DOT]),
{
    let name = seq![97u8];
    assert(name[0] == 97u8 && seq![DOT][0] == DOT && seq![DOT, DOT][0] == DOT);
    assert((seq![SLASH] + p)[0] == SLASH);
    law_components_are_joined_by_slashes(p, q, name);
    let up = p + seq![SLASH, DOT, DOT];
    let parent = seq![TAG_PARENT];
    assert(components(up).last() == parent);
    assert(components(up).contains(parent));
    law_components_are_joined_by_slashes(up, q, name);
    let all = components(up + seq![SLASH] + q);
    let k = components(up).len() - 1;
    assert(all[k] == parent);
    assert(all.contains(parent));
    let dots = seq![DOT, DOT];
    lemma_slash_is(dots, 0, 2);
    assert(dots.subrange(0, 2) =~= dots);
    assert(components(dots)[0] == parent);
}

} // verus!
