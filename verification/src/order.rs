//! Total orders and stable sorting.

use vstd::prelude::*;

verus! {

/// The lexicographic order of byte strings: a proper prefix comes first.
pub open spec fn bytes_less(a: Seq<u8>, b: Seq<u8>) -> bool
    decreases a.len(),
{
    if b.len() == 0 {
        false
    } else if a.len() == 0 {
        true
    } else if a[0] != b[0] {
        a[0] < b[0]
    } else {
        bytes_less(a.skip(1), b.skip(1))
    }
}

/// The lexicographic order of lists of byte strings.
pub open spec fn list_less(a: Seq<Seq<u8>>, b: Seq<Seq<u8>>) -> bool
    decreases a.len(),
{
    if b.len() == 0 {
        false
    } else if a.len() == 0 {
        true
    } else if a[0] != b[0] {
        bytes_less(a[0], b[0])
    } else {
        list_less(a.skip(1), b.skip(1))
    }
}

proof fn lemma_bytes_less_total(a: Seq<u8>, b: Seq<u8>)
    ensures
        a == b || bytes_less(a, b) || bytes_less(b, a),
        !(bytes_less(a, b) && bytes_less(b, a)),
        !bytes_less(a, a),
    decreases a.len(),
{
    if a.len() > 0 && b.len() > 0 {
        lemma_bytes_less_total(a.skip(1), b.skip(1));
        if a[0] == b[0] && a.skip(1) == b.skip(1) {
            assert(a =~= seq![a[0]] + a.skip(1));
            assert(b =~= seq![b[0]] + b.skip(1));
        }
        lemma_bytes_less_total(a.skip(1), a.skip(1));
    } else if a.len() == 0 && b.len() == 0 {
        assert(a =~= b);
    } else if a.len() > 0 {
        lemma_bytes_less_total(a.skip(1), a.skip(1));
    }
}

proof fn lemma_bytes_less_trans(a: Seq<u8>, b: Seq<u8>, c: Seq<u8>)
    requires
        bytes_less(a, b),
        bytes_less(b, c),
    ensures
        bytes_less(a, c),
    decreases a.len(),
{
    if a.len() > 0 && a[0] == b[0] && b[0] == c[0] {
        lemma_bytes_less_trans(a.skip(1), b.skip(1), c.skip(1));
    }
}

proof fn lemma_list_less_total(a: Seq<Seq<u8>>, b: Seq<Seq<u8>>)
    ensures
        a == b || list_less(a, b) || list_less(b, a),
        !(list_less(a, b) && list_less(b, a)),
        !list_less(a, a),
    decreases a.len(),
{
    if a.len() > 0 && b.len() > 0 {
        lemma_bytes_less_total(a[0], b[0]);
        lemma_list_less_total(a.skip(1), b.skip(1));
        if a[0] == b[0] && a.skip(1) == b.skip(1) {
            assert(a =~= seq![a[0]] + a.skip(1));
            assert(b =~= seq![b[0]] + b.skip(1));
        }
        lemma_list_less_total(a.skip(1), a.skip(1));
    } else if a.len() == 0 && b.len() == 0 {
        assert(a =~= b);
    } else if a.len() > 0 {
        lemma_list_less_total(a.skip(1), a.skip(1));
    }
}

proof fn lemma_list_less_trans(a: Seq<Seq<u8>>, b: Seq<Seq<u8>>, c: Seq<Seq<u8>>)
    requires
        list_less(a, b),
        list_less(b, c),
    ensures
        list_less(a, c),
    decreases a.len(),
{
    if a.len() > 0 {
        if a[0] == b[0] && b[0] == c[0] {
            lemma_list_less_trans(a.skip(1), b.skip(1), c.skip(1));
        } else if a[0] != b[0] && b[0] != c[0] {
            lemma_bytes_less_trans(a[0], b[0], c[0]);
            lemma_bytes_less_total(a[0], b[0]);
            lemma_bytes_less_total(a[0], c[0]);
        }
    }
}

/// How one value stands to another in an order.
#[derive(Debug, Clone, Copy, PartialEq, Eq, Structural)]
pub enum Side {
    Before,
    Same,
    After,
}

/// Three-way comparison of byte strings.
pub fn bytes_side(a: &[u8], b: &[u8]) -> (side: Side)
    ensures
        side == Side::Same <==> a@ == b@,
        side == Side::Before <==> bytes_less(a@, b@),
        side == Side::After <==> bytes_less(b@, a@),
{
    let mut i: usize = 0;
    proof {
        lemma_bytes_less_total(a@, b@);
        assert(a@.skip(0) =~= a@);
        assert(b@.skip(0) =~= b@);
    }
    while i < a.len() && i < b.len()
        invariant
            i <= a.len(),
            i <= b.len(),
            bytes_less(a@, b@) == bytes_less(a@.skip(i as int), b@.skip(i as int)),
            bytes_less(b@, a@) == bytes_less(b@.skip(i as int), a@.skip(i as int)),
            a@ == b@ || bytes_less(a@, b@) || bytes_less(b@, a@),
            !(bytes_less(a@, b@) && bytes_less(b@, a@)),
            a@ == b@ ==> !bytes_less(a@, b@),
        decreases a.len() - i,
    {
        if a[i] < b[i] {
            return Side::Before;
        }
        if b[i] < a[i] {
            return Side::After;
        }
        assert(a@.skip(i as int).skip(1) =~= a@.skip(i + 1));
        assert(b@.skip(i as int).skip(1) =~= b@.skip(i + 1));
        i = i + 1;
    }
    if i < b.len() {
        Side::Before
    } else if i < a.len() {
        Side::After
    } else {
        Side::Same
    }
}

/// The contents of a list of byte strings.
pub open spec fn list_view(list: Seq<Vec<u8>>) -> Seq<Seq<u8>> {
    list.map_values(|b: Vec<u8>| b@)
}

/// Three-way comparison of lists of byte strings.
pub fn list_side(a: &Vec<Vec<u8>>, b: &Vec<Vec<u8>>) -> (side: Side)
    ensures
        side == Side::Same <==> list_view(a@) == list_view(b@),
        side == Side::Before <==> list_less(list_view(a@), list_view(b@)),
        side == Side::After <==> list_less(list_view(b@), list_view(a@)),
{
    let mut i: usize = 0;
    let ghost av = list_view(a@);
    let ghost bv = list_view(b@);
    proof {
        lemma_list_less_total(av, bv);
        assert(av.skip(0) =~= av);
        assert(bv.skip(0) =~= bv);
    }
    while i < a.len() && i < b.len()
        invariant
            i <= a.len(),
            i <= b.len(),
            av == list_view(a@),
            bv == list_view(b@),
            list_less(av, bv) == list_less(av.skip(i as int), bv.skip(i as int)),
            list_less(bv, av) == list_less(bv.skip(i as int), av.skip(i as int)),
            av == bv || list_less(av, bv) || list_less(bv, av),
            !(list_less(av, bv) && list_less(bv, av)),
            av == bv ==> !list_less(av, bv),
        decreases a.len() - i,
    {
        let side = bytes_side(a[i].as_slice(), b[i].as_slice());
        proof {
            lemma_bytes_less_total(a@[i as int]@, b@[i as int]@);
            assert(av.skip(i as int)[0] == a@[i as int]@);
            assert(bv.skip(i as int)[0] == b@[i as int]@);
        }
        match side {
            Side::Before => {
                return Side::Before;
            },
            Side::After => {
                return Side::After;
            },
            Side::Same => {},
        }
        proof {
            assert(av.skip(i as int).skip(1) =~= av.skip(i + 1));
            assert(bv.skip(i as int).skip(1) =~= bv.skip(i + 1));
        }
        i = i + 1;
    }
    if i < b.len() {
        Side::Before
    } else if i < a.len() {
        Side::After
    } else {
        Side::Same
    }
}

/// A position in the crate's sort order: first by a list of byte strings, then by two
/// numbers.
pub struct RankView {
    pub list: Seq<Seq<u8>>,
    pub major: nat,
    pub minor: nat,
}

/// Whether `a` sorts strictly before `b`.
pub open spec fn rank_less(a: RankView, b: RankView) -> bool {
    if a.list != b.list {
        list_less(a.list, b.list)
    } else if a.major != b.major {
        a.major < b.major
    } else {
        a.minor < b.minor
    }
}

/// The sort order is a strict total order.
pub proof fn law_rank_order_is_total(a: RankView, b: RankView, c: RankView)
    ensures
        !rank_less(a, a),
        a == b || rank_less(a, b) || rank_less(b, a),
        !(rank_less(a, b) && rank_less(b, a)),
        rank_less(a, b) && rank_less(b, c) ==> rank_less(a, c),
{
    lemma_list_less_total(a.list, b.list);
    lemma_list_less_total(a.list, c.list);
    if a.list != b.list && b.list != c.list && list_less(a.list, b.list) && list_less(
        b.list,
        c.list,
    ) {
        lemma_list_less_trans(a.list, b.list, c.list);
    }
}

/// An executable [`RankView`].
pub struct Rank {
    pub list: Vec<Vec<u8>>,
    pub major: u64,
    pub minor: u64,
}

impl View for Rank {
    type V = RankView;

    open spec fn view(&self) -> RankView {
        RankView {
            list: list_view(self.list@),
            major: self.major as nat,
            minor: self.minor as nat,
        }
    }
}

/// Three-way comparison of ranks.
pub fn rank_side(a: &Rank, b: &Rank) -> (side: Side)
    ensures
        side == Side::Same <==> a@ == b@,
        side == Side::Before <==> rank_less(a@, b@),
        side == Side::After <==> rank_less(b@, a@),
{
    proof {
        lemma_list_less_total(a@.list, b@.list);
    }
    match list_side(&a.list, &b.list) {
        Side::Before => Side::Before,
        Side::After => Side::After,
        Side::Same => {
            if a.major < b.major {
                Side::Before
            } else if b.major < a.major {
                Side::After
            } else if a.minor < b.minor {
                Side::Before
            } else if b.minor < a.minor {
                Side::After
            } else {
                Side::Same
            }
        },
    }
}

/// A value with a place in the sort order.
pub trait Ranked: View + Sized {
    /// The place of a value with this view.
    spec fn rank_at(v: Self::V) -> RankView;

    fn rank_of(&self) -> (r: Rank)
        ensures
            r@ == Self::rank_at(self@),
    ;
}

impl Ranked for u64 {
    open spec fn rank_at(v: u64) -> RankView {
        RankView { list: seq![], major: v as nat, minor: 0 }
    }

    fn rank_of(&self) -> (r: Rank) {
        let r = Rank { list: Vec::new(), major: *self, minor: 0 };
        assert(r@.list =~= Seq::<Seq<u8>>::empty());
        r
    }
}

/// The views of the items of a sequence.
pub open spec fn views<T: View>(s: Seq<T>) -> Seq<T::V> {
    s.map_values(|x: T| x@)
}

/// `x` put into the sorted sequence `s`, behind everything that does not sort after it.
pub open spec fn insert_ranked<T: Ranked>(s: Seq<T::V>, x: T::V) -> Seq<T::V>
    decreases s.len(),
{
    if s.len() == 0 || !rank_less(T::rank_at(x), T::rank_at(s.last())) {
        s.push(x)
    } else {
        insert_ranked::<T>(s.drop_last(), x).push(s.last())
    }
}

/// The stable sort of `s`: items of equal rank keep their order.
pub open spec fn stable_sorted<T: Ranked>(s: Seq<T::V>) -> Seq<T::V>
    decreases s.len(),
{
    if s.len() == 0 {
        s
    } else {
        insert_ranked::<T>(stable_sorted::<T>(s.drop_last()), s.last())
    }
}

/// Whether no item sorts before one that stands in front of it.
pub open spec fn ranks_ascend<T: Ranked>(s: Seq<T::V>) -> bool {
    forall|i: int, j: int| 0 <= i < j < s.len() ==> !rank_less(T::rank_at(s[j]), T::rank_at(s[i]))
}

proof fn lemma_insert_ranked<T: Ranked>(s: Seq<T::V>, x: T::V)
    requires
        ranks_ascend::<T>(s),
    ensures
        ranks_ascend::<T>(insert_ranked::<T>(s, x)),
        insert_ranked::<T>(s, x).len() == s.len() + 1,
        insert_ranked::<T>(s, x).to_multiset() =~= s.to_multiset().insert(x),
        forall|i: int|
            0 <= i < s.len() + 1 ==> #[trigger] insert_ranked::<T>(s, x)[i] == x || s.contains(
                insert_ranked::<T>(s, x)[i],
            ),
    decreases s.len(),
{
    broadcast use vstd::seq_lib::group_to_multiset_ensures;

    let r = insert_ranked::<T>(s, x);
    if s.len() == 0 || !rank_less(T::rank_at(x), T::rank_at(s.last())) {
        assert forall|i: int, j: int| 0 <= i < j < r.len() implies !rank_less(
            T::rank_at(r[j]),
            T::rank_at(r[i]),
        ) by {
            if j == s.len() {
                let l = T::rank_at(s.last());
                law_rank_order_is_total(T::rank_at(x), T::rank_at(r[i]), l);
                if i < s.len() - 1 {
                    assert(!rank_less(T::rank_at(s[s.len() - 1]), T::rank_at(s[i])));
                    law_rank_order_is_total(T::rank_at(r[i]), l, T::rank_at(x));
                    law_rank_order_is_total(T::rank_at(x), l, T::rank_at(r[i]));
                    law_rank_order_is_total(l, T::rank_at(x), T::rank_at(r[i]));
                }
            }
        }
        assert forall|i: int| 0 <= i < s.len() + 1 implies #[trigger] r[i] == x || s.contains(
            r[i],
        ) by {
            if i < s.len() {
                assert(s.contains(s[i]));
            }
        }
    } else {
        let rest = s.drop_last();
        assert(ranks_ascend::<T>(rest));
        lemma_insert_ranked::<T>(rest, x);
        let q = insert_ranked::<T>(rest, x);
        assert(s =~= rest.push(s.last()));
        assert forall|i: int, j: int| 0 <= i < j < r.len() implies !rank_less(
            T::rank_at(r[j]),
            T::rank_at(r[i]),
        ) by {
            if j == r.len() - 1 {
                assert(r[i] == q[i]);
                law_rank_order_is_total(T::rank_at(x), T::rank_at(s.last()), T::rank_at(x));
                if q[i] != x {
                    assert(rest.contains(q[i]));
                    let k = rest.index_of(q[i]);
                    assert(rest[k] == s[k]);
                }
            } else {
                assert(r[i] == q[i] && r[j] == q[j]);
            }
        }
        assert forall|i: int| 0 <= i < s.len() + 1 implies #[trigger] r[i] == x || s.contains(
            r[i],
        ) by {
            if i < s.len() {
                assert(r[i] == q[i]);
                if q[i] != x {
                    let k = rest.index_of(q[i]);
                    assert(s[k] == q[i]);
                }
            } else {
                assert(s[s.len() - 1] == r[i]);
            }
        }
        assert(r.to_multiset() =~= s.to_multiset().insert(x));
    }
}

/// A stable sort holds the same items as its input, in ascending order.
pub proof fn law_stable_sort_orders_and_keeps_items<T: Ranked>(s: Seq<T::V>)
    ensures
        ranks_ascend::<T>(stable_sorted::<T>(s)),
        stable_sorted::<T>(s).len() == s.len(),
        stable_sorted::<T>(s).to_multiset() =~= s.to_multiset(),
    decreases s.len(),
{
    broadcast use vstd::seq_lib::group_to_multiset_ensures;

    if s.len() > 0 {
        law_stable_sort_orders_and_keeps_items::<T>(s.drop_last());
        lemma_insert_ranked::<T>(stable_sorted::<T>(s.drop_last()), s.last());
        assert(s =~= s.drop_last().push(s.last()));
    }
}

/// Every item of a stable sort is an item of its input.
pub proof fn lemma_stable_sort_members<T: Ranked>(s: Seq<T::V>)
    ensures
        stable_sorted::<T>(s).len() == s.len(),
        forall|i: int| 0 <= i < s.len() ==> s.contains(#[trigger] stable_sorted::<T>(s)[i]),
    decreases s.len(),
{
    law_stable_sort_orders_and_keeps_items::<T>(s);
    if s.len() > 0 {
        let rest = s.drop_last();
        law_stable_sort_orders_and_keeps_items::<T>(rest);
        lemma_stable_sort_members::<T>(rest);
        lemma_insert_ranked::<T>(stable_sorted::<T>(rest), s.last());
        let out = stable_sorted::<T>(s);
        assert forall|i: int| 0 <= i < s.len() implies s.contains(#[trigger] out[i]) by {
            if out[i] == s.last() {
                assert(s[s.len() - 1] == out[i]);
            } else {
                let k = stable_sorted::<T>(rest).index_of(out[i]);
                assert(rest.contains(stable_sorted::<T>(rest)[k]));
                let m = rest.index_of(out[i]);
                assert(s[m] == out[i]);
            }
        }
    }
}

/// Sorting what is already in order changes nothing.
pub proof fn law_stable_sort_keeps_a_sorted_sequence<T: Ranked>(s: Seq<T::V>)
    requires
        ranks_ascend::<T>(s),
    ensures
        stable_sorted::<T>(s) == s,
    decreases s.len(),
{
    if s.len() > 0 {
        let rest = s.drop_last();
        law_stable_sort_keeps_a_sorted_sequence::<T>(rest);
        if rest.len() > 0 {
            assert(!rank_less(T::rank_at(s[s.len() - 1]), T::rank_at(s[s.len() - 2])));
        }
        assert(rest.push(s.last()) =~= s);
    }
}

/// Whether items of `s` that rank alike are the same.
pub open spec fn rank_tells_apart<T: Ranked>(s: Seq<T::V>) -> bool {
    forall|i: int, j: int|
        #![trigger s[i], s[j]]
        0 <= i < s.len() && 0 <= j < s.len() && T::rank_at(s[i]) == T::rank_at(s[j]) ==> s[i]
            == s[j]
}

/// Sequences of the same items hold the same items.
pub proof fn lemma_same_members<A>(a: Seq<A>, b: Seq<A>, x: A)
    requires
        a.to_multiset() == b.to_multiset(),
    ensures
        a.contains(x) <==> b.contains(x),
{
    broadcast use vstd::seq_lib::group_to_multiset_ensures;

    assert(a.contains(x) <==> a.to_multiset().count(x) > 0);
    assert(b.contains(x) <==> b.to_multiset().count(x) > 0);
}

/// A function of the items of two sequences of the same items gives the same results.
pub proof fn lemma_same_images<A, B>(a: Seq<A>, b: Seq<A>, f: spec_fn(A) -> B)
    requires
        a.to_multiset() == b.to_multiset(),
    ensures
        a.map_values(f).to_multiset() == b.map_values(f).to_multiset(),
    decreases a.len(),
{
    broadcast use vstd::seq_lib::group_to_multiset_ensures;

    assert(a.to_multiset().len() == a.len());
    assert(b.to_multiset().len() == b.len());
    if a.len() > 0 {
        let x = a.last();
        assert(a.contains(a[a.len() - 1]));
        lemma_same_members(a, b, x);
        let k = b.index_of(x);
        let ar = a.drop_last();
        let br = b.remove(k);
        assert(a =~= ar.push(x));
        assert(ar.to_multiset() =~= a.to_multiset().remove(x));
        assert(br.to_multiset() =~= b.to_multiset().remove(x));
        lemma_same_images(ar, br, f);
        assert(a.map_values(f) =~= ar.map_values(f).push(f(x)));
        assert(b.map_values(f).remove(k) =~= br.map_values(f));
        assert(b.map_values(f)[k] == f(x));
        let bm = b.map_values(f).to_multiset();
        assert(b.map_values(f).contains(f(x)));
        assert(bm.remove(f(x)) == br.map_values(f).to_multiset());
        assert(bm =~= bm.remove(f(x)).insert(f(x)));
    } else {
        assert(a.map_values(f) =~= b.map_values(f));
    }
}

/// A filter keeps exactly the items that meet its condition, and no item twice that was there
/// once.
pub proof fn lemma_filter_members<A>(s: Seq<A>, keep: spec_fn(A) -> bool)
    ensures
        forall|x: A| #[trigger] s.filter(keep).contains(x) <==> s.contains(x) && keep(x),
        s.no_duplicates() ==> s.filter(keep).no_duplicates(),
    decreases s.len(),
{
    reveal(Seq::filter);
    let out = s.filter(keep);
    if s.len() > 0 {
        let rest = s.drop_last();
        let kept = rest.filter(keep);
        lemma_filter_members(rest, keep);
        assert(s[s.len() - 1] == s.last());
        assert forall|x: A| #[trigger] out.contains(x) <==> s.contains(x) && keep(x) by {
            assert(kept.contains(x) <==> rest.contains(x) && keep(x));
            if s.contains(x) && x != s.last() {
                let k = s.index_of(x);
                assert(rest[k] == x);
            }
            if rest.contains(x) {
                let k = rest.index_of(x);
                assert(s[k] == x);
            }
            if kept.contains(x) {
                let k = kept.index_of(x);
                assert(out[k] == x);
            }
            if out.contains(x) && !kept.contains(x) {
                let k = out.index_of(x);
                assert(k == out.len() - 1);
            }
            if keep(s.last()) {
                assert(out[out.len() - 1] == s.last());
            }
        }
        if s.no_duplicates() && keep(s.last()) {
            assert forall|i: int, j: int|
                0 <= i < out.len() && 0 <= j < out.len() && i != j implies out[i] != out[j] by {
                if i < kept.len() {
                    assert(kept.contains(kept[i]));
                    let k = rest.index_of(kept[i]);
                    assert(s[k] == kept[i]);
                }
                if j < kept.len() {
                    assert(kept.contains(kept[j]));
                    let k = rest.index_of(kept[j]);
                    assert(s[k] == kept[j]);
                }
            }
        }
    }
}

/// Those of the same items that meet a condition are the same.
pub proof fn lemma_same_filtered<A>(a: Seq<A>, b: Seq<A>, keep: spec_fn(A) -> bool)
    requires
        a.to_multiset() == b.to_multiset(),
    ensures
        a.filter(keep).to_multiset() == b.filter(keep).to_multiset(),
    decreases a.len(),
{
    broadcast use vstd::seq_lib::group_to_multiset_ensures;

    reveal(Seq::filter);
    assert(a.to_multiset().len() == a.len());
    assert(b.to_multiset().len() == b.len());
    if a.len() > 0 {
        let x = a.last();
        assert(a.contains(a[a.len() - 1]));
        lemma_same_members(a, b, x);
        let k = b.index_of(x);
        let ar = a.drop_last();
        let br = b.remove(k);
        assert(a =~= ar.push(x));
        assert(ar.to_multiset() =~= a.to_multiset().remove(x));
        assert(br.to_multiset() =~= b.to_multiset().remove(x));
        lemma_same_filtered(ar, br, keep);
        let head = b.take(k);
        let tail = b.skip(k + 1);
        let one = seq![x];
        assert(b =~= head + one + tail);
        assert(br =~= head + tail);
        Seq::filter_distributes_over_add(head + one, tail, keep);
        Seq::filter_distributes_over_add(head, one, keep);
        Seq::filter_distributes_over_add(head, tail, keep);
        assert(one.last() == x);
        assert(one.drop_last() =~= Seq::<A>::empty());
        assert(one.drop_last().filter(keep) =~= Seq::<A>::empty());
        let hf = head.filter(keep);
        let tf = tail.filter(keep);
        if keep(x) {
            assert(one.filter(keep) =~= one);
            assert(a.filter(keep) =~= ar.filter(keep).push(x));
            let at = hf.len() as int;
            assert(b.filter(keep) =~= (hf + tf).insert(at, x));
            vstd::seq_lib::to_multiset_insert(hf + tf, at, x);
        } else {
            assert(one.filter(keep) =~= Seq::<A>::empty());
            assert(b.filter(keep) =~= hf + tf);
        }
    }
}

/// Two ascending sequences of the same items are the same, where rank tells the items apart.
pub proof fn lemma_ascending_is_unique<T: Ranked>(a: Seq<T::V>, b: Seq<T::V>)
    requires
        ranks_ascend::<T>(a),
        ranks_ascend::<T>(b),
        a.to_multiset() == b.to_multiset(),
        rank_tells_apart::<T>(a),
    ensures
        a == b,
    decreases a.len(),
{
    broadcast use vstd::seq_lib::group_to_multiset_ensures;

    assert(a.to_multiset().len() == a.len());
    assert(b.to_multiset().len() == b.len());
    if a.len() > 0 {
        let n = a.len() - 1;
        assert(a.contains(a[n]));
        assert(b.contains(b[n]));
        lemma_same_members(a, b, a[n]);
        lemma_same_members(b, a, b[n]);
        let i = a.index_of(b[n]);
        let j = b.index_of(a[n]);
        assert(a[i] == b[n] && b[j] == a[n]);
        law_rank_order_is_total(T::rank_at(a[n]), T::rank_at(b[n]), T::rank_at(a[n]));
        assert(!rank_less(T::rank_at(a[n]), T::rank_at(b[n]))) by {
            if i < n {
                assert(!rank_less(T::rank_at(a[n]), T::rank_at(a[i])));
            } else {
                law_rank_order_is_total(T::rank_at(a[n]), T::rank_at(a[n]), T::rank_at(a[n]));
            }
        }
        assert(!rank_less(T::rank_at(b[n]), T::rank_at(a[n]))) by {
            if j < n {
                assert(!rank_less(T::rank_at(b[n]), T::rank_at(b[j])));
            } else {
                law_rank_order_is_total(T::rank_at(b[n]), T::rank_at(b[n]), T::rank_at(b[n]));
            }
        }
        assert(a[n] == a[i]);
        let ra = a.drop_last();
        let rb = b.drop_last();
        assert(a =~= ra.push(a[n]));
        assert(b =~= rb.push(b[n]));
        assert(ra.to_multiset() =~= a.to_multiset().remove(a[n]));
        assert(rb.to_multiset() =~= b.to_multiset().remove(b[n]));
        assert forall|i: int, j: int|
            #![trigger ra[i], ra[j]]
            0 <= i < ra.len() && 0 <= j < ra.len() && T::rank_at(ra[i]) == T::rank_at(
                ra[j],
            ) implies ra[i] == ra[j] by {
            assert(ra[i] == a[i] && ra[j] == a[j]);
        }
        lemma_ascending_is_unique::<T>(ra, rb);
        assert(a =~= b);
    }
}

/// Where rank tells the items apart, a sort does not depend on the order that they come in.
pub proof fn law_sorting_forgets_the_order<T: Ranked>(a: Seq<T::V>, b: Seq<T::V>)
    requires
        a.to_multiset() == b.to_multiset(),
        rank_tells_apart::<T>(a),
    ensures
        stable_sorted::<T>(a) == stable_sorted::<T>(b),
{
    law_stable_sort_orders_and_keeps_items::<T>(a);
    law_stable_sort_orders_and_keeps_items::<T>(b);
    lemma_stable_sort_members::<T>(a);
    let sa = stable_sorted::<T>(a);
    assert forall|i: int, j: int|
        #![trigger sa[i], sa[j]]
        0 <= i < sa.len() && 0 <= j < sa.len() && T::rank_at(sa[i]) == T::rank_at(
            sa[j],
        ) implies sa[i] == sa[j] by {
        let k = a.index_of(sa[i]);
        let l = a.index_of(sa[j]);
        assert(a.contains(sa[i]) && a.contains(sa[j]));
        assert(a[k] == sa[i] && a[l] == sa[j]);
    }
    lemma_ascending_is_unique::<T>(sa, stable_sorted::<T>(b));
}

/// The ranks of the items of a sequence.
pub open spec fn ranks_match<T: Ranked>(items: Seq<T>, ranks: Seq<Rank>) -> bool {
    &&& ranks.len() == items.len()
    &&& forall|i: int|
        0 <= i < ranks.len() ==> (#[trigger] ranks[i])@ == T::rank_at(items[i]@)
}

/// Sorts stably by rank.
pub fn stable_sort<T: Ranked>(items: Vec<T>) -> (sorted: Vec<T>)
    ensures
        views(sorted@) == stable_sorted::<T>(views(items@)),
{
    let mut left: Vec<T> = items;
    let mut stack: Vec<T> = Vec::new();
    let ghost all = left@;
    // Reverse into a stack, then take the items off it in their first order.
    while left.len() > 0
        invariant
            all == left@ + stack@.reverse(),
        decreases left.len(),
    {
        let ghost before = left@;
        let ghost was = stack@;
        match left.pop() {
            Some(x) => {
                stack.push(x);
                proof {
                    assert(before =~= left@.push(x));
                    assert(stack@.reverse() =~= seq![x] + was.reverse());
                    assert(left@ + stack@.reverse() =~= before + was.reverse());
                }
            },
            None => {},
        }
    }
    let mut sorted: Vec<T> = Vec::new();
    let mut ranks: Vec<Rank> = Vec::new();
    let ghost av = views(all);
    proof {
        assert(all =~= stack@.reverse());
        assert(av.take(0) =~= Seq::<T::V>::empty());
        assert(views(sorted@) =~= Seq::<T::V>::empty());
    }
    while stack.len() > 0
        invariant
            av == views(all),
            stack.len() <= all.len(),
            stack@.reverse() == all.skip(all.len() - stack.len()),
            views(sorted@) == stable_sorted::<T>(av.take(all.len() - stack.len())),
            ranks_match(sorted@, ranks@),
        decreases stack.len(),
    {
        let ghost was = stack@;
        let ghost done = all.len() - stack.len();
        match stack.pop() {
            Some(x) => {
                proof {
                    assert(was =~= stack@.push(x));
                    assert(was.reverse() =~= seq![x] + stack@.reverse());
                    assert(x == all[done]) by {
                        assert(was.reverse()[0] == x);
                        assert(all.skip(done)[0] == all[done]);
                    }
                    assert(stack@.reverse() =~= all.skip(done + 1)) by {
                        assert(was.reverse().skip(1) =~= stack@.reverse());
                        assert(all.skip(done).skip(1) =~= all.skip(done + 1));
                    }
                    assert(av.take(done + 1).drop_last() =~= av.take(done));
                    assert(av.take(done + 1).last() == x@);
                }
                insert_in_place(&mut sorted, &mut ranks, x);
            },
            None => {},
        }
    }
    proof {
        assert(av.take(all.len() as int) =~= av);
    }
    sorted
}

/// Puts `x` where [`insert_ranked`] says, keeping the parallel vector of ranks in step.
fn insert_in_place<T: Ranked>(sorted: &mut Vec<T>, ranks: &mut Vec<Rank>, x: T)
    requires
        ranks_match(old(sorted)@, old(ranks)@),
    ensures
        views(final(sorted)@) == insert_ranked::<T>(views(old(sorted)@), x@),
        ranks_match(final(sorted)@, final(ranks)@),
{
    let r = x.rank_of();
    let mut at: usize = sorted.len();
    let ghost s = sorted@;
    let ghost sv = views(s);
    proof {
        assert(sv.take(at as int) =~= sv);
        assert(sv.skip(at as int) =~= Seq::<T::V>::empty());
        assert(insert_ranked::<T>(sv, x@) =~= insert_ranked::<T>(sv.take(at as int), x@) + sv.skip(
            at as int,
        ));
    }
    while at > 0 && matches!(rank_side(&r, &ranks[at - 1]), Side::Before)
        invariant
            at <= s.len(),
            s == sorted@,
            sv == views(s),
            r@ == T::rank_at(x@),
            ranks_match(sorted@, ranks@),
            insert_ranked::<T>(sv, x@) == insert_ranked::<T>(sv.take(at as int), x@) + sv.skip(
                at as int,
            ),
        decreases at,
    {
        proof {
            let p = sv.take(at as int);
            assert(ranks@[at - 1]@ == T::rank_at(sorted@[at - 1]@));
            assert(p.last() == s[at - 1]@);
            assert(p.drop_last() =~= sv.take(at - 1));
            assert(insert_ranked::<T>(p, x@) == insert_ranked::<T>(p.drop_last(), x@).push(
                p.last(),
            ));
            assert(sv.skip(at - 1) =~= seq![sv[at - 1]] + sv.skip(at as int));
            assert(insert_ranked::<T>(sv.take(at - 1), x@) + sv.skip(at - 1) =~= insert_ranked::<
                T,
            >(p, x@) + sv.skip(at as int));
        }
        at = at - 1;
    }
    proof {
        let p = sv.take(at as int);
        if at > 0 {
            assert(ranks@[at - 1]@ == T::rank_at(sorted@[at - 1]@));
            assert(p.last() == s[at - 1]@);
        }
        assert(insert_ranked::<T>(p, x@) == p.push(x@));
        assert(views(s.insert(at as int, x)) =~= p.push(x@) + sv.skip(at as int));
    }
    let ghost ranks_before = ranks@;
    sorted.insert(at, x);
    ranks.insert(at, r);
    assert forall|i: int| 0 <= i < ranks.len() implies (#[trigger] ranks@[i])@ == T::rank_at(
        sorted@[i]@,
    ) by {
        if i < at {
            assert(ranks@[i] == ranks_before[i]);
            assert(sorted@[i] == s[i]);
        } else if i > at {
            assert(ranks@[i] == ranks_before[i - 1]);
            assert(sorted@[i] == s[i - 1]);
        }
    }
}

/// Bytes are ordered at their first difference: the smaller byte there comes first, and what
/// has ended comes before what goes on.
pub proof fn law_bytes_are_ordered_at_their_first_difference(a: Seq<u8>, b: Seq<u8>, k: int)
    requires
        0 <= k <= a.len(),
        k <= b.len(),
        a.take(k) == b.take(k),
    ensures
        k == b.len() ==> !bytes_less(a, b),
        k == a.len() && k < b.len() ==> bytes_less(a, b),
        k < a.len() && k < b.len() && a[k] != b[k] ==> bytes_less(a, b) == (a[k] < b[k]),
    decreases k,
{
    if k > 0 {
        assert(a.take(k)[0] == a[0] && b.take(k)[0] == b[0]);
        let x = a.skip(1);
        let y = b.skip(1);
        assert(x.take(k - 1) =~= a.take(k).skip(1));
        assert(y.take(k - 1) =~= b.take(k).skip(1));
        law_bytes_are_ordered_at_their_first_difference(x, y, k - 1);
    }
}

/// Lists are ordered at their first difference: by the order of the bytes there, and what has
/// ended comes before what goes on.
pub proof fn law_lists_are_ordered_at_their_first_difference(
    a: Seq<Seq<u8>>,
    b: Seq<Seq<u8>>,
    k: int,
)
    requires
        0 <= k <= a.len(),
        k <= b.len(),
        a.take(k) == b.take(k),
    ensures
        k == b.len() ==> !list_less(a, b),
        k == a.len() && k < b.len() ==> list_less(a, b),
        k < a.len() && k < b.len() && a[k] != b[k] ==> list_less(a, b) == bytes_less(a[k], b[k]),
    decreases k,
{
    if k > 0 {
        assert(a.take(k)[0] == a[0] && b.take(k)[0] == b[0]);
        let x = a.skip(1);
        let y = b.skip(1);
        assert(x.take(k - 1) =~= a.take(k).skip(1));
        assert(y.take(k - 1) =~= b.take(k).skip(1));
        law_lists_are_ordered_at_their_first_difference(x, y, k - 1);
    }
}

} // verus!
