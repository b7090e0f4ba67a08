//! A map kept as a vector of entries, sorted by key and without a key twice.

use crate::order::{law_rank_order_is_total, rank_less, rank_side, Rank, RankView, Ranked, Side};
use vstd::prelude::*;

verus! {

/// A sorted map. Keys of equal rank are the same key.
#[derive(Debug, Clone)]
pub struct OrdMap<K, V> {
    pub entries: Vec<(K, V)>,
}

/// Whether the keys ascend strictly, which also makes them unique.
pub open spec fn keys_ascend<K: Ranked, V>(entries: Seq<(K::V, V)>) -> bool {
    forall|i: int, j: int|
        0 <= i < j < entries.len() ==> rank_less(
            K::rank_at((#[trigger] entries[i]).0),
            K::rank_at((#[trigger] entries[j]).0),
        )
}

/// Whether some entry has a key of rank `r`.
pub open spec fn has_rank<K: Ranked, V>(entries: Seq<(K::V, V)>, r: RankView) -> bool {
    exists|i: int| 0 <= i < entries.len() && K::rank_at((#[trigger] entries[i]).0) == r
}

/// The number of leading entries that sort before rank `r`: where a key of that rank
/// stands, or would stand.
pub open spec fn slot<K: Ranked, V>(entries: Seq<(K::V, V)>, r: RankView) -> nat
    decreases entries.len(),
{
    if entries.len() == 0 {
        0
    } else if rank_less(K::rank_at(entries.last().0), r) {
        entries.len()
    } else {
        slot::<K, V>(entries.drop_last(), r)
    }
}

/// The value stored under rank `r`, if any.
pub open spec fn lookup<K: Ranked, V>(entries: Seq<(K::V, V)>, r: RankView) -> Option<V> {
    let at = slot::<K, V>(entries, r) as int;
    if at < entries.len() && K::rank_at(entries[at].0) == r {
        Some(entries[at].1)
    } else {
        None
    }
}

/// The entries after `(k, v)` is stored: an equal key keeps its place and takes the new
/// value, a new key goes to its place in the order.
pub open spec fn stored<K: Ranked, V>(entries: Seq<(K::V, V)>, k: K::V, v: V) -> Seq<(K::V, V)> {
    let at = slot::<K, V>(entries, K::rank_at(k)) as int;
    if at < entries.len() && K::rank_at(entries[at].0) == K::rank_at(k) {
        entries.update(at, (entries[at].0, v))
    } else {
        entries.insert(at, (k, v))
    }
}

/// Where keys ascend, `slot` splits them: those before it rank below `r`, those from it on do not.
pub proof fn lemma_slot<K: Ranked, V>(entries: Seq<(K::V, V)>, r: RankView)
    requires
        keys_ascend::<K, V>(entries),
    ensures
        slot::<K, V>(entries, r) <= entries.len(),
        forall|i: int| 0 <= i < slot::<K, V>(entries, r) ==> rank_less(K::rank_at((#[trigger] entries[i]).0), r),
        forall|i: int|
            slot::<K, V>(entries, r) <= i < entries.len() ==> !rank_less(
                K::rank_at((#[trigger] entries[i]).0),
                r,
            ),
        slot::<K, V>(entries, r) < entries.len() && K::rank_at(entries[slot::<K, V>(entries, r) as int].0) != r
            ==> rank_less(r, K::rank_at(entries[slot::<K, V>(entries, r) as int].0)),
        has_rank::<K, V>(entries, r) <==> slot::<K, V>(entries, r) < entries.len() && K::rank_at(entries[slot::<K, V>(
            entries,
            r,
        ) as int].0) == r,
        lookup::<K, V>(entries, r) is Some <==> has_rank::<K, V>(entries, r),
    decreases entries.len(),
{
    if entries.len() > 0 {
        let rest = entries.drop_last();
        assert(keys_ascend::<K, V>(rest));
        lemma_slot::<K, V>(rest, r);
        let last = K::rank_at(entries.last().0);
        assert forall|i: int| 0 <= i < entries.len() - 1 implies rank_less(
            K::rank_at((#[trigger] entries[i]).0),
            last,
        ) by {
            assert(K::rank_at(entries[entries.len() - 1].0) == last);
        }
        if rank_less(last, r) {
            assert forall|i: int| 0 <= i < entries.len() implies rank_less(
                K::rank_at((#[trigger] entries[i]).0),
                r,
            ) by {
                law_rank_order_is_total(K::rank_at(entries[i].0), last, r);
            }
            if has_rank::<K, V>(entries, r) {
                let i = choose|i: int|
                    0 <= i < entries.len() && K::rank_at((#[trigger] entries[i]).0) == r;
                law_rank_order_is_total(r, r, r);
            }
        } else {
            let at = slot::<K, V>(rest, r) as int;
            assert forall|i: int| at <= i < entries.len() implies !rank_less(
                K::rank_at((#[trigger] entries[i]).0),
                r,
            ) by {
                if i < entries.len() - 1 {
                    assert(entries[i] == rest[i]);
                }
            }
            assert forall|i: int| 0 <= i < at implies rank_less(
                K::rank_at((#[trigger] entries[i]).0),
                r,
            ) by {
                assert(entries[i] == rest[i]);
            }
            law_rank_order_is_total(K::rank_at(entries[at].0), r, r);
            if has_rank::<K, V>(entries, r) {
                let i = choose|i: int|
                    0 <= i < entries.len() && K::rank_at((#[trigger] entries[i]).0) == r;
                law_rank_order_is_total(r, r, r);
                if i > at {
                    law_rank_order_is_total(K::rank_at(entries[at].0), r, r);
                }
            }
        }
    } else {
        assert(!has_rank::<K, V>(entries, r));
    }
}

/// Storing keeps the keys sorted and unique; what is read back under the stored key is the
/// stored value, and every other key reads as before.
pub proof fn law_stored_reads_back<K: Ranked, V>(entries: Seq<(K::V, V)>, k: K::V, v: V, r: RankView)
    requires
        keys_ascend::<K, V>(entries),
    ensures
        keys_ascend::<K, V>(stored::<K, V>(entries, k, v)),
        lookup::<K, V>(stored::<K, V>(entries, k, v), K::rank_at(k)) == Some(v),
        r != K::rank_at(k) ==> lookup::<K, V>(stored::<K, V>(entries, k, v), r) == lookup::<K, V>(entries, r),
{
    let kr = K::rank_at(k);
    let at = slot::<K, V>(entries, kr) as int;
    let out = stored::<K, V>(entries, k, v);
    lemma_slot::<K, V>(entries, kr);
    let replaced = at < entries.len() && K::rank_at(entries[at].0) == kr;
    assert forall|i: int, j: int| 0 <= i < j < out.len() implies rank_less(
        K::rank_at((#[trigger] out[i]).0),
        K::rank_at((#[trigger] out[j]).0),
    ) by {
        if replaced {
            assert(K::rank_at(out[i].0) == K::rank_at(entries[i].0));
            assert(K::rank_at(out[j].0) == K::rank_at(entries[j].0));
        } else {
            let ei = if i < at { i } else { i - 1 };
            let ej = if j < at { j } else { j - 1 };
            if i == at {
                assert(out[j] == entries[ej]);
                assert(rank_less(kr, K::rank_at(entries[at].0)));
                if ej > at {
                    law_rank_order_is_total(kr, K::rank_at(entries[at].0), K::rank_at(entries[ej].0));
                }
            } else if j == at {
                assert(out[i] == entries[ei]);
            } else {
                assert(out[i] == entries[ei] && out[j] == entries[ej]);
            }
        }
    }
    lemma_slot::<K, V>(out, kr);
    lemma_slot::<K, V>(out, r);
    lemma_slot::<K, V>(entries, r);
    law_rank_order_is_total(kr, kr, kr);
    assert(K::rank_at(out[at].0) == kr && out[at].1 == v);
    let s = slot::<K, V>(out, kr) as int;
    if s < at {
        assert(out[s] == entries[s]);
        assert(rank_less(K::rank_at(entries[s].0), kr));
    }
    assert(s == at) by {
        if s > at {
            assert(rank_less(K::rank_at(out[at].0), kr));
        }
    }
    if r != kr {
        let os = slot::<K, V>(out, r) as int;
        let es = slot::<K, V>(entries, r) as int;
        if has_rank::<K, V>(entries, r) {
            let to = if replaced || es < at { es } else { es + 1 };
            assert(K::rank_at(out[to].0) == r && out[to].1 == entries[es].1);
            law_rank_order_is_total(r, r, r);
            if os != to {
                if os < to {
                    assert(!rank_less(K::rank_at(out[os].0), r));
                    assert(rank_less(K::rank_at(out[os].0), K::rank_at(out[to].0)));
                } else {
                    assert(rank_less(K::rank_at(out[to].0), r));
                }
            }
        } else {
            if has_rank::<K, V>(out, r) {
                let ei = if replaced || os < at { os } else { os - 1 };
                assert(os != at);
                assert(K::rank_at(entries[ei].0) == r);
            }
        }
    }
}

/// The views of the entries.
pub open spec fn entry_views<K: View, V: View>(entries: Seq<(K, V)>) -> Seq<(K::V, V::V)> {
    entries.map_values(|e: (K, V)| (e.0@, e.1@))
}

impl<K: View, V: View> View for OrdMap<K, V> {
    type V = Seq<(K::V, V::V)>;

    open spec fn view(&self) -> Seq<(K::V, V::V)> {
        entry_views(self.entries@)
    }
}

impl<K: Ranked, V: View> OrdMap<K, V> {
    /// Whether the keys are sorted and unique.
    pub open spec fn wf(&self) -> bool {
        keys_ascend::<K, V::V>(self@)
    }

    /// An empty map.
    pub fn new() -> (m: Self)
        ensures
            m.wf(),
            m@ == Seq::<(K::V, V::V)>::empty(),
    {
        let m = OrdMap { entries: Vec::new() };
        assert(m@ =~= Seq::<(K::V, V::V)>::empty());
        m
    }

    /// The place of rank `r`.
    fn place(&self, r: &Rank) -> (at: usize)
        requires
            self.wf(),
        ensures
            at == slot::<K, V::V>(self@, r@),
            at <= self.entries.len(),
    {
        let ghost e = self@;
        let mut low: usize = 0;
        let mut high: usize = self.entries.len();
        proof {
            lemma_slot::<K, V::V>(e, r@);
        }
        while low < high
            invariant
                low <= high <= self.entries.len(),
                e == self@,
                keys_ascend::<K, V::V>(e),
                low <= slot::<K, V::V>(e, r@) <= high,
                forall|i: int|
                    0 <= i < slot::<K, V::V>(e, r@) ==> rank_less(
                        K::rank_at((#[trigger] e[i]).0),
                        r@,
                    ),
                forall|i: int|
                    slot::<K, V::V>(e, r@) <= i < e.len() ==> !rank_less(
                        K::rank_at((#[trigger] e[i]).0),
                        r@,
                    ),
            decreases high - low,
        {
            let mid: usize = low + (high - low) / 2;
            let kr = self.entries[mid].0.rank_of();
            assert(kr@ == K::rank_at(e[mid as int].0));
            if matches!(rank_side(&kr, r), Side::Before) {
                low = mid + 1;
            } else {
                high = mid;
            }
        }
        low
    }

    /// The value stored under `k`.
    pub fn get(&self, k: &K) -> (v: Option<&V>)
        requires
            self.wf(),
        ensures
            v is Some <==> has_rank::<K, V::V>(self@, K::rank_at(k@)),
            match v {
                Some(x) => lookup::<K, V::V>(self@, K::rank_at(k@)) == Some(x@),
                None => lookup::<K, V::V>(self@, K::rank_at(k@)) is None,
            },
    {
        let r = k.rank_of();
        let at = self.place(&r);
        proof {
            lemma_slot::<K, V::V>(self@, r@);
        }
        if at < self.entries.len() {
            let kr = self.entries[at].0.rank_of();
            if matches!(rank_side(&kr, &r), Side::Same) {
                return Some(&self.entries[at].1);
            }
        }
        None
    }

    /// Whether `k` is a key.
    pub fn contains_key(&self, k: &K) -> (found: bool)
        requires
            self.wf(),
        ensures
            found == has_rank::<K, V::V>(self@, K::rank_at(k@)),
    {
        self.get(k).is_some()
    }

    /// Stores `v` under `k`.
    pub fn insert(&mut self, k: K, v: V)
        requires
            old(self).wf(),
        ensures
            final(self).wf(),
            final(self)@ == stored::<K, V::V>(old(self)@, k@, v@),
    {
        let r = k.rank_of();
        let at = self.place(&r);
        let ghost before = self@;
        proof {
            law_stored_reads_back::<K, V::V>(self@, k@, v@, r@);
            lemma_slot::<K, V::V>(self@, r@);
        }
        if at < self.entries.len() {
            let kr = self.entries[at].0.rank_of();
            if matches!(rank_side(&kr, &r), Side::Same) {
                let (key, _) = self.entries.remove(at);
                self.entries.insert(at, (key, v));
                assert(self@ =~= stored::<K, V::V>(before, k@, v@));
                return ;
            }
        }
        self.entries.insert(at, (k, v));
        assert(self@ =~= stored::<K, V::V>(before, k@, v@));
    }
}

} // verus!
