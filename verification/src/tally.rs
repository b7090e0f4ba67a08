//! The gain report is one of the records alone, in whatever order they come.

use crate::metrics::{
    all_verb_rows, count_sum, counted, day_rows, gain_of, is_read_call, naive_of, nearest_rank,
    percentile, record_lines, record_lines_from, saved_by, stats_from, stats_of, tally_of,
    verb_rows, RecordView, StatsView,
};
use crate::order::{
    law_rank_order_is_total, law_sorting_forgets_the_order, law_stable_sort_orders_and_keeps_items,
    lemma_filter_members, lemma_same_filtered, lemma_same_images, lemma_same_members, rank_less,
    stable_sorted, Ranked,
};
use crate::ordmap::{
    has_rank, keys_ascend, law_stored_reads_back, lemma_slot, lookup, slot, stored,
};
use crate::paths::text_rank;
use crate::text::{dec, lines_of, trimmed};
use vstd::prelude::*;
use vstd::utf8::*;

verus! {

/// The durations of a verb's records, in their order.
pub open spec fn times_for(records: Seq<RecordView>, verb: Seq<char>) -> Seq<u64> {
    records.filter(|r: RecordView| r.verb == verb).map_values(|r: RecordView| r.ms)
}

/// The labels of a verb's refusals, in their order.
pub open spec fn kinds_for(records: Seq<RecordView>, verb: Seq<char>) -> Seq<Seq<char>> {
    records.filter(|r: RecordView| r.verb == verb && r.refusal is Some).map_values(
        |r: RecordView| r.refusal->0,
    )
}

/// How often each key comes.
pub open spec fn counts_of(keys: Seq<Seq<char>>) -> Seq<(Seq<char>, usize)>
    decreases keys.len(),
{
    if keys.len() == 0 {
        seq![]
    } else {
        counted(counts_of(keys.drop_last()), keys.last())
    }
}

/// The sum of some numbers.
pub open spec fn sum_of(s: Seq<nat>) -> nat
    decreases s.len(),
{
    if s.len() == 0 {
        0
    } else {
        sum_of(s.drop_last()) + s.last()
    }
}

/// How often the verbs were run, all together.
pub open spec fn runs_of(verbs: Seq<(Seq<char>, StatsView)>) -> nat {
    sum_of(verbs.map_values(|e: (Seq<char>, StatsView)| e.1.count))
}

proof fn lemma_text_rank(a: Seq<char>, b: Seq<char>)
    ensures
        text_rank(a) == text_rank(b) ==> a == b,
{
    if text_rank(a) == text_rank(b) {
        assert(text_rank(a).list[0] == text_rank(b).list[0]);
        encode_utf8_decode_utf8(a);
        encode_utf8_decode_utf8(b);
    }
}

proof fn lemma_own_lookup<V>(m: Seq<(Seq<char>, V)>, i: int)
    requires
        keys_ascend::<String, V>(m),
        0 <= i < m.len(),
    ensures
        lookup::<String, V>(m, text_rank(m[i].0)) == Some(m[i].1),
{
    let r = text_rank(m[i].0);
    lemma_slot::<String, V>(m, r);
    law_rank_order_is_total(r, r, r);
    let at = slot::<String, V>(m, r) as int;
    assert(String::rank_at(m[i].0) == r);
    assert(has_rank::<String, V>(m, r));
    if at < i {
        assert(rank_less(String::rank_at(m[at].0), String::rank_at(m[i].0)));
    } else if i < at {
        assert(rank_less(String::rank_at(m[i].0), r));
    }
}

/// Two sorted maps that hold the same entries are the same.
proof fn lemma_same_entries<V>(a: Seq<(Seq<char>, V)>, b: Seq<(Seq<char>, V)>)
    requires
        keys_ascend::<String, V>(a),
        keys_ascend::<String, V>(b),
        forall|i: int| 0 <= i < a.len() ==> b.contains(#[trigger] a[i]),
        forall|j: int| 0 <= j < b.len() ==> a.contains(#[trigger] b[j]),
    ensures
        a == b,
    decreases a.len(),
{
    if a.len() == 0 {
        if b.len() > 0 {
            assert(a.contains(b[0]));
        }
        assert(a =~= b);
    } else {
        let n = a.len() - 1;
        assert(b.contains(a[n]));
        let m = b.len() - 1;
        assert(a.contains(b[m]));
        let j = b.index_of(a[n]);
        let i = a.index_of(b[m]);
        let ra = String::rank_at(a[n].0);
        let rb = String::rank_at(b[m].0);
        law_rank_order_is_total(ra, rb, ra);
        law_rank_order_is_total(ra, ra, ra);
        if j < m {
            assert(rank_less(String::rank_at(b[j].0), String::rank_at(b[m].0)));
            if i < n {
                assert(rank_less(String::rank_at(a[i].0), String::rank_at(a[n].0)));
            }
        }
        assert(a[n] == b[m]);
        let ar = a.drop_last();
        let br = b.drop_last();
        assert forall|k: int| 0 <= k < ar.len() implies br.contains(#[trigger] ar[k]) by {
            assert(ar[k] == a[k]);
            assert(b.contains(a[k]));
            let l = b.index_of(a[k]);
            assert(rank_less(String::rank_at(a[k].0), String::rank_at(a[n].0)));
            assert(l != m);
            assert(br[l] == ar[k]);
        }
        assert forall|k: int| 0 <= k < br.len() implies ar.contains(#[trigger] br[k]) by {
            assert(br[k] == b[k]);
            assert(a.contains(b[k]));
            let l = a.index_of(b[k]);
            assert(rank_less(String::rank_at(b[k].0), String::rank_at(b[m].0)));
            assert(l != n);
            assert(ar[l] == br[k]);
        }
        lemma_same_entries(ar, br);
        assert(a =~= ar.push(a[n]));
        assert(b =~= br.push(b[m]));
    }
}

/// An entry of one map is in another that reads the same under its key.
proof fn lemma_entry_is_in<V>(a: Seq<(Seq<char>, V)>, b: Seq<(Seq<char>, V)>, i: int)
    requires
        keys_ascend::<String, V>(a),
        0 <= i < a.len(),
        lookup::<String, V>(b, text_rank(a[i].0)) == lookup::<String, V>(a, text_rank(a[i].0)),
    ensures
        b.contains(a[i]),
{
    lemma_own_lookup(a, i);
    let at = slot::<String, V>(b, text_rank(a[i].0)) as int;
    lemma_text_rank(b[at].0, a[i].0);
    assert(b[at] == a[i]);
}

/// Two sorted maps that read the same under every key are the same.
proof fn lemma_same_lookups<V>(a: Seq<(Seq<char>, V)>, b: Seq<(Seq<char>, V)>)
    requires
        keys_ascend::<String, V>(a),
        keys_ascend::<String, V>(b),
        forall|k: Seq<char>|
            lookup::<String, V>(a, #[trigger] text_rank(k)) == lookup::<String, V>(b, text_rank(k)),
    ensures
        a == b,
{
    assert forall|i: int| 0 <= i < a.len() implies b.contains(#[trigger] a[i]) by {
        assert(lookup::<String, V>(a, text_rank(a[i].0)) == lookup::<String, V>(
            b,
            text_rank(a[i].0),
        ));
        lemma_entry_is_in(a, b, i);
    }
    assert forall|j: int| 0 <= j < b.len() implies a.contains(#[trigger] b[j]) by {
        assert(lookup::<String, V>(a, text_rank(b[j].0)) == lookup::<String, V>(
            b,
            text_rank(b[j].0),
        ));
        lemma_entry_is_in(b, a, j);
    }
    lemma_same_entries(a, b);
}

/// A count is how often its key comes.
pub proof fn lemma_counts_of(keys: Seq<Seq<char>>, k: Seq<char>)
    requires
        keys.len() <= usize::MAX,
    ensures
        keys_ascend::<String, usize>(counts_of(keys)),
        keys.to_multiset().count(k) <= keys.len(),
        lookup::<String, usize>(counts_of(keys), text_rank(k)) == if keys.to_multiset().count(k)
            == 0 {
            None
        } else {
            Some(keys.to_multiset().count(k) as usize)
        },
    decreases keys.len(),
{
    broadcast use vstd::seq_lib::group_to_multiset_ensures;

    if keys.len() > 0 {
        let rest = keys.drop_last();
        let x = keys.last();
        lemma_counts_of(rest, k);
        lemma_counts_of(rest, x);
        lemma_text_rank(k, x);
        assert(keys =~= rest.push(x));
        let n = match lookup::<String, usize>(counts_of(rest), text_rank(x)) {
            Some(n) => n,
            None => 0,
        };
        law_stored_reads_back::<String, usize>(
            counts_of(rest),
            x,
            (n + 1) as usize,
            text_rank(k),
        );
    } else {
        lemma_slot::<String, usize>(counts_of(keys), text_rank(k));
    }
}

proof fn lemma_same_counts(a: Seq<Seq<char>>, b: Seq<Seq<char>>)
    requires
        a.to_multiset() == b.to_multiset(),
        a.len() <= usize::MAX,
    ensures
        counts_of(a) == counts_of(b),
{
    broadcast use vstd::seq_lib::group_to_multiset_ensures;

    assert(a.to_multiset().len() == a.len());
    assert(b.to_multiset().len() == b.len());
    lemma_counts_of(a, seq![]);
    lemma_counts_of(b, seq![]);
    assert forall|k: Seq<char>|
        lookup::<String, usize>(counts_of(a), #[trigger] text_rank(k)) == lookup::<String, usize>(
            counts_of(b),
            text_rank(k),
        ) by {
        lemma_counts_of(a, k);
        lemma_counts_of(b, k);
    }
    lemma_same_lookups(counts_of(a), counts_of(b));
}

proof fn lemma_sum_without(s: Seq<nat>, k: int)
    requires
        0 <= k < s.len(),
    ensures
        sum_of(s) == sum_of(s.remove(k)) + s[k],
    decreases s.len(),
{
    if k < s.len() - 1 {
        let rest = s.drop_last();
        lemma_sum_without(rest, k);
        assert(s.remove(k).drop_last() =~= rest.remove(k));
        assert(s.remove(k).last() == s.last());
    } else {
        assert(s.remove(k) =~= s.drop_last());
    }
}

proof fn lemma_same_sum(a: Seq<nat>, b: Seq<nat>)
    requires
        a.to_multiset() == b.to_multiset(),
    ensures
        sum_of(a) == sum_of(b),
    decreases a.len(),
{
    broadcast use vstd::seq_lib::group_to_multiset_ensures;

    assert(a.to_multiset().len() == a.len());
    assert(b.to_multiset().len() == b.len());
    if a.len() > 0 {
        let x = a.last();
        assert(a.contains(a[a.len() - 1]));
        lemma_same_members(a, b, x);
        let k = b.index_of(x);
        assert(a =~= a.drop_last().push(x));
        assert(a.drop_last().to_multiset() =~= a.to_multiset().remove(x));
        assert(b.remove(k).to_multiset() =~= b.to_multiset().remove(x));
        lemma_same_sum(a.drop_last(), b.remove(k));
        lemma_sum_without(b, k);
    }
}

/// A filter of one more item.
proof fn lemma_filter_push<A>(s: Seq<A>, x: A, keep: spec_fn(A) -> bool)
    ensures
        s.push(x).filter(keep) == if keep(x) {
            s.filter(keep).push(x)
        } else {
            s.filter(keep)
        },
{
    reveal(Seq::filter);
    assert(s.push(x).drop_last() =~= s);
}

proof fn lemma_lists_push(rs: Seq<RecordView>, x: RecordView, v: Seq<char>)
    ensures
        times_for(rs.push(x), v) == if x.verb == v {
            times_for(rs, v).push(x.ms)
        } else {
            times_for(rs, v)
        },
        kinds_for(rs.push(x), v) == if x.verb == v && x.refusal is Some {
            kinds_for(rs, v).push(x.refusal->0)
        } else {
            kinds_for(rs, v)
        },
{
    lemma_filter_push(rs, x, |r: RecordView| r.verb == v);
    lemma_filter_push(rs, x, |r: RecordView| r.verb == v && r.refusal is Some);
    assert(times_for(rs.push(x), v) =~= if x.verb == v {
        times_for(rs, v).push(x.ms)
    } else {
        times_for(rs, v)
    });
    assert(kinds_for(rs.push(x), v) =~= if x.verb == v && x.refusal is Some {
        kinds_for(rs, v).push(x.refusal->0)
    } else {
        kinds_for(rs, v)
    });
}

/// What is collected under a verb.
proof fn lemma_tally_lists(records: Seq<RecordView>, n: nat, history: bool, v: Seq<char>)
    requires
        n <= records.len(),
    ensures
        ({
            let t = tally_of(records, n, history);
            let times = times_for(records.take(n as int), v);
            let kinds = kinds_for(records.take(n as int), v);
            &&& keys_ascend::<String, Seq<u64>>(t.ms)
            &&& keys_ascend::<String, Seq<(Seq<char>, usize)>>(t.refusals)
            &&& lookup::<String, Seq<u64>>(t.ms, text_rank(v)) == if times.len() == 0 {
                None
            } else {
                Some(times)
            }
            &&& lookup::<String, Seq<(Seq<char>, usize)>>(t.refusals, text_rank(v)) == if kinds.len()
                == 0 {
                None
            } else {
                Some(counts_of(kinds))
            }
        }),
    decreases n,
{
    let rs = records.take(n as int);
    if n == 0 {
        reveal(Seq::filter);
        assert(rs =~= Seq::<RecordView>::empty());
        assert(times_for(rs, v) =~= Seq::<u64>::empty());
        assert(kinds_for(rs, v) =~= Seq::<Seq<char>>::empty());
    } else {
        let before = records.take(n - 1);
        let x = records[n - 1];
        let t = tally_of(records, (n - 1) as nat, history);
        assert(rs =~= before.push(x));
        lemma_tally_lists(records, (n - 1) as nat, history, v);
        lemma_tally_lists(records, (n - 1) as nat, history, x.verb);
        lemma_lists_push(before, x, v);
        lemma_text_rank(v, x.verb);
        let times = match lookup::<String, Seq<u64>>(t.ms, text_rank(x.verb)) {
            Some(list) => list,
            None => seq![],
        };
        assert(times =~= times_for(before, x.verb));
        law_stored_reads_back::<String, Seq<u64>>(
            t.ms,
            x.verb,
            times.push(x.ms),
            text_rank(v),
        );
        if x.refusal is Some {
            let counts = match lookup::<String, Seq<(Seq<char>, usize)>>(
                t.refusals,
                text_rank(x.verb),
            ) {
                Some(counts) => counts,
                None => seq![],
            };
            let kinds = kinds_for(before, x.verb);
            assert(counts =~= counts_of(kinds));
            assert(kinds.push(x.refusal->0).drop_last() =~= kinds);
            law_stored_reads_back::<String, Seq<(Seq<char>, usize)>>(
                t.refusals,
                x.verb,
                counted(counts, x.refusal->0),
                text_rank(v),
            );
        }
    }
}

/// What is collected over all verbs.
proof fn lemma_tally_sums(records: Seq<RecordView>, n: nat, history: bool)
    requires
        n <= records.len(),
    ensures
        ({
            let t = tally_of(records, n, history);
            let rs = records.take(n as int);
            &&& t.history == if history {
                counts_of(rs.map_values(|r: RecordView| r.date))
            } else {
                seq![]
            }
            &&& t.saved == sum_of(rs.map_values(|r: RecordView| saved_by(r)))
            &&& t.naive == sum_of(rs.map_values(|r: RecordView| naive_of(r)))
            &&& t.calls == rs.filter(|r: RecordView| is_read_call(r)).len()
        }),
    decreases n,
{
    let rs = records.take(n as int);
    let date = |r: RecordView| r.date;
    let saved = |r: RecordView| saved_by(r);
    let naive = |r: RecordView| naive_of(r);
    if n == 0 {
        reveal(Seq::filter);
        assert(rs =~= Seq::<RecordView>::empty());
    } else {
        let before = records.take(n - 1);
        let x = records[n - 1];
        assert(rs =~= before.push(x));
        lemma_tally_sums(records, (n - 1) as nat, history);
        lemma_filter_push(before, x, |r: RecordView| is_read_call(r));
        assert(rs.map_values(date).drop_last() =~= before.map_values(date));
        assert(rs.map_values(saved).drop_last() =~= before.map_values(saved));
        assert(rs.map_values(naive).drop_last() =~= before.map_values(naive));
    }
}

/// The statistics under one verb.
spec fn stats_at(
    ms: Seq<(Seq<char>, Seq<u64>)>,
    refusals: Seq<(Seq<char>, Seq<(Seq<char>, usize)>)>,
    i: int,
) -> StatsView {
    stats_of(
        ms[i].1,
        lookup::<String, Seq<(Seq<char>, usize)>>(refusals, text_rank(ms[i].0)),
    )
}

/// The statistics stand in the order of the verbs.
proof fn lemma_stats(
    ms: Seq<(Seq<char>, Seq<u64>)>,
    refusals: Seq<(Seq<char>, Seq<(Seq<char>, usize)>)>,
    i: int,
    done: Seq<(Seq<char>, StatsView)>,
)
    requires
        keys_ascend::<String, Seq<u64>>(ms),
        0 <= i <= ms.len(),
        done.len() == i,
        forall|j: int|
            0 <= j < i ==> #[trigger] done[j] == (ms[j].0, stats_at(ms, refusals, j)),
    ensures
        stats_from(ms, refusals, i, done).len() == ms.len(),
        forall|j: int|
            0 <= j < ms.len() ==> #[trigger] stats_from(ms, refusals, i, done)[j] == (
                ms[j].0,
                stats_at(ms, refusals, j),
            ),
        keys_ascend::<String, StatsView>(stats_from(ms, refusals, i, done)),
    decreases ms.len() - i,
{
    if i < ms.len() {
        let stats = stats_at(ms, refusals, i);
        if i > 0 {
            assert(done.last() == done[i - 1]);
            assert(rank_less(String::rank_at(ms[i - 1].0), String::rank_at(ms[i].0)));
        }
        assert(slot::<String, StatsView>(done, text_rank(ms[i].0)) == i);
        let next = stored::<String, StatsView>(done, ms[i].0, stats);
        assert(next =~= done.push((ms[i].0, stats)));
        lemma_stats(ms, refusals, i + 1, next);
    } else {
        assert forall|p: int, q: int| 0 <= p < q < done.len() implies rank_less(
            String::rank_at((#[trigger] done[p]).0),
            String::rank_at((#[trigger] done[q]).0),
        ) by {
            assert(rank_less(String::rank_at(ms[p].0), String::rank_at(ms[q].0)));
        }
    }
}

proof fn lemma_same_stats(
    a: Seq<RecordView>,
    b: Seq<RecordView>,
    history: bool,
    i: int,
)
    requires
        a.to_multiset() == b.to_multiset(),
        a.len() <= usize::MAX,
        0 <= i < gain_of(a, history).verbs.len(),
    ensures
        gain_of(b, history).verbs.contains(gain_of(a, history).verbs[i]),
{
    broadcast use vstd::seq_lib::group_to_multiset_ensures;

    assert(a.to_multiset().len() == a.len());
    assert(b.to_multiset().len() == b.len());
    let ta = tally_of(a, a.len(), history);
    let tb = tally_of(b, b.len(), history);
    assert(a.take(a.len() as int) =~= a);
    assert(b.take(b.len() as int) =~= b);
    lemma_tally_lists(a, a.len(), history, seq![]);
    lemma_tally_lists(b, b.len(), history, seq![]);
    lemma_stats(ta.ms, ta.refusals, 0, seq![]);
    lemma_stats(tb.ms, tb.refusals, 0, seq![]);
    let verb = ta.ms[i].0;
    lemma_tally_lists(a, a.len(), history, verb);
    lemma_tally_lists(b, b.len(), history, verb);
    lemma_own_lookup(ta.ms, i);
    let of_verb = |r: RecordView| r.verb == verb;
    let refused = |r: RecordView| r.verb == verb && r.refusal is Some;
    lemma_same_filtered(a, b, of_verb);
    lemma_same_images(a.filter(of_verb), b.filter(of_verb), |r: RecordView| r.ms);
    lemma_same_filtered(a, b, refused);
    lemma_same_images(a.filter(refused), b.filter(refused), |r: RecordView| r.refusal->0);
    let (xa, xb) = (times_for(a, verb), times_for(b, verb));
    let (ka, kb) = (kinds_for(a, verb), kinds_for(b, verb));
    assert(xa.to_multiset().len() == xa.len());
    assert(xb.to_multiset().len() == xb.len());
    assert(ka.to_multiset().len() == ka.len());
    assert(kb.to_multiset().len() == kb.len());
    a.lemma_filter_len(refused);
    lemma_same_counts(ka, kb);
    law_sorting_forgets_the_order::<u64>(xa, xb);
    let j = slot::<String, Seq<u64>>(tb.ms, text_rank(verb)) as int;
    lemma_text_rank(tb.ms[j].0, verb);
    assert(tb.ms[j] == (verb, xb));
    assert(gain_of(b, history).verbs[j] == gain_of(a, history).verbs[i]);
}

/// The order of the records does not matter: the same records in any order, of whichever
/// files in whichever order, give the same report in every part of it.
pub proof fn law_the_order_of_records_does_not_matter(
    a: Seq<RecordView>,
    b: Seq<RecordView>,
    history: bool,
)
    requires
        a.to_multiset() == b.to_multiset(),
        a.len() <= usize::MAX,
    ensures
        gain_of(a, history) == gain_of(b, history),
{
    broadcast use vstd::seq_lib::group_to_multiset_ensures;

    assert(a.to_multiset().len() == a.len());
    assert(b.to_multiset().len() == b.len());
    let ta = tally_of(a, a.len(), history);
    let tb = tally_of(b, b.len(), history);
    let va = gain_of(a, history).verbs;
    let vb = gain_of(b, history).verbs;
    lemma_tally_lists(a, a.len(), history, seq![]);
    lemma_tally_lists(b, b.len(), history, seq![]);
    lemma_stats(ta.ms, ta.refusals, 0, seq![]);
    lemma_stats(tb.ms, tb.refusals, 0, seq![]);
    assert forall|i: int| 0 <= i < va.len() implies vb.contains(#[trigger] va[i]) by {
        lemma_same_stats(a, b, history, i);
    }
    assert forall|j: int| 0 <= j < vb.len() implies va.contains(#[trigger] vb[j]) by {
        lemma_same_stats(b, a, history, j);
    }
    lemma_same_entries(va, vb);
    assert(a.take(a.len() as int) =~= a);
    assert(b.take(b.len() as int) =~= b);
    lemma_tally_sums(a, a.len(), history);
    lemma_tally_sums(b, b.len(), history);
    let read = |r: RecordView| is_read_call(r);
    let date = |r: RecordView| r.date;
    let saved = |r: RecordView| saved_by(r);
    let naive = |r: RecordView| naive_of(r);
    lemma_same_filtered(a, b, read);
    assert(a.filter(read).to_multiset().len() == a.filter(read).len());
    assert(b.filter(read).to_multiset().len() == b.filter(read).len());
    lemma_same_images(a, b, date);
    lemma_same_counts(a.map_values(date), b.map_values(date));
    lemma_same_images(a, b, saved);
    lemma_same_sum(a.map_values(saved), b.map_values(saved));
    lemma_same_images(a, b, naive);
    lemma_same_sum(a.map_values(naive), b.map_values(naive));
}

/// How many durations are collected, all together.
spec fn times_total(ms: Seq<(Seq<char>, Seq<u64>)>) -> nat {
    sum_of(ms.map_values(|e: (Seq<char>, Seq<u64>)| e.1.len()))
}

proof fn lemma_times_total(records: Seq<RecordView>, n: nat, history: bool)
    requires
        n <= records.len(),
    ensures
        times_total(tally_of(records, n, history).ms) == n,
    decreases n,
{
    let len = |e: (Seq<char>, Seq<u64>)| e.1.len();
    if n > 0 {
        let t = tally_of(records, (n - 1) as nat, history);
        let x = records[n - 1];
        lemma_times_total(records, (n - 1) as nat, history);
        lemma_tally_lists(records, (n - 1) as nat, history, x.verb);
        lemma_slot::<String, Seq<u64>>(t.ms, text_rank(x.verb));
        let at = slot::<String, Seq<u64>>(t.ms, text_rank(x.verb)) as int;
        let now = tally_of(records, n, history).ms;
        if now.len() == t.ms.len() {
            assert(now.map_values(len).remove(at) =~= t.ms.map_values(len).remove(at));
            lemma_sum_without(t.ms.map_values(len), at);
        } else {
            assert(now.map_values(len).remove(at) =~= t.ms.map_values(len));
        }
        lemma_sum_without(now.map_values(len), at);
    }
}

/// Every record is counted once, under its verb; without records the report is empty; and
/// there is a history exactly when one is asked for.
pub proof fn law_every_record_is_counted_once(records: Seq<RecordView>, history: bool)
    ensures
        runs_of(gain_of(records, history).verbs) == records.len(),
        gain_of(records, history).history is Some <==> history,
        records.len() == 0 ==> {
            let g = gain_of(records, history);
            g.verbs.len() == 0 && g.saved == 0 && g.naive == 0 && g.calls == 0
        },
{
    let t = tally_of(records, records.len(), history);
    lemma_times_total(records, records.len(), history);
    lemma_tally_lists(records, records.len(), history, seq![]);
    lemma_stats(t.ms, t.refusals, 0, seq![]);
    let verbs = gain_of(records, history).verbs;
    assert(verbs.map_values(|e: (Seq<char>, StatsView)| e.1.count) =~= t.ms.map_values(
        |e: (Seq<char>, Seq<u64>)| e.1.len(),
    ));
}

/// Whether a line of a metrics file holds anything.
pub open spec fn is_record_line(line: Seq<char>) -> bool {
    trimmed(line).len() > 0
}

proof fn lemma_record_lines(lines: Seq<Seq<char>>, i: int, done: Seq<Seq<char>>)
    requires
        0 <= i <= lines.len(),
        done == lines.take(i).filter(|l: Seq<char>| is_record_line(l)).map_values(
            |l: Seq<char>| trimmed(l),
        ),
    ensures
        record_lines_from(lines, i, done) == lines.filter(
            |l: Seq<char>| is_record_line(l),
        ).map_values(|l: Seq<char>| trimmed(l)),
    decreases lines.len() - i,
{
    let keep = |l: Seq<char>| is_record_line(l);
    let trim = |l: Seq<char>| trimmed(l);
    if i < lines.len() {
        assert(lines.take(i + 1) =~= lines.take(i).push(lines[i]));
        lemma_filter_push(lines.take(i), lines[i], keep);
        let next = lines.take(i + 1).filter(keep).map_values(trim);
        if keep(lines[i]) {
            assert(next =~= done.push(trimmed(lines[i])));
        }
        lemma_record_lines(lines, i + 1, next);
    } else {
        assert(lines.take(i) =~= lines);
    }
}

/// Neither the order of the lines of a metrics file nor its blank lines matter: files with the
/// same lines but for those hold the same records' lines.
pub proof fn law_line_order_and_blank_lines_do_not_matter(a: Seq<char>, b: Seq<char>)
    requires
        lines_of(a).filter(|l: Seq<char>| is_record_line(l)).to_multiset() == lines_of(b).filter(
            |l: Seq<char>| is_record_line(l),
        ).to_multiset(),
    ensures
        record_lines(a).to_multiset() == record_lines(b).to_multiset(),
{
    let keep = |l: Seq<char>| is_record_line(l);
    let trim = |l: Seq<char>| trimmed(l);
    reveal(Seq::filter);
    let none = Seq::<Seq<char>>::empty();
    assert(lines_of(a).take(0).filter(keep).map_values(trim) =~= none);
    assert(lines_of(b).take(0).filter(keep).map_values(trim) =~= none);
    lemma_record_lines(lines_of(a), 0, none);
    lemma_record_lines(lines_of(b), 0, none);
    lemma_same_images(lines_of(a).filter(keep), lines_of(b).filter(keep), trim);
}

/// Whether `v` is a percentile of some durations: one of them, with at least `p` of a hundred
/// at most as long, and with fewer than `p` of a hundred shorter.
pub open spec fn is_percentile(times: Seq<u64>, p: u64, v: u64) -> bool {
    &&& times.contains(v)
    &&& 100 * times.filter(|t: u64| t <= v).len() >= p * times.len()
    &&& 100 * times.filter(|t: u64| t < v).len() < p * times.len()
}

/// An item of an ascending sequence has those up to it at most as large, and only those
/// before it smaller.
proof fn lemma_ascending_counts(s: Seq<u64>, k: int)
    requires
        0 <= k < s.len(),
        forall|i: int, j: int| 0 <= i < j < s.len() ==> s[i] <= s[j],
    ensures
        s.filter(|t: u64| t <= s[k]).len() > k,
        s.filter(|t: u64| t < s[k]).len() <= k,
{
    let v = s[k];
    let upto = |t: u64| t <= v;
    let below = |t: u64| t < v;
    let head = s.take(k + 1);
    let tail = s.skip(k + 1);
    assert(s =~= head + tail);
    lemma_filter_all(head, upto);
    Seq::filter_distributes_over_add(head, tail, upto);
    let first = s.take(k);
    let rest = s.skip(k);
    assert(s =~= first + rest);
    Seq::filter_distributes_over_add(first, rest, below);
    first.lemma_filter_len(below);
    lemma_filter_none(rest, below);
}

proof fn lemma_filter_all(s: Seq<u64>, keep: spec_fn(u64) -> bool)
    requires
        forall|i: int| 0 <= i < s.len() ==> keep(#[trigger] s[i]),
    ensures
        s.filter(keep).len() == s.len(),
    decreases s.len(),
{
    reveal(Seq::filter);
    if s.len() > 0 {
        assert(keep(s[s.len() - 1]));
        lemma_filter_all(s.drop_last(), keep);
    }
}

proof fn lemma_filter_none(s: Seq<u64>, keep: spec_fn(u64) -> bool)
    requires
        forall|i: int| 0 <= i < s.len() ==> !keep(#[trigger] s[i]),
    ensures
        s.filter(keep).len() == 0,
    decreases s.len(),
{
    reveal(Seq::filter);
    if s.len() > 0 {
        assert(!keep(s[s.len() - 1]));
        lemma_filter_none(s.drop_last(), keep);
    }
}

/// The percentile of some durations, in whatever order they come, is one.
pub proof fn law_a_percentile_has_its_share_below(times: Seq<u64>, p: u64)
    requires
        times.len() > 0,
        1 <= p <= 100,
    ensures
        is_percentile(times, p, percentile(stable_sorted::<u64>(times), p)),
{
    broadcast use vstd::seq_lib::group_to_multiset_ensures;

    let sorted = stable_sorted::<u64>(times);
    law_stable_sort_orders_and_keeps_items::<u64>(times);
    assert forall|i: int, j: int| 0 <= i < j < sorted.len() implies sorted[i] <= sorted[j] by {
        assert(!rank_less(u64::rank_at(sorted[j]), u64::rank_at(sorted[i])));
    }
    let n = times.len() as int;
    let k = nearest_rank(p, sorted.len()) - 1;
    let v = sorted[k];
    assert(1 <= p * n <= 100 * n) by (nonlinear_arith)
        requires
            1 <= p <= 100,
            n >= 1,
    ;
    lemma_ascending_counts(sorted, k);
    lemma_same_members(sorted, times, v);
    assert(sorted.contains(sorted[k]));
    let upto = |t: u64| t <= v;
    let below = |t: u64| t < v;
    lemma_same_filtered(sorted, times, upto);
    lemma_same_filtered(sorted, times, below);
    assert(sorted.filter(upto).to_multiset().len() == sorted.filter(upto).len());
    assert(times.filter(upto).to_multiset().len() == times.filter(upto).len());
    assert(sorted.filter(below).to_multiset().len() == sorted.filter(below).len());
    assert(times.filter(below).to_multiset().len() == times.filter(below).len());
}

/// Every verb has the statistics of its own records and of no others: it is in the report
/// exactly when it was run; it is counted once for each of its records; its median and its
/// 95th percentile are those of its records' durations; and each kind of refusal is counted
/// once for each of its records that was refused so.
pub proof fn law_every_verb_has_its_own_statistics(
    records: Seq<RecordView>,
    history: bool,
    verb: Seq<char>,
    kind: Seq<char>,
)
    requires
        records.len() <= usize::MAX,
    ensures
        ({
            let verbs = gain_of(records, history).verbs;
            let times = times_for(records, verb);
            let refused = kinds_for(records, verb).to_multiset().count(kind);
            &&& keys_ascend::<String, StatsView>(verbs)
            &&& match lookup::<String, StatsView>(verbs, text_rank(verb)) {
                None => times.len() == 0,
                Some(s) => {
                    &&& times.len() > 0
                    &&& s.count == times.len()
                    &&& is_percentile(times, 50, s.p50_ms)
                    &&& is_percentile(times, 95, s.p95_ms)
                    &&& lookup::<String, usize>(s.refusals, text_rank(kind)) == if refused == 0 {
                        None
                    } else {
                        Some(refused as usize)
                    }
                },
            }
        }),
{
    broadcast use vstd::seq_lib::group_to_multiset_ensures;

    let t = tally_of(records, records.len(), history);
    let verbs = gain_of(records, history).verbs;
    let times = times_for(records, verb);
    let kinds = kinds_for(records, verb);
    assert(records.take(records.len() as int) =~= records);
    lemma_tally_lists(records, records.len(), history, verb);
    lemma_stats(t.ms, t.refusals, 0, seq![]);
    let r = text_rank(verb);
    lemma_slot::<String, StatsView>(verbs, r);
    lemma_slot::<String, Seq<u64>>(t.ms, r);
    records.lemma_filter_len(|x: RecordView| x.verb == verb && x.refusal is Some);
    if times.len() > 0 {
        let i = slot::<String, Seq<u64>>(t.ms, r) as int;
        lemma_text_rank(t.ms[i].0, verb);
        assert(verbs[i] == (verb, stats_at(t.ms, t.refusals, i)));
        lemma_own_lookup(verbs, i);
        law_a_percentile_has_its_share_below(times, 50);
        law_a_percentile_has_its_share_below(times, 95);
        lemma_counts_of(kinds, kind);
        if kinds.len() == 0 {
            assert(kinds =~= Seq::<Seq<char>>::empty());
            assert(counts_of(kinds) =~= Seq::<(Seq<char>, usize)>::empty());
        }
    } else if has_rank::<String, StatsView>(verbs, r) {
        let i = slot::<String, StatsView>(verbs, r) as int;
        assert(verbs[i].0 == t.ms[i].0);
        assert(has_rank::<String, Seq<u64>>(t.ms, r));
    }
}

/// What is saved is summed over every record that has both sides of the comparison, each
/// with what it saved and never less than nothing; and each such record is one call.
pub proof fn law_savings_are_summed_over_every_record(records: Seq<RecordView>, history: bool)
    ensures
        ({
            let g = gain_of(records, history);
            let read = records.filter(
                |r: RecordView| r.bytes_out is Some && r.naive_bytes is Some,
            );
            &&& g.calls == read.len()
            &&& g.naive == sum_of(read.map_values(|r: RecordView| r.naive_bytes->0 as nat))
            &&& g.saved == sum_of(
                read.map_values(
                    |r: RecordView|
                        if r.naive_bytes->0 >= r.bytes_out->0 {
                            (r.naive_bytes->0 - r.bytes_out->0) as nat
                        } else {
                            0nat
                        },
                ),
            )
        }),
{
    assert(records.take(records.len() as int) =~= records);
    lemma_tally_sums(records, records.len(), history);
    let both = |r: RecordView| r.bytes_out is Some && r.naive_bytes is Some;
    let naive = |r: RecordView| naive_of(r);
    let saved = |r: RecordView| saved_by(r);
    let read = records.filter(both);
    assert(records.filter(|r: RecordView| is_read_call(r)) == read) by {
        lemma_same_filter(records, |r: RecordView| is_read_call(r), both);
    }
    lemma_sum_of_some(records, both, naive);
    lemma_sum_of_some(records, both, saved);
    let naives = read.map_values(|r: RecordView| r.naive_bytes->0 as nat);
    let saves = read.map_values(
        |r: RecordView|
            if r.naive_bytes->0 >= r.bytes_out->0 {
                (r.naive_bytes->0 - r.bytes_out->0) as nat
            } else {
                0nat
            },
    );
    lemma_filter_members(records, both);
    assert forall|i: int| 0 <= i < read.len() implies both(#[trigger] read[i]) by {
        assert(read.contains(read[i]));
    }
    assert(naives =~= read.map_values(naive));
    assert(saves =~= read.map_values(saved));
}

proof fn lemma_same_filter(
    s: Seq<RecordView>,
    a: spec_fn(RecordView) -> bool,
    b: spec_fn(RecordView) -> bool,
)
    requires
        forall|r: RecordView| #[trigger] a(r) == b(r),
    ensures
        s.filter(a) == s.filter(b),
    decreases s.len(),
{
    reveal(Seq::filter);
    if s.len() > 0 {
        lemma_same_filter(s.drop_last(), a, b);
        assert(a(s.last()) == b(s.last()));
    }
}

/// What is nothing for all others sums to the same over some.
proof fn lemma_sum_of_some(
    s: Seq<RecordView>,
    keep: spec_fn(RecordView) -> bool,
    f: spec_fn(RecordView) -> nat,
)
    requires
        forall|r: RecordView| !keep(r) ==> #[trigger] f(r) == 0,
    ensures
        sum_of(s.map_values(f)) == sum_of(s.filter(keep).map_values(f)),
    decreases s.len(),
{
    reveal(Seq::filter);
    if s.len() > 0 {
        let rest = s.drop_last();
        lemma_sum_of_some(rest, keep, f);
        assert(s.map_values(f).drop_last() =~= rest.map_values(f));
        assert(s.map_values(f).last() == f(s.last()));
        if keep(s.last()) {
            let kept = rest.filter(keep);
            assert(s.filter(keep) == kept.push(s.last()));
            assert(kept.push(s.last()).map_values(f).drop_last() =~= kept.map_values(f));
        }
    }
}

/// The history has every day with records, and counts each record once under its day.
pub proof fn law_every_record_is_counted_under_its_day(
    records: Seq<RecordView>,
    day: Seq<char>,
)
    requires
        records.len() <= usize::MAX,
    ensures
        ({
            let days = gain_of(records, true).history->0;
            let n = records.map_values(|r: RecordView| r.date).to_multiset().count(day);
            &&& gain_of(records, true).history is Some
            &&& keys_ascend::<String, usize>(days)
            &&& lookup::<String, usize>(days, text_rank(day)) == if n == 0 {
                None
            } else {
                Some(n as usize)
            }
        }),
{
    assert(records.take(records.len() as int) =~= records);
    lemma_tally_sums(records, records.len(), true);
    lemma_counts_of(records.map_values(|r: RecordView| r.date), day);
}

/// The table has the rows of every verb in order, the history the row of every day, and the
/// refusals of a verb are summed over every kind.
pub proof fn law_the_table_shows_every_verb_and_every_day(
    verbs: Seq<(Seq<char>, StatsView)>,
    days: Seq<(Seq<char>, usize)>,
)
    ensures
        all_verb_rows(verbs, verbs.len()) == verbs.map_values(
            |v: (Seq<char>, StatsView)| verb_rows(v.0, v.1),
        ).flatten(),
        day_rows(days, days.len()) == days.map_values(
            |d: (Seq<char>, usize)| "  "@ + d.0 + ": "@ + dec(d.1 as nat) + "\n"@,
        ).flatten(),
        count_sum(days, days.len()) == sum_of(
            days.map_values(|d: (Seq<char>, usize)| d.1 as nat),
        ),
{
    lemma_verb_rows(verbs, verbs.len());
    lemma_day_rows(days, days.len());
    assert(verbs.take(verbs.len() as int) =~= verbs);
    assert(days.take(days.len() as int) =~= days);
}

proof fn lemma_verb_rows(verbs: Seq<(Seq<char>, StatsView)>, n: nat)
    requires
        n <= verbs.len(),
    ensures
        all_verb_rows(verbs, n) == verbs.take(n as int).map_values(
            |v: (Seq<char>, StatsView)| verb_rows(v.0, v.1),
        ).flatten(),
    decreases n,
{
    let f = |v: (Seq<char>, StatsView)| verb_rows(v.0, v.1);
    let all = verbs.take(n as int).map_values(f);
    all.lemma_flatten_and_flatten_alt_are_equivalent();
    if n > 0 {
        lemma_verb_rows(verbs, (n - 1) as nat);
        let before = verbs.take(n - 1).map_values(f);
        before.lemma_flatten_and_flatten_alt_are_equivalent();
        assert(all.drop_last() =~= before);
    }
}

proof fn lemma_day_rows(days: Seq<(Seq<char>, usize)>, n: nat)
    requires
        n <= days.len(),
    ensures
        day_rows(days, n) == days.take(n as int).map_values(
            |d: (Seq<char>, usize)| "  "@ + d.0 + ": "@ + dec(d.1 as nat) + "\n"@,
        ).flatten(),
        count_sum(days, n) == sum_of(
            days.take(n as int).map_values(|d: (Seq<char>, usize)| d.1 as nat),
        ),
    decreases n,
{
    let f = |d: (Seq<char>, usize)| "  "@ + d.0 + ": "@ + dec(d.1 as nat) + "\n"@;
    let g = |d: (Seq<char>, usize)| d.1 as nat;
    let all = days.take(n as int).map_values(f);
    let counts = days.take(n as int).map_values(g);
    all.lemma_flatten_and_flatten_alt_are_equivalent();
    if n > 0 {
        lemma_day_rows(days, (n - 1) as nat);
        let before = days.take(n - 1).map_values(f);
        before.lemma_flatten_and_flatten_alt_are_equivalent();
        assert(all.drop_last() =~= before);
        assert(counts.drop_last() =~= days.take(n - 1).map_values(g));
        assert(day_rows(days, n) =~= before.flatten() + f(days[n - 1]));
    }
}

/// Every line of a metrics file that holds anything is read, in order and without the white
/// space around it.
pub proof fn law_every_line_that_holds_anything_is_read(text: Seq<char>)
    ensures
        record_lines(text) == lines_of(text).filter(
            |l: Seq<char>| trimmed(l).len() > 0,
        ).map_values(|l: Seq<char>| trimmed(l)),
{
    reveal(Seq::filter);
    let none = Seq::<Seq<char>>::empty();
    let keep = |l: Seq<char>| is_record_line(l);
    let said = |l: Seq<char>| trimmed(l).len() > 0;
    assert(lines_of(text).take(0).filter(keep).map_values(|l: Seq<char>| trimmed(l)) =~= none);
    lemma_record_lines(lines_of(text), 0, none);
    lemma_same_lines(lines_of(text), keep, said);
}

proof fn lemma_same_lines(
    s: Seq<Seq<char>>,
    a: spec_fn(Seq<char>) -> bool,
    b: spec_fn(Seq<char>) -> bool,
)
    requires
        forall|l: Seq<char>| #[trigger] a(l) == b(l),
    ensures
        s.filter(a) == s.filter(b),
    decreases s.len(),
{
    reveal(Seq::filter);
    if s.len() > 0 {
        lemma_same_lines(s.drop_last(), a, b);
        assert(a(s.last()) == b(s.last()));
    }
}

} // verus!
