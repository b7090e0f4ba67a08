//! Usage metrics: what one invocation records, and the gain report over all of them.

use crate::errors::opt_text;
use crate::json::{
    counts_object, field_of, law_a_field_is_found_under_its_key, no_fields, Json, JsonView,
};
use crate::order::{stable_sort, stable_sorted, views};
use crate::ordmap::{has_rank, keys_ascend, lemma_slot, lookup, slot, stored, OrdMap};
use crate::paths::{extension, has_extension, split_name, stem, text_rank};
use crate::strings::{join, joined_with};
use crate::text::{
    dec, dec_text, lines_of, push_dec, same_bytes, split_lines, trim, trimmed, utf8_text,
};
use vstd::prelude::*;
use vstd::string::*;
use vstd::utf8::*;

verus! {

/// What is recorded of one invocation.
#[derive(Debug, Clone)]
pub struct MetricEvent {
    pub verb: String,
    pub ms: u64,
    pub files: usize,
    pub edits: usize,
    pub refusal: Option<String>,
    pub epoch8: String,
    /// What a reading verb printed, in bytes; none for other verbs.
    pub bytes_out: Option<u64>,
    /// What reading the same files whole would have cost; none for other verbs.
    pub naive_bytes: Option<u64>,
}

/// What the gain report uses of one recorded invocation, with the day it was recorded on.
#[derive(Debug, Clone)]
pub struct MetricRecord {
    pub date: String,
    pub verb: String,
    pub ms: u64,
    pub refusal: Option<String>,
    pub bytes_out: Option<u64>,
    pub naive_bytes: Option<u64>,
}

/// What a [`MetricRecord`] says.
pub struct RecordView {
    pub date: Seq<char>,
    pub verb: Seq<char>,
    pub ms: u64,
    pub refusal: Option<Seq<char>>,
    pub bytes_out: Option<u64>,
    pub naive_bytes: Option<u64>,
}

impl View for MetricRecord {
    type V = RecordView;

    open spec fn view(&self) -> RecordView {
        RecordView {
            date: self.date@,
            verb: self.verb@,
            ms: self.ms,
            refusal: opt_text(self.refusal),
            bytes_out: self.bytes_out,
            naive_bytes: self.naive_bytes,
        }
    }
}

/// The statistics of one verb.
#[derive(Debug)]
pub struct VerbStats {
    pub count: usize,
    pub p50_ms: u64,
    pub p95_ms: u64,
    pub refusals: OrdMap<String, usize>,
}

/// What [`VerbStats`] say.
pub struct StatsView {
    pub count: nat,
    pub p50_ms: u64,
    pub p95_ms: u64,
    pub refusals: Seq<(Seq<char>, usize)>,
}

impl View for VerbStats {
    type V = StatsView;

    open spec fn view(&self) -> StatsView {
        StatsView {
            count: self.count as nat,
            p50_ms: self.p50_ms,
            p95_ms: self.p95_ms,
            refusals: self.refusals@,
        }
    }
}

/// What the reading verbs saved against reading the files whole.
#[derive(Debug, Clone, Copy, PartialEq, Eq, Structural)]
pub struct ReadSavings {
    pub saved: u64,
    pub naive: u64,
    pub calls: usize,
}

/// The saved share in whole percent, rounded down; 0 when there is nothing to save. The
/// hundredfold is cut off at the largest number.
pub open spec fn percent(saved: u64, naive: u64) -> u64 {
    if naive == 0 {
        0
    } else if saved * 100 > u64::MAX {
        u64::MAX / naive
    } else {
        (saved * 100) as u64 / naive
    }
}

impl ReadSavings {
    /// The saved share in percent.
    pub fn pct(&self) -> (p: u64)
        ensures
            p == percent(self.saved, self.naive),
    {
        if self.naive == 0 {
            return 0;
        }
        let hundredfold: u64 = match self.saved.checked_mul(100) {
            Some(n) => n,
            None => u64::MAX,
        };
        hundredfold / self.naive
    }
}

/// The gain report.
#[derive(Debug)]
pub struct GainReport {
    pub verbs: OrdMap<String, VerbStats>,
    pub read_savings: ReadSavings,
    /// Invocations per day, when asked for.
    pub history: Option<OrdMap<String, usize>>,
}

/// What a [`GainReport`] says.
pub struct GainView {
    pub verbs: Seq<(Seq<char>, StatsView)>,
    pub saved: nat,
    pub naive: nat,
    pub calls: nat,
    pub history: Option<Seq<(Seq<char>, usize)>>,
}

impl View for GainReport {
    type V = GainView;

    open spec fn view(&self) -> GainView {
        GainView {
            verbs: self.verbs@,
            saved: self.read_savings.saved as nat,
            naive: self.read_savings.naive as nat,
            calls: self.read_savings.calls as nat,
            history: opt_history(self.history),
        }
    }
}

/// The nearest rank of percentile `p` among `n`: `p * n / 100` rounded up, at least 1 and at
/// most `n`.
pub open spec fn nearest_rank(p: u64, n: nat) -> int {
    let rank = (p * n + 99) / 100;
    if rank < 1 {
        1
    } else if rank > n {
        n as int
    } else {
        rank
    }
}

/// Percentile `p` of ascending numbers; 0 when there are none.
pub open spec fn percentile(sorted: Seq<u64>, p: u64) -> u64 {
    if sorted.len() == 0 {
        0
    } else {
        sorted[nearest_rank(p, sorted.len()) - 1]
    }
}

/// Percentile `p` of ascending numbers, by nearest rank.
pub fn percentile_nearest_rank(sorted: &[u64], p: u64) -> (v: u64)
    requires
        p * sorted@.len() <= u64::MAX,
    ensures
        v == percentile(sorted@, p),
{
    let n: u64 = sorted.len() as u64;
    if n == 0 {
        return 0;
    }
    let product: u64 = p * n;
    let mut rank: u64 = product / 100;
    if product % 100 != 0 {
        rank = rank + 1;
    }
    if rank < 1 {
        rank = 1;
    }
    if rank > n {
        rank = n;
    }
    sorted[(rank - 1) as usize]
}

/// A percentile of numbers is one of them.
pub proof fn law_percentile_is_a_member(sorted: Seq<u64>, p: u64)
    requires
        sorted.len() > 0,
    ensures
        sorted.contains(percentile(sorted, p)),
{
    let i = nearest_rank(p, sorted.len()) - 1;
    assert(0 <= i < sorted.len());
    assert(sorted[i] == percentile(sorted, p));
}

/// The counts with one more under `key`.
pub open spec fn counted(counts: Seq<(Seq<char>, usize)>, key: Seq<char>) -> Seq<
    (Seq<char>, usize),
> {
    let n = match lookup::<String, usize>(counts, text_rank(key)) {
        Some(n) => n,
        None => 0,
    };
    stored::<String, usize>(counts, key, (n + 1) as usize)
}

/// Whether no count is above `n`.
pub open spec fn counts_at_most(counts: Seq<(Seq<char>, usize)>, n: int) -> bool {
    forall|k: int| 0 <= k < counts.len() ==> (#[trigger] counts[k]).1 <= n
}

/// Counts one more under `key`, of a tally in which no count is above `n` yet.
pub(crate) fn count_one(counts: &mut OrdMap<String, usize>, key: &str, n: usize)
    requires
        old(counts).wf(),
        counts_at_most(old(counts)@, n as int),
        n < usize::MAX,
    ensures
        final(counts).wf(),
        final(counts)@ == counted(old(counts)@, key@),
        counts_at_most(final(counts)@, n + 1),
{
    let k: String = key.to_owned();
    let ghost before = counts@;
    proof {
        lemma_slot::<String, usize>(before, text_rank(key@));
    }
    let ghost at = slot::<String, usize>(before, text_rank(key@)) as int;
    let c: usize = match counts.get(&k) {
        Some(c) => *c,
        None => 0,
    };
    assert(c <= n) by {
        if has_rank::<String, usize>(before, text_rank(key@)) {
            assert(before[at].1 <= n);
        }
    }
    counts.insert(k, c + 1);
    proof {
        let now = counts@;
        assert forall|j: int| 0 <= j < now.len() implies (#[trigger] now[j]).1 <= n + 1 by {
            if now.len() == before.len() {
                if j != at {
                    assert(now[j] == before[j]);
                }
            } else if j < at {
                assert(now[j] == before[j]);
            } else if j > at {
                assert(now[j] == before[j - 1]);
            }
        }
    }
}

/// What has been collected of the records so far.
pub struct Tally {
    /// The durations of each verb, in the order of the records.
    pub ms: Seq<(Seq<char>, Seq<u64>)>,
    /// The refusals of each verb, counted by label.
    pub refusals: Seq<(Seq<char>, Seq<(Seq<char>, usize)>)>,
    pub history: Seq<(Seq<char>, usize)>,
    pub saved: nat,
    pub naive: nat,
    pub calls: nat,
}

/// Nothing collected.
pub open spec fn no_tally() -> Tally {
    Tally { ms: seq![], refusals: seq![], history: seq![], saved: 0, naive: 0, calls: 0 }
}

/// What one record saved: never less than nothing.
pub open spec fn saved_by(r: RecordView) -> nat {
    match (r.bytes_out, r.naive_bytes) {
        (Some(out), Some(naive)) => if naive >= out {
            (naive - out) as nat
        } else {
            0
        },
        _ => 0,
    }
}

/// What reading the files of one record whole would have cost; nothing unless both sides of
/// the comparison were recorded.
pub open spec fn naive_of(r: RecordView) -> nat {
    match (r.bytes_out, r.naive_bytes) {
        (Some(_), Some(naive)) => naive as nat,
        _ => 0,
    }
}

/// Whether a record has both sides of the comparison.
pub open spec fn is_read_call(r: RecordView) -> bool {
    r.bytes_out is Some && r.naive_bytes is Some
}

/// The collection with one more record.
pub open spec fn with_record(t: Tally, r: RecordView, history: bool) -> Tally {
    let times = match lookup::<String, Seq<u64>>(t.ms, text_rank(r.verb)) {
        Some(list) => list,
        None => seq![],
    };
    let kinds = match lookup::<String, Seq<(Seq<char>, usize)>>(t.refusals, text_rank(r.verb)) {
        Some(counts) => counts,
        None => seq![],
    };
    Tally {
        ms: stored::<String, Seq<u64>>(t.ms, r.verb, times.push(r.ms)),
        refusals: match r.refusal {
            Some(kind) => stored::<String, Seq<(Seq<char>, usize)>>(
                t.refusals,
                r.verb,
                counted(kinds, kind),
            ),
            None => t.refusals,
        },
        history: if history {
            counted(t.history, r.date)
        } else {
            t.history
        },
        saved: t.saved + saved_by(r),
        naive: t.naive + naive_of(r),
        calls: t.calls + if is_read_call(r) {
            1nat
        } else {
            0nat
        },
    }
}

/// The collection of the first `n` records.
pub open spec fn tally_of(records: Seq<RecordView>, n: nat, history: bool) -> Tally
    decreases n,
{
    if n == 0 {
        no_tally()
    } else {
        with_record(tally_of(records, (n - 1) as nat, history), records[n - 1], history)
    }
}

/// What reading the files of the first `n` records whole would have cost.
pub open spec fn naive_total(records: Seq<RecordView>, n: nat) -> nat
    decreases n,
{
    if n == 0 {
        0
    } else {
        naive_total(records, (n - 1) as nat) + naive_of(records[n - 1])
    }
}

/// The statistics of one verb.
pub open spec fn stats_of(times: Seq<u64>, refusals: Option<Seq<(Seq<char>, usize)>>) -> StatsView {
    let sorted = stable_sorted::<u64>(times);
    StatsView {
        count: times.len(),
        p50_ms: percentile(sorted, 50),
        p95_ms: percentile(sorted, 95),
        refusals: match refusals {
            Some(counts) => counts,
            None => seq![],
        },
    }
}

/// The statistics of the verbs from `i` on, added to `done`.
pub open spec fn stats_from(
    ms: Seq<(Seq<char>, Seq<u64>)>,
    refusals: Seq<(Seq<char>, Seq<(Seq<char>, usize)>)>,
    i: int,
    done: Seq<(Seq<char>, StatsView)>,
) -> Seq<(Seq<char>, StatsView)>
    decreases ms.len() - i,
{
    if i >= ms.len() {
        done
    } else {
        let stats = stats_of(
            ms[i].1,
            lookup::<String, Seq<(Seq<char>, usize)>>(refusals, text_rank(ms[i].0)),
        );
        stats_from(ms, refusals, i + 1, stored::<String, StatsView>(done, ms[i].0, stats))
    }
}

proof fn lemma_naive_total_grows(records: Seq<RecordView>, n: nat, m: nat)
    requires
        n <= m,
    ensures
        naive_total(records, n) <= naive_total(records, m),
    decreases m,
{
    if n < m {
        lemma_naive_total_grows(records, n, (m - 1) as nat);
    }
}

proof fn lemma_tally_sums(records: Seq<RecordView>, n: nat, history: bool)
    ensures
        tally_of(records, n, history).naive == naive_total(records, n),
        tally_of(records, n, history).saved <= naive_total(records, n),
        tally_of(records, n, history).calls <= n,
    decreases n,
{
    if n > 0 {
        lemma_tally_sums(records, (n - 1) as nat, history);
    }
}

fn copy_counts(counts: &OrdMap<String, usize>) -> (c: OrdMap<String, usize>)
    ensures
        c@ == counts@,
{
    let mut entries: Vec<(String, usize)> = Vec::new();
    let mut i: usize = 0;
    while i < counts.entries.len()
        invariant
            i <= counts.entries.len(),
            entries@.len() == i,
            forall|k: int|
                0 <= k < i ==> (#[trigger] entries@[k]).0@ == counts.entries@[k].0@
                    && entries@[k].1 == counts.entries@[k].1,
        decreases counts.entries.len() - i,
    {
        entries.push((counts.entries[i].0.clone(), counts.entries[i].1));
        i = i + 1;
    }
    let c = OrdMap { entries };
    assert(c@ =~= counts@);
    c
}

/// The invariant of the counts nested under the verbs: each map is sorted, and neither a
/// count nor their sum is above `n`.
spec fn nested_counts(m: Seq<(Seq<char>, Seq<(Seq<char>, usize)>)>, n: int) -> bool {
    forall|k: int|
        0 <= k < m.len() ==> keys_ascend::<String, usize>((#[trigger] m[k]).1) && counts_at_most(
            m[k].1,
            n,
        ) && count_sum(m[k].1, m[k].1.len()) <= n
}

proof fn lemma_sum_of_update(c: Seq<(Seq<char>, usize)>, at: int, x: (Seq<char>, usize), n: nat)
    requires
        0 <= at < c.len(),
        n <= c.len(),
    ensures
        count_sum(c.update(at, x), n) == count_sum(c, n) + (if at < n {
            x.1 - c[at].1
        } else {
            0
        }),
    decreases n,
{
    if n > 0 {
        lemma_sum_of_update(c, at, x, (n - 1) as nat);
    }
}

proof fn lemma_sum_of_insert(c: Seq<(Seq<char>, usize)>, at: int, x: (Seq<char>, usize), n: nat)
    requires
        0 <= at <= c.len(),
        n <= c.len() + 1,
    ensures
        count_sum(c.insert(at, x), n) == if n <= at {
            count_sum(c, n) as int
        } else {
            count_sum(c, (n - 1) as nat) + x.1
        },
    decreases n,
{
    if n > 0 {
        lemma_sum_of_insert(c, at, x, (n - 1) as nat);
        if n - 1 < at {
            assert(c.insert(at, x)[n - 1] == c[n - 1]);
        } else if n - 1 > at {
            assert(c.insert(at, x)[n - 1] == c[n - 2]);
        }
    }
}

/// Counting one more makes the sum one more.
proof fn lemma_counted_sum(c: Seq<(Seq<char>, usize)>, key: Seq<char>)
    requires
        keys_ascend::<String, usize>(c),
        counts_at_most(c, usize::MAX - 1),
    ensures
        count_sum(counted(c, key), counted(c, key).len()) == count_sum(c, c.len()) + 1,
{
    lemma_slot::<String, usize>(c, text_rank(key));
    let at = slot::<String, usize>(c, text_rank(key)) as int;
    if at < c.len() && text_rank(c[at].0) == text_rank(key) {
        lemma_sum_of_update(c, at, (c[at].0, (c[at].1 + 1) as usize), c.len());
    } else {
        lemma_sum_of_insert(c, at, (key, 1usize), c.len() + 1);
    }
}

/// The invariant of the durations under the verbs: no list is longer than `n`.
spec fn nested_times(m: Seq<(Seq<char>, Seq<u64>)>, n: int) -> bool {
    forall|k: int| 0 <= k < m.len() ==> (#[trigger] m[k]).1.len() <= n
}

fn add_time(ms: &mut OrdMap<String, Vec<u64>>, verb: &String, time: u64, n: usize)
    requires
        old(ms).wf(),
        nested_times(old(ms)@, n as int),
    ensures
        final(ms).wf(),
        final(ms)@ == stored::<String, Seq<u64>>(
            old(ms)@,
            verb@,
            (match lookup::<String, Seq<u64>>(old(ms)@, text_rank(verb@)) {
                Some(list) => list,
                None => seq![],
            }).push(time),
        ),
        nested_times(final(ms)@, n + 1),
{
    let ghost before = ms@;
    proof {
        lemma_slot::<String, Seq<u64>>(before, text_rank(verb@));
    }
    let ghost at = slot::<String, Seq<u64>>(before, text_rank(verb@)) as int;
    let mut times: Vec<u64> = match ms.get(verb) {
        Some(list) => {
            let copy = list.clone();
            assert(copy@ =~= list@);
            copy
        },
        None => Vec::new(),
    };
    proof {
        if lookup::<String, Seq<u64>>(before, text_rank(verb@)) is None {
            assert(times@ =~= Seq::<u64>::empty());
        } else {
            assert(before[at].1.len() <= n);
        }
    }
    times.push(time);
    ms.insert(verb.clone(), times);
    proof {
        let now = ms@;
        assert forall|j: int| 0 <= j < now.len() implies (#[trigger] now[j]).1.len() <= n + 1 by {
            if now.len() == before.len() {
                if j != at {
                    assert(now[j] == before[j]);
                }
            } else if j < at {
                assert(now[j] == before[j]);
            } else if j > at {
                assert(now[j] == before[j - 1]);
            }
        }
    }
}

fn add_refusal(
    refusals: &mut OrdMap<String, OrdMap<String, usize>>,
    verb: &String,
    kind: &str,
    n: usize,
)
    requires
        old(refusals).wf(),
        nested_counts(old(refusals)@, n as int),
        n < usize::MAX,
    ensures
        final(refusals).wf(),
        final(refusals)@ == stored::<String, Seq<(Seq<char>, usize)>>(
            old(refusals)@,
            verb@,
            counted(
                (match lookup::<String, Seq<(Seq<char>, usize)>>(
                    old(refusals)@,
                    text_rank(verb@),
                ) {
                    Some(counts) => counts,
                    None => seq![],
                }),
                kind@,
            ),
        ),
        nested_counts(final(refusals)@, n + 1),
{
    let ghost before = refusals@;
    proof {
        lemma_slot::<String, Seq<(Seq<char>, usize)>>(before, text_rank(verb@));
    }
    let ghost at = slot::<String, Seq<(Seq<char>, usize)>>(before, text_rank(verb@)) as int;
    let mut counts: OrdMap<String, usize> = match refusals.get(verb) {
        Some(held) => copy_counts(held),
        None => OrdMap::new(),
    };
    proof {
        if lookup::<String, Seq<(Seq<char>, usize)>>(before, text_rank(verb@)) is Some {
            assert(keys_ascend::<String, usize>(before[at].1));
        }
    }
    proof {
        if lookup::<String, Seq<(Seq<char>, usize)>>(before, text_rank(verb@)) is Some {
            assert(count_sum(before[at].1, before[at].1.len()) <= n);
        }
        assert(counts_at_most(counts@, n as int));
        lemma_counted_sum(counts@, kind@);
    }
    count_one(&mut counts, kind, n);
    refusals.insert(verb.clone(), counts);
    proof {
        let now = refusals@;
        assert forall|j: int| 0 <= j < now.len() implies keys_ascend::<String, usize>(
            (#[trigger] now[j]).1,
        ) && counts_at_most(now[j].1, n + 1) && count_sum(now[j].1, now[j].1.len()) <= n + 1 by {
            if now.len() == before.len() {
                if j != at {
                    assert(now[j] == before[j]);
                    assert(counts_at_most(before[j].1, n as int));
                }
            } else if j < at {
                assert(now[j] == before[j]);
                assert(counts_at_most(before[j].1, n as int));
            } else if j > at {
                assert(now[j] == before[j - 1]);
                assert(counts_at_most(before[j - 1].1, n as int));
            }
        }
    }
}

/// The statistics of one verb.
fn verb_stats(times: &Vec<u64>, refusals: Option<&OrdMap<String, usize>>) -> (stats: VerbStats)
    requires
        95 * times@.len() <= u64::MAX,
    ensures
        stats@ == stats_of(
            times@,
            match refusals {
                Some(counts) => Some(counts@),
                None => None,
            },
        ),
{
    let copy = times.clone();
    let ghost tv = copy@;
    let count: usize = copy.len();
    proof {
        assert(tv =~= times@);
        assert(views(tv) =~= tv);
        crate::order::law_stable_sort_orders_and_keeps_items::<u64>(tv);
    }
    let sorted = stable_sort(copy);
    assert(views(sorted@) =~= sorted@);
    let kinds = match refusals {
        Some(held) => copy_counts(held),
        None => OrdMap::new(),
    };
    VerbStats {
        count,
        p50_ms: percentile_nearest_rank(sorted.as_slice(), 50),
        p95_ms: percentile_nearest_rank(sorted.as_slice(), 95),
        refusals: kinds,
    }
}

proof fn lemma_sums_still_fit(
    verbs: Seq<(Seq<char>, StatsView)>,
    verb: Seq<char>,
    stats: StatsView,
)
    requires
        keys_ascend::<String, StatsView>(verbs),
        sums_fit(verbs),
        count_sum(stats.refusals, stats.refusals.len()) <= usize::MAX,
    ensures
        sums_fit(stored::<String, StatsView>(verbs, verb, stats)),
{
    lemma_slot::<String, StatsView>(verbs, text_rank(verb));
    let at = slot::<String, StatsView>(verbs, text_rank(verb)) as int;
    let now = stored::<String, StatsView>(verbs, verb, stats);
    assert forall|j: int| 0 <= j < now.len() implies count_sum(
        (#[trigger] now[j]).1.refusals,
        now[j].1.refusals.len(),
    ) <= usize::MAX by {
        if j == at {
            assert(now[j].1 == stats);
        } else if now.len() == verbs.len() {
            assert(now[j] == verbs[j]);
        } else if j < at {
            assert(now[j] == verbs[j]);
        } else {
            assert(now[j] == verbs[j - 1]);
        }
    }
}

/// The view of an optional history.
pub open spec fn opt_history(h: Option<OrdMap<String, usize>>) -> Option<Seq<(Seq<char>, usize)>> {
    match h {
        Some(m) => Some(m@),
        None => None,
    }
}

/// The gain report over the records: the statistics of every verb, the sums of the reading
/// verbs, and the history when it is asked for.
pub open spec fn gain_of(records: Seq<RecordView>, history: bool) -> GainView {
    let t = tally_of(records, records.len(), history);
    GainView {
        verbs: stats_from(t.ms, t.refusals, 0, seq![]),
        saved: t.saved,
        naive: t.naive,
        calls: t.calls,
        history: if history {
            Some(t.history)
        } else {
            None
        },
    }
}

/// The gain report over the records: per verb how often it ran, its median and 95th
/// percentile duration and its refusals by label; what the reading verbs saved; and, when
/// asked for, the invocations per day.
pub fn aggregate(records: &Vec<MetricRecord>, with_history: bool) -> (r: GainReport)
    requires
        naive_total(views(records@), records@.len()) <= u64::MAX,
        95 * records@.len() <= u64::MAX,
    ensures
        r@ == gain_of(views(records@), with_history),
        r.verbs.wf(),
        sums_fit(r.verbs@),
{
    let ghost rv = views(records@);
    let mut ms: OrdMap<String, Vec<u64>> = OrdMap::new();
    let mut refusals: OrdMap<String, OrdMap<String, usize>> = OrdMap::new();
    let mut history: OrdMap<String, usize> = OrdMap::new();
    let mut saved: u64 = 0;
    let mut naive: u64 = 0;
    let mut calls: usize = 0;
    let mut i: usize = 0;
    while i < records.len()
        invariant
            i <= records.len(),
            rv == views(records@),
            naive_total(rv, rv.len()) <= u64::MAX,
            ms.wf(),
            refusals.wf(),
            history.wf(),
            nested_times(ms@, i as int),
            nested_counts(refusals@, i as int),
            counts_at_most(history@, i as int),
            tally_of(rv, i as nat, with_history) == (Tally {
                ms: ms@,
                refusals: refusals@,
                history: history@,
                saved: saved as nat,
                naive: naive as nat,
                calls: calls as nat,
            }),
        decreases records.len() - i,
    {
        let rec = &records[i];
        let ghost before = Tally {
            ms: ms@,
            refusals: refusals@,
            history: history@,
            saved: saved as nat,
            naive: naive as nat,
            calls: calls as nat,
        };
        proof {
            assert(rv[i as int] == rec@);
            lemma_naive_total_grows(rv, (i + 1) as nat, rv.len());
            lemma_tally_sums(rv, i as nat, with_history);
        }
        if let (Some(out), Some(whole)) = (rec.bytes_out, rec.naive_bytes) {
            saved = saved + whole.saturating_sub(out);
            naive = naive + whole;
            calls = calls + 1;
        }
        add_time(&mut ms, &rec.verb, rec.ms, i);
        if let Some(kind) = &rec.refusal {
            add_refusal(&mut refusals, &rec.verb, kind.as_str(), i);
        }
        if with_history {
            count_one(&mut history, rec.date.as_str(), i);
        }
        proof {
            let after = Tally {
                ms: ms@,
                refusals: refusals@,
                history: history@,
                saved: saved as nat,
                naive: naive as nat,
                calls: calls as nat,
            };
            assert(after == with_record(before, rec@, with_history));
        }
        i = i + 1;
    }
    let mut verbs: OrdMap<String, VerbStats> = OrdMap::new();
    let total: usize = records.len();
    let mut k: usize = 0;
    while k < ms.entries.len()
        invariant
            k <= ms.entries.len(),
            refusals.wf(),
            verbs.wf(),
            sums_fit(verbs@),
            total == records@.len(),
            nested_counts(refusals@, records@.len() as int),
            nested_times(ms@, records@.len() as int),
            95 * records@.len() <= u64::MAX,
            stats_from(ms@, refusals@, 0, seq![]) == stats_from(
                ms@,
                refusals@,
                k as int,
                verbs@,
            ),
        decreases ms.entries.len() - k,
    {
        let verb = ms.entries[k].0.clone();
        assert(ms@[k as int] == (ms.entries@[k as int].0@, ms.entries@[k as int].1@));
        let held = refusals.get(&verb);
        proof {
            lemma_slot::<String, Seq<(Seq<char>, usize)>>(refusals@, text_rank(verb@));
            let r_at = slot::<String, Seq<(Seq<char>, usize)>>(refusals@, text_rank(verb@)) as int;
            if held is Some {
                assert(count_sum(refusals@[r_at].1, refusals@[r_at].1.len())
                    <= records@.len());
            }
            assert(ms@[k as int].1.len() <= records@.len());
        }
        let stats = verb_stats(&ms.entries[k].1, held);
        proof {
            if held is Some {
                assert(stats@.refusals == held->0@);
            } else {
                assert(stats@.refusals.len() == 0);
            }
            assert(count_sum(stats@.refusals, stats@.refusals.len()) <= total);
            lemma_sums_still_fit(verbs@, verb@, stats@);
        }
        verbs.insert(verb, stats);
        k = k + 1;
    }
    GainReport {
        verbs,
        read_savings: ReadSavings { saved, naive, calls },
        history: if with_history {
            Some(history)
        } else {
            None
        },
    }
}

/// The lines of a metrics file that can hold a record: trimmed, and not empty.
pub open spec fn record_lines(text: Seq<char>) -> Seq<Seq<char>> {
    record_lines_from(lines_of(text), 0, seq![])
}

/// Those of the lines from `i` on, added to `done`.
pub open spec fn record_lines_from(lines: Seq<Seq<char>>, i: int, done: Seq<Seq<char>>) -> Seq<
    Seq<char>,
>
    decreases lines.len() - i,
{
    if i >= lines.len() {
        done
    } else {
        let l = trimmed(lines[i]);
        record_lines_from(
            lines,
            i + 1,
            if l.len() == 0 {
                done
            } else {
                done.push(l)
            },
        )
    }
}

/// The lines of a metrics file that can hold a record.
pub fn metric_lines(content: &str) -> (list: Vec<String>)
    ensures
        views(list@) == record_lines(content@),
{
    let lines = split_lines(content);
    let ghost lv = views(lines@);
    let mut list: Vec<String> = Vec::new();
    let mut i: usize = 0;
    assert(views(list@) =~= Seq::<Seq<char>>::empty());
    while i < lines.len()
        invariant
            i <= lines.len(),
            lv == views(lines@),
            record_lines_from(lv, 0, seq![]) == record_lines_from(lv, i as int, views(list@)),
        decreases lines.len() - i,
    {
        assert(lv[i as int] == lines@[i as int]@);
        let l = trim(lines[i].as_str());
        if !l.as_str().is_empty() {
            let ghost before = views(list@);
            list.push(l);
            assert(views(list@) =~= before.push(l@));
        }
        i = i + 1;
    }
    list
}

/// The day that a metrics file is of, when its name is that of one (`<day>.jsonl`).
pub open spec fn metrics_day(name: Seq<u8>) -> Option<Seq<char>> {
    if has_extension(name) && extension(name) == seq![106u8, 115, 111, 110, 108] {
        Some(
            if valid_utf8(stem(name)) {
                decode_utf8(stem(name))
            } else {
                seq![]
            },
        )
    } else {
        None
    }
}

/// The day that a metrics file is of.
pub fn metrics_date(name: &[u8]) -> (day: Option<String>)
    ensures
        opt_text(day) == metrics_day(name@),
{
    let jsonl: Vec<u8> = vec![106, 115, 111, 110, 108];
    assert(jsonl@ =~= seq![106u8, 115, 111, 110, 108]);
    match split_name(name) {
        (base, Some(ext)) => {
            if same_bytes(ext.as_slice(), jsonl.as_slice()) {
                match utf8_text(base) {
                    Some(t) => Some(t),
                    None => {
                        let none: String = String::new();
                        assert(none@ =~= Seq::<char>::empty());
                        Some(none)
                    },
                }
            } else {
                None
            }
        },
        _ => None,
    }
}

/// `n` spaces.
pub open spec fn spaces(n: nat) -> Seq<char> {
    Seq::new(n, |i: int| ' ')
}

/// `text` with spaces behind it up to `width` characters.
pub open spec fn left_aligned(text: Seq<char>, width: nat) -> Seq<char> {
    if text.len() >= width {
        text
    } else {
        text + spaces((width - text.len()) as nat)
    }
}

/// `text` with spaces before it up to `width` characters.
pub open spec fn right_aligned(text: Seq<char>, width: nat) -> Seq<char> {
    if text.len() >= width {
        text
    } else {
        spaces((width - text.len()) as nat) + text
    }
}

fn fill_to(have: usize, width: usize) -> (s: String)
    ensures
        s@ == spaces((if have >= width {
            0int
        } else {
            width - have
        }) as nat),
{
    let mut s: String = String::new();
    let mut n: usize = have;
    assert(s@ =~= spaces(0));
    while n < width
        invariant
            have <= n,
            n <= width || n == have,
            s@ == spaces((n - have) as nat),
        decreases width - n,
    {
        s.push(' ');
        assert(s@ =~= spaces((n + 1 - have) as nat));
        n = n + 1;
    }
    s
}

fn align_left(text: &str, width: usize) -> (s: String)
    ensures
        s@ == left_aligned(text@, width as nat),
{
    let mut s: String = text.to_owned();
    let fill = fill_to(text.unicode_len(), width);
    s.append(fill.as_str());
    assert(s@ =~= left_aligned(text@, width as nat));
    s
}

fn align_right(text: &str, width: usize) -> (s: String)
    ensures
        s@ == right_aligned(text@, width as nat),
{
    let mut s: String = fill_to(text.unicode_len(), width);
    s.append(text);
    assert(s@ =~= right_aligned(text@, width as nat));
    s
}

/// The sum of the first `n` counts.
pub open spec fn count_sum(counts: Seq<(Seq<char>, usize)>, n: nat) -> nat
    decreases n,
{
    if n == 0 {
        0
    } else {
        count_sum(counts, (n - 1) as nat) + counts[n - 1].1 as nat
    }
}

/// The refusals of one verb in words.
pub open spec fn refusal_kinds(counts: Seq<(Seq<char>, usize)>) -> Seq<Seq<char>> {
    counts.map_values(|c: (Seq<char>, usize)| c.0 + "="@ + dec(c.1 as nat))
}

/// The rows of one verb.
pub open spec fn verb_rows(verb: Seq<char>, s: StatsView) -> Seq<char> {
    left_aligned(verb, 10) + "  "@ + right_aligned(dec(s.count), 5) + "  "@ + right_aligned(
        dec(s.p50_ms as nat),
        6,
    ) + "  "@ + right_aligned(dec(s.p95_ms as nat), 6) + "  "@ + right_aligned(
        dec(count_sum(s.refusals, s.refusals.len())),
        8,
    ) + "\n"@ + (if s.refusals.len() == 0 {
        ""@
    } else {
        "  refusal kinds: "@ + joined_with(refusal_kinds(s.refusals), ", "@) + "\n"@
    })
}

/// The rows of the first `n` verbs.
pub open spec fn all_verb_rows(verbs: Seq<(Seq<char>, StatsView)>, n: nat) -> Seq<char>
    decreases n,
{
    if n == 0 {
        seq![]
    } else {
        all_verb_rows(verbs, (n - 1) as nat) + verb_rows(verbs[n - 1].0, verbs[n - 1].1)
    }
}

/// The rows of the first `n` days.
pub open spec fn day_rows(days: Seq<(Seq<char>, usize)>, n: nat) -> Seq<char>
    decreases n,
{
    if n == 0 {
        seq![]
    } else {
        day_rows(days, (n - 1) as nat) + "  "@ + days[n - 1].0 + ": "@ + dec(
            days[n - 1].1 as nat,
        ) + "\n"@
    }
}

/// The table of the verbs.
pub open spec fn verb_table(verbs: Seq<(Seq<char>, StatsView)>) -> Seq<char> {
    if verbs.len() == 0 {
        "(no metrics recorded yet)\n"@
    } else {
        "verb        count   p50ms   p95ms  refusals\n"@ + all_verb_rows(verbs, verbs.len())
    }
}

/// The line on what the reading verbs saved.
pub open spec fn savings_line(s: ReadSavings) -> Seq<char> {
    "read savings: "@ + dec(s.saved as nat) + " bytes ("@ + dec(
        percent(s.saved, s.naive) as nat,
    ) + "%) across "@ + dec(s.calls as nat) + " read-verb calls\n"@
}

/// The part on the days.
pub open spec fn history_part(history: Option<Seq<(Seq<char>, usize)>>) -> Seq<char> {
    match history {
        None => ""@,
        Some(days) => "\nhistory (per-day totals):\n"@ + (if days.len() == 0 {
            "  (none)\n"@
        } else {
            day_rows(days, days.len())
        }),
    }
}

fn sum_counts(counts: &OrdMap<String, usize>) -> (n: usize)
    requires
        count_sum(counts@, counts@.len()) <= usize::MAX,
    ensures
        n == count_sum(counts@, counts@.len()),
{
    let ghost cv = counts@;
    let mut n: usize = 0;
    let mut i: usize = 0;
    while i < counts.entries.len()
        invariant
            i <= counts.entries.len(),
            cv == counts@,
            count_sum(cv, cv.len()) <= usize::MAX,
            n == count_sum(cv, i as nat),
        decreases counts.entries.len() - i,
    {
        proof {
            lemma_count_sum_grows(cv, (i + 1) as nat, cv.len());
            assert(cv[i as int].1 == counts.entries@[i as int].1);
        }
        n = n + counts.entries[i].1;
        i = i + 1;
    }
    n
}

proof fn lemma_count_sum_grows(counts: Seq<(Seq<char>, usize)>, n: nat, m: nat)
    requires
        n <= m,
    ensures
        count_sum(counts, n) <= count_sum(counts, m),
    decreases m,
{
    if n < m {
        lemma_count_sum_grows(counts, n, (m - 1) as nat);
    }
}

fn kinds_text(counts: &OrdMap<String, usize>) -> (s: String)
    ensures
        s@ == joined_with(refusal_kinds(counts@), ", "@),
{
    let ghost wanted = refusal_kinds(counts@);
    let mut items: Vec<String> = Vec::new();
    let mut i: usize = 0;
    assert(views(items@) =~= wanted.take(0));
    while i < counts.entries.len()
        invariant
            i <= counts.entries.len(),
            wanted == refusal_kinds(counts@),
            views(items@) == wanted.take(i as int),
        decreases counts.entries.len() - i,
    {
        let mut item: String = counts.entries[i].0.clone();
        item.append("=");
        push_dec(&mut item, counts.entries[i].1 as u64);
        let ghost before = views(items@);
        items.push(item);
        proof {
            assert(counts@[i as int] == (
                counts.entries@[i as int].0@,
                counts.entries@[i as int].1,
            ));
            assert(views(items@) =~= before.push(item@));
            assert(wanted.take(i + 1) =~= wanted.take(i as int).push(wanted[i as int]));
        }
        i = i + 1;
    }
    assert(wanted.take(counts.entries.len() as int) =~= wanted);
    join(&items, ", ")
}

fn rows_of(verb: &str, s: &VerbStats) -> (text: String)
    requires
        count_sum(s.refusals@, s.refusals@.len()) <= usize::MAX,
    ensures
        text@ == verb_rows(verb@, s@),
{
    let mut out: String = align_left(verb, 10);
    out.append("  ");
    let count = align_right(dec_text(s.count as u64).as_str(), 5);
    out.append(count.as_str());
    out.append("  ");
    let p50 = align_right(dec_text(s.p50_ms).as_str(), 6);
    out.append(p50.as_str());
    out.append("  ");
    let p95 = align_right(dec_text(s.p95_ms).as_str(), 6);
    out.append(p95.as_str());
    out.append("  ");
    let total = align_right(dec_text(sum_counts(&s.refusals) as u64).as_str(), 8);
    out.append(total.as_str());
    out.append("\n");
    if s.refusals.entries.len() == 0 {
        out.append("");
    } else {
        let mut line: String = "  refusal kinds: ".to_owned();
        let kinds = kinds_text(&s.refusals);
        line.append(kinds.as_str());
        line.append("\n");
        out.append(line.as_str());
    }
    out
}

/// Whether the refusals of every verb can be added up.
pub open spec fn sums_fit(verbs: Seq<(Seq<char>, StatsView)>) -> bool {
    forall|k: int|
        0 <= k < verbs.len() ==> count_sum(
            (#[trigger] verbs[k]).1.refusals,
            verbs[k].1.refusals.len(),
        ) <= usize::MAX
}

/// The human gain report: a row per verb, the read savings, and the days when they were
/// asked for.
pub fn format_human(report: &GainReport) -> (text: String)
    requires
        sums_fit(report.verbs@),
    ensures
        text@ == verb_table(report.verbs@) + savings_line(report.read_savings) + history_part(
            opt_history(report.history),
        ),
{
    let ghost vv = report.verbs@;
    let mut out: String = if report.verbs.entries.len() == 0 {
        "(no metrics recorded yet)\n".to_owned()
    } else {
        let mut table: String = String::new();
        let mut i: usize = 0;
        while i < report.verbs.entries.len()
            invariant
                i <= report.verbs.entries.len(),
                vv == report.verbs@,
                sums_fit(vv),
                table@ == all_verb_rows(vv, i as nat),
            decreases report.verbs.entries.len() - i,
        {
            let e = &report.verbs.entries[i];
            assert(vv[i as int] == (e.0@, e.1@));
            let rows = rows_of(e.0.as_str(), &e.1);
            table.append(rows.as_str());
            i = i + 1;
        }
        let mut whole: String = "verb        count   p50ms   p95ms  refusals\n".to_owned();
        whole.append(table.as_str());
        whole
    };
    let mut line: String = "read savings: ".to_owned();
    push_dec(&mut line, report.read_savings.saved);
    line.append(" bytes (");
    push_dec(&mut line, report.read_savings.pct());
    line.append("%) across ");
    push_dec(&mut line, report.read_savings.calls as u64);
    line.append(" read-verb calls\n");
    out.append(line.as_str());
    match &report.history {
        None => {
            out.append("");
        },
        Some(days) => {
            let ghost dv = days@;
            let mut part: String = "\nhistory (per-day totals):\n".to_owned();
            if days.entries.len() == 0 {
                part.append("  (none)\n");
            } else {
                let mut rows: String = String::new();
                let mut i: usize = 0;
                while i < days.entries.len()
                    invariant
                        i <= days.entries.len(),
                        dv == days@,
                        rows@ == day_rows(dv, i as nat),
                    decreases days.entries.len() - i,
                {
                    assert(dv[i as int] == (days.entries@[i as int].0@, days.entries@[i as int].1));
                    rows.append("  ");
                    rows.append(days.entries[i].0.as_str());
                    rows.append(": ");
                    push_dec(&mut rows, days.entries[i].1 as u64);
                    rows.append("\n");
                    i = i + 1;
                }
                part.append(rows.as_str());
            }
            out.append(part.as_str());
        },
    }
    out
}

/// The statistics of a verb for programs.
pub open spec fn stats_json(s: StatsView) -> JsonView {
    no_fields()
        .with("count"@, JsonView::Number(s.count))
        .with("p50_ms"@, JsonView::Number(s.p50_ms as nat))
        .with("p95_ms"@, JsonView::Number(s.p95_ms as nat))
        .with("refusals"@, counts_object(s.refusals))
}

/// The statistics of the verbs for programs.
pub open spec fn verbs_json(verbs: Seq<(Seq<char>, StatsView)>) -> JsonView {
    JsonView::Object(verbs.map_values(|e: (Seq<char>, StatsView)| (e.0, stats_json(e.1))))
}

/// The gain report for programs: the days are there only when they were asked for.
pub open spec fn gain_json(
    verbs: Seq<(Seq<char>, StatsView)>,
    savings: ReadSavings,
    history: Option<Seq<(Seq<char>, usize)>>,
) -> JsonView {
    let reads = no_fields()
        .with("saved"@, JsonView::Number(savings.saved as nat))
        .with("naive"@, JsonView::Number(savings.naive as nat))
        .with("pct"@, JsonView::Number(percent(savings.saved, savings.naive) as nat))
        .with("calls"@, JsonView::Number(savings.calls as nat));
    let report = no_fields().with("verbs"@, verbs_json(verbs)).with("read_savings"@, reads);
    match history {
        Some(days) => report.with("history"@, counts_object(days)),
        None => report,
    }
}

/// The gain report for programs.
pub fn to_json(report: &GainReport) -> (j: Json)
    ensures
        j@ == gain_json(report.verbs@, report.read_savings, opt_history(report.history)),
{
    let ghost vv = report.verbs@;
    let ghost all = vv.map_values(|e: (Seq<char>, StatsView)| (e.0, stats_json(e.1)));
    let mut verbs = Json::object();
    let mut i: usize = 0;
    assert(all.take(0) =~= Seq::<(Seq<char>, JsonView)>::empty());
    while i < report.verbs.entries.len()
        invariant
            i <= report.verbs.entries.len(),
            vv == report.verbs@,
            all == vv.map_values(|e: (Seq<char>, StatsView)| (e.0, stats_json(e.1))),
            verbs@ == JsonView::Object(all.take(i as int)),
        decreases report.verbs.entries.len() - i,
    {
        let e = &report.verbs.entries[i];
        assert(vv[i as int] == (e.0@, e.1@));
        let stats = Json::object()
            .with("count", Json::count(e.1.count))
            .with("p50_ms", Json::Number(e.1.p50_ms))
            .with("p95_ms", Json::Number(e.1.p95_ms))
            .with("refusals", Json::counts(&e.1.refusals));
        verbs = verbs.with(e.0.as_str(), stats);
        assert(all.take(i + 1) =~= all.take(i as int).push(all[i as int]));
        i = i + 1;
    }
    assert(all.take(report.verbs.entries.len() as int) =~= all);
    let s = &report.read_savings;
    let reads = Json::object()
        .with("saved", Json::Number(s.saved))
        .with("naive", Json::Number(s.naive))
        .with("pct", Json::Number(s.pct()))
        .with("calls", Json::count(s.calls));
    let j = Json::object().with("verbs", verbs).with("read_savings", reads);
    match &report.history {
        Some(days) => j.with("history", Json::counts(days)),
        None => j,
    }
}

/// The share is what is saved of a hundred parts, rounded down, as long as the hundredfold is
/// a number at all.
pub proof fn law_the_share_is_rounded_down(saved: u64, naive: u64)
    requires
        naive > 0,
        saved * 100 <= u64::MAX,
    ensures
        percent(saved, naive) * naive <= saved * 100 < (percent(saved, naive) + 1) * naive,
{
    let n = naive as int;
    let h = saved * 100;
    let q = h / n;
    assert(q * n <= h < (q + 1) * n) by (nonlinear_arith)
        requires
            n > 0,
            h >= 0,
            q == h / n,
    ;
}

/// Aligning adds spaces on one side, only as many as are missing, and keeps the text.
pub proof fn law_aligning_keeps_the_text(text: Seq<char>, width: nat)
    ensures
        ({
            let l = left_aligned(text, width);
            let r = right_aligned(text, width);
            let n = if text.len() < width {
                width
            } else {
                text.len()
            };
            &&& l.len() == n && r.len() == n
            &&& l.take(text.len() as int) == text
            &&& r.skip(n - text.len()) == text
            &&& forall|i: int| text.len() <= i < n ==> #[trigger] l[i] == ' '
            &&& forall|i: int| 0 <= i < n - text.len() ==> #[trigger] r[i] == ' '
        }),
{
    let l = left_aligned(text, width);
    let r = right_aligned(text, width);
    assert(l.take(text.len() as int) =~= text);
    assert(r.skip(r.len() - text.len()) =~= text);
}

/// Whether a value tells the statistics of a verb.
pub open spec fn tells_stats(j: JsonView, s: StatsView) -> bool {
    &&& field_of(j, "count"@) == Some(JsonView::Number(s.count))
    &&& field_of(j, "p50_ms"@) == Some(JsonView::Number(s.p50_ms as nat))
    &&& field_of(j, "p95_ms"@) == Some(JsonView::Number(s.p95_ms as nat))
    &&& field_of(j, "refusals"@) matches Some(JsonView::Object(kinds)) && kinds.len()
        == s.refusals.len() && forall|i: int|
        0 <= i < kinds.len() ==> #[trigger] kinds[i] == (
            s.refusals[i].0,
            JsonView::Number(s.refusals[i].1 as nat),
        )
}

proof fn lemma_stats_fields(s: StatsView)
    ensures
        tells_stats(stats_json(s), s),
{
    reveal_strlit("count");
    reveal_strlit("p50_ms");
    reveal_strlit("p95_ms");
    reveal_strlit("refusals");
    assert("count"@.len() == 5);
    assert("p50_ms"@.len() == 6);
    assert("p95_ms"@.len() == 6);
    assert("refusals"@.len() == 8);
    assert("p50_ms"@[1] != "p95_ms"@[1]);
    let fields = stats_json(s)->Object_0;
    law_a_field_is_found_under_its_key(fields, "count"@, 0);
    law_a_field_is_found_under_its_key(fields, "p50_ms"@, 1);
    law_a_field_is_found_under_its_key(fields, "p95_ms"@, 2);
    law_a_field_is_found_under_its_key(fields, "refusals"@, 3);
}

/// The gain report tells programs of every verb, in order and under its name, with how often
/// it ran, its durations and each kind of its refusals.
pub proof fn law_the_gain_report_tells_of_every_verb(
    verbs: Seq<(Seq<char>, StatsView)>,
    savings: ReadSavings,
    history: Option<Seq<(Seq<char>, usize)>>,
)
    ensures
        field_of(gain_json(verbs, savings, history), "verbs"@) matches Some(
            JsonView::Object(items),
        ) && items.len() == verbs.len() && forall|i: int|
            0 <= i < items.len() ==> (#[trigger] items[i]).0 == verbs[i].0 && tells_stats(
                items[i].1,
                verbs[i].1,
            ),
{
    let fields = gain_json(verbs, savings, history)->Object_0;
    law_a_field_is_found_under_its_key(fields, "verbs"@, 0);
    let items = verbs.map_values(|e: (Seq<char>, StatsView)| (e.0, stats_json(e.1)));
    assert forall|i: int| 0 <= i < items.len() implies (#[trigger] items[i]).0 == verbs[i].0
        && tells_stats(items[i].1, verbs[i].1) by {
        lemma_stats_fields(verbs[i].1);
    }
}

} // verus!
