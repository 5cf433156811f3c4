//! How long the stages of batch openings take, by label, and the context that
//! the labels are made of.

use crate::math::sums::{
    lemma_sum_ext, lemma_sum_shift, lemma_sum_single, lemma_sum_split, lemma_sum_zero, sum,
};
use vstd::prelude::*;
use vstd::string::*;

verus! {

/// The contexts that are open, the innermost last.
#[derive(Debug)]
pub struct BatchOpenContexts {
    pub labels: Vec<String>,
}

/// Stands for a context that was opened, until it is closed.
#[derive(Debug)]
pub struct BatchOpenContextGuard {
    active: bool,
}

/// The time that one label took, in nanoseconds, and how often.
#[derive(Clone, Debug)]
pub struct BatchOpenTimingStat {
    pub label: String,
    pub total_ns: u128,
    pub count: usize,
}

/// The times so far.
#[derive(Debug)]
pub struct BatchOpenTimings {
    pub enabled: bool,
    pub stats: Vec<BatchOpenTimingStat>,
}

impl BatchOpenContexts {
    /// No context.
    pub fn new() -> (r: Self)
        ensures
            r.labels@ == Seq::<String>::empty(),
    {
        BatchOpenContexts { labels: Vec::new() }
    }
}

impl BatchOpenContextGuard {
    /// Whether the context is still to be closed.
    pub closed spec fn is_active(self) -> bool {
        self.active
    }

    /// Closes the context. Doing so twice closes it once.
    pub fn close(&mut self, contexts: &mut BatchOpenContexts)
        ensures
            !final(self).is_active(),
            final(contexts).labels@ == if old(self).is_active() && old(contexts).labels@.len() > 0 {
                old(contexts).labels@.drop_last()
            } else {
                old(contexts).labels@
            },
    {
        if !self.active {
            return ;
        }
        contexts.labels.pop();
        self.active = false;
    }
}

/// Opens a context.
pub fn scoped_batch_open_context(
    contexts: &mut BatchOpenContexts,
    label: String,
) -> (r: BatchOpenContextGuard)
    ensures
        r.is_active(),
        final(contexts).labels@ == old(contexts).labels@.push(label),
{
    contexts.labels.push(label);
    BatchOpenContextGuard { active: true }
}

/// The innermost context.
pub fn current_batch_open_context(contexts: &BatchOpenContexts) -> (r: Option<String>)
    ensures
        r is None <==> contexts.labels@.len() == 0,
        r matches Some(label) ==> label@ == contexts.labels@.last()@,
{
    let n = contexts.labels.len();
    if n == 0 {
        None
    } else {
        Some(contexts.labels[n - 1].clone())
    }
}

/// `label`'s share of one entry.
pub open spec fn share(stat: BatchOpenTimingStat, label: Seq<char>) -> (int, int) {
    if stat.label@ == label {
        (stat.total_ns as int, stat.count as int)
    } else {
        (0, 0)
    }
}

/// The nanoseconds that the entries hold for `label`.
pub open spec fn total_of(stats: Seq<BatchOpenTimingStat>, label: Seq<char>) -> int {
    sum(|i: int| share(stats[i], label).0, 0, stats.len() as int)
}

/// How often the entries have counted `label`.
pub open spec fn count_of(stats: Seq<BatchOpenTimingStat>, label: Seq<char>) -> int {
    sum(|i: int| share(stats[i], label).1, 0, stats.len() as int)
}

/// Each label has one entry, and has been counted.
pub open spec fn are_stats(stats: Seq<BatchOpenTimingStat>) -> bool {
    &&& forall|i: int, j: int|
        0 <= i < j < stats.len() ==> (#[trigger] stats[i]).label@ != (#[trigger] stats[j]).label@
    &&& forall|i: int| 0 <= i < stats.len() ==> (#[trigger] stats[i]).count > 0
}

impl BatchOpenTimings {
    pub open spec fn wf(self) -> bool {
        are_stats(self.stats@)
    }

    /// No times, and none to be recorded.
    pub fn new() -> (r: Self)
        ensures
            r.wf(),
            !r.enabled,
            r.stats@ == Seq::<BatchOpenTimingStat>::empty(),
    {
        BatchOpenTimings { enabled: false, stats: Vec::new() }
    }
}

/// Forgets the times.
pub fn reset_batch_open_timing_stats(timings: &mut BatchOpenTimings)
    ensures
        final(timings).wf(),
        final(timings).stats@ == Seq::<BatchOpenTimingStat>::empty(),
        final(timings).enabled == old(timings).enabled,
{
    timings.stats = Vec::new();
}

/// Switches recording on or off.
pub fn set_batch_open_timing_enabled(timings: &mut BatchOpenTimings, enabled: bool)
    ensures
        final(timings).enabled == enabled,
        final(timings).stats@ == old(timings).stats@,
{
    timings.enabled = enabled;
}

/// Whether times are recorded.
pub fn batch_open_timing_enabled(timings: &BatchOpenTimings) -> (r: bool)
    ensures
        r == timings.enabled,
{
    timings.enabled
}

proof fn lemma_push_share(
    stats: Seq<BatchOpenTimingStat>,
    stat: BatchOpenTimingStat,
    label: Seq<char>,
)
    ensures
        total_of(stats.push(stat), label) == total_of(stats, label) + share(stat, label).0,
        count_of(stats.push(stat), label) == count_of(stats, label) + share(stat, label).1,
{
    let longer = stats.push(stat);
    let n = stats.len() as int;
    lemma_sum_ext(
        |i: int| share(longer[i], label).0,
        |i: int| share(stats[i], label).0,
        0,
        n,
    );
    lemma_sum_ext(
        |i: int| share(longer[i], label).1,
        |i: int| share(stats[i], label).1,
        0,
        n,
    );
}

/// A label that has no entry.
proof fn lemma_absent(stats: Seq<BatchOpenTimingStat>, label: Seq<char>)
    requires
        forall|i: int| 0 <= i < stats.len() ==> (#[trigger] stats[i]).label@ != label,
    ensures
        total_of(stats, label) == 0,
        count_of(stats, label) == 0,
{
    lemma_sum_zero(|i: int| share(stats[i], label).0, 0, stats.len() as int);
    lemma_sum_zero(|i: int| share(stats[i], label).1, 0, stats.len() as int);
}

/// The entry of a label holds all of its time.
pub proof fn lemma_present(stats: Seq<BatchOpenTimingStat>, k: int)
    requires
        are_stats(stats),
        0 <= k < stats.len(),
    ensures
        total_of(stats, stats[k].label@) == stats[k].total_ns,
        count_of(stats, stats[k].label@) == stats[k].count,
{
    let label = stats[k].label@;
    let f = |i: int| share(stats[i], label).0;
    let g = |i: int| share(stats[i], label).1;
    assert forall|i: int| 0 <= i < stats.len() && i != k implies stats[i].label@ != label by {
        if i < k {
            assert(stats[i].label@ != stats[k].label@);
        } else {
            assert(stats[k].label@ != stats[i].label@);
        }
    }
    lemma_sum_single(f, 0, stats.len() as int, k);
    lemma_sum_single(g, 0, stats.len() as int, k);
}

/// A time of `label` was handed over: it is in the times if they are recorded,
/// and all else is as before.
pub open spec fn is_recorded(
    before: BatchOpenTimings,
    after: BatchOpenTimings,
    label: Seq<char>,
    elapsed_ns: int,
) -> bool {
    &&& after.wf()
    &&& after.enabled == before.enabled
    &&& !before.enabled ==> after.stats@ == before.stats@
    &&& before.enabled ==> forall|other: Seq<char>|
        #![trigger total_of(after.stats@, other)]
        #![trigger count_of(after.stats@, other)]
        {
            let (ns, times) = if other == label {
                (elapsed_ns, 1int)
            } else {
                (0, 0)
            };
            &&& total_of(after.stats@, other) == total_of(before.stats@, other) + ns
            &&& count_of(after.stats@, other) == count_of(before.stats@, other) + times
        }
}

/// Adds a time to a label, if times are recorded.
pub fn record_batch_open_timing(timings: &mut BatchOpenTimings, label: &str, elapsed_ns: u128)
    requires
        old(timings).wf(),
        old(timings).enabled ==> total_of(old(timings).stats@, label@) + elapsed_ns <= u128::MAX,
        old(timings).enabled ==> count_of(old(timings).stats@, label@) < usize::MAX,
    ensures
        is_recorded(*old(timings), *final(timings), label@, elapsed_ns as int),
{
    if !timings.enabled {
        return ;
    }
    let ghost before = timings.stats@;
    let wanted = label.to_string();
    let mut k: usize = 0;
    while k < timings.stats.len() && timings.stats[k].label != wanted
        invariant
            0 <= k <= timings.stats@.len(),
            timings.stats@ == before,
            timings.enabled == old(timings).enabled,
            wanted@ == label@,
            forall|i: int| 0 <= i < k ==> (#[trigger] before[i]).label@ != label@,
        decreases timings.stats.len() - k,
    {
        k = k + 1;
    }
    if k < timings.stats.len() {
        proof {
            lemma_present(before, k as int);
        }
        let total_ns = timings.stats[k].total_ns + elapsed_ns;
        let count = timings.stats[k].count + 1;
        let stat = BatchOpenTimingStat { label: wanted, total_ns, count };
        timings.stats.set(k, stat);
        proof {
            let after = timings.stats@;
            assert forall|i: int, j: int| 0 <= i < j < after.len() implies (
            #[trigger] after[i]).label@ != (#[trigger] after[j]).label@ by {
                assert(before[i].label@ != before[j].label@);
            }
            assert forall|i: int| 0 <= i < after.len() implies (#[trigger] after[i]).count > 0 by {
                assert(before[i].count > 0);
            }
            lemma_present(after, k as int);
            assert forall|other: Seq<char>|
                #![trigger total_of(after, other)]
                #![trigger count_of(after, other)]
                other != label@ implies total_of(after, other) == total_of(before, other)
                && count_of(after, other) == count_of(before, other) by {
                let n = before.len() as int;
                lemma_sum_ext(
                    |i: int| share(after[i], other).0,
                    |i: int| share(before[i], other).0,
                    0,
                    n,
                );
                lemma_sum_ext(
                    |i: int| share(after[i], other).1,
                    |i: int| share(before[i], other).1,
                    0,
                    n,
                );
            }
        }
    } else {
        let stat = BatchOpenTimingStat { label: wanted, total_ns: elapsed_ns, count: 1 };
        timings.stats.push(stat);
        proof {
            lemma_absent(before, label@);
            assert forall|other: Seq<char>|
                #![trigger total_of(timings.stats@, other)]
                #![trigger count_of(timings.stats@, other)]
                total_of(timings.stats@, other) == total_of(before, other) + share(stat, other).0
                && count_of(timings.stats@, other) == count_of(before, other) + share(
                stat,
                other,
            ).1 by {
                lemma_push_share(before, stat, other);
            }
        }
    }
}

/// The label of a stage: the innermost context, or else the batch opening
/// itself, and the stage.
pub open spec fn stage_label(contexts: Seq<String>, stage: Seq<char>) -> Seq<char> {
    if contexts.len() == 0 {
        "pcs batch_open"@ + " / "@ + stage
    } else {
        contexts.last()@ + " / "@ + stage
    }
}

/// Adds the time of a stage to its label.
pub fn batch_open_record_stage(
    timings: &mut BatchOpenTimings,
    contexts: &BatchOpenContexts,
    stage: &str,
    elapsed_ns: u128,
)
    requires
        old(timings).wf(),
        old(timings).enabled ==> total_of(
            old(timings).stats@,
            stage_label(contexts.labels@, stage@),
        ) + elapsed_ns <= u128::MAX,
        old(timings).enabled ==> count_of(
            old(timings).stats@,
            stage_label(contexts.labels@, stage@),
        ) < usize::MAX,
    ensures
        is_recorded(
            *old(timings),
            *final(timings),
            stage_label(contexts.labels@, stage@),
            elapsed_ns as int,
        ),
{
    let context = match current_batch_open_context(contexts) {
        Some(context) => context,
        None => "pcs batch_open".to_string(),
    };
    let label = context.concat(" / ").concat(stage);
    record_batch_open_timing(timings, label.as_str(), elapsed_ns);
}

/// The order of texts: by the first character that differs, and a beginning
/// before the whole.
pub open spec fn text_before(a: Seq<char>, b: Seq<char>) -> bool
    decreases a.len(),
{
    if b.len() == 0 {
        false
    } else if a.len() == 0 {
        true
    } else if a[0] != b[0] {
        a[0] < b[0]
    } else {
        text_before(a.drop_first(), b.drop_first())
    }
}

/// The order of the report: the longer time first, and labels in order where
/// times are equal.
pub open spec fn reported_before(a: BatchOpenTimingStat, b: BatchOpenTimingStat) -> bool {
    a.total_ns > b.total_ns || (a.total_ns == b.total_ns && text_before(a.label@, b.label@))
}

proof fn lemma_text_before_total(a: Seq<char>, b: Seq<char>)
    requires
        a != b,
    ensures
        text_before(a, b) || text_before(b, a),
    decreases a.len(),
{
    if a.len() == 0 {
        if b.len() == 0 {
            assert(a =~= b);
        }
    } else if b.len() > 0 && a[0] == b[0] {
        if a.drop_first() == b.drop_first() {
            assert(a =~= seq![a[0]] + a.drop_first());
            assert(b =~= seq![b[0]] + b.drop_first());
        }
        lemma_text_before_total(a.drop_first(), b.drop_first());
    }
}

proof fn lemma_text_before_transitive(a: Seq<char>, b: Seq<char>, c: Seq<char>)
    requires
        text_before(a, b),
        text_before(b, c),
    ensures
        text_before(a, c),
    decreases a.len(),
{
    if a.len() > 0 && b.len() > 0 && c.len() > 0 && a[0] == b[0] && b[0] == c[0] {
        lemma_text_before_transitive(a.drop_first(), b.drop_first(), c.drop_first());
    }
}

/// Whether one text comes before another.
fn is_text_before(a: &str, b: &str) -> (r: bool)
    ensures
        r == text_before(a@, b@),
{
    let n = a.unicode_len();
    let m = b.unicode_len();
    let mut i: usize = 0;
    assert(a@.skip(0) =~= a@);
    assert(b@.skip(0) =~= b@);
    while i < n && i < m
        invariant
            0 <= i <= n,
            i <= m,
            n == a@.len(),
            m == b@.len(),
            text_before(a@, b@) == text_before(a@.skip(i as int), b@.skip(i as int)),
        decreases n - i,
    {
        let x = a.get_char(i);
        let y = b.get_char(i);
        assert(a@.skip(i as int).drop_first() =~= a@.skip(i + 1));
        assert(b@.skip(i as int).drop_first() =~= b@.skip(i + 1));
        if x != y {
            return x < y;
        }
        i = i + 1;
    }
    n < m
}

/// Whether one entry comes before another in the report.
fn is_reported_before(a: &BatchOpenTimingStat, b: &BatchOpenTimingStat) -> (r: bool)
    ensures
        r == reported_before(*a, *b),
{
    a.total_ns > b.total_ns || (a.total_ns == b.total_ns && is_text_before(
        a.label.as_str(),
        b.label.as_str(),
    ))
}

/// Entries in the order of the report.
pub open spec fn is_report(stats: Seq<BatchOpenTimingStat>) -> bool {
    forall|i: int, j: int|
        0 <= i < j < stats.len() ==> reported_before(#[trigger] stats[i], #[trigger] stats[j])
}

proof fn lemma_insert_share(
    stats: Seq<BatchOpenTimingStat>,
    k: int,
    stat: BatchOpenTimingStat,
    label: Seq<char>,
)
    requires
        0 <= k <= stats.len(),
    ensures
        total_of(stats.insert(k, stat), label) == total_of(stats, label) + share(stat, label).0,
        count_of(stats.insert(k, stat), label) == count_of(stats, label) + share(stat, label).1,
{
    let longer = stats.insert(k, stat);
    let n = stats.len() as int;
    let f = |i: int| share(longer[i], label).0;
    let g = |i: int| share(stats[i], label).0;
    lemma_insert_sum(f, g, k, n);
    let f = |i: int| share(longer[i], label).1;
    let g = |i: int| share(stats[i], label).1;
    lemma_insert_sum(f, g, k, n);
}

/// The sum of a list with one more entry.
proof fn lemma_insert_sum(f: spec_fn(int) -> int, g: spec_fn(int) -> int, k: int, n: int)
    requires
        0 <= k <= n,
        forall|i: int| 0 <= i < k ==> #[trigger] f(i) == g(i),
        forall|i: int| k <= i < n ==> f(i + 1) == #[trigger] g(i),
    ensures
        sum(f, 0, n + 1) == sum(g, 0, n) + f(k),
{
    lemma_sum_split(f, 0, k, n + 1);
    lemma_sum_split(f, k, k + 1, n + 1);
    lemma_sum_split(g, 0, k, n);
    lemma_sum_ext(f, g, 0, k);
    lemma_sum_shift(f, k + 1, n - k);
    lemma_sum_shift(g, k, n - k);
    let a = |i: int| f(k + 1 + i);
    let b = |i: int| g(k + i);
    assert forall|i: int| 0 <= i < n - k implies #[trigger] a(i) == b(i) by {
        assert(f((k + i) + 1) == g(k + i));
    }
    lemma_sum_ext(a, b, 0, n - k);
    assert(sum(f, k, k + 1) == sum(f, k, k) + f(k));
}

/// The times, the longest first.
pub fn batch_open_timing_stats(timings: &BatchOpenTimings) -> (r: Vec<BatchOpenTimingStat>)
    requires
        timings.wf(),
    ensures
        r@.len() == timings.stats@.len(),
        are_stats(r@),
        is_report(r@),
        forall|label: Seq<char>|
            #![trigger total_of(r@, label)]
            #![trigger count_of(r@, label)]
            total_of(r@, label) == total_of(timings.stats@, label) && count_of(r@, label)
                == count_of(timings.stats@, label),
{
    let ghost all = timings.stats@;
    let mut report: Vec<BatchOpenTimingStat> = Vec::with_capacity(timings.stats.len());
    let mut i: usize = 0;
    assert(all.take(0) =~= Seq::<BatchOpenTimingStat>::empty());
    while i < timings.stats.len()
        invariant
            0 <= i <= timings.stats@.len(),
            all == timings.stats@,
            are_stats(all),
            report@.len() == i,
            is_report(report@),
            forall|k: int| 0 <= k < report@.len() ==> (#[trigger] report@[k]).count > 0,
            forall|k: int|
                0 <= k < report@.len() ==> comes_from(all, i as int, (#[trigger] report@[k]).label@),
            forall|label: Seq<char>|
                #![trigger total_of(report@, label)]
                #![trigger count_of(report@, label)]
                total_of(report@, label) == total_of(all.take(i as int), label) && count_of(
                    report@,
                    label,
                ) == count_of(all.take(i as int), label),
            forall|a: int, b: int|
                0 <= a < b < report@.len() ==> (#[trigger] report@[a]).label@ != (
                #[trigger] report@[b]).label@,
        decreases timings.stats.len() - i,
    {
        let stat = BatchOpenTimingStat {
            label: timings.stats[i].label.clone(),
            total_ns: timings.stats[i].total_ns,
            count: timings.stats[i].count,
        };
        let ghost before = report@;
        let mut k: usize = 0;
        while k < report.len() && !is_reported_before(&stat, &report[k])
            invariant
                0 <= k <= report@.len(),
                report@ == before,
                forall|j: int| 0 <= j < k ==> !reported_before(stat, #[trigger] before[j]),
            decreases report.len() - k,
        {
            k = k + 1;
        }
        let ghost entry = stat;
        report.insert(k, stat);
        proof {
            assert(report@ == before.insert(k as int, entry));
            let own = entry.label@;
            assert forall|j: int| 0 <= j < before.len() implies (#[trigger] before[j]).label@
                != own by {
                assert(comes_from(all, i as int, before[j].label@));
                let m = choose|m: int|
                    0 <= m < i && (#[trigger] all[m]).label@ == before[j].label@;
                assert(all[m].label@ != all[i as int].label@);
            }
            assert forall|a: int, b: int| 0 <= a < b < report@.len() implies reported_before(
                #[trigger] report@[a],
                #[trigger] report@[b],
            ) && report@[a].label@ != report@[b].label@ by {
                let (x, y) = (report@[a], report@[b]);
                if b < k {
                    assert(x == before[a] && y == before[b]);
                } else if b == k {
                    assert(x == before[a]);
                    assert(!reported_before(entry, before[a]));
                    lemma_text_before_total(before[a].label@, own);
                } else if a < k {
                    assert(x == before[a] && y == before[b - 1]);
                } else if a == k {
                    assert(y == before[b - 1]);
                    assert(reported_before(entry, before[k as int]));
                    if b - 1 > k {
                        let z = before[k as int];
                        assert(reported_before(z, y));
                        if entry.total_ns == z.total_ns && z.total_ns == y.total_ns {
                            lemma_text_before_transitive(own, z.label@, y.label@);
                        }
                    }
                } else {
                    assert(x == before[a - 1] && y == before[b - 1]);
                }
            }
            assert forall|j: int| 0 <= j < report@.len() implies comes_from(
                all,
                i + 1,
                (#[trigger] report@[j]).label@,
            ) && report@[j].count > 0 by {
                if j == k {
                    assert(all[i as int].label@ == own);
                } else {
                    let old_place = if j < k {
                        j
                    } else {
                        j - 1
                    };
                    assert(report@[j] == before[old_place]);
                    assert(comes_from(all, i as int, before[old_place].label@));
                    let m = choose|m: int|
                        0 <= m < i && (#[trigger] all[m]).label@ == before[old_place].label@;
                    assert(all[m].label@ == report@[j].label@);
                }
            }
            assert(all.take(i + 1) =~= all.take(i as int).push(all[i as int]));
            assert forall|label: Seq<char>|
                #![trigger total_of(report@, label)]
                #![trigger count_of(report@, label)]
                total_of(report@, label) == total_of(all.take(i + 1), label) && count_of(
                    report@,
                    label,
                ) == count_of(all.take(i + 1), label) by {
                lemma_insert_share(before, k as int, entry, label);
                lemma_push_share(all.take(i as int), all[i as int], label);
                assert(total_of(before, label) == total_of(all.take(i as int), label));
            }
        }
        i = i + 1;
    }
    assert(all.take(i as int) =~= all);
    report
}

/// One of the first `m` entries has the label.
spec fn comes_from(stats: Seq<BatchOpenTimingStat>, m: int, label: Seq<char>) -> bool {
    exists|i: int| 0 <= i < m && (#[trigger] stats[i]).label@ == label
}

/// Opening a context and closing it leaves the contexts as they were.
pub proof fn lemma_context_closed(labels: Seq<String>, label: String)
    ensures
        labels.push(label).drop_last() == labels,
{
    assert(labels.push(label).drop_last() =~= labels);
}

/// What happens to the times between two resets.
pub enum TimingEvent {
    /// A time of a label is handed over.
    Record { label: Seq<char>, elapsed_ns: int },
    /// Recording is switched on or off.
    Switch { enabled: bool },
}

/// The event leads from the state `before` it to the state `after` it.
pub open spec fn is_event(
    before: BatchOpenTimings,
    after: BatchOpenTimings,
    event: TimingEvent,
) -> bool {
    match event {
        TimingEvent::Record { label, elapsed_ns } => is_recorded(
            before,
            after,
            label,
            elapsed_ns,
        ),
        TimingEvent::Switch { enabled } => after.enabled == enabled && after.stats@
            == before.stats@,
    }
}

/// The events lead from each state to the next.
pub open spec fn is_history(states: Seq<BatchOpenTimings>, events: Seq<TimingEvent>) -> bool {
    &&& states.len() == events.len() + 1
    &&& forall|i: int|
        0 <= i < events.len() ==> is_event(states[i], states[i + 1], #[trigger] events[i])
}

/// The nanoseconds that an event adds to a label, and how often it counts it.
pub open spec fn added(before: BatchOpenTimings, event: TimingEvent, label: Seq<char>) -> (
    int,
    int,
) {
    match event {
        TimingEvent::Record { label: own, elapsed_ns } => if before.enabled && own == label {
            (elapsed_ns, 1)
        } else {
            (0, 0)
        },
        TimingEvent::Switch { enabled } => (0, 0),
    }
}

/// After a reset, the total and the count of each label are those of what was
/// handed over for it while recording was on.
pub proof fn lemma_history(
    states: Seq<BatchOpenTimings>,
    events: Seq<TimingEvent>,
    label: Seq<char>,
)
    requires
        is_history(states, events),
        states[0].stats@ == Seq::<BatchOpenTimingStat>::empty(),
    ensures
        total_of(states.last().stats@, label) == sum(
            |i: int| added(states[i], events[i], label).0,
            0,
            events.len() as int,
        ),
        count_of(states.last().stats@, label) == sum(
            |i: int| added(states[i], events[i], label).1,
            0,
            events.len() as int,
        ),
    decreases events.len(),
{
    let n = events.len() as int;
    if n > 0 {
        let (fewer_states, fewer) = (states.drop_last(), events.drop_last());
        assert forall|i: int| 0 <= i < fewer.len() implies is_event(
            fewer_states[i],
            fewer_states[i + 1],
            #[trigger] fewer[i],
        ) by {
            assert(is_event(states[i], states[i + 1], events[i]));
        }
        lemma_history(fewer_states, fewer, label);
        lemma_sum_ext(
            |i: int| added(fewer_states[i], fewer[i], label).0,
            |i: int| added(states[i], events[i], label).0,
            0,
            n - 1,
        );
        lemma_sum_ext(
            |i: int| added(fewer_states[i], fewer[i], label).1,
            |i: int| added(states[i], events[i], label).1,
            0,
            n - 1,
        );
        assert(is_event(states[n - 1], states[n - 1 + 1], events[n - 1]));
        assert(total_of(states[n].stats@, label) == total_of(states[n - 1].stats@, label) + added(
            states[n - 1],
            events[n - 1],
            label,
        ).0);
    }
}

/// How often a label was recorded.
pub open spec fn times_recorded(
    states: Seq<BatchOpenTimings>,
    events: Seq<TimingEvent>,
    label: Seq<char>,
) -> int {
    sum(|i: int| added(states[i], events[i], label).1, 0, events.len() as int)
}

/// After a reset, a report holds one entry for each label that was recorded,
/// with its time and its count, and the times do not increase.
pub proof fn lemma_report_of_history(
    states: Seq<BatchOpenTimings>,
    events: Seq<TimingEvent>,
    report: Seq<BatchOpenTimingStat>,
)
    requires
        is_history(states, events),
        states[0].stats@ == Seq::<BatchOpenTimingStat>::empty(),
        are_stats(report),
        is_report(report),
        forall|label: Seq<char>|
            #![trigger total_of(report, label)]
            #![trigger count_of(report, label)]
            total_of(report, label) == total_of(states.last().stats@, label) && count_of(
                report,
                label,
            ) == count_of(states.last().stats@, label),
    ensures
        forall|k: int|
            0 <= k < report.len() ==> (#[trigger] report[k]).total_ns == sum(
                |i: int| added(states[i], events[i], report[k].label@).0,
                0,
                events.len() as int,
            ) && report[k].count == sum(
                |i: int| added(states[i], events[i], report[k].label@).1,
                0,
                events.len() as int,
            ),
        forall|label: Seq<char>|
            #[trigger] times_recorded(states, events, label) > 0 ==> exists|k: int|
                0 <= k < report.len() && (#[trigger] report[k]).label@ == label,
        forall|j: int, k: int|
            0 <= j < k < report.len() ==> (#[trigger] report[j]).total_ns >= (
            #[trigger] report[k]).total_ns,
{
    assert forall|k: int| 0 <= k < report.len() implies (#[trigger] report[k]).total_ns == sum(
        |i: int| added(states[i], events[i], report[k].label@).0,
        0,
        events.len() as int,
    ) && report[k].count == sum(
        |i: int| added(states[i], events[i], report[k].label@).1,
        0,
        events.len() as int,
    ) by {
        lemma_history(states, events, report[k].label@);
        lemma_present(report, k);
    }
    assert forall|label: Seq<char>|
        #[trigger] times_recorded(states, events, label) > 0 implies exists|k: int|
        0 <= k < report.len() && (#[trigger] report[k]).label@ == label by {
        lemma_history(states, events, label);
        if forall|k: int| 0 <= k < report.len() ==> (#[trigger] report[k]).label@ != label {
            lemma_absent(report, label);
        }
    }
    assert forall|j: int, k: int| 0 <= j < k < report.len() implies (
    #[trigger] report[j]).total_ns >= (#[trigger] report[k]).total_ns by {
        assert(reported_before(report[j], report[k]));
    }
}

} // verus!
