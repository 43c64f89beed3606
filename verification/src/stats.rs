//! The ping history a monitor keeps and the report it draws from it: a
//! bounded window of samples, filtered to a zoom range, bucketed by a
//! calendar interval chosen from the time the samples span.

use vstd::prelude::*;
use std::collections::VecDeque;
use crate::clock::{LocalFields, chrono_accepts_timestamp, timestamp_representable, local_reading, is_civil_reading};
use crate::text::{
    Interval, interval_name, label_for, datetime_text, lex_lt, lemma_lex_irreflexive,
    lemma_lex_transitive, lemma_lex_total, label_less, same_text, chars_to_string,
    bucket_label, datetime_string, interval_name_string,
};

verus! {

/// The value of a sample: send time and round-trip time.
pub struct SampleView {
    pub secs: i64,
    pub nanos: u32,
    pub latency_nanos: Option<u64>,
}

/// One ping: when it was sent, in seconds and nanoseconds since the Unix
/// epoch, and its round-trip time in nanoseconds, or none when no reply came.
/// The send time is one that `chrono` can represent, without a leap second.
#[derive(Clone, Copy, Debug)]
pub struct Sample {
    secs: i64,
    nanos: u32,
    latency_nanos: Option<u64>,
}

impl View for Sample {
    type V = SampleView;

    closed spec fn view(&self) -> SampleView {
        SampleView { secs: self.secs, nanos: self.nanos, latency_nanos: self.latency_nanos }
    }
}

/// A send time a sample can hold: one `chrono` accepts, with fewer than a
/// billion nanoseconds.
pub open spec fn sample_time_ok(secs: i64, nanos: u32) -> bool {
    nanos < 1_000_000_000 && chrono_accepts_timestamp(secs, nanos)
}

impl Sample {
    #[verifier::type_invariant]
    spec fn well_formed(self) -> bool {
        sample_time_ok(self.secs, self.nanos)
    }

    /// A sample of the given send time and round-trip time; none when the
    /// send time is not one a sample can hold.
    pub fn new(secs: i64, nanos: u32, latency_nanos: Option<u64>) -> (r: Option<Sample>)
        ensures
            r is Some <==> sample_time_ok(secs, nanos),
            r matches Some(s) ==> s@ == (SampleView { secs, nanos, latency_nanos }),
    {
        if nanos < 1_000_000_000 && timestamp_representable(secs, nanos) {
            Some(Sample { secs, nanos, latency_nanos })
        } else {
            None
        }
    }

    /// Whole seconds of the send time since the Unix epoch.
    pub fn secs(&self) -> (r: i64)
        ensures
            r == self@.secs,
    {
        self.secs
    }

    /// Nanoseconds of the send time past its whole second.
    pub fn nanos(&self) -> (r: u32)
        ensures
            r == self@.nanos,
    {
        self.nanos
    }

    /// The same send time with another round-trip time.
    pub fn with_latency(self, latency_nanos: Option<u64>) -> (r: Sample)
        ensures
            r@ == (SampleView { secs: self@.secs, nanos: self@.nanos, latency_nanos }),
    {
        proof {
            use_type_invariant(&self);
        }
        Sample { secs: self.secs, nanos: self.nanos, latency_nanos }
    }

    /// Round-trip time in nanoseconds, none for a lost ping.
    pub fn latency_nanos(&self) -> (r: Option<u64>)
        ensures
            r == self@.latency_nanos,
    {
        self.latency_nanos
    }
}

/// A time range to zoom into, in whole seconds since the Unix epoch; either
/// end may be open.
#[derive(Clone, Copy, Debug, PartialEq, Eq, Default)]
pub struct ZoomParams {
    pub start: Option<i64>,
    pub end: Option<i64>,
}

/// Whether a sample's send second lies in the zoom range.
pub open spec fn in_zoom(q: ZoomParams, s: Sample) -> bool {
    &&& !(q.start matches Some(st) && s@.secs < st)
    &&& !(q.end matches Some(e) && s@.secs > e)
}

/// The samples in the zoom range, in their order.
pub open spec fn zoomed(entries: Seq<Sample>, q: ZoomParams) -> Seq<Sample>
    decreases entries.len(),
{
    if entries.len() == 0 {
        seq![]
    } else {
        let rest = zoomed(entries.drop_last(), q);
        if in_zoom(q, entries.last()) {
            rest.push(entries.last())
        } else {
            rest
        }
    }
}

/// The history after one more sample: with a cap of zero nothing is kept;
/// otherwise, when the window is full the oldest sample leaves, and the new
/// one is appended.
pub open spec fn window_push(entries: Seq<Sample>, max_entries: usize, s: Sample) -> Seq<Sample> {
    if max_entries == 0 {
        entries
    } else {
        (if entries.len() >= max_entries {
            entries.drop_first()
        } else {
            entries
        }).push(s)
    }
}

/// The state of a monitor's history.
pub struct StatsView {
    pub target: Seq<char>,
    pub entries: Seq<Sample>,
    pub max_entries: usize,
    pub total_sent: usize,
}

/// The ping history of one monitored server: its name, the most recent
/// samples up to a cap, and how many pings were sent in all.
pub struct Stats {
    target: String,
    entries: VecDeque<Sample>,
    max_entries: usize,
    total_sent: usize,
}

impl View for Stats {
    type V = StatsView;

    closed spec fn view(&self) -> StatsView {
        StatsView {
            target: self.target@,
            entries: self.entries@,
            max_entries: self.max_entries,
            total_sent: self.total_sent,
        }
    }
}

/// One bucket of a report: its label, the round-trip times of the answered
/// pings in it (in nanoseconds, in sample order), the number of lost pings,
/// and the first and last send second among its samples.
pub struct ChartPoint {
    pub label: String,
    pub latencies: Vec<u64>,
    pub timeouts: usize,
    pub start_ts: i64,
    pub end_ts: i64,
}

/// The report on a monitor's history. Round-trip times are nanoseconds.
pub struct FinalStats {
    pub target: String,
    pub start_time_str: String,
    pub end_time_str: String,
    pub total_transmitted: usize,
    pub total_received: usize,
    pub entries_in_range: usize,
    pub latencies: Vec<u64>,
    pub min_latency_nanos: Option<u64>,
    pub max_latency_nanos: Option<u64>,
    pub points: Vec<ChartPoint>,
    pub interval: Option<Interval>,
    pub interval_name: String,
    pub is_zoomed: bool,
}

/// Rust's integer division, which rounds toward zero.
pub open spec fn trunc_div(a: int, b: int) -> int {
    if a >= 0 {
        a / b
    } else {
        -((-a) / b)
    }
}

/// Whole seconds from the first send time to the last, rounded toward zero
/// (chrono's `signed_duration_since(..).num_seconds()`).
pub open spec fn span_seconds(first: Sample, last: Sample) -> int {
    trunc_div(
        (last@.secs - first@.secs) * 1_000_000_000 + (last@.nanos - first@.nanos),
        1_000_000_000,
    )
}

/// The bucket width for a span: by second under ten whole minutes, by
/// minute under six whole hours, by hour under three whole days, otherwise
/// by day.
pub open spec fn interval_for(span: int) -> Interval {
    if trunc_div(span, 60) < 10 {
        Interval::RawSec
    } else if trunc_div(span, 3600) < 6 {
        Interval::Minute
    } else if trunc_div(span, 86400) < 3 {
        Interval::Hour
    } else {
        Interval::Day
    }
}

/// The bucket labels of the first `n` samples in range, read from their calendar readings.
pub open spec fn labels_of(iv: Interval, cals: Seq<LocalFields>, n: int) -> Seq<Seq<char>> {
    Seq::new(n as nat, |i: int| label_for(iv, cals[i]))
}

/// Round-trip times of the answered pings among the first `n` samples that
/// carry label `l`, in sample order.
pub open spec fn group_latencies(f: Seq<Sample>, lb: Seq<Seq<char>>, l: Seq<char>, n: int) -> Seq<u64>
    decreases n,
{
    if n <= 0 {
        seq![]
    } else {
        let p = group_latencies(f, lb, l, n - 1);
        if lb[n - 1] == l && f[n - 1]@.latency_nanos is Some {
            p.push(f[n - 1]@.latency_nanos.unwrap())
        } else {
            p
        }
    }
}

/// Lost pings among the first `n` samples that carry label `l`.
pub open spec fn group_timeouts(f: Seq<Sample>, lb: Seq<Seq<char>>, l: Seq<char>, n: int) -> nat
    decreases n,
{
    if n <= 0 {
        0
    } else {
        let p = group_timeouts(f, lb, l, n - 1);
        if lb[n - 1] == l && f[n - 1]@.latency_nanos is None {
            p + 1
        } else {
            p
        }
    }
}

/// The earliest send second among the first `n` samples that carry label `l`.
pub open spec fn group_first(f: Seq<Sample>, lb: Seq<Seq<char>>, l: Seq<char>, n: int) -> Option<i64>
    decreases n,
{
    if n <= 0 {
        None
    } else {
        let p = group_first(f, lb, l, n - 1);
        let t = f[n - 1]@.secs;
        if lb[n - 1] == l {
            match p {
                None => Some(t),
                Some(m) => Some(if t < m { t } else { m }),
            }
        } else {
            p
        }
    }
}

/// The latest send second among the first `n` samples that carry label `l`.
pub open spec fn group_last(f: Seq<Sample>, lb: Seq<Seq<char>>, l: Seq<char>, n: int) -> Option<i64>
    decreases n,
{
    if n <= 0 {
        None
    } else {
        let p = group_last(f, lb, l, n - 1);
        let t = f[n - 1]@.secs;
        if lb[n - 1] == l {
            match p {
                None => Some(t),
                Some(m) => Some(if t > m { t } else { m }),
            }
        } else {
            p
        }
    }
}

/// Round-trip times of the answered pings among the first `n` samples.
pub open spec fn received(f: Seq<Sample>, n: int) -> Seq<u64>
    decreases n,
{
    if n <= 0 {
        seq![]
    } else {
        let p = received(f, n - 1);
        match f[n - 1]@.latency_nanos {
            Some(d) => p.push(d),
            None => p,
        }
    }
}

/// The least value of a sequence, none when it is empty.
pub open spec fn seq_min(s: Seq<u64>) -> Option<u64>
    decreases s.len(),
{
    if s.len() == 0 {
        None
    } else {
        match seq_min(s.drop_last()) {
            None => Some(s.last()),
            Some(m) => Some(if s.last() < m { s.last() } else { m }),
        }
    }
}

/// The greatest value of a sequence, none when it is empty.
pub open spec fn seq_max(s: Seq<u64>) -> Option<u64>
    decreases s.len(),
{
    if s.len() == 0 {
        None
    } else {
        match seq_max(s.drop_last()) {
            None => Some(s.last()),
            Some(m) => Some(if s.last() > m { s.last() } else { m }),
        }
    }
}

/// A bucket of a report holds what its label's samples give.
pub open spec fn point_matches(p: ChartPoint, f: Seq<Sample>, lb: Seq<Seq<char>>) -> bool {
    let l = p.label@;
    let n = f.len() as int;
    &&& p.latencies@ == group_latencies(f, lb, l, n)
    &&& p.timeouts == group_timeouts(f, lb, l, n)
    &&& group_first(f, lb, l, n) == Some(p.start_ts)
    &&& group_last(f, lb, l, n) == Some(p.end_ts)
}

/// Some bucket carries label `l`.
pub open spec fn has_label(ps: Seq<ChartPoint>, l: Seq<char>) -> bool {
    exists|j: int| 0 <= j < ps.len() && (#[trigger] ps[j]).label@ == l
}

/// The buckets of a report: one per distinct label, in strictly ascending
/// label order, each holding what its label's samples give.
pub open spec fn points_match(ps: Seq<ChartPoint>, f: Seq<Sample>, lb: Seq<Seq<char>>) -> bool {
    &&& forall|j: int| 0 <= j < ps.len() - 1 ==> lex_lt(#[trigger] ps[j].label@, ps[j + 1].label@)
    &&& forall|j: int| 0 <= j < ps.len() ==> lb.contains(#[trigger] ps[j].label@)
    &&& forall|j: int| 0 <= j < ps.len() ==> point_matches(#[trigger] ps[j], f, lb)
    &&& forall|i: int| 0 <= i < lb.len() ==> has_label(ps, #[trigger] lb[i])
}

/// The report on a history with no sample in the zoom range.
pub open spec fn is_empty_report(r: FinalStats, target: Seq<char>) -> bool {
    &&& r.target@ == target
    &&& r.start_time_str@ == "N/A"@
    &&& r.end_time_str@ == "N/A"@
    &&& r.total_transmitted == 0
    &&& r.total_received == 0
    &&& r.entries_in_range == 0
    &&& r.latencies@.len() == 0
    &&& r.min_latency_nanos is None
    &&& r.max_latency_nanos is None
    &&& r.points@.len() == 0
    &&& r.interval is None
    &&& r.interval_name@ == "None"@
    &&& !r.is_zoomed
}

/// The report on history `s` zoomed by `q`, given the local calendar reading
/// `cals[i]` of the send time of the `i`-th sample in range.
pub open spec fn report_matches(r: FinalStats, s: StatsView, q: ZoomParams, cals: Seq<LocalFields>) -> bool {
    let f = zoomed(s.entries, q);
    let n = f.len() as int;
    if n == 0 {
        is_empty_report(r, s.target)
    } else {
        let iv = interval_for(span_seconds(f[0], f[n - 1]));
        &&& r.target@ == s.target
        &&& r.start_time_str@ == datetime_text(cals[0])
        &&& r.end_time_str@ == datetime_text(cals[n - 1])
        &&& r.total_transmitted == s.total_sent
        &&& r.entries_in_range == n
        &&& r.latencies@ == received(f, n)
        &&& r.total_received == r.latencies@.len()
        &&& r.min_latency_nanos == seq_min(r.latencies@)
        &&& r.max_latency_nanos == seq_max(r.latencies@)
        &&& r.interval == Some(iv)
        &&& r.interval_name@ == interval_name(iv)
        &&& r.is_zoomed == (q.start is Some || q.end is Some)
        &&& points_match(r.points@, f, labels_of(iv, cals, n))
    }
}

/// `cals[i]` is the calendar reading of the send time of `f[i]` moved by
/// `offsets[i]`, a UTC offset strictly within a day.
pub open spec fn local_readings(f: Seq<Sample>, cals: Seq<LocalFields>, offsets: Seq<int>) -> bool {
    &&& cals.len() == f.len()
    &&& offsets.len() == f.len()
    &&& forall|i: int| 0 <= i < f.len() ==> #[trigger] reading_matches(cals[i], f[i], offsets[i])
}

/// `c` is the calendar reading of the send time of `s` moved by the UTC
/// offset `offset`, which lies strictly within a day.
pub open spec fn reading_matches(c: LocalFields, s: Sample, offset: int) -> bool {
    -86400 < offset < 86400 && is_civil_reading(c, s@.secs + offset)
}

/// Whether label `l` lies above a bound (every label lies above no bound).
pub open spec fn above(bound: Option<Seq<char>>, l: Seq<char>) -> bool {
    match bound {
        None => true,
        Some(b) => lex_lt(b, l),
    }
}

/// How many of the first `n` labels lie above a bound.
pub open spec fn count_above(lb: Seq<Seq<char>>, bound: Option<Seq<char>>, n: int) -> nat
    decreases n,
{
    if n <= 0 {
        0
    } else {
        count_above(lb, bound, n - 1) + if above(bound, lb[n - 1]) { 1nat } else { 0nat }
    }
}

proof fn lemma_count_above_shrinks(lb: Seq<Seq<char>>, old_bound: Option<Seq<char>>, b: int, n: int)
    requires
        0 <= n <= lb.len(),
        0 <= b < lb.len(),
        above(old_bound, lb[b]),
    ensures
        count_above(lb, Some(lb[b]), n) <= count_above(lb, old_bound, n),
        n > b ==> count_above(lb, Some(lb[b]), n) < count_above(lb, old_bound, n),
    decreases n,
{
    if n > 0 {
        lemma_count_above_shrinks(lb, old_bound, b, n - 1);
        let l = lb[n - 1];
        if lex_lt(lb[b], l) {
            if let Some(o) = old_bound {
                lemma_lex_transitive(o, lb[b], l);
            }
        }
        if n - 1 == b {
            lemma_lex_irreflexive(lb[b]);
        }
    }
}

/// The bucket width for the samples from `first` to `last`.
pub fn interval_for_span(first: &Sample, last: &Sample) -> (r: Interval)
    ensures
        r == interval_for(span_seconds(*first, *last)),
{
    let d: i128 = (last.secs as i128 - first.secs as i128) * 1_000_000_000
        + (last.nanos as i128 - first.nanos as i128);
    if d < 0 {
        return Interval::RawSec;
    }
    let span: u128 = (d as u128) / 1_000_000_000;
    if span / 60 < 10 {
        Interval::RawSec
    } else if span / 3600 < 6 {
        Interval::Minute
    } else if span / 86400 < 3 {
        Interval::Hour
    } else {
        Interval::Day
    }
}

impl Stats {
    /// An empty history for `target`, keeping at most `max_entries` samples.
    pub fn new(target: &str, max_entries: usize) -> (r: Stats)
        ensures
            r@.target == target@,
            r@.entries.len() == 0,
            r@.max_entries == max_entries,
            r@.total_sent == 0,
    {
        let capacity: usize = if max_entries < 10000 { max_entries } else { 10000 };
        Stats {
            target: target.to_owned(),
            entries: VecDeque::with_capacity(capacity),
            max_entries,
            total_sent: 0,
        }
    }

    /// Records one ping: counts it as sent and appends it to the window,
    /// dropping the oldest sample when the window is full (a window of cap
    /// zero keeps nothing).
    pub fn record(&mut self, sample: Sample)
        requires
            old(self)@.total_sent < usize::MAX,
        ensures
            final(self)@ == (StatsView {
                target: old(self)@.target,
                entries: window_push(old(self)@.entries, old(self)@.max_entries, sample),
                max_entries: old(self)@.max_entries,
                total_sent: (old(self)@.total_sent + 1) as usize,
            }),
    {
        self.total_sent = self.total_sent + 1;
        if self.max_entries > 0 {
            if self.entries.len() >= self.max_entries {
                self.entries.pop_front();
            }
            self.entries.push_back(sample);
        }
        assert(self.entries@ =~= window_push(old(self)@.entries, old(self)@.max_entries, sample));
    }

    /// The name of the monitored server.
    pub fn target(&self) -> (r: &String)
        ensures
            r@ == self@.target,
    {
        &self.target
    }

    /// The cap on kept samples.
    pub fn max_entries(&self) -> (r: usize)
        ensures
            r == self@.max_entries,
    {
        self.max_entries
    }

    /// How many pings were recorded in all.
    pub fn total_sent(&self) -> (r: usize)
        ensures
            r == self@.total_sent,
    {
        self.total_sent
    }

    /// How many samples are kept.
    pub fn len(&self) -> (r: usize)
        ensures
            r == self@.entries.len(),
    {
        self.entries.len()
    }

    /// The kept samples, oldest first.
    pub fn samples(&self) -> (r: Vec<Sample>)
        ensures
            r@ == self@.entries,
    {
        let mut out: Vec<Sample> = Vec::new();
        let n = self.entries.len();
        let mut i: usize = 0;
        while i < n
            invariant
                n == self@.entries.len(),
                i <= n,
                out@ == self@.entries.take(i as int),
            decreases n - i,
        {
            out.push(self.entries[i]);
            i = i + 1;
            assert(out@ =~= self@.entries.take(i as int));
        }
        assert(self@.entries.take(n as int) =~= self@.entries);
        out
    }

    /// The kept samples that lie in the zoom range, oldest first.
    pub fn zoomed_samples(&self, query: &ZoomParams) -> (r: Vec<Sample>)
        ensures
            r@ == zoomed(self@.entries, *query),
    {
        let mut out: Vec<Sample> = Vec::new();
        let n = self.entries.len();
        let mut i: usize = 0;
        while i < n
            invariant
                n == self@.entries.len(),
                i <= n,
                out@ == zoomed(self@.entries.take(i as int), *query),
            decreases n - i,
        {
            let s = self.entries[i];
            let secs = s.secs();
            let before_start = match query.start {
                Some(st) => secs < st,
                None => false,
            };
            let after_end = match query.end {
                Some(e) => secs > e,
                None => false,
            };
            if !before_start && !after_end {
                out.push(s);
            }
            assert(self@.entries.take(i + 1).drop_last() =~= self@.entries.take(i as int));
            i = i + 1;
        }
        assert(self@.entries.take(n as int) =~= self@.entries);
        out
    }
}

/// The texts that a vector of character vectors holds.
pub open spec fn views_of(v: Seq<Vec<char>>) -> Seq<Seq<char>> {
    Seq::new(v.len(), |i: int| v[i]@)
}

/// The label of the previously chosen bucket, if any.
pub open spec fn bound_of(lb: Seq<Seq<char>>, prev: Option<usize>) -> Option<Seq<char>> {
    match prev {
        None => None,
        Some(p) => Some(lb[p as int]),
    }
}

/// The index of a least label among those above the label at `prev` (among
/// all labels when `prev` is none), or none when no label lies above it.
fn smallest_label_above(labels: &Vec<Vec<char>>, prev: Option<usize>) -> (r: Option<usize>)
    requires
        prev matches Some(p) ==> p < labels@.len(),
    ensures
        ({
            let lb = views_of(labels@);
            let bd = bound_of(lb, prev);
            &&& (r matches Some(b) ==> {
                &&& b < lb.len()
                &&& above(bd, lb[b as int])
                &&& forall|i: int|
                    0 <= i < lb.len() && above(bd, #[trigger] lb[i]) ==> !lex_lt(lb[i], lb[b as int])
            })
            &&& (r is None ==> forall|i: int| 0 <= i < lb.len() ==> !above(bd, #[trigger] lb[i]))
        }),
{
    let ghost lb = views_of(labels@);
    let ghost bd = bound_of(lb, prev);
    let n = labels.len();
    let mut best: Option<usize> = None;
    let mut i: usize = 0;
    while i < n
        invariant
            n == labels@.len(),
            lb == views_of(labels@),
            bd == bound_of(lb, prev),
            prev matches Some(p) ==> p < n,
            i <= n,
            best matches Some(b) ==> {
                &&& b < i
                &&& above(bd, lb[b as int])
                &&& forall|k: int| 0 <= k < i && above(bd, #[trigger] lb[k]) ==> !lex_lt(lb[k], lb[b as int])
            },
            best is None ==> forall|k: int| 0 <= k < i ==> !above(bd, #[trigger] lb[k]),
        decreases n - i,
    {
        let is_above = match prev {
            None => true,
            Some(p) => label_less(&labels[p], &labels[i]),
        };
        assert(is_above == above(bd, lb[i as int]));
        if is_above {
            let better = match best {
                None => true,
                Some(b) => label_less(&labels[i], &labels[b]),
            };
            if better {
                proof {
                    let li = lb[i as int];
                    lemma_lex_irreflexive(li);
                    assert forall|k: int| 0 <= k < i + 1 && above(bd, #[trigger] lb[k]) implies !lex_lt(lb[k], li) by {
                        if k < i {
                            if let Some(b) = best {
                                if lex_lt(lb[k], li) {
                                    lemma_lex_transitive(lb[k], li, lb[b as int]);
                                }
                            }
                        }
                    }
                }
                best = Some(i);
            }
        }
        i = i + 1;
    }
    best
}

/// The bucket of the samples whose label equals the label at `b`.
fn build_point(f: &Vec<Sample>, labels: &Vec<Vec<char>>, b: usize) -> (p: ChartPoint)
    requires
        f@.len() == labels@.len(),
        b < labels@.len(),
    ensures
        p.label@ == views_of(labels@)[b as int],
        point_matches(p, f@, views_of(labels@)),
{
    let ghost lb = views_of(labels@);
    let ghost l = lb[b as int];
    let n = f.len();
    let mut latencies: Vec<u64> = Vec::new();
    let mut timeouts: usize = 0;
    let mut first: Option<i64> = None;
    let mut last: Option<i64> = None;
    let mut i: usize = 0;
    while i < n
        invariant
            n == f@.len(),
            n == labels@.len(),
            lb == views_of(labels@),
            b < n,
            l == lb[b as int],
            i <= n,
            latencies@ == group_latencies(f@, lb, l, i as int),
            timeouts == group_timeouts(f@, lb, l, i as int),
            timeouts <= i,
            first == group_first(f@, lb, l, i as int),
            last == group_last(f@, lb, l, i as int),
            i > b ==> first is Some && last is Some,
        decreases n - i,
    {
        if same_text(&labels[i], &labels[b]) {
            let s = &f[i];
            match s.latency_nanos() {
                Some(d) => latencies.push(d),
                None => timeouts = timeouts + 1,
            }
            let t = s.secs();
            first = match first {
                None => Some(t),
                Some(m) => Some(if t < m { t } else { m }),
            };
            last = match last {
                None => Some(t),
                Some(m) => Some(if t > m { t } else { m }),
            };
        }
        i = i + 1;
    }
    let start_ts = match first {
        Some(t) => t,
        None => 0,
    };
    let end_ts = match last {
        Some(t) => t,
        None => 0,
    };
    ChartPoint { label: chars_to_string(&labels[b]), latencies, timeouts, start_ts, end_ts }
}

/// The round-trip times of the answered pings, with their least and greatest.
fn latency_summary(f: &Vec<Sample>) -> (r: (Vec<u64>, Option<u64>, Option<u64>))
    ensures
        r.0@ == received(f@, f@.len() as int),
        r.1 == seq_min(r.0@),
        r.2 == seq_max(r.0@),
{
    let n = f.len();
    let mut lats: Vec<u64> = Vec::new();
    let mut lo: Option<u64> = None;
    let mut hi: Option<u64> = None;
    let mut i: usize = 0;
    while i < n
        invariant
            n == f@.len(),
            i <= n,
            lats@ == received(f@, i as int),
            lo == seq_min(lats@),
            hi == seq_max(lats@),
        decreases n - i,
    {
        match f[i].latency_nanos() {
            Some(d) => {
                let ghost before = lats@;
                lats.push(d);
                assert(lats@.drop_last() =~= before);
                lo = match lo {
                    None => Some(d),
                    Some(m) => Some(if d < m { d } else { m }),
                };
                hi = match hi {
                    None => Some(d),
                    Some(m) => Some(if d > m { d } else { m }),
                };
            },
            None => {},
        }
        i = i + 1;
    }
    (lats, lo, hi)
}

impl Stats {
    /// The report when no sample lies in the zoom range.
    pub fn empty_stats(&self) -> (r: FinalStats)
        ensures
            is_empty_report(r, self@.target),
    {
        FinalStats {
            target: self.target.clone(),
            start_time_str: String::from_str("N/A"),
            end_time_str: String::from_str("N/A"),
            total_transmitted: 0,
            total_received: 0,
            entries_in_range: 0,
            latencies: Vec::new(),
            min_latency_nanos: None,
            max_latency_nanos: None,
            points: Vec::new(),
            interval: None,
            interval_name: String::from_str("None"),
            is_zoomed: false,
        }
    }

    /// The report on the samples in the zoom range, given the local calendar
    /// reading of each of their send times, in order.
    pub fn build_final_stats(&self, query: &ZoomParams, calendars: &Vec<LocalFields>) -> (r: FinalStats)
        requires
            calendars@.len() == zoomed(self@.entries, *query).len(),
        ensures
            report_matches(r, self@, *query, calendars@),
    {
        let f = self.zoomed_samples(query);
        let n = f.len();
        if n == 0 {
            return self.empty_stats();
        }
        let iv = interval_for_span(&f[0], &f[n - 1]);
        let mut labels: Vec<Vec<char>> = Vec::new();
        let mut i: usize = 0;
        while i < n
            invariant
                n == f@.len(),
                n == calendars@.len(),
                i <= n,
                labels@.len() == i,
                forall|k: int| 0 <= k < i ==> (#[trigger] labels@[k])@ == label_for(iv, calendars@[k]),
            decreases n - i,
        {
            labels.push(bucket_label(iv, &calendars[i]));
            i = i + 1;
        }
        let ghost lb = views_of(labels@);
        assert(lb =~= labels_of(iv, calendars@, n as int));
        let (lats, lo, hi) = latency_summary(&f);
        let mut points: Vec<ChartPoint> = Vec::new();
        let mut prev: Option<usize> = None;
        loop
            invariant
                n == f@.len(),
                n == labels@.len(),
                lb == views_of(labels@),
                prev matches Some(p) ==> p < n && points@.len() > 0 && points@.last().label@ == lb[p as int],
                prev is None ==> points@.len() == 0,
                forall|j: int| 0 <= j < points@.len() - 1 ==> lex_lt(#[trigger] points@[j].label@, points@[j + 1].label@),
                forall|j: int| 0 <= j < points@.len() ==> lb.contains(#[trigger] points@[j].label@),
                forall|j: int| 0 <= j < points@.len() ==> point_matches(#[trigger] points@[j], f@, lb),
                forall|i: int| 0 <= i < n && !above(bound_of(lb, prev), lb[i]) ==> has_label(points@, #[trigger] lb[i]),
            ensures
                forall|i: int| 0 <= i < n ==> has_label(points@, #[trigger] lb[i]),
                forall|j: int| 0 <= j < points@.len() - 1 ==> lex_lt(#[trigger] points@[j].label@, points@[j + 1].label@),
                forall|j: int| 0 <= j < points@.len() ==> lb.contains(#[trigger] points@[j].label@),
                forall|j: int| 0 <= j < points@.len() ==> point_matches(#[trigger] points@[j], f@, lb),
            decreases count_above(lb, bound_of(lb, prev), n as int),
        {
            match smallest_label_above(&labels, prev) {
                None => {
                    assert forall|i: int| 0 <= i < n implies has_label(points@, #[trigger] lb[i]) by {
                        assert(!above(bound_of(lb, prev), lb[i]));
                    }
                    break;
                },
                Some(b) => {
                    let ghost old_points = points@;
                    let ghost old_bound = bound_of(lb, prev);
                    proof {
                        lemma_count_above_shrinks(lb, old_bound, b as int, n as int);
                    }
                    let p = build_point(&f, &labels, b);
                    points.push(p);
                    prev = Some(b);
                    proof {
                        let lbb = lb[b as int];
                        assert(points@[old_points.len() as int] == p);
                        assert forall|j: int| 0 <= j < old_points.len() implies points@[j] == old_points[j] by {}
                        assert(lb.contains(lbb)) by {
                            assert(lb[b as int] == lbb);
                        }
                        assert forall|i: int| 0 <= i < n && !above(bound_of(lb, prev), lb[i]) implies has_label(points@, #[trigger] lb[i]) by {
                            if !above(old_bound, lb[i]) {
                                let j = choose|j: int| 0 <= j < old_points.len() && (#[trigger] old_points[j]).label@ == lb[i];
                                assert(points@[j] == old_points[j]);
                            } else {
                                lemma_lex_total(lb[i], lbb);
                                assert(lb[i] == lbb);
                                assert(points@[old_points.len() as int].label@ == lb[i]);
                            }
                        }
                    }
                },
            }
        }
        FinalStats {
            target: self.target.clone(),
            start_time_str: datetime_string(&calendars[0]),
            end_time_str: datetime_string(&calendars[n - 1]),
            total_transmitted: self.total_sent,
            total_received: lats.len(),
            entries_in_range: n,
            latencies: lats,
            min_latency_nanos: lo,
            max_latency_nanos: hi,
            points,
            interval: Some(iv),
            interval_name: interval_name_string(iv),
            is_zoomed: query.start.is_some() || query.end.is_some(),
        }
    }

    /// The report on the samples in the zoom range, each send time read in
    /// the machine's local time zone: for each sample in range, the calendar
    /// reading of its send time moved by some UTC offset within a day (which
    /// offset applies depends on the time zone).
    pub fn to_final_stats(&self, query: ZoomParams) -> (r: FinalStats)
        ensures
            exists|cals: Seq<LocalFields>, offsets: Seq<int>|
                #[trigger] local_readings(zoomed(self@.entries, query), cals, offsets)
                && report_matches(r, self@, query, cals),
    {
        let f = self.zoomed_samples(&query);
        let n = f.len();
        let mut calendars: Vec<LocalFields> = Vec::new();
        let ghost mut offsets: Seq<int> = seq![];
        let mut i: usize = 0;
        while i < n
            invariant
                n == f@.len(),
                i <= n,
                calendars@.len() == i,
                offsets.len() == i,
                local_readings(f@.take(i as int), calendars@, offsets),
            decreases n - i,
        {
            let s = &f[i];
            proof {
                use_type_invariant(s);
            }
            match local_reading(s.secs, s.nanos) {
                Some(rd) => {
                    let ghost before_cals = calendars@;
                    let ghost before_offsets = offsets;
                    calendars.push(rd.0);
                    proof {
                        offsets = offsets.push(rd.1 as int);
                        let g = f@.take(i + 1);
                        assert forall|k: int| 0 <= k < g.len() implies #[trigger] reading_matches(calendars@[k], g[k], offsets[k]) by {
                            if k < i {
                                assert(g[k] == f@.take(i as int)[k]);
                                assert(calendars@[k] == before_cals[k]);
                                assert(offsets[k] == before_offsets[k]);
                                assert(reading_matches(before_cals[k], f@.take(i as int)[k], before_offsets[k]));
                            } else {
                                assert(g[k] == f@[i as int]);
                                assert(offsets[k] == rd.1 as int);
                                assert(calendars@[k] == rd.0);
                                assert(is_civil_reading(rd.0, s.secs + rd.1));
                            }
                        }
                        assert(local_readings(g, calendars@, offsets));
                    }
                },
                None => {
                    assert(false);
                    return self.empty_stats();
                },
            }
            i = i + 1;
        }
        assert(f@.take(n as int) =~= f@);
        let r = self.build_final_stats(&query, &calendars);
        assert(local_readings(zoomed(self@.entries, query), calendars@, offsets));
        r
    }
}

} // verus!
