//! Properties of the history and of its reports that hold across calls: the
//! window keeps exactly the latest samples, zooming keeps exactly the samples
//! in range, and a report's buckets account for every sample in range.

use vstd::prelude::*;
use crate::clock::{LocalFields, civil_from_days, is_civil_reading};
use crate::calendar::{lemma_civil_roundtrip, lemma_same_month_day_near, lemma_same_date};
use crate::text::{Interval, label_for, lex_lt, lemma_lex_irreflexive, lemma_lex_transitive, lemma_label_injective};
use crate::stats::{
    Sample, ZoomParams, StatsView, FinalStats, ChartPoint, in_zoom, zoomed, window_push,
    trunc_div, interval_for, labels_of, group_latencies, group_timeouts, group_first, group_last,
    received, seq_min, seq_max, point_matches, report_matches, span_seconds, local_readings,
    reading_matches, sample_time_ok,
};

verus! {

/// The history after recording the samples `ss`, oldest first.
pub open spec fn replay(entries: Seq<Sample>, max_entries: usize, ss: Seq<Sample>) -> Seq<Sample>
    decreases ss.len(),
{
    if ss.len() == 0 {
        entries
    } else {
        window_push(replay(entries, max_entries, ss.drop_last()), max_entries, ss.last())
    }
}

/// Starting from an empty history, recording any samples leaves exactly the
/// latest of them, at most the cap, in the order they came.
pub proof fn lemma_window_keeps_latest(max_entries: usize, ss: Seq<Sample>)
    ensures
        ({
            let cap = max_entries as int;
            let k = if ss.len() < cap { ss.len() as int } else { cap };
            replay(seq![], max_entries, ss) == ss.skip(ss.len() - k)
        }),
    decreases ss.len(),
{
    if ss.len() > 0 {
        let cap = max_entries as int;
        let prev = ss.drop_last();
        lemma_window_keeps_latest(max_entries, prev);
        let kp = if prev.len() < cap { prev.len() as int } else { cap };
        let k = if ss.len() < cap { ss.len() as int } else { cap };
        let r = prev.skip(prev.len() - kp);
        assert(r.len() == kp);
        if max_entries == 0 {
            assert(r =~= ss.skip(ss.len() - k));
        } else if r.len() >= max_entries {
            assert(r.drop_first().push(ss.last()) =~= ss.skip(ss.len() - k));
        } else {
            assert(r.push(ss.last()) =~= ss.skip(ss.len() - k));
        }
    }
}

/// Recording a sample never takes the window past its cap.
pub proof fn lemma_window_within_cap(entries: Seq<Sample>, max_entries: usize, s: Sample)
    requires
        entries.len() <= max_entries,
    ensures
        window_push(entries, max_entries, s).len() <= max_entries,
{
}

/// Every sample of the zoomed history lies in the zoom range.
pub proof fn lemma_zoomed_all_in_range(entries: Seq<Sample>, q: ZoomParams)
    ensures
        forall|i: int| 0 <= i < zoomed(entries, q).len() ==> in_zoom(q, #[trigger] zoomed(entries, q)[i]),
    decreases entries.len(),
{
    if entries.len() > 0 {
        lemma_zoomed_all_in_range(entries.drop_last(), q);
        let z = zoomed(entries.drop_last(), q);
        if in_zoom(q, entries.last()) {
            assert forall|i: int| 0 <= i < z.len() + 1 implies in_zoom(q, #[trigger] z.push(entries.last())[i]) by {
                if i < z.len() {
                    assert(z.push(entries.last())[i] == z[i]);
                }
            }
        }
    }
}

proof fn lemma_group_first_witness(f: Seq<Sample>, lb: Seq<Seq<char>>, l: Seq<char>, n: int)
    requires
        0 <= n <= f.len(),
        n <= lb.len(),
    ensures
        group_first(f, lb, l, n) matches Some(a) ==> exists|i: int| 0 <= i < n && lb[i] == l && #[trigger] f[i]@.secs == a,
        group_last(f, lb, l, n) matches Some(b) ==> exists|i: int| 0 <= i < n && lb[i] == l && #[trigger] f[i]@.secs == b,
    decreases n,
{
    if n > 0 {
        lemma_group_first_witness(f, lb, l, n - 1);
        let t = f[n - 1]@.secs;
        assert(f[n - 1]@.secs == t);
    }
}

/// A report's buckets lie inside its zoom range: no bucket starts before
/// the range's start or ends after its end.
pub proof fn lemma_bucket_within_zoom(r: FinalStats, s: StatsView, q: ZoomParams, cals: Seq<LocalFields>, j: int)
    requires
        report_matches(r, s, q, cals),
        0 <= j < r.points@.len(),
    ensures
        q.start matches Some(a) ==> a <= r.points@[j].start_ts,
        q.end matches Some(b) ==> r.points@[j].end_ts <= b,
        r.points@[j].start_ts <= r.points@[j].end_ts,
{
    let f = zoomed(s.entries, q);
    let n = f.len() as int;
    let p = r.points@[j];
    let lb = labels_of(interval_for(span_seconds(f[0], f[n - 1])), cals, n);
    assert(point_matches(p, f, lb));
    lemma_group_facts(f, lb, p.label@, n);
    lemma_group_first_witness(f, lb, p.label@, n);
    lemma_zoomed_all_in_range(s.entries, q);
    let i1 = choose|i: int| 0 <= i < n && lb[i] == p.label@ && #[trigger] f[i]@.secs == p.start_ts;
    let i2 = choose|i: int| 0 <= i < n && lb[i] == p.label@ && #[trigger] f[i]@.secs == p.end_ts;
    assert(in_zoom(q, f[i1]));
    assert(in_zoom(q, f[i2]));
}

/// Whether zoom range `inner` lies within zoom range `outer`.
pub open spec fn zoom_within(inner: ZoomParams, outer: ZoomParams) -> bool {
    &&& (outer.start matches Some(a) ==> inner.start matches Some(b) && a <= b)
    &&& (outer.end matches Some(a) ==> inner.end matches Some(b) && b <= a)
}

proof fn lemma_received_push(f: Seq<Sample>, x: Sample, k: int)
    requires
        0 <= k <= f.len(),
    ensures
        received(f.push(x), k) == received(f, k),
    decreases k,
{
    if k > 0 {
        lemma_received_push(f, x, k - 1);
        assert(f.push(x)[k - 1] == f[k - 1]);
    }
}

proof fn lemma_nested_zoom_counts(entries: Seq<Sample>, inner: ZoomParams, outer: ZoomParams)
    requires
        zoom_within(inner, outer),
    ensures
        zoomed(entries, inner).len() <= zoomed(entries, outer).len(),
        received(zoomed(entries, inner), zoomed(entries, inner).len() as int).len()
            <= received(zoomed(entries, outer), zoomed(entries, outer).len() as int).len(),
    decreases entries.len(),
{
    if entries.len() > 0 {
        let rest = entries.drop_last();
        let x = entries.last();
        lemma_nested_zoom_counts(rest, inner, outer);
        let zi = zoomed(rest, inner);
        let zo = zoomed(rest, outer);
        lemma_received_push(zi, x, zi.len() as int);
        lemma_received_push(zo, x, zo.len() as int);
        assert(zi.push(x)[zi.len() as int] == x);
        assert(zo.push(x)[zo.len() as int] == x);
    }
}

/// Zooming into a range within another never reports more answered pings,
/// reports something only where the wider zoom does, and both reports then
/// count every ping sent.
pub proof fn lemma_nested_zoom(
    s: StatsView,
    outer: ZoomParams,
    inner: ZoomParams,
    r_outer: FinalStats,
    r_inner: FinalStats,
    cals_outer: Seq<LocalFields>,
    cals_inner: Seq<LocalFields>,
)
    requires
        zoom_within(inner, outer),
        report_matches(r_outer, s, outer, cals_outer),
        report_matches(r_inner, s, inner, cals_inner),
    ensures
        r_inner.total_received <= r_outer.total_received,
        r_inner.interval is Some ==> r_outer.interval is Some
            && r_outer.total_transmitted == s.total_sent
            && r_inner.total_transmitted == s.total_sent,
{
    lemma_nested_zoom_counts(s.entries, inner, outer);
}

/// A sample is in the zoomed history exactly when it is in the history and
/// its send second lies in the range; the zoomed history is never longer.
pub proof fn lemma_zoom_keeps_in_range(entries: Seq<Sample>, q: ZoomParams, s: Sample)
    ensures
        zoomed(entries, q).contains(s) <==> entries.contains(s) && in_zoom(q, s),
        zoomed(entries, q).len() <= entries.len(),
    decreases entries.len(),
{
    if entries.len() > 0 {
        let rest = entries.drop_last();
        lemma_zoom_keeps_in_range(rest, q, s);
        let z = zoomed(rest, q);
        if entries.contains(s) {
            let i = choose|i: int| 0 <= i < entries.len() && entries[i] == s;
            if i < entries.len() - 1 {
                assert(rest[i] == s);
            }
        }
        if rest.contains(s) {
            let i = choose|i: int| 0 <= i < rest.len() && rest[i] == s;
            assert(entries[i] == s);
        }
        if in_zoom(q, entries.last()) {
            assert(z.push(entries.last())[z.len() as int] == entries.last());
            if z.contains(s) {
                let i = choose|i: int| 0 <= i < z.len() && z[i] == s;
                assert(z.push(entries.last())[i] == s);
            }
            if z.push(entries.last()).contains(s) {
                let i = choose|i: int| 0 <= i < z.len() + 1 && z.push(entries.last())[i] == s;
                if i < z.len() {
                    assert(z[i] == s);
                }
            }
        }
    }
}

/// With neither end of the range set, zooming keeps every sample.
pub proof fn lemma_open_zoom_keeps_all(entries: Seq<Sample>)
    ensures
        zoomed(entries, ZoomParams { start: None, end: None }) == entries,
    decreases entries.len(),
{
    if entries.len() > 0 {
        lemma_open_zoom_keeps_all(entries.drop_last());
        assert(entries.drop_last().push(entries.last()) =~= entries);
    }
}

/// The rank of a bucket width, finest first.
pub open spec fn interval_rank(iv: Interval) -> int {
    match iv {
        Interval::RawSec => 0,
        Interval::Minute => 1,
        Interval::Hour => 2,
        Interval::Day => 3,
    }
}

proof fn lemma_trunc_div_monotone(a: int, b: int, d: int)
    requires
        a <= b,
        d > 0,
    ensures
        trunc_div(a, d) <= trunc_div(b, d),
{
    if a >= 0 {
        assert(a / d <= b / d) by (nonlinear_arith)
            requires 0 <= a <= b, d > 0;
    } else if b >= 0 {
        assert((-a) / d >= 0) by (nonlinear_arith)
            requires -a > 0, d > 0;
        assert(b / d >= 0) by (nonlinear_arith)
            requires b >= 0, d > 0;
    } else {
        assert((-b) / d <= (-a) / d) by (nonlinear_arith)
            requires 0 < -b <= -a, d > 0;
    }
}

/// The bucket width by span in whole seconds: by second under ten minutes,
/// by minute under six hours, by hour under three days, by day from then on.
pub proof fn lemma_interval_thresholds(span: int)
    ensures
        span < 600 ==> interval_for(span) == Interval::RawSec,
        600 <= span < 21600 ==> interval_for(span) == Interval::Minute,
        21600 <= span < 259200 ==> interval_for(span) == Interval::Hour,
        259200 <= span ==> interval_for(span) == Interval::Day,
{
    if span < 0 {
        assert((-span) / 60 >= 0) by (nonlinear_arith)
            requires -span > 0;
    }
}

/// A longer span never gets a finer bucket width.
pub proof fn lemma_interval_widens_with_span(s1: int, s2: int)
    requires
        s1 <= s2,
    ensures
        interval_rank(interval_for(s1)) <= interval_rank(interval_for(s2)),
{
    lemma_trunc_div_monotone(s1, s2, 60);
    lemma_trunc_div_monotone(s1, s2, 3600);
    lemma_trunc_div_monotone(s1, s2, 86400);
}

/// Received round-trip times are at most one per sample.
proof fn lemma_received_len(f: Seq<Sample>, n: int)
    requires
        0 <= n <= f.len(),
    ensures
        received(f, n).len() <= n,
    decreases n,
{
    if n > 0 {
        lemma_received_len(f, n - 1);
    }
}

/// The least of a non-empty sequence is in it and at most every element.
pub proof fn lemma_seq_min(s: Seq<u64>)
    ensures
        s.len() == 0 <==> seq_min(s) is None,
        seq_min(s) matches Some(m) ==> s.contains(m) && forall|i: int| 0 <= i < s.len() ==> m <= s[i],
    decreases s.len(),
{
    if s.len() > 0 {
        let p = s.drop_last();
        lemma_seq_min(p);
        let m = seq_min(s).unwrap();
        if m == s.last() {
            assert(s[s.len() - 1] == m);
        } else {
            let k = choose|k: int| 0 <= k < p.len() && p[k] == m;
            assert(s[k] == m);
        }
        assert forall|i: int| 0 <= i < s.len() implies m <= s[i] by {
            if i < s.len() - 1 {
                assert(s[i] == p[i]);
            }
        }
    }
}

/// The greatest of a non-empty sequence is in it and at least every element.
pub proof fn lemma_seq_max(s: Seq<u64>)
    ensures
        s.len() == 0 <==> seq_max(s) is None,
        seq_max(s) matches Some(m) ==> s.contains(m) && forall|i: int| 0 <= i < s.len() ==> s[i] <= m,
    decreases s.len(),
{
    if s.len() > 0 {
        let p = s.drop_last();
        lemma_seq_max(p);
        let m = seq_max(s).unwrap();
        if m == s.last() {
            assert(s[s.len() - 1] == m);
        } else {
            let k = choose|k: int| 0 <= k < p.len() && p[k] == m;
            assert(s[k] == m);
        }
        assert forall|i: int| 0 <= i < s.len() implies s[i] <= m by {
            if i < s.len() - 1 {
                assert(s[i] == p[i]);
            }
        }
    }
}

/// In a report, no more pings are answered than there are samples in
/// range, and the least and greatest round-trip times bound every answered
/// ping's and are among them (none when nothing was answered).
pub proof fn lemma_report_latency_bounds(r: FinalStats, s: StatsView, q: ZoomParams, cals: Seq<LocalFields>)
    requires
        report_matches(r, s, q, cals),
    ensures
        r.total_received <= r.entries_in_range,
        r.total_received == r.latencies@.len(),
        r.min_latency_nanos is None <==> r.total_received == 0,
        r.max_latency_nanos is None <==> r.total_received == 0,
        r.min_latency_nanos matches Some(m) ==> r.latencies@.contains(m)
            && forall|i: int| 0 <= i < r.latencies@.len() ==> m <= r.latencies@[i],
        r.max_latency_nanos matches Some(m) ==> r.latencies@.contains(m)
            && forall|i: int| 0 <= i < r.latencies@.len() ==> r.latencies@[i] <= m,
{
    let f = zoomed(s.entries, q);
    if f.len() > 0 {
        lemma_received_len(f, f.len() as int);
        lemma_seq_min(r.latencies@);
        lemma_seq_max(r.latencies@);
    }
}

/// How many of the first `n` labels equal `l`.
pub open spec fn label_count(lb: Seq<Seq<char>>, l: Seq<char>, n: int) -> nat
    decreases n,
{
    if n <= 0 {
        0
    } else {
        label_count(lb, l, n - 1) + if lb[n - 1] == l { 1nat } else { 0nat }
    }
}

/// A label's answered and lost pings are its samples; its first send second
/// is known exactly when it has samples, and every sample of the label was
/// sent within its first and last send second.
proof fn lemma_group_facts(f: Seq<Sample>, lb: Seq<Seq<char>>, l: Seq<char>, n: int)
    requires
        0 <= n <= f.len(),
        n <= lb.len(),
    ensures
        group_latencies(f, lb, l, n).len() + group_timeouts(f, lb, l, n) == label_count(lb, l, n),
        group_first(f, lb, l, n) is Some <==> label_count(lb, l, n) > 0,
        group_last(f, lb, l, n) is Some <==> label_count(lb, l, n) > 0,
        forall|i: int| 0 <= i < n && lb[i] == l ==> {
            &&& group_first(f, lb, l, n) matches Some(a) && a <= f[i]@.secs
            &&& group_last(f, lb, l, n) matches Some(b) && f[i]@.secs <= b
        },
    decreases n,
{
    if n > 0 {
        lemma_group_facts(f, lb, l, n - 1);
    }
}

/// The labels of a report's buckets, in order.
pub open spec fn point_labels(ps: Seq<ChartPoint>) -> Seq<Seq<char>> {
    Seq::new(ps.len(), |j: int| ps[j].label@)
}

/// The answered and lost pings of a report's buckets, added up.
pub open spec fn point_total(ps: Seq<ChartPoint>) -> int
    decreases ps.len(),
{
    if ps.len() == 0 {
        0
    } else {
        point_total(ps.drop_last()) + ps.last().latencies@.len() + ps.last().timeouts
    }
}

/// How many times `x` occurs in `ls`.
spec fn occurrences(ls: Seq<Seq<char>>, x: Seq<char>) -> nat
    decreases ls.len(),
{
    if ls.len() == 0 {
        0
    } else {
        occurrences(ls.drop_last(), x) + if ls.last() == x { 1nat } else { 0nat }
    }
}

/// The label counts of a list of labels, added up.
spec fn label_sum(ls: Seq<Seq<char>>, lb: Seq<Seq<char>>, n: int) -> int
    decreases ls.len(),
{
    if ls.len() == 0 {
        0
    } else {
        label_sum(ls.drop_last(), lb, n) + label_count(lb, ls.last(), n)
    }
}

proof fn lemma_label_sum_step(ls: Seq<Seq<char>>, lb: Seq<Seq<char>>, n: int)
    requires
        n > 0,
    ensures
        label_sum(ls, lb, n) == label_sum(ls, lb, n - 1) + occurrences(ls, lb[n - 1]),
    decreases ls.len(),
{
    if ls.len() > 0 {
        lemma_label_sum_step(ls.drop_last(), lb, n);
    }
}

proof fn lemma_occurs_once(ls: Seq<Seq<char>>, x: Seq<char>)
    requires
        forall|i: int, j: int| 0 <= i < j < ls.len() ==> ls[i] != ls[j],
        ls.contains(x),
    ensures
        occurrences(ls, x) == 1,
    decreases ls.len(),
{
    let p = ls.drop_last();
    if ls.last() == x {
        assert forall|i: int| 0 <= i < p.len() implies p[i] != x by {
            assert(ls[i] != ls[ls.len() - 1]);
        }
        lemma_occurs_zero(p, x);
    } else {
        let k = choose|k: int| 0 <= k < ls.len() && ls[k] == x;
        assert(p[k] == x);
        lemma_occurs_once(p, x);
    }
}

proof fn lemma_occurs_zero(ls: Seq<Seq<char>>, x: Seq<char>)
    requires
        forall|i: int| 0 <= i < ls.len() ==> ls[i] != x,
    ensures
        occurrences(ls, x) == 0,
    decreases ls.len(),
{
    if ls.len() > 0 {
        lemma_occurs_zero(ls.drop_last(), x);
    }
}

proof fn lemma_label_sum_total(ls: Seq<Seq<char>>, lb: Seq<Seq<char>>, n: int)
    requires
        0 <= n <= lb.len(),
        forall|i: int, j: int| 0 <= i < j < ls.len() ==> ls[i] != ls[j],
        forall|i: int| 0 <= i < n ==> ls.contains(#[trigger] lb[i]),
    ensures
        label_sum(ls, lb, n) == n,
    decreases n,
{
    if n == 0 {
        lemma_label_sum_zero(ls, lb);
    } else {
        lemma_label_sum_total(ls, lb, n - 1);
        lemma_label_sum_step(ls, lb, n);
        lemma_occurs_once(ls, lb[n - 1]);
    }
}

proof fn lemma_label_sum_zero(ls: Seq<Seq<char>>, lb: Seq<Seq<char>>)
    ensures
        label_sum(ls, lb, 0) == 0,
    decreases ls.len(),
{
    if ls.len() > 0 {
        lemma_label_sum_zero(ls.drop_last(), lb);
    }
}

proof fn lemma_sorted_distinct(ps: Seq<ChartPoint>)
    requires
        forall|j: int| 0 <= j < ps.len() - 1 ==> lex_lt(#[trigger] ps[j].label@, ps[j + 1].label@),
    ensures
        forall|i: int, j: int| 0 <= i < j < ps.len() ==> lex_lt(ps[i].label@, ps[j].label@),
    decreases ps.len(),
{
    if ps.len() > 0 {
        let p = ps.drop_last();
        assert forall|j: int| 0 <= j < p.len() - 1 implies lex_lt(#[trigger] p[j].label@, p[j + 1].label@) by {
            assert(p[j] == ps[j] && p[j + 1] == ps[j + 1]);
        }
        lemma_sorted_distinct(p);
        assert forall|i: int, j: int| 0 <= i < j < ps.len() implies lex_lt(ps[i].label@, ps[j].label@) by {
            if j < ps.len() - 1 {
                assert(p[i] == ps[i] && p[j] == ps[j]);
            } else if i < j - 1 {
                assert(p[i] == ps[i] && p[j - 1] == ps[j - 1]);
                lemma_lex_transitive(ps[i].label@, ps[j - 1].label@, ps[j].label@);
            }
        }
    }
}

proof fn lemma_point_total(ps: Seq<ChartPoint>, f: Seq<Sample>, lb: Seq<Seq<char>>)
    requires
        f.len() <= lb.len(),
        forall|j: int| 0 <= j < ps.len() ==> point_matches(#[trigger] ps[j], f, lb),
    ensures
        point_total(ps) == label_sum(point_labels(ps), lb, f.len() as int),
    decreases ps.len(),
{
    if ps.len() > 0 {
        let p = ps.drop_last();
        assert forall|j: int| 0 <= j < p.len() implies point_matches(#[trigger] p[j], f, lb) by {
            assert(p[j] == ps[j]);
        }
        lemma_point_total(p, f, lb);
        assert(point_labels(ps).drop_last() =~= point_labels(p));
        assert(point_matches(ps[ps.len() - 1], f, lb));
        lemma_group_facts(f, lb, ps.last().label@, f.len() as int);
    }
}

/// Every sample in range falls in exactly one bucket of a report: the
/// buckets' answered and lost pings add up to the samples in range.
pub proof fn lemma_buckets_partition_samples(r: FinalStats, s: StatsView, q: ZoomParams, cals: Seq<LocalFields>)
    requires
        report_matches(r, s, q, cals),
    ensures
        point_total(r.points@) == r.entries_in_range,
{
    let f = zoomed(s.entries, q);
    let n = f.len() as int;
    if n == 0 {
        assert(point_total(r.points@) == 0);
    } else {
        let iv = interval_for(span_seconds(f[0], f[n - 1]));
        let lb = labels_of(iv, cals, n);
        let ps = r.points@;
        let ls = point_labels(ps);
        lemma_sorted_distinct(ps);
        assert forall|i: int, j: int| 0 <= i < j < ls.len() implies ls[i] != ls[j] by {
            lemma_lex_irreflexive(ls[i]);
        }
        assert forall|i: int| 0 <= i < n implies ls.contains(#[trigger] lb[i]) by {
            let j = choose|j: int| 0 <= j < ps.len() && (#[trigger] ps[j]).label@ == lb[i];
            assert(ls[j] == lb[i]);
        }
        lemma_label_sum_total(ls, lb, n);
        lemma_point_total(ps, f, lb);
    }
}

/// Every bucket of a report holds at least one sample, and every sample of a
/// bucket's label was sent between the bucket's first and last send second,
/// so zooming into a bucket's time range keeps all of its samples.
pub proof fn lemma_bucket_covers_its_samples(r: FinalStats, s: StatsView, q: ZoomParams, cals: Seq<LocalFields>, j: int)
    requires
        report_matches(r, s, q, cals),
        0 <= j < r.points@.len(),
    ensures
        ({
            let f = zoomed(s.entries, q);
            let n = f.len() as int;
            let p = r.points@[j];
            let lb = labels_of(interval_for(span_seconds(f[0], f[n - 1])), cals, n);
            &&& p.latencies@.len() + p.timeouts >= 1
            &&& p.start_ts <= p.end_ts
            &&& forall|i: int| 0 <= i < n && lb[i] == p.label@ ==> {
                &&& p.start_ts <= f[i]@.secs <= p.end_ts
                &&& in_zoom(ZoomParams { start: Some(p.start_ts), end: Some(p.end_ts) }, f[i])
            }
        }),
{
    let f = zoomed(s.entries, q);
    let n = f.len() as int;
    let p = r.points@[j];
    let lb = labels_of(interval_for(span_seconds(f[0], f[n - 1])), cals, n);
    assert(point_matches(p, f, lb));
    lemma_group_facts(f, lb, p.label@, n);
    let k = choose|k: int| 0 <= k < lb.len() && lb[k] == p.label@;
    assert(lb[k] == p.label@);
}

/// Whether sample `a` was sent no later than sample `b`.
pub open spec fn sent_no_later(a: Sample, b: Sample) -> bool {
    a@.secs < b@.secs || (a@.secs == b@.secs && a@.nanos <= b@.nanos)
}

/// Whether a history is in the order its pings were sent.
pub open spec fn in_send_order(e: Seq<Sample>) -> bool {
    forall|i: int, k: int| 0 <= i <= k < e.len() ==> sent_no_later(#[trigger] e[i], #[trigger] e[k])
}

/// Whether every sample of a history has a send time a sample can hold.
pub open spec fn all_times_ok(e: Seq<Sample>) -> bool {
    forall|i: int| 0 <= i < e.len() ==> sample_time_ok(#[trigger] e[i]@.secs, e[i]@.nanos)
}

proof fn lemma_zoom_keeps_order(e: Seq<Sample>, q: ZoomParams)
    requires
        in_send_order(e),
    ensures
        in_send_order(zoomed(e, q)),
    decreases e.len(),
{
    if e.len() > 0 {
        let rest = e.drop_last();
        let x = e.last();
        assert forall|i: int, k: int| 0 <= i <= k < rest.len() implies sent_no_later(#[trigger] rest[i], #[trigger] rest[k]) by {
            assert(rest[i] == e[i] && rest[k] == e[k]);
        }
        lemma_zoom_keeps_order(rest, q);
        let z = zoomed(rest, q);
        if in_zoom(q, x) {
            let z2 = z.push(x);
            assert forall|i: int, k: int| 0 <= i <= k < z2.len() implies sent_no_later(#[trigger] z2[i], #[trigger] z2[k]) by {
                if k < z.len() {
                    assert(z2[i] == z[i] && z2[k] == z[k]);
                } else {
                    lemma_zoom_keeps_in_range(rest, q, z2[i]);
                    if i < z.len() {
                        assert(z2[i] == z[i]);
                        assert(z.contains(z[i]));
                    }
                    assert(rest.contains(z2[i]) || i == k);
                    if i < k {
                        let m = choose|m: int| 0 <= m < rest.len() && rest[m] == z2[i];
                        assert(e[m] == z2[i]);
                        assert(e[e.len() - 1] == x);
                        assert(sent_no_later(e[m], e[e.len() - 1]));
                    }
                }
            }
        }
    }
}

proof fn lemma_zoom_times_ok(e: Seq<Sample>, q: ZoomParams)
    requires
        all_times_ok(e),
    ensures
        all_times_ok(zoomed(e, q)),
{
    let z = zoomed(e, q);
    assert forall|i: int| 0 <= i < z.len() implies sample_time_ok(#[trigger] z[i]@.secs, z[i]@.nanos) by {
        lemma_zoom_keeps_in_range(e, q, z[i]);
        assert(z.contains(z[i]));
        let m = choose|m: int| 0 <= m < e.len() && e[m] == z[i];
        assert(sample_time_ok(e[m]@.secs, e[m]@.nanos));
    }
}

/// The span from `a` to `b` is at most the whole seconds between their send
/// seconds, and not negative when `a` was sent no later.
proof fn lemma_span_bounds(a: Sample, b: Sample)
    requires
        a@.nanos < 1_000_000_000,
        b@.nanos < 1_000_000_000,
    ensures
        span_seconds(a, b) <= if b@.secs >= a@.secs { b@.secs - a@.secs } else { 0 },
        sent_no_later(a, b) ==> span_seconds(a, b) >= 0 && span_seconds(a, b) >= b@.secs - a@.secs - 1,
{
    let ds = b@.secs - a@.secs;
    let dn = b@.nanos - a@.nanos;
    let dd = ds * 1_000_000_000 + dn;
    if dd >= 0 {
        assert(dd / 1_000_000_000 <= ds) by (nonlinear_arith)
            requires dd == ds * 1_000_000_000 + dn, dn < 1_000_000_000, dd >= 0;
        assert(dd / 1_000_000_000 >= ds - 1) by (nonlinear_arith)
            requires dd == ds * 1_000_000_000 + dn, dn > -1_000_000_000, dd >= 0;
    } else {
        assert((-dd) / 1_000_000_000 >= 0) by (nonlinear_arith)
            requires -dd > 0;
        if sent_no_later(a, b) {
            assert(dd >= 0) by (nonlinear_arith)
                requires dd == ds * 1_000_000_000 + dn, ds >= 0, ds == 0 ==> dn >= 0, dn > -1_000_000_000;
        }
    }
}

/// How far apart two instants with the same bucket label can lie, given how
/// far apart they lie at most: for the grain `iv` and a distance within
/// `span_limit(iv)` they lie less than `gap_limit(iv)` apart.
spec fn span_limit(iv: Interval) -> int {
    match iv {
        Interval::RawSec => 600,
        Interval::Minute => 21600,
        Interval::Hour => 259200,
        Interval::Day => 0,
    }
}

spec fn gap_limit(iv: Interval) -> int {
    match iv {
        Interval::RawSec => 1,
        Interval::Minute => 60,
        Interval::Hour => 3600,
        Interval::Day => 86400,
    }
}

proof fn lemma_fields_small(c: LocalFields, t: int)
    requires
        is_civil_reading(c, t),
    ensures
        c.month <= 12 && c.day <= 31 && c.hour < 24 && c.minute < 60 && c.second < 60,
        c.hour * 3600 + c.minute * 60 + c.second == t % 86400,
{
    reveal(is_civil_reading);
    lemma_civil_roundtrip(t / 86400);
    let s = t % 86400;
    assert(s == (s / 3600) * 3600 + ((s % 3600) / 60) * 60 + s % 60);
}

#[verifier::rlimit(60)]
proof fn lemma_same_label_gap(iv: Interval, c1: LocalFields, c2: LocalFields, t1: int, t2: int)
    requires
        is_civil_reading(c1, t1),
        is_civil_reading(c2, t2),
        label_for(iv, c1) == label_for(iv, c2),
        0 <= t2 - t1,
        iv != Interval::Day ==> t2 - t1 <= span_limit(iv),
    ensures
        t2 - t1 < gap_limit(iv),
{
    lemma_fields_small(c1, t1);
    lemma_fields_small(c2, t2);
    lemma_label_injective(iv, c1, c2);
    let z1 = t1 / 86400;
    let z2 = t2 / 86400;
    let s1 = t1 % 86400;
    let s2 = t2 % 86400;
    assert(t1 == z1 * 86400 + s1 && t2 == z2 * 86400 + s2);
    match iv {
        Interval::RawSec => {
            assert(s1 == s2);
        },
        Interval::Minute => {
            assert(-60 < s2 - s1 < 60);
        },
        Interval::Hour => {
            reveal(is_civil_reading);
            assert(0 <= z2 - z1 <= 3);
            lemma_same_month_day_near(z1, z2);
            assert(-3600 < s2 - s1 < 3600);
        },
        Interval::Day => {
            reveal(is_civil_reading);
            assert(civil_from_days(z1) == civil_from_days(z2));
            lemma_same_date(z1, z2);
        },
    }
}

/// Drilling into a bucket of a report shows its period at a finer grain:
/// for a history kept in send order whose samples are read at one UTC offset,
/// zooming into any bucket's time range gives a non-empty zoomed report whose
/// grain is finer than the report's, or by second when that already was.
#[verifier::rlimit(100)]
#[verifier::spinoff_prover]
pub proof fn lemma_drill_down_is_finer(
    s: StatsView,
    q: ZoomParams,
    r: FinalStats,
    cals: Seq<LocalFields>,
    offsets: Seq<int>,
    offset: int,
    j: int,
    r2: FinalStats,
    cals2: Seq<LocalFields>,
)
    requires
        all_times_ok(s.entries),
        in_send_order(s.entries),
        local_readings(zoomed(s.entries, q), cals, offsets),
        forall|i: int| 0 <= i < offsets.len() ==> offsets[i] == offset,
        report_matches(r, s, q, cals),
        0 <= j < r.points@.len(),
        report_matches(
            r2,
            s,
            ZoomParams { start: Some(r.points@[j].start_ts), end: Some(r.points@[j].end_ts) },
            cals2,
        ),
    ensures
        r2.interval is Some,
        r2.is_zoomed,
        interval_rank(r2.interval.unwrap()) < interval_rank(r.interval.unwrap())
            || (r.interval == Some(Interval::RawSec) && r2.interval == Some(Interval::RawSec)),
{
    let e = s.entries;
    let f = zoomed(e, q);
    let n = f.len() as int;
    let p = r.points@[j];
    let iv = interval_for(span_seconds(f[0], f[n - 1]));
    let lb = labels_of(iv, cals, n);
    let q2 = ZoomParams { start: Some(p.start_ts), end: Some(p.end_ts) };
    let f2 = zoomed(e, q2);
    assert(point_matches(p, f, lb));
    lemma_group_facts(f, lb, p.label@, n);
    lemma_group_first_witness(f, lb, p.label@, n);
    lemma_bucket_within_zoom(r, s, q, cals, j);
    let i1 = choose|i: int| 0 <= i < n && lb[i] == p.label@ && #[trigger] f[i]@.secs == p.start_ts;
    let i2 = choose|i: int| 0 <= i < n && lb[i] == p.label@ && #[trigger] f[i]@.secs == p.end_ts;
    // the zoomed report is not empty
    lemma_zoom_keeps_in_range(e, q, f[i1]);
    assert(f.contains(f[i1]));
    lemma_zoom_keeps_in_range(e, q2, f[i1]);
    assert(f2.contains(f[i1]));
    let n2 = f2.len() as int;
    // its span is at most the bucket's time range
    lemma_zoomed_all_in_range(e, q2);
    lemma_zoom_times_ok(e, q2);
    lemma_zoom_times_ok(e, q);
    assert(in_zoom(q2, f2[0]) && in_zoom(q2, f2[n2 - 1]));
    assert(sample_time_ok(f2[0]@.secs, f2[0]@.nanos) && sample_time_ok(f2[n2 - 1]@.secs, f2[n2 - 1]@.nanos));
    lemma_span_bounds(f2[0], f2[n2 - 1]);
    let d = p.end_ts - p.start_ts;
    let sp2 = span_seconds(f2[0], f2[n2 - 1]);
    assert(sp2 <= d);
    // the bucket's time range is at most the report's span, plus one second
    lemma_zoom_keeps_order(e, q);
    assert(sample_time_ok(f[0]@.secs, f[0]@.nanos) && sample_time_ok(f[n - 1]@.secs, f[n - 1]@.nanos));
    assert(sent_no_later(f[0], f[n - 1]));
    lemma_span_bounds(f[0], f[n - 1]);
    let sp = span_seconds(f[0], f[n - 1]);
    if i1 <= i2 {
        assert(sent_no_later(f[0], f[i1]) && sent_no_later(f[i2], f[n - 1]));
    } else {
        assert(sent_no_later(f[i2], f[i1]));
    }
    assert(d <= sp + 1);
    // two samples of one bucket lie close together
    assert(reading_matches(cals[i1], f[i1], offsets[i1]));
    assert(reading_matches(cals[i2], f[i2], offsets[i2]));
    let t1 = f[i1]@.secs + offset;
    let t2 = f[i2]@.secs + offset;
    assert(lb[i1] == label_for(iv, cals[i1]) && lb[i2] == label_for(iv, cals[i2]));
    assert(iv != Interval::Day ==> d <= span_limit(iv));
    lemma_same_label_gap(iv, cals[i1], cals[i2], t1, t2);
    assert(d < gap_limit(iv));
    assert(sp2 < gap_limit(iv));
    if sp2 < 0 {
        assert(trunc_div(sp2, 60) <= 0) by {
            assert((-sp2) / 60 >= 0) by (nonlinear_arith) requires -sp2 > 0;
        }
    }
}

/// How many times `v` occurs in `s`.
pub open spec fn seq_count(s: Seq<u64>, v: u64) -> nat
    decreases s.len(),
{
    if s.len() == 0 {
        0
    } else {
        seq_count(s.drop_last(), v) + if s.last() == v { 1nat } else { 0nat }
    }
}

/// How many of the first `n` samples carry label `l` and were answered in
/// exactly `v` nanoseconds.
pub open spec fn answered_in_bucket(f: Seq<Sample>, lb: Seq<Seq<char>>, l: Seq<char>, v: u64, n: int) -> nat
    decreases n,
{
    if n <= 0 {
        0
    } else {
        answered_in_bucket(f, lb, l, v, n - 1) + if lb[n - 1] == l && f[n - 1]@.latency_nanos == Some(v) {
            1nat
        } else {
            0nat
        }
    }
}

/// How many of the first `n` samples carry label `l` and were not answered.
pub open spec fn lost_in_bucket(f: Seq<Sample>, lb: Seq<Seq<char>>, l: Seq<char>, n: int) -> nat
    decreases n,
{
    if n <= 0 {
        0
    } else {
        lost_in_bucket(f, lb, l, n - 1) + if lb[n - 1] == l && f[n - 1]@.latency_nanos is None {
            1nat
        } else {
            0nat
        }
    }
}

/// How many of the first `n` samples were answered in exactly `v` nanoseconds.
pub open spec fn answered_in(f: Seq<Sample>, v: u64, n: int) -> nat
    decreases n,
{
    if n <= 0 {
        0
    } else {
        answered_in(f, v, n - 1) + if f[n - 1]@.latency_nanos == Some(v) { 1nat } else { 0nat }
    }
}

/// How many of the first `n` samples were answered at all.
pub open spec fn answered_count(f: Seq<Sample>, n: int) -> nat
    decreases n,
{
    if n <= 0 {
        0
    } else {
        answered_count(f, n - 1) + if f[n - 1]@.latency_nanos is Some { 1nat } else { 0nat }
    }
}

proof fn lemma_seq_count_push(s: Seq<u64>, x: u64, v: u64)
    ensures
        seq_count(s.push(x), v) == seq_count(s, v) + if x == v { 1nat } else { 0nat },
{
    assert(s.push(x).drop_last() =~= s);
}

proof fn lemma_seq_count_contains(s: Seq<u64>, v: u64)
    ensures
        seq_count(s, v) > 0 <==> s.contains(v),
    decreases s.len(),
{
    if s.len() > 0 {
        let p = s.drop_last();
        lemma_seq_count_contains(p, v);
        if p.contains(v) {
            let k = choose|k: int| 0 <= k < p.len() && p[k] == v;
            assert(s[k] == v);
        }
        if s.contains(v) {
            let k = choose|k: int| 0 <= k < s.len() && s[k] == v;
            if k < s.len() - 1 {
                assert(p[k] == v);
            }
        }
    }
}

proof fn lemma_group_counts(f: Seq<Sample>, lb: Seq<Seq<char>>, l: Seq<char>, v: u64, n: int)
    requires
        0 <= n <= f.len(),
        n <= lb.len(),
    ensures
        seq_count(group_latencies(f, lb, l, n), v) == answered_in_bucket(f, lb, l, v, n),
        group_timeouts(f, lb, l, n) == lost_in_bucket(f, lb, l, n),
    decreases n,
{
    if n > 0 {
        lemma_group_counts(f, lb, l, v, n - 1);
        let p = group_latencies(f, lb, l, n - 1);
        if lb[n - 1] == l && f[n - 1]@.latency_nanos is Some {
            lemma_seq_count_push(p, f[n - 1]@.latency_nanos.unwrap(), v);
        }
    }
}

proof fn lemma_received_counts(f: Seq<Sample>, v: u64, n: int)
    requires
        0 <= n <= f.len(),
    ensures
        seq_count(received(f, n), v) == answered_in(f, v, n),
        received(f, n).len() == answered_count(f, n),
    decreases n,
{
    if n > 0 {
        lemma_received_counts(f, v, n - 1);
        if let Some(d) = f[n - 1]@.latency_nanos {
            lemma_seq_count_push(received(f, n - 1), d, v);
        }
    }
}

proof fn lemma_answered_in_witness(f: Seq<Sample>, v: u64, n: int)
    requires
        0 <= n <= f.len(),
    ensures
        answered_in(f, v, n) > 0 <==> exists|i: int| 0 <= i < n && #[trigger] f[i]@.latency_nanos == Some(v),
    decreases n,
{
    if n > 0 {
        lemma_answered_in_witness(f, v, n - 1);
        if f[n - 1]@.latency_nanos == Some(v) {
            assert(f[n - 1]@.latency_nanos == Some(v));
        }
        if exists|i: int| 0 <= i < n && #[trigger] f[i]@.latency_nanos == Some(v) {
            let i = choose|i: int| 0 <= i < n && #[trigger] f[i]@.latency_nanos == Some(v);
            if i < n - 1 {
                assert(f[i]@.latency_nanos == Some(v));
            }
        }
    }
}

/// Each bucket of a report holds exactly its own samples: for every value,
/// the bucket's latencies hold it as often as the samples in range that carry
/// the bucket's label were answered in that time; its lost pings are those
/// samples that were not answered; and its first and last send seconds are
/// those of some of its samples, with all its samples sent in between.
pub proof fn lemma_bucket_holds_its_samples(r: FinalStats, s: StatsView, q: ZoomParams, cals: Seq<LocalFields>, j: int)
    requires
        report_matches(r, s, q, cals),
        0 <= j < r.points@.len(),
    ensures
        ({
            let f = zoomed(s.entries, q);
            let n = f.len() as int;
            let p = r.points@[j];
            let lb = labels_of(interval_for(span_seconds(f[0], f[n - 1])), cals, n);
            &&& forall|v: u64| #[trigger] seq_count(p.latencies@, v) == answered_in_bucket(f, lb, p.label@, v, n)
            &&& p.timeouts == lost_in_bucket(f, lb, p.label@, n)
            &&& exists|i: int| 0 <= i < n && lb[i] == p.label@ && #[trigger] f[i]@.secs == p.start_ts
            &&& exists|i: int| 0 <= i < n && lb[i] == p.label@ && #[trigger] f[i]@.secs == p.end_ts
            &&& forall|i: int| 0 <= i < n && lb[i] == p.label@ ==> p.start_ts <= #[trigger] f[i]@.secs <= p.end_ts
        }),
{
    let f = zoomed(s.entries, q);
    let n = f.len() as int;
    let p = r.points@[j];
    let lb = labels_of(interval_for(span_seconds(f[0], f[n - 1])), cals, n);
    assert(point_matches(p, f, lb));
    assert forall|v: u64| #[trigger] seq_count(p.latencies@, v) == answered_in_bucket(f, lb, p.label@, v, n) by {
        lemma_group_counts(f, lb, p.label@, v, n);
    }
    lemma_group_counts(f, lb, p.label@, 0, n);
    lemma_group_facts(f, lb, p.label@, n);
    lemma_group_first_witness(f, lb, p.label@, n);
}

/// A report's answered pings are exactly the answered samples in range: it
/// counts every one of them, its latencies hold each value as often as the
/// samples in range were answered in that time, and its least and greatest
/// latencies bound every answered sample's and are some sample's.
pub proof fn lemma_report_latencies_are_answered(r: FinalStats, s: StatsView, q: ZoomParams, cals: Seq<LocalFields>)
    ensures
        report_matches(r, s, q, cals) ==> ({
            let f = zoomed(s.entries, q);
            let n = f.len() as int;
            &&& r.total_received == answered_count(f, n)
            &&& forall|v: u64| #[trigger] seq_count(r.latencies@, v) == answered_in(f, v, n)
            &&& forall|i: int| 0 <= i < n && (#[trigger] f[i]@.latency_nanos) is Some ==> {
                &&& r.min_latency_nanos matches Some(m) && m <= f[i]@.latency_nanos.unwrap()
                &&& r.max_latency_nanos matches Some(m) && f[i]@.latency_nanos.unwrap() <= m
            }
            &&& r.min_latency_nanos matches Some(m) ==> exists|i: int| 0 <= i < n && #[trigger] f[i]@.latency_nanos == Some(m)
            &&& r.max_latency_nanos matches Some(m) ==> exists|i: int| 0 <= i < n && #[trigger] f[i]@.latency_nanos == Some(m)
        }),
{
    if report_matches(r, s, q, cals) {
        let f = zoomed(s.entries, q);
        let n = f.len() as int;
        if n == 0 {
            assert(r.latencies@ =~= Seq::<u64>::empty());
            assert forall|v: u64| #[trigger] seq_count(r.latencies@, v) == answered_in(f, v, n) by {}
        } else {
            lemma_received_counts(f, 0, n);
            assert forall|v: u64| #[trigger] seq_count(r.latencies@, v) == answered_in(f, v, n) by {
                lemma_received_counts(f, v, n);
            }
            lemma_report_latency_bounds(r, s, q, cals);
            assert forall|i: int| 0 <= i < n && (#[trigger] f[i]@.latency_nanos) is Some implies {
                &&& r.min_latency_nanos matches Some(m) && m <= f[i]@.latency_nanos.unwrap()
                &&& r.max_latency_nanos matches Some(m) && f[i]@.latency_nanos.unwrap() <= m
            } by {
                let d = f[i]@.latency_nanos.unwrap();
                lemma_answered_in_witness(f, d, n);
                lemma_received_counts(f, d, n);
                lemma_seq_count_contains(r.latencies@, d);
            }
            if let Some(m) = r.min_latency_nanos {
                lemma_seq_count_contains(r.latencies@, m);
                lemma_received_counts(f, m, n);
                lemma_answered_in_witness(f, m, n);
            }
            if let Some(m) = r.max_latency_nanos {
                lemma_seq_count_contains(r.latencies@, m);
                lemma_received_counts(f, m, n);
                lemma_answered_in_witness(f, m, n);
            }
        }
    }
}

} // verus!
