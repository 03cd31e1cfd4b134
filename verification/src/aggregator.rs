//! Windowed detection counts per camera per vehicle class.
//!
//! Detections are grouped into fixed-size time windows per camera, keeping
//! per-class vehicle counts. Old windows are garbage-collected beyond the
//! retention period.
use std::collections::HashMap;
use vstd::prelude::*;
use vstd::std_specs::iter::IteratorSpec;

verus! {

broadcast use vstd::std_specs::hash::group_hash_axioms;

/// Default window duration: 5 minutes in milliseconds.
pub const DEFAULT_WINDOW_DURATION_MS: i64 = 300_000;

/// Default retention period: 1 hour in milliseconds.
pub const DEFAULT_RETENTION_MS: i64 = 3_600_000;

/// A time window holding per-class detection counts.
#[derive(Debug)]
pub struct TimeWindow {
    /// Window start time (inclusive), Unix epoch milliseconds.
    pub start_ms: i64,
    /// Window end time (exclusive), Unix epoch milliseconds.
    pub end_ms: i64,
    /// Per-class vehicle counts accumulated in this window.
    pub counts: HashMap<i32, u32>,
}

/// A window as plain values: start, end, and per-class counts.
pub open spec fn window_view(w: TimeWindow) -> (i64, i64, Map<i32, u32>) {
    (w.start_ms, w.end_ms, w.counts@)
}

/// Windows as plain values, in order.
pub open spec fn windows_view(ws: Seq<TimeWindow>) -> Seq<(i64, i64, Map<i32, u32>)> {
    ws.map_values(|w: TimeWindow| window_view(w))
}

/// The absolute value of `a`.
pub open spec fn abs(a: int) -> int {
    if a >= 0 {
        a
    } else {
        -a
    }
}

/// Integer division by a positive `m`, rounding toward zero.
pub open spec fn trunc_pos(a: int, m: int) -> int {
    if a >= 0 {
        a / m
    } else {
        -((-a) / m)
    }
}

/// Integer division rounding toward zero, as Rust's `/` does.
pub open spec fn trunc_div(a: int, b: int) -> int {
    if b > 0 {
        trunc_pos(a, b)
    } else {
        -trunc_pos(a, -b)
    }
}

/// Every window of `ws` spans `duration` from a start that is a multiple
/// of `duration`, and no two windows start at the same time.
pub open spec fn aligned(ws: Seq<(i64, i64, Map<i32, u32>)>, duration: i64) -> bool {
    &&& forall|i: int| 0 <= i < ws.len() ==> (#[trigger] ws[i]).1 == ws[i].0 + duration && (ws[i].0 as int) % abs(duration as int) == 0
    &&& forall|i: int, j: int| 0 <= i < j < ws.len() ==> (#[trigger] ws[i]).0 != (#[trigger] ws[j]).0
}

/// Start of the window of `duration` that holds `timestamp`.
pub open spec fn window_start(timestamp: i64, duration: i64) -> int {
    trunc_div(timestamp as int, duration as int) * duration
}

/// Index of the first window starting at `start`, if any.
pub open spec fn find_window(ws: Seq<(i64, i64, Map<i32, u32>)>, start: int) -> Option<int>
    decreases ws.len(),
{
    if ws.len() == 0 {
        None
    } else if ws[0].0 == start {
        Some(0)
    } else {
        match find_window(ws.subrange(1, ws.len() as int), start) {
            Some(k) => Some(k + 1),
            None => None,
        }
    }
}

/// Count of `class` in a window's counts (0 if absent).
pub open spec fn class_count(counts: Map<i32, u32>, class: i32) -> nat {
    if counts.contains_key(class) {
        counts[class] as nat
    } else {
        0
    }
}

/// Counts after adding `n` to `class`.
pub open spec fn add_count(counts: Map<i32, u32>, class: i32, n: u32) -> Map<i32, u32> {
    counts.insert(class, (class_count(counts, class) + n) as u32)
}

/// The windows after ingesting `n` detections of `class` at `timestamp`:
/// added to the first window with the event's start, or to a new window
/// appended at the end.
pub open spec fn ingested(
    ws: Seq<(i64, i64, Map<i32, u32>)>,
    duration: i64,
    timestamp: i64,
    class: i32,
    n: u32,
) -> Seq<(i64, i64, Map<i32, u32>)> {
    let start = window_start(timestamp, duration);
    match find_window(ws, start) {
        Some(k) => ws.update(k, (ws[k].0, ws[k].1, add_count(ws[k].2, class, n))),
        None => ws.push((start as i64, (start + duration) as i64, map![class => n])),
    }
}

/// The windows that end after `cutoff`, in order.
pub open spec fn retained(ws: Seq<(i64, i64, Map<i32, u32>)>, cutoff: int) -> Seq<(i64, i64, Map<i32, u32>)>
    decreases ws.len(),
{
    if ws.len() == 0 {
        Seq::empty()
    } else {
        let rest = retained(ws.drop_last(), cutoff);
        if ws.last().1 > cutoff {
            rest.push(ws.last())
        } else {
            rest
        }
    }
}

/// Index of the window with the greatest start; the last one among equals.
pub open spec fn latest_index(ws: Seq<(i64, i64, Map<i32, u32>)>) -> int
    decreases ws.len(),
{
    if ws.len() <= 1 {
        0
    } else {
        let k = latest_index(ws.drop_last());
        if ws.last().0 >= ws[k].0 {
            ws.len() - 1
        } else {
            k
        }
    }
}

/// Sum of the counts of `class` over the windows.
pub open spec fn class_total(ws: Seq<(i64, i64, Map<i32, u32>)>, class: i32) -> nat
    decreases ws.len(),
{
    if ws.len() == 0 {
        0
    } else {
        class_total(ws.drop_last(), class) + class_count(ws.last().2, class)
    }
}

proof fn lemma_trunc_pos_bounds(t: int, m: int)
    requires
        m > 0,
    ensures
        t >= 0 ==> 0 <= trunc_pos(t, m) * m <= t,
        t < 0 ==> t <= trunc_pos(t, m) * m <= 0,
{
    if t >= 0 {
        assert(0 <= (t / m) * m <= t) by (nonlinear_arith)
            requires
                t >= 0,
                m > 0,
        ;
    } else {
        assert(0 <= ((-t) / m) * m <= -t) by (nonlinear_arith)
            requires
                -t > 0,
                m > 0,
        ;
        assert(trunc_pos(t, m) * m == -(((-t) / m) * m)) by (nonlinear_arith)
            requires
                trunc_pos(t, m) == -((-t) / m),
        ;
    }
}

proof fn lemma_window_start_bounds(t: int, d: int)
    requires
        d != 0,
    ensures
        t >= 0 ==> 0 <= trunc_div(t, d) * d <= t,
        t < 0 ==> t <= trunc_div(t, d) * d <= 0,
        (trunc_div(t, d) * d) % abs(d) == 0,
{
    let m = abs(d);
    let p = trunc_pos(t, m);
    lemma_trunc_pos_bounds(t, m);
    assert(trunc_div(t, d) * d == p * m) by (nonlinear_arith)
        requires
            trunc_div(t, d) == if d > 0 { p } else { -p },
            m == if d >= 0 { d } else { -d },
            d != 0,
    ;
    vstd::arithmetic::div_mod::lemma_mod_multiples_basic(p, m);
}

proof fn lemma_aligned_holds(s: int, t: int, d: int)
    requires
        d > 0,
        t >= 0,
        s % d == 0,
    ensures
        (s <= t < s + d) <==> s == (t / d) * d,
{
    vstd::arithmetic::div_mod::lemma_fundamental_div_mod(s, d);
    vstd::arithmetic::div_mod::lemma_fundamental_div_mod(t, d);
    vstd::arithmetic::div_mod::lemma_mod_pos_bound(t, d);
    let m = s / d;
    let q = t / d;
    let r = t % d;
    if s <= t < s + d {
        assert(m == q) by (nonlinear_arith)
            requires
                s == d * m,
                t == d * q + r,
                0 <= r < d,
                s <= t,
                t < s + d,
                d > 0,
        ;
    }
    if s == q * d {
        assert(s <= t < s + d) by (nonlinear_arith)
            requires
                s == q * d,
                t == d * q + r,
                0 <= r < d,
        ;
    }
}

proof fn lemma_find_window_none(ws: Seq<(i64, i64, Map<i32, u32>)>, start: int)
    requires
        find_window(ws, start) == None::<int>,
    ensures
        forall|i: int| 0 <= i < ws.len() ==> (#[trigger] ws[i]).0 != start,
    decreases ws.len(),
{
    if ws.len() > 0 {
        let rest = ws.subrange(1, ws.len() as int);
        lemma_find_window_none(rest, start);
        assert forall|i: int| 0 <= i < ws.len() implies (#[trigger] ws[i]).0 != start by {
            if i > 0 {
                assert(ws[i] == rest[i - 1]);
            }
        }
    }
}

proof fn lemma_find_window_some(ws: Seq<(i64, i64, Map<i32, u32>)>, start: int, k: int)
    requires
        0 <= k < ws.len(),
        ws[k].0 == start,
    ensures
        find_window(ws, start) is Some,
{
    if find_window(ws, start) is None {
        lemma_find_window_none(ws, start);
        assert(ws[k].0 != start);
    }
}

/// Law: ingesting keeps a camera's windows aligned to the duration; the
/// detection's window is then there, and, for a positive duration and a
/// non-negative timestamp, it is the one window whose span holds the
/// timestamp.
pub proof fn lemma_ingested_aligned(
    ws: Seq<(i64, i64, Map<i32, u32>)>,
    duration: i64,
    timestamp: i64,
    class: i32,
    n: u32,
)
    requires
        duration != 0,
        i64::MIN <= window_start(timestamp, duration) + duration <= i64::MAX,
    ensures
        aligned(ws, duration) ==> aligned(ingested(ws, duration, timestamp, class, n), duration),
        find_window(ingested(ws, duration, timestamp, class, n), window_start(timestamp, duration)) is Some,
        duration > 0 && timestamp >= 0 ==> window_start(timestamp, duration) <= timestamp < window_start(timestamp, duration)
            + duration,
        duration > 0 && timestamp >= 0 && aligned(ws, duration) ==> {
            let w = ingested(ws, duration, timestamp, class, n);
            forall|k: int| 0 <= k < w.len() ==> ((#[trigger] w[k]).0 <= timestamp < w[k].1 <==> k == find_window(
                w,
                window_start(timestamp, duration),
            )->0)
        },
{
    let st = window_start(timestamp, duration);
    let d = duration as int;
    lemma_window_start_bounds(timestamp as int, d);
    let w = ingested(ws, duration, timestamp, class, n);
    lemma_find_window_found(ws, st);
    match find_window(ws, st) {
        Some(k) => {
            assert(w[k].0 == st);
            lemma_find_window_some(w, st, k);
            if aligned(ws, duration) {
                assert forall|i: int| 0 <= i < w.len() implies (#[trigger] w[i]).1 == w[i].0 + duration && (w[i].0 as int)
                    % abs(duration as int) == 0 by {
                    assert(w[i].0 == ws[i].0 && w[i].1 == ws[i].1);
                }
                assert forall|i: int, j: int| 0 <= i < j < w.len() implies (#[trigger] w[i]).0 != (#[trigger] w[j]).0 by {
                    assert(w[i].0 == ws[i].0 && w[j].0 == ws[j].0);
                }
            }
        },
        None => {
            lemma_find_window_none(ws, st);
            assert(w[ws.len() as int].0 == st);
            lemma_find_window_some(w, st, ws.len() as int);
            if aligned(ws, duration) {
                assert forall|i: int| 0 <= i < w.len() implies (#[trigger] w[i]).1 == w[i].0 + duration && (w[i].0 as int)
                    % abs(duration as int) == 0 by {
                    if i < ws.len() {
                        assert(w[i] == ws[i]);
                    }
                }
                assert forall|i: int, j: int| 0 <= i < j < w.len() implies (#[trigger] w[i]).0 != (#[trigger] w[j]).0 by {
                    assert(w[i] == ws[i]);
                    if j < ws.len() {
                        assert(w[j] == ws[j]);
                    }
                }
            }
        },
    }
    if duration > 0 && timestamp >= 0 {
        assert(st == (timestamp / duration) * duration);
        lemma_aligned_holds(st, timestamp as int, d);
        if aligned(ws, duration) {
            let j = find_window(w, st)->0;
            lemma_find_window_found(w, st);
            assert forall|k: int| 0 <= k < w.len() implies ((#[trigger] w[k]).0 <= timestamp < w[k].1 <==> k == j) by {
                assert(w[k].1 == w[k].0 + duration && (w[k].0 as int) % d == 0);
                lemma_aligned_holds(w[k].0 as int, timestamp as int, d);
                if k != j {
                    if k < j {
                        assert(w[k].0 != w[j].0);
                    } else {
                        assert(w[j].0 != w[k].0);
                    }
                }
            }
        }
    }
}

/// Windows that end after `cutoff`.
pub open spec fn ends_after(cutoff: int) -> spec_fn((i64, i64, Map<i32, u32>)) -> bool {
    |w: (i64, i64, Map<i32, u32>)| w.1 > cutoff
}

/// Law: retention keeps exactly the windows that end after the cutoff, in
/// their order. A window ending after the cutoff is never dropped, and one
/// ending at or before it is never kept.
pub proof fn lemma_retained_exact(ws: Seq<(i64, i64, Map<i32, u32>)>, cutoff: int)
    ensures
        retained(ws, cutoff) == ws.filter(ends_after(cutoff)),
        forall|w: (i64, i64, Map<i32, u32>)| #[trigger] retained(ws, cutoff).contains(w) <==> (ws.contains(w) && w.1 > cutoff),
    decreases ws.len(),
{
    reveal(Seq::filter);
    if ws.len() > 0 {
        let init = ws.drop_last();
        let last = ws.last();
        lemma_retained_exact(init, cutoff);
        let rest = retained(init, cutoff);
        assert forall|w: (i64, i64, Map<i32, u32>)| #[trigger] ws.contains(w) <==> (init.contains(w) || w == last) by {
            if ws.contains(w) {
                let k = choose|k: int| 0 <= k < ws.len() && ws[k] == w;
                if k < ws.len() - 1 {
                    assert(init[k] == w);
                }
            }
            if init.contains(w) {
                let k = choose|k: int| 0 <= k < init.len() && init[k] == w;
                assert(ws[k] == w);
            }
            if w == last {
                assert(ws[ws.len() - 1] == w);
            }
        }
        if last.1 > cutoff {
            let r = rest.push(last);
            assert forall|w: (i64, i64, Map<i32, u32>)| #[trigger] r.contains(w) <==> (rest.contains(w) || w == last) by {
                if r.contains(w) {
                    let k = choose|k: int| 0 <= k < r.len() && r[k] == w;
                    if k < rest.len() {
                        assert(rest[k] == w);
                    }
                }
                if rest.contains(w) {
                    let k = choose|k: int| 0 <= k < rest.len() && rest[k] == w;
                    assert(r[k] == w);
                }
                if w == last {
                    assert(r[rest.len() as int] == w);
                }
            }
        }
    }
}

proof fn lemma_retained_aligned(ws: Seq<(i64, i64, Map<i32, u32>)>, cutoff: int, d: i64)
    requires
        aligned(ws, d),
    ensures
        aligned(retained(ws, cutoff), d),
        forall|w: (i64, i64, Map<i32, u32>)| #[trigger] retained(ws, cutoff).contains(w) ==> ws.contains(w),
    decreases ws.len(),
{
    if ws.len() > 0 {
        let init = ws.drop_last();
        assert(aligned(init, d)) by {
            assert forall|i: int| 0 <= i < init.len() implies (#[trigger] init[i]).1 == init[i].0 + d && (init[i].0 as int) % abs(d as int) == 0 by {
                assert(init[i] == ws[i]);
            }
            assert forall|i: int, j: int| 0 <= i < j < init.len() implies (#[trigger] init[i]).0 != (#[trigger] init[j]).0 by {
                assert(init[i] == ws[i] && init[j] == ws[j]);
            }
        }
        lemma_retained_aligned(init, cutoff, d);
        let rest = retained(init, cutoff);
        let last = ws[ws.len() - 1];
        assert(ws.last() == last);
        assert forall|w: (i64, i64, Map<i32, u32>)| #[trigger] retained(ws, cutoff).contains(w) implies ws.contains(w) by {
            if rest.contains(w) {
                let k = choose|k: int| 0 <= k < init.len() && init[k] == w;
                assert(ws[k] == w);
            } else {
                assert(w == last);
                assert(ws[ws.len() - 1] == w);
            }
        }
        if last.1 > cutoff {
            let r = rest.push(last);
            assert forall|i: int| 0 <= i < r.len() implies (#[trigger] r[i]).1 == r[i].0 + d && (r[i].0 as int) % abs(d as int) == 0 by {
                if i < rest.len() {
                    assert(r[i] == rest[i]);
                    assert(rest.contains(rest[i]));
                    assert(ws.contains(rest[i]));
                }
            }
            assert forall|i: int, j: int| 0 <= i < j < r.len() implies (#[trigger] r[i]).0 != (#[trigger] r[j]).0 by {
                assert(r[i] == rest[i]);
                if j < rest.len() {
                    assert(r[j] == rest[j]);
                } else {
                    assert(rest.contains(rest[i]));
                    assert(init.contains(rest[i]));
                    let k = choose|k: int| 0 <= k < init.len() && init[k] == rest[i];
                    assert(ws[k] == init[k]);
                }
            }
        }
    }
}

proof fn lemma_latest_index_bounds(ws: Seq<(i64, i64, Map<i32, u32>)>)
    requires
        ws.len() > 0,
    ensures
        0 <= latest_index(ws) < ws.len(),
        forall|j: int| 0 <= j < ws.len() ==> (#[trigger] ws[j]).0 <= ws[latest_index(ws)].0,
    decreases ws.len(),
{
    if ws.len() > 1 {
        lemma_latest_index_bounds(ws.drop_last());
        let k = latest_index(ws.drop_last());
        assert(ws.drop_last()[k] == ws[k]);
        assert forall|j: int| 0 <= j < ws.len() implies (#[trigger] ws[j]).0 <= ws[latest_index(ws)].0 by {
            if j < ws.len() - 1 {
                assert(ws.drop_last()[j] == ws[j]);
            }
        }
    }
}

proof fn lemma_class_total_monotone(ws: Seq<(i64, i64, Map<i32, u32>)>, class: i32, n: int)
    requires
        0 <= n <= ws.len(),
    ensures
        class_total(ws.take(n), class) <= class_total(ws, class),
    decreases ws.len() - n,
{
    if n < ws.len() {
        lemma_class_total_monotone(ws, class, n + 1);
        assert(ws.take(n + 1).drop_last() =~= ws.take(n));
    } else {
        assert(ws.take(n) =~= ws);
    }
}

proof fn lemma_find_window_found(ws: Seq<(i64, i64, Map<i32, u32>)>, start: int)
    ensures
        match find_window(ws, start) {
            Some(k) => 0 <= k < ws.len() && ws[k].0 == start,
            None => true,
        },
    decreases ws.len(),
{
    if ws.len() > 0 && ws[0].0 != start {
        let rest = ws.subrange(1, ws.len() as int);
        lemma_find_window_found(rest, start);
        match find_window(rest, start) {
            Some(k) => {
                assert(rest[k] == ws[k + 1]);
            },
            None => {},
        }
    }
}

proof fn lemma_class_total_update(ws: Seq<(i64, i64, Map<i32, u32>)>, k: int, w: (i64, i64, Map<i32, u32>), class: i32)
    requires
        0 <= k < ws.len(),
    ensures
        class_total(ws.update(k, w), class) + class_count(ws[k].2, class) == class_total(ws, class) + class_count(w.2, class),
    decreases ws.len(),
{
    let u = ws.update(k, w);
    if k == ws.len() - 1 {
        assert(u.drop_last() =~= ws.drop_last());
    } else {
        lemma_class_total_update(ws.drop_last(), k, w, class);
        assert(u.drop_last() =~= ws.drop_last().update(k, w));
    }
}

/// Law: ingesting `n` detections of a class adds exactly `n` to that
/// class's total over the camera's windows and leaves every other class's
/// total unchanged.
pub proof fn lemma_ingest_adds_to_total(
    ws: Seq<(i64, i64, Map<i32, u32>)>,
    duration: i64,
    timestamp: i64,
    class: i32,
    n: u32,
    other: i32,
)
    requires
        ({
            let s = window_start(timestamp, duration);
            match find_window(ws, s) {
                Some(k) => class_count(ws[k].2, class) + n <= u32::MAX,
                None => true,
            }
        }),
    ensures
        class_total(ingested(ws, duration, timestamp, class, n), class) == class_total(ws, class) + n,
        other != class ==> class_total(ingested(ws, duration, timestamp, class, n), other) == class_total(ws, other),
{
    let s = window_start(timestamp, duration);
    lemma_find_window_found(ws, s);
    match find_window(ws, s) {
        Some(k) => {
            let w = (ws[k].0, ws[k].1, add_count(ws[k].2, class, n));
            lemma_class_total_update(ws, k, w, class);
            lemma_class_total_update(ws, k, w, other);
        },
        None => {
            let w = (s as i64, (s + duration) as i64, map![class => n]);
            assert(ws.push(w).drop_last() =~= ws);
        },
    }
}

/// Windowed detection aggregator per camera.
///
/// Groups detections into fixed-size time windows and tracks per-class
/// counts. Supports garbage collection of old windows.
#[derive(Debug)]
pub struct DetectionAggregator {
    /// Duration of each window in milliseconds.
    pub window_duration_ms: i64,
    /// How long to retain windows before collection, in milliseconds.
    pub retention_ms: i64,
    /// Per-camera time windows, in creation order.
    cameras: HashMap<u32, Vec<TimeWindow>>,
}

impl DetectionAggregator {
    /// Duration of each window in milliseconds.
    pub closed spec fn duration(&self) -> i64 {
        self.window_duration_ms
    }

    /// How long windows are retained, in milliseconds.
    pub closed spec fn retention(&self) -> i64 {
        self.retention_ms
    }

    /// The windows of a camera, in creation order (none for an unseen camera).
    pub closed spec fn windows(&self, camera_id: u32) -> Seq<(i64, i64, Map<i32, u32>)> {
        if self.cameras@.contains_key(camera_id) {
            windows_view(self.cameras@[camera_id]@)
        } else {
            Seq::empty()
        }
    }

    /// Create an aggregator with the given window duration and retention.
    pub fn new(window_duration_ms: i64, retention_ms: i64) -> (r: Self)
        ensures
            r.duration() == window_duration_ms,
            r.retention() == retention_ms,
            forall|c: u32| #[trigger] r.windows(c).len() == 0,
            forall|c: u32| aligned(#[trigger] r.windows(c), window_duration_ms),
    {
        DetectionAggregator { window_duration_ms, retention_ms, cameras: HashMap::new() }
    }

    /// Ingest `count` detections of `vehicle_class` seen by a camera at
    /// `timestamp_ms`: they are added to the camera's window holding the
    /// timestamp, created if needed. Returns the window's start.
    pub fn ingest(&mut self, camera_id: u32, timestamp_ms: i64, vehicle_class: i32, count: u32) -> (start: i64)
        requires
            old(self).duration() != 0,
            !(timestamp_ms == i64::MIN && old(self).duration() == -1),
            i64::MIN <= window_start(timestamp_ms, old(self).duration()) + old(self).duration() <= i64::MAX,
            ({
                let ws = old(self).windows(camera_id);
                let s = window_start(timestamp_ms, old(self).duration());
                match find_window(ws, s) {
                    Some(k) => class_count(ws[k].2, vehicle_class) + count <= u32::MAX,
                    None => true,
                }
            }),
        ensures
            start == window_start(timestamp_ms, old(self).duration()),
            final(self).duration() == old(self).duration(),
            final(self).retention() == old(self).retention(),
            final(self).windows(camera_id) == ingested(old(self).windows(camera_id), old(self).duration(),
                timestamp_ms, vehicle_class, count),
            forall|c: u32| c != camera_id ==> #[trigger] final(self).windows(c) == old(self).windows(c),
            aligned(old(self).windows(camera_id), old(self).duration()) ==> aligned(final(self).windows(camera_id),
                old(self).duration()),
            find_window(final(self).windows(camera_id), start as int) is Some,
            old(self).duration() > 0 && timestamp_ms >= 0 ==> start <= timestamp_ms < start + old(self).duration(),
            old(self).duration() > 0 && timestamp_ms >= 0 && aligned(old(self).windows(camera_id), old(self).duration())
                ==> forall|k: int| 0 <= k < final(self).windows(camera_id).len() ==> ((#[trigger] final(self).windows(
                camera_id)[k]).0 <= timestamp_ms < final(self).windows(camera_id)[k].1 <==> k == find_window(
                final(self).windows(camera_id), start as int)->0),
    {
        let d = self.window_duration_ms;
        let q: i64 = if d > 0 {
            timestamp_ms / d
        } else if d == i64::MIN {
            proof {
                let m = 0x8000_0000_0000_0000int;
                let t = timestamp_ms as int;
                if t >= 0 {
                    assert(t / m == 0) by (nonlinear_arith)
                        requires
                            0 <= t < m,
                    ;
                } else if t > i64::MIN {
                    assert((-t) / m == 0) by (nonlinear_arith)
                        requires
                            0 < -t < m,
                    ;
                } else {
                    assert((-t) / m == 1) by (nonlinear_arith)
                        requires
                            -t == m,
                            m > 0,
                    ;
                }
            }
            if timestamp_ms == i64::MIN {
                1
            } else {
                0
            }
        } else {
            let p = timestamp_ms / (-d);
            proof {
                let t = timestamp_ms as int;
                let m = -d;
                lemma_trunc_pos_bounds(t, m);
                if t < 0 {
                    assert(p >= t && (p == t ==> m == 1)) by (nonlinear_arith)
                        requires
                            t <= p * m <= 0,
                            m >= 1,
                            t < 0,
                            p == -((-t) / m),
                    ;
                }
            }
            -p
        };
        proof {
            assert(q == trunc_div(timestamp_ms as int, d as int));
            lemma_window_start_bounds(timestamp_ms as int, d as int);
        }
        let start: i64 = q * d;
        let ghost ws0 = self.windows(camera_id);
        let mut windows: Vec<TimeWindow> = match self.cameras.remove(&camera_id) {
            Some(v) => v,
            None => Vec::new(),
        };
        assert(windows_view(windows@) == ws0);
        let mut k: usize = 0;
        let mut found = false;
        proof {
            assert(ws0.subrange(0, ws0.len() as int) =~= ws0);
        }
        while k < windows.len() && !found
            invariant
                k <= windows@.len(),
                windows_view(windows@) == ws0,
                !found ==> find_window(ws0, start as int) == match find_window(ws0.subrange(k as int, ws0.len() as int), start as int) {
                    Some(j) => Some(j + k),
                    None => None::<int>,
                },
                found ==> k < windows@.len() && find_window(ws0, start as int) == Some(k as int),
            decreases windows@.len() - k + if found { 0int } else { 1int },
        {
            let rest = Ghost(ws0.subrange(k as int, ws0.len() as int));
            proof {
                assert(rest@[0] == ws0[k as int]);
                assert(ws0[k as int] == window_view(windows@[k as int]));
            }
            if windows[k].start_ms == start {
                found = true;
            } else {
                proof {
                    assert(rest@.subrange(1, rest@.len() as int) =~= ws0.subrange(k + 1, ws0.len() as int));
                }
                k = k + 1;
            }
        }
        proof {
            if !found {
                assert(ws0.subrange(k as int, ws0.len() as int) =~= Seq::<(i64, i64, Map<i32, u32>)>::empty());
            }
        }
        if found {
            let ghost w0 = windows@[k as int];
            let old_count: u32 = match windows[k].counts.get(&vehicle_class) {
                Some(c) => *c,
                None => 0,
            };
            windows[k].counts.insert(vehicle_class, old_count + count);
            proof {
                assert(windows_view(windows@) =~= ws0.update(k as int, (ws0[k as int].0, ws0[k as int].1, add_count(ws0[k as int].2, vehicle_class, count))));
            }
        } else {
            let mut counts: HashMap<i32, u32> = HashMap::new();
            counts.insert(vehicle_class, count);
            windows.push(TimeWindow { start_ms: start, end_ms: start + d, counts });
            proof {
                assert(counts@ =~= map![vehicle_class => count]);
                assert(windows_view(windows@) =~= ws0.push((start, (start + d) as i64, map![vehicle_class => count])));
            }
        }
        let ghost others = self.cameras@;
        self.cameras.insert(camera_id, windows);
        proof {
            lemma_ingested_aligned(ws0, d, timestamp_ms, vehicle_class, count);
            assert forall|c: u32| c != camera_id implies #[trigger] self.windows(c) == old(self).windows(c) by {
                assert(others.contains_key(c) == old(self).cameras@.contains_key(c));
            }
        }
        start
    }

    /// Remove, for every camera, the windows that end at or before
    /// `now_ms - retention_ms`.
    pub fn gc(&mut self, now_ms: i64)
        requires
            i64::MIN <= now_ms - old(self).retention() <= i64::MAX,
        ensures
            final(self).duration() == old(self).duration(),
            final(self).retention() == old(self).retention(),
            forall|c: u32| #[trigger] final(self).windows(c) == retained(old(self).windows(c), now_ms - old(self).retention()),
            forall|c: u32, w: (i64, i64, Map<i32, u32>)| #[trigger] final(self).windows(c).contains(w) <==> (old(self).windows(
                c).contains(w) && w.1 > now_ms - old(self).retention()),
            forall|c: u32| aligned(old(self).windows(c), old(self).duration()) ==> aligned(#[trigger] final(self).windows(c),
                old(self).duration()),
    {
        let cutoff: i64 = now_ms - self.retention_ms;
        let ghost m0 = self.cameras@;
        let mut ids: Vec<u32> = Vec::new();
        let ghost g = vstd::std_specs::hash::spec_hash_map_iter(&self.cameras).remaining();
        for e in it: self.cameras.iter()
            invariant
                it.seq() == g,
                self.cameras@ == m0,
                ids@.len() == it.index(),
                forall|j: int| 0 <= j < ids@.len() ==> ids@[j] == *g[j].0,
                forall|x: u32| #[trigger] m0.contains_key(x) ==> g.contains((&x, &m0[x])),
        {
            ids.push(*e.0);
        }
        proof {
            assert forall|x: u32| #[trigger] m0.contains_key(x) implies ids@.contains(x) by {
                assert(g.contains((&x, &m0[x])));
                let j = choose|j: int| 0 <= j < g.len() && g[j] == (&x, &m0[x]);
                assert(ids@[j] == x);
            }
        }
        let mut i: usize = 0;
        while i < ids.len()
            invariant
                i <= ids@.len(),
                self.window_duration_ms == old(self).duration(),
                self.retention_ms == old(self).retention(),
                cutoff == now_ms - old(self).retention(),
                old(self).cameras@ == m0,
                forall|x: u32| #[trigger] m0.contains_key(x) ==> ids@.contains(x),
                forall|x: u32| #[trigger] self.cameras@.contains_key(x) == m0.contains_key(x),
                forall|c: u32| #[trigger] self.windows(c) == if ids@.take(i as int).contains(c) {
                    retained(old(self).windows(c), cutoff as int)
                } else {
                    old(self).windows(c)
                },
            decreases ids@.len() - i,
        {
            let c = ids[i];
            let ghost pre = *self;
            let ghost before = self.cameras@;
            let ghost w_before = self.windows(c);
            match self.cameras.remove(&c) {
                Some(ws) => {
                    let kept = retain_windows(&ws, cutoff);
                    self.cameras.insert(c, kept);
                    proof {
                        assert(w_before == windows_view(ws@));
                        assert(self.windows(c) == retained(w_before, cutoff as int));
                    }
                },
                None => {
                    proof {
                        assert(!m0.contains_key(c));
                        assert(old(self).windows(c) =~= Seq::<(i64, i64, Map<i32, u32>)>::empty());
                        assert(w_before =~= Seq::<(i64, i64, Map<i32, u32>)>::empty());
                        assert(retained(w_before, cutoff as int) =~= Seq::<(i64, i64, Map<i32, u32>)>::empty());
                    }
                },
            }
            proof {
                lemma_retained_idempotent(old(self).windows(c), cutoff as int);
                assert(retained(w_before, cutoff as int) == retained(old(self).windows(c), cutoff as int));
                assert(ids@.take(i + 1) =~= ids@.take(i as int).push(c));
                assert forall|d: u32| #[trigger] self.windows(d) == if ids@.take(i + 1).contains(d) {
                    retained(old(self).windows(d), cutoff as int)
                } else {
                    old(self).windows(d)
                } by {
                    if d != c {
                        assert(self.cameras@.contains_key(d) == before.contains_key(d));
                        if before.contains_key(d) {
                            assert(self.cameras@[d] == before[d]);
                        }
                        assert(self.windows(d) == pre.windows(d));
                        assert(ids@.take(i + 1).contains(d) == ids@.take(i as int).contains(d)) by {
                            if ids@.take(i + 1).contains(d) {
                                let j = choose|j: int| 0 <= j < i + 1 && #[trigger] ids@.take(i + 1)[j] == d;
                                assert(ids@.take(i as int)[j] == d);
                            }
                        }
                    } else {
                        assert(ids@.take(i + 1)[i as int] == c);
                        assert(ids@.take(i + 1).contains(c));
                        assert(self.windows(c) == retained(w_before, cutoff as int));
                    }
                }
            }
            i = i + 1;
        }
        proof {
            assert(ids@.take(i as int) =~= ids@);
            assert forall|c: u32| #[trigger] self.windows(c) == retained(old(self).windows(c), now_ms - old(self).retention()) by {
                if !ids@.contains(c) {
                    assert(!m0.contains_key(c));
                    assert(old(self).windows(c) == Seq::<(i64, i64, Map<i32, u32>)>::empty());
                }
            }
            assert forall|c: u32| aligned(old(self).windows(c), old(self).duration()) implies aligned(#[trigger] self.windows(c),
                old(self).duration()) by {
                lemma_retained_aligned(old(self).windows(c), now_ms - old(self).retention(), old(self).duration());
            }
            assert forall|c: u32, w: (i64, i64, Map<i32, u32>)| #[trigger] self.windows(c).contains(w) <==> (old(self).windows(
                c).contains(w) && w.1 > now_ms - old(self).retention()) by {
                lemma_retained_exact(old(self).windows(c), now_ms - old(self).retention());
            }
        }
    }

    /// The camera's most recent window (greatest start; the last created
    /// among equal starts), if it has any.
    pub fn latest_window(&self, camera_id: u32) -> (r: Option<&TimeWindow>)
        ensures
            match r {
                None => self.windows(camera_id).len() == 0,
                Some(w) => {
                    &&& self.windows(camera_id).len() > 0
                    &&& window_view(*w) == self.windows(camera_id)[latest_index(self.windows(camera_id))]
                    &&& forall|j: int| 0 <= j < self.windows(camera_id).len() ==> (#[trigger] self.windows(camera_id)[j]).0 <= w.start_ms
                },
            },
    {
        match self.cameras.get(&camera_id) {
            None => None,
            Some(ws) => {
                if ws.len() == 0 {
                    return None;
                }
                let ghost v = windows_view(ws@);
                let mut best: usize = 0;
                let mut j: usize = 1;
                while j < ws.len()
                    invariant
                        1 <= j <= ws@.len(),
                        v == windows_view(ws@),
                        best < j,
                        best == latest_index(v.take(j as int)),
                    decreases ws@.len() - j,
                {
                    proof {
                        assert(v.take(j + 1).drop_last() =~= v.take(j as int));
                        assert(v.take(j + 1)[best as int] == v[best as int]);
                    }
                    if ws[j].start_ms >= ws[best].start_ms {
                        best = j;
                    }
                    j = j + 1;
                }
                proof {
                    assert(v.take(j as int) =~= v);
                    lemma_latest_index_bounds(v);
                }
                Some(&ws[best])
            },
        }
    }

    /// The count of `class` in the camera's first window starting at
    /// `start_ms`; 0 when there is no such window or no such count.
    pub fn count_at(&self, camera_id: u32, start_ms: i64, class: i32) -> (r: u32)
        ensures
            r == match find_window(self.windows(camera_id), start_ms as int) {
                Some(k) => class_count(self.windows(camera_id)[k].2, class),
                None => 0,
            },
    {
        match self.cameras.get(&camera_id) {
            None => 0,
            Some(ws) => {
                let ghost v = windows_view(ws@);
                let mut j: usize = 0;
                proof {
                    assert(v.subrange(0, v.len() as int) =~= v);
                }
                while j < ws.len()
                    invariant
                        j <= ws@.len(),
                        v == windows_view(ws@),
                        v == self.windows(camera_id),
                        find_window(v, start_ms as int) == match find_window(v.subrange(j as int, v.len() as int), start_ms as int) {
                            Some(i) => Some(i + j),
                            None => None::<int>,
                        },
                    decreases ws@.len() - j,
                {
                    let rest = Ghost(v.subrange(j as int, v.len() as int));
                    proof {
                        assert(rest@[0] == v[j as int]);
                        assert(v[j as int] == window_view(ws@[j as int]));
                    }
                    if ws[j].start_ms == start_ms {
                        return match ws[j].counts.get(&class) {
                            Some(c) => *c,
                            None => 0,
                        };
                    }
                    proof {
                        assert(rest@.subrange(1, rest@.len() as int) =~= v.subrange(j + 1, v.len() as int));
                    }
                    j = j + 1;
                }
                proof {
                    assert(v.subrange(j as int, v.len() as int) =~= Seq::<(i64, i64, Map<i32, u32>)>::empty());
                }
                0
            },
        }
    }

    /// Whether the camera has a window starting at `start_ms`.
    pub fn has_window(&self, camera_id: u32, start_ms: i64) -> (r: bool)
        ensures
            r == exists|k: int| 0 <= k < self.windows(camera_id).len() && (#[trigger] self.windows(camera_id)[k]).0 == start_ms,
    {
        match self.cameras.get(&camera_id) {
            None => false,
            Some(ws) => {
                let ghost v = windows_view(ws@);
                let mut j: usize = 0;
                while j < ws.len()
                    invariant
                        j <= ws@.len(),
                        v == windows_view(ws@),
                        v == self.windows(camera_id),
                        forall|k: int| 0 <= k < j ==> (#[trigger] v[k]).0 != start_ms,
                    decreases ws@.len() - j,
                {
                    proof {
                        assert(v[j as int] == window_view(ws@[j as int]));
                    }
                    if ws[j].start_ms == start_ms {
                        return true;
                    }
                    j = j + 1;
                }
                false
            },
        }
    }

    /// Sum of the counts of `class` across all retained windows of a camera.
    pub fn total_count(&self, camera_id: u32, class: i32) -> (r: u32)
        requires
            class_total(self.windows(camera_id), class) <= u32::MAX,
        ensures
            r == class_total(self.windows(camera_id), class),
    {
        match self.cameras.get(&camera_id) {
            None => 0,
            Some(ws) => {
                let ghost v = windows_view(ws@);
                let mut sum: u32 = 0;
                let mut j: usize = 0;
                while j < ws.len()
                    invariant
                        j <= ws@.len(),
                        v == windows_view(ws@),
                        v == self.windows(camera_id),
                        class_total(v, class) <= u32::MAX,
                        sum == class_total(v.take(j as int), class),
                    decreases ws@.len() - j,
                {
                    proof {
                        assert(v.take(j + 1).drop_last() =~= v.take(j as int));
                        lemma_class_total_monotone(v, class, j + 1);
                    }
                    let n: u32 = match ws[j].counts.get(&class) {
                        Some(c) => *c,
                        None => 0,
                    };
                    sum = sum + n;
                    j = j + 1;
                }
                proof {
                    assert(v.take(j as int) =~= v);
                }
                sum
            },
        }
    }
}

impl Default for DetectionAggregator {
    fn default() -> (r: Self)
        ensures
            r.duration() == DEFAULT_WINDOW_DURATION_MS,
            r.retention() == DEFAULT_RETENTION_MS,
            forall|c: u32| #[trigger] r.windows(c).len() == 0,
            forall|c: u32| aligned(#[trigger] r.windows(c), DEFAULT_WINDOW_DURATION_MS),
    {
        Self::new(DEFAULT_WINDOW_DURATION_MS, DEFAULT_RETENTION_MS)
    }
}

/// The windows of `ws` that end after `cutoff`, copied in order.
fn retain_windows(ws: &Vec<TimeWindow>, cutoff: i64) -> (r: Vec<TimeWindow>)
    ensures
        windows_view(r@) == retained(windows_view(ws@), cutoff as int),
{
    let ghost v = windows_view(ws@);
    let mut r: Vec<TimeWindow> = Vec::new();
    let mut j: usize = 0;
    while j < ws.len()
        invariant
            j <= ws@.len(),
            v == windows_view(ws@),
            windows_view(r@) == retained(v.take(j as int), cutoff as int),
        decreases ws@.len() - j,
    {
        proof {
            assert(v.take(j + 1).drop_last() =~= v.take(j as int));
        }
        if ws[j].end_ms > cutoff {
            let w = TimeWindow { start_ms: ws[j].start_ms, end_ms: ws[j].end_ms, counts: ws[j].counts.clone() };
            let ghost r0 = r@;
            r.push(w);
            proof {
                assert(windows_view(r@) =~= windows_view(r0).push(window_view(w)));
            }
        }
        j = j + 1;
    }
    proof {
        assert(v.take(j as int) =~= v);
    }
    r
}

proof fn lemma_retained_idempotent(ws: Seq<(i64, i64, Map<i32, u32>)>, cutoff: int)
    ensures
        retained(retained(ws, cutoff), cutoff) == retained(ws, cutoff),
    decreases ws.len(),
{
    if ws.len() > 0 {
        lemma_retained_idempotent(ws.drop_last(), cutoff);
        let rest = retained(ws.drop_last(), cutoff);
        if ws.last().1 > cutoff {
            assert(rest.push(ws.last()).drop_last() =~= rest);
        }
    }
}

} // verus!
