//! Harnesses around a run: the parameter grid, rolling windows, the choice of
//! parameters, the plateau, and the resampling of trades.
use vstd::prelude::*;
use vstd::slice::slice_subrange;
use crate::calendar::div_floor;
use crate::event::EventEnvelope;
use crate::metrics::deflated;
use crate::number::Real;
use crate::ordered::{ascending, sort_numbers};

verus! {

/// One run in short.
#[derive(Clone, Copy, Debug, PartialEq, Eq, Structural)]
pub struct MetricsSummary {
    pub trades: u64,
    pub expectancy: Real,
    pub stress_expectancy_2x: Real,
    pub max_drawdown: Real,
    pub sharpe: Option<Real>,
}

impl Default for MetricsSummary {
    fn default() -> (s: Self)
        ensures
            s == (MetricsSummary {
                trades: 0,
                expectancy: Real { bits: 0 },
                stress_expectancy_2x: Real { bits: 0 },
                max_drawdown: Real { bits: 0 },
                sharpe: None,
            }),
    {
        MetricsSummary {
            trades: 0,
            expectancy: Real { bits: 0 },
            stress_expectancy_2x: Real { bits: 0 },
            max_drawdown: Real { bits: 0 },
            sharpe: None,
        }
    }
}

impl MetricsSummary {
    /// The Sharpe ratio adjusted for the number of trials.
    pub fn deflated_sharpe(&self, n_trials: u64, adjusted: Real) -> (d: Option<Real>)
        ensures
            d == match self.sharpe {
                None => None,
                Some(s) => if n_trials <= 1 {
                    Some(s)
                } else {
                    Some(adjusted)
                },
            },
    {
        deflated(self.sharpe, n_trials, adjusted)
    }
}

// ---------------------------------------------------------------------------
// The parameter grid
// ---------------------------------------------------------------------------

/// All ways to take one value from each axis: the first axis varies slowest.
pub open spec fn grid_points(axes: Seq<Seq<Real>>) -> Seq<Seq<Real>>
    decreases axes.len(),
{
    if axes.len() == 0 {
        seq![Seq::empty()]
    } else {
        spread(grid_points(axes.drop_last()), axes.last())
    }
}

/// Each point with each of the values behind it.
pub open spec fn spread(points: Seq<Seq<Real>>, values: Seq<Real>) -> Seq<Seq<Real>>
    decreases points.len(),
{
    if points.len() == 0 {
        Seq::empty()
    } else {
        spread(points.drop_last(), values) + Seq::new(
            values.len(),
            |i: int| points.last().push(values[i]),
        )
    }
}

/// The lists of numbers.
pub open spec fn lists(v: Seq<Vec<Real>>) -> Seq<Seq<Real>> {
    Seq::new(v.len(), |i: int| v[i]@)
}

fn copy_point(v: &Vec<Real>) -> (r: Vec<Real>)
    ensures
        r@ == v@,
{
    let mut r: Vec<Real> = Vec::new();
    let mut i: usize = 0;
    while i < v.len()
        invariant
            i <= v@.len(),
            r@ =~= v@.take(i as int),
        decreases v@.len() - i,
    {
        r.push(v[i]);
        i = i + 1;
    }
    assert(v@.take(i as int) =~= v@);
    r
}

fn spread_points(points: &Vec<Vec<Real>>, values: &Vec<Real>) -> (r: Vec<Vec<Real>>)
    ensures
        lists(r@) == spread(lists(points@), values@),
{
    let mut r: Vec<Vec<Real>> = Vec::new();
    let mut i: usize = 0;
    assert(lists(r@) =~= spread(lists(points@).take(0), values@));
    while i < points.len()
        invariant
            i <= points@.len(),
            lists(r@) == spread(lists(points@).take(i as int), values@),
        decreases points@.len() - i,
    {
        let ghost r0 = lists(r@);
        let ghost base = points@[i as int]@;
        let ghost next = lists(points@).take(i + 1);
        assert(next.drop_last() =~= lists(points@).take(i as int));
        assert(next.last() == base);
        let mut j: usize = 0;
        assert(lists(r@) =~= r0 + Seq::new(0, |x: int| base.push(values@[x])));
        while j < values.len()
            invariant
                i < points@.len(),
                base == points@[i as int]@,
                j <= values@.len(),
                lists(r@) == r0 + Seq::new(j as nat, |x: int| base.push(values@[x])),
            decreases values@.len() - j,
        {
            let ghost before = r@;
            let mut p = copy_point(&points[i]);
            p.push(values[j]);
            let ghost pv = p@;
            r.push(p);
            assert(lists(r@) =~= lists(before).push(pv));
            assert(lists(r@) =~= r0 + Seq::new((j + 1) as nat, |x: int| base.push(values@[x])));
            j = j + 1;
        }
        i = i + 1;
    }
    assert(lists(points@).take(i as int) =~= lists(points@));
    r
}

/// Every point of the grid: one value from each axis, in the order of the
/// axes. Without axes there is one point, without values.
pub fn param_combinations(axes: &Vec<Vec<Real>>) -> (r: Vec<Vec<Real>>)
    ensures
        lists(r@) == grid_points(lists(axes@)),
{
    let mut r: Vec<Vec<Real>> = Vec::new();
    r.push(Vec::new());
    let mut i: usize = 0;
    assert(lists(r@) =~= grid_points(lists(axes@).take(0))) by {
        assert(lists(r@)[0] =~= Seq::<Real>::empty());
    }
    while i < axes.len()
        invariant
            i <= axes@.len(),
            lists(r@) == grid_points(lists(axes@).take(i as int)),
        decreases axes@.len() - i,
    {
        let ghost next = lists(axes@).take(i + 1);
        assert(next.drop_last() =~= lists(axes@).take(i as int));
        assert(next.last() == axes@[i as int]@);
        r = spread_points(&r, &axes[i]);
        i = i + 1;
    }
    assert(lists(axes@).take(i as int) =~= lists(axes@));
    r
}

/// How many points a grid has.
pub open spec fn grid_size(axes: Seq<Seq<Real>>) -> nat
    decreases axes.len(),
{
    if axes.len() == 0 {
        1
    } else {
        grid_size(axes.drop_last()) * axes.last().len()
    }
}

proof fn lemma_spread_len(points: Seq<Seq<Real>>, values: Seq<Real>)
    ensures
        spread(points, values).len() == points.len() * values.len(),
    decreases points.len(),
{
    if points.len() > 0 {
        lemma_spread_len(points.drop_last(), values);
        assert((points.len() - 1) * values.len() + values.len() == points.len() * values.len())
            by (nonlinear_arith);
    } else {
        assert(0 * values.len() == 0) by (nonlinear_arith);
    }
}

/// A grid has as many points as the product of its axes' lengths.
pub proof fn law_grid_size(axes: Seq<Seq<Real>>)
    ensures
        grid_points(axes).len() == grid_size(axes),
    decreases axes.len(),
{
    if axes.len() > 0 {
        law_grid_size(axes.drop_last());
        lemma_spread_len(grid_points(axes.drop_last()), axes.last());
    }
}

/// Whether a point takes one value from each axis.
pub open spec fn on_axes(point: Seq<Real>, axes: Seq<Seq<Real>>) -> bool {
    point.len() == axes.len() && forall|k: int|
        0 <= k < axes.len() ==> axes[k].contains(#[trigger] point[k])
}

proof fn lemma_spread_item(points: Seq<Seq<Real>>, values: Seq<Real>, i: int) -> (at: (int, int))
    requires
        0 <= i < spread(points, values).len(),
    ensures
        0 <= at.0 < points.len(),
        0 <= at.1 < values.len(),
        spread(points, values)[i] == points[at.0].push(values[at.1]),
    decreases points.len(),
{
    let before = spread(points.drop_last(), values);
    if i < before.len() {
        lemma_spread_item(points.drop_last(), values, i)
    } else {
        (points.len() - 1, i - before.len())
    }
}

/// Every point of a grid takes one value from each axis.
pub proof fn law_grid_points_on_axes(axes: Seq<Seq<Real>>, i: int)
    requires
        0 <= i < grid_points(axes).len(),
    ensures
        on_axes(grid_points(axes)[i], axes),
    decreases axes.len(),
{
    if axes.len() > 0 {
        let before = grid_points(axes.drop_last());
        let at = lemma_spread_item(before, axes.last(), i);
        law_grid_points_on_axes(axes.drop_last(), at.0);
        let point = grid_points(axes)[i];
        assert(point == before[at.0].push(axes.last()[at.1]));
        assert forall|k: int| 0 <= k < axes.len() implies axes[k].contains(#[trigger] point[k]) by {
            if k < axes.len() - 1 {
                assert(axes.drop_last()[k].contains(before[at.0][k]));
            }
        }
    }
}

// ---------------------------------------------------------------------------
// Windows
// ---------------------------------------------------------------------------

/// Events in the order in which they were received.
pub open spec fn in_recv_order(events: Seq<EventEnvelope>) -> bool {
    forall|i: int, j: int|
        0 <= i <= j < events.len() ==> (#[trigger] events[i]).recv_ts_ns <= (
        #[trigger] events[j]).recv_ts_ns
}

/// How many events were received before `t`.
pub open spec fn received_before(events: Seq<EventEnvelope>, t: int) -> int
    decreases events.len(),
{
    if events.len() == 0 {
        0
    } else {
        received_before(events.drop_last(), t) + if events.last().recv_ts_ns < t {
            1int
        } else {
            0int
        }
    }
}

proof fn lemma_received_before(events: Seq<EventEnvelope>, t: int, n: int)
    requires
        0 <= n <= events.len(),
        forall|i: int| 0 <= i < n ==> (#[trigger] events[i]).recv_ts_ns < t,
        forall|i: int| n <= i < events.len() ==> (#[trigger] events[i]).recv_ts_ns >= t,
    ensures
        received_before(events, t) == n,
    decreases events.len(),
{
    if events.len() > 0 {
        let e0 = events.drop_last();
        assert forall|i: int| 0 <= i < e0.len() implies (#[trigger] e0[i]) == events[i] by {}
        let last = events[events.len() - 1];
        if n == events.len() {
            lemma_received_before(e0, t, n - 1);
        } else {
            lemma_received_before(e0, t, n);
        }
    }
}

fn partition_point(events: &[EventEnvelope], t: i64) -> (n: usize)
    requires
        in_recv_order(events@),
    ensures
        n == received_before(events@, t as int),
        n <= events@.len(),
        forall|i: int| 0 <= i < n ==> (#[trigger] events@[i]).recv_ts_ns < t,
        forall|i: int| n <= i < events@.len() ==> (#[trigger] events@[i]).recv_ts_ns >= t,
{
    let mut lo: usize = 0;
    let mut hi: usize = events.len();
    while lo < hi
        invariant
            lo <= hi <= events@.len(),
            in_recv_order(events@),
            forall|i: int| 0 <= i < lo ==> (#[trigger] events@[i]).recv_ts_ns < t,
            forall|i: int| hi <= i < events@.len() ==> (#[trigger] events@[i]).recv_ts_ns >= t,
        decreases hi - lo,
    {
        let mid: usize = lo + (hi - lo) / 2;
        if events[mid].recv_ts_ns < t {
            assert forall|i: int| 0 <= i < mid + 1 implies (#[trigger] events@[i]).recv_ts_ns
                < t by {
                assert(events@[i].recv_ts_ns <= events@[mid as int].recv_ts_ns);
            }
            lo = mid + 1;
        } else {
            assert forall|i: int| mid <= i < events@.len() implies (#[trigger] events@[i]).recv_ts_ns
                >= t by {
                assert(events@[mid as int].recv_ts_ns <= events@[i].recv_ts_ns);
            }
            hi = mid;
        }
    }
    proof {
        lemma_received_before(events@, t as int, lo as int);
    }
    lo
}

/// The events that were received from `start_ns` on and before `end_ns`.
pub open spec fn received_within(
    events: Seq<EventEnvelope>,
    start_ns: int,
    end_ns: int,
) -> Seq<EventEnvelope> {
    events.subrange(received_before(events, start_ns), received_before(events, end_ns))
}

/// The events that were received from `start_ns` on and before `end_ns`.
pub fn slice_by_recv(events: &[EventEnvelope], start_ns: i64, end_ns: i64) -> (r: &[EventEnvelope])
    requires
        in_recv_order(events@),
        start_ns <= end_ns,
    ensures
        r@ == received_within(events@, start_ns as int, end_ns as int),
{
    let lo: usize = partition_point(events, start_ns);
    let hi: usize = partition_point(events, end_ns);
    proof {
        if hi < lo {
            assert(events@[hi as int].recv_ts_ns >= end_ns);
            assert(events@[hi as int].recv_ts_ns < start_ns);
        }
    }
    slice_subrange(events, lo, hi)
}

/// A window's slice holds exactly the events of its time: those before and
/// behind it are outside the window.
pub proof fn law_slice_is_window(events: Seq<EventEnvelope>, start_ns: int, end_ns: int, i: int)
    requires
        in_recv_order(events),
        start_ns <= end_ns,
        0 <= i < events.len(),
    ensures
        received_before(events, start_ns) <= i < received_before(events, end_ns) <==> start_ns
            <= events[i].recv_ts_ns < end_ns,
{
    lemma_received_split(events, start_ns);
    lemma_received_split(events, end_ns);
}

proof fn lemma_received_split(events: Seq<EventEnvelope>, t: int)
    requires
        in_recv_order(events),
    ensures
        0 <= received_before(events, t) <= events.len(),
        forall|i: int|
            0 <= i < events.len() ==> ((#[trigger] events[i]).recv_ts_ns < t <==> i
                < received_before(events, t)),
    decreases events.len(),
{
    if events.len() > 0 {
        let e0 = events.drop_last();
        assert forall|i: int, j: int| 0 <= i <= j < e0.len() implies (#[trigger] e0[i]).recv_ts_ns
            <= (#[trigger] e0[j]).recv_ts_ns by {
            assert(events[i].recv_ts_ns <= events[j].recv_ts_ns);
        }
        lemma_received_split(e0, t);
        let n = events.len() - 1;
        assert forall|i: int| 0 <= i < events.len() implies ((#[trigger] events[i]).recv_ts_ns < t
            <==> i < received_before(events, t)) by {
            assert(events[i].recv_ts_ns <= events[n].recv_ts_ns);
            if i < n {
                assert(e0[i] == events[i]);
            } else if events[n].recv_ts_ns < t && n > 0 {
                assert(events[n - 1].recv_ts_ns <= events[n].recv_ts_ns);
                assert(e0[n - 1] == events[n - 1]);
            }
        }
    }
}

/// How windows are rolled. Between the training part and the test part lies an
/// embargo that is in neither.
#[derive(Clone, Copy, Debug, PartialEq, Eq, Structural)]
pub struct WalkForwardParams {
    pub train_ns: i64,
    pub test_ns: i64,
    pub step_ns: i64,
    pub embargo_ns: i64,
}

impl WalkForwardParams {
    /// The embargo; none where it is negative.
    pub open spec fn embargo(self) -> int {
        if self.embargo_ns < 0 {
            0
        } else {
            self.embargo_ns as int
        }
    }

    /// From the start of training to the end of the test.
    pub open spec fn span(self) -> int {
        self.train_ns + self.embargo() + self.test_ns
    }
}

/// One window: it trains from `train_start_ns` to `train_end_ns` and tests
/// from `test_start_ns` to `test_end_ns`.
#[derive(Clone, Copy, Debug, PartialEq, Eq, Structural)]
pub struct Window {
    pub train_start_ns: i64,
    pub train_end_ns: i64,
    pub test_start_ns: i64,
    pub test_end_ns: i64,
}

/// `w` is the window whose training begins at `start`.
pub open spec fn is_window(w: Window, start: int, p: WalkForwardParams) -> bool {
    &&& w.train_start_ns == start
    &&& w.train_end_ns == start + p.train_ns
    &&& w.test_start_ns == w.train_end_ns + p.embargo()
    &&& w.test_end_ns == w.test_start_ns + p.test_ns
}

/// The windows that fit into the events, from the first event on, one every
/// step.
pub fn walk_forward(events: &[EventEnvelope], p: WalkForwardParams) -> (windows: Vec<Window>)
    requires
        in_recv_order(events@),
        p.train_ns >= 0,
        p.test_ns >= 0,
        p.step_ns > 0,
        events@.len() > 0 ==> events@.last().recv_ts_ns < i64::MAX,
    ensures
        events@.len() == 0 ==> windows@.len() == 0,
        events@.len() > 0 ==> {
            let first = events@[0].recv_ts_ns;
            let last = events@.last().recv_ts_ns;
            &&& forall|i: int|
                0 <= i < windows@.len() ==> is_window(
                    #[trigger] windows@[i],
                    first + i * p.step_ns,
                    p,
                ) && windows@[i].test_end_ns <= last + 1
            &&& first + windows@.len() * p.step_ns + p.span() > last + 1
        },
{
    let mut windows: Vec<Window> = Vec::new();
    if events.len() == 0 {
        return windows;
    }
    let first: i64 = events[0].recv_ts_ns;
    let last: i64 = events[events.len() - 1].recv_ts_ns;
    let embargo: i64 = if p.embargo_ns < 0 {
        0
    } else {
        p.embargo_ns
    };
    let span: i128 = p.train_ns as i128 + embargo as i128 + p.test_ns as i128;
    let end: i128 = last as i128 + 1;
    let mut start: i128 = first as i128;
    assert(first + 0 * p.step_ns == first) by (nonlinear_arith);
    while start + span <= end
        invariant
            embargo == p.embargo(),
            span == p.span(),
            0 <= span <= 0x3_0000_0000_0000_0000,
            p.train_ns >= 0,
            p.test_ns >= 0,
            p.step_ns > 0,
            end == last + 1,
            end <= i64::MAX,
            start >= first,
            start == first + windows@.len() * p.step_ns,
            start <= end + p.step_ns || windows@.len() == 0,
            first <= last,
            forall|i: int|
                0 <= i < windows@.len() ==> is_window(
                    #[trigger] windows@[i],
                    first + i * p.step_ns,
                    p,
                ) && windows@[i].test_end_ns <= last + 1,
        decreases
                if start <= end {
                    end - start + 1
                } else {
                    0
                },
    {
        let train_start: i64 = start as i64;
        let train_end: i64 = train_start + p.train_ns;
        let test_start: i64 = train_end + embargo;
        let test_end: i64 = test_start + p.test_ns;
        let ghost before = windows@;
        windows.push(
            Window {
                train_start_ns: train_start,
                train_end_ns: train_end,
                test_start_ns: test_start,
                test_end_ns: test_end,
            },
        );
        proof {
            assert((before.len() + 1) * p.step_ns == before.len() * p.step_ns + p.step_ns)
                by (nonlinear_arith);
            assert forall|i: int| 0 <= i < windows@.len() implies is_window(
                #[trigger] windows@[i],
                first + i * p.step_ns,
                p,
            ) && windows@[i].test_end_ns <= last + 1 by {
                if i < before.len() {
                    assert(windows@[i] == before[i]);
                }
            }
        }
        start = start + p.step_ns as i128;
    }
    windows
}

/// No event is in both parts of a window, and none of the embargo is in
/// either.
pub proof fn law_embargo_is_purged(w: Window, start: int, p: WalkForwardParams, t: int)
    requires
        is_window(w, start, p),
        p.train_ns >= 0,
        p.test_ns >= 0,
    ensures
        w.train_start_ns <= t < w.train_end_ns ==> t < w.test_start_ns,
        w.train_end_ns <= t < w.test_start_ns ==> !(w.train_start_ns <= t < w.train_end_ns) && !(
        w.test_start_ns <= t < w.test_end_ns),
{
}

/// The result of one window on the part it was not trained on.
#[derive(Clone, Copy, Debug, PartialEq, Eq, Structural)]
pub struct WindowResult {
    pub train_start_ns: i64,
    pub test_start_ns: i64,
    pub test_end_ns: i64,
    pub oos: MetricsSummary,
    /// Nothing was eligible in training, so nothing was chosen.
    pub vacuous: bool,
    /// The run on the test part failed.
    pub error: bool,
}

/// What became of a window.
#[derive(Clone, Copy, Debug, PartialEq, Eq, Structural)]
pub enum WindowRun {
    /// The chosen parameters ran.
    Ran(MetricsSummary),
    /// The chosen parameters failed.
    Failed,
    /// Nothing was chosen.
    Nothing,
}

impl WindowResult {
    /// The result of a window. One that failed, or in which nothing was
    /// chosen, has an empty summary and says which it was.
    pub fn of(w: Window, run: WindowRun) -> (r: WindowResult)
        ensures
            r.train_start_ns == w.train_start_ns,
            r.test_start_ns == w.test_start_ns,
            r.test_end_ns == w.test_end_ns,
            r.vacuous == run is Nothing,
            r.error == run is Failed,
            match run {
                WindowRun::Ran(s) => r.oos == s,
                _ => r.oos.trades == 0 && r.oos.sharpe is None && r.oos.expectancy == (Real {
                    bits: 0,
                }) && r.oos.stress_expectancy_2x == (Real { bits: 0 }) && r.oos.max_drawdown == (
                Real { bits: 0 }),
            },
    {
        let oos = match run {
            WindowRun::Ran(s) => s,
            _ => MetricsSummary::default(),
        };
        WindowResult {
            train_start_ns: w.train_start_ns,
            test_start_ns: w.test_start_ns,
            test_end_ns: w.test_end_ns,
            oos,
            vacuous: match run {
                WindowRun::Nothing => true,
                _ => false,
            },
            error: match run {
                WindowRun::Failed => true,
                _ => false,
            },
        }
    }

    /// The verdict on the window.
    pub fn verdict(&self) -> (s: &'static str)
        ensures
            s@ == if self.error {
                "ERROR"@
            } else if self.vacuous {
                "VACUOUS"@
            } else {
                "SELECTED"@
            },
    {
        if self.error {
            "ERROR"
        } else if self.vacuous {
            "VACUOUS"
        } else {
            "SELECTED"
        }
    }
}

/// How many of the windows are vacuous, and how many failed.
pub open spec fn window_counts(s: Seq<WindowResult>) -> (nat, nat)
    decreases s.len(),
{
    if s.len() == 0 {
        (0, 0)
    } else {
        let (v, e) = window_counts(s.drop_last());
        (
            v + if s.last().vacuous {
                1nat
            } else {
                0nat
            },
            e + if s.last().error {
                1nat
            } else {
                0nat
            },
        )
    }
}

/// How many of the windows are vacuous, and how many failed.
pub fn count_windows(s: &Vec<WindowResult>) -> (r: (usize, usize))
    ensures
        r.0 == window_counts(s@).0,
        r.1 == window_counts(s@).1,
{
    let mut v: usize = 0;
    let mut e: usize = 0;
    let mut i: usize = 0;
    assert(s@.take(0).len() == 0);
    while i < s.len()
        invariant
            i <= s@.len(),
            v <= i,
            e <= i,
            v == window_counts(s@.take(i as int)).0,
            e == window_counts(s@.take(i as int)).1,
        decreases s@.len() - i,
    {
        assert(s@.take(i + 1).drop_last() =~= s@.take(i as int));
        assert(s@.take(i + 1).last() == s@[i as int]);
        if s[i].vacuous {
            v = v + 1;
        }
        if s[i].error {
            e = e + 1;
        }
        i = i + 1;
    }
    assert(s@.take(i as int) =~= s@);
    (v, e)
}

// ---------------------------------------------------------------------------
// The choice of parameters
// ---------------------------------------------------------------------------

/// The bits of negative infinity.
pub const NEG_INF: u64 = 0xFFF0_0000_0000_0000;

/// Whether a run can be chosen: it did not fail, traded enough, and has an
/// expectancy above negative infinity.
pub open spec fn eligible(score: Option<MetricsSummary>, min_trades: u64) -> bool {
    score matches Some(s) && s.trades >= min_trades && (Real { bits: NEG_INF }).lt(s.expectancy)
}

/// The first of the best eligible runs, with its expectancy; none, with
/// negative infinity, where nothing is eligible. A run that does not trade
/// enough never wins over one that trades and loses.
pub fn pick_best_eligible(scores: &Vec<Option<MetricsSummary>>, min_trades: u64) -> (r: (
    Option<usize>,
    Real,
))
    ensures
        match r.0 {
            None => r.1 == (Real { bits: NEG_INF }) && forall|i: int|
                0 <= i < scores@.len() ==> !eligible(#[trigger] scores@[i], min_trades),
            Some(best) => {
                &&& best < scores@.len()
                &&& eligible(scores@[best as int], min_trades)
                &&& r.1 == scores@[best as int]->0.expectancy
                &&& forall|i: int|
                    0 <= i < scores@.len() && eligible(#[trigger] scores@[i], min_trades)
                        ==> scores@[i]->0.expectancy.le(r.1)
                &&& forall|i: int|
                    0 <= i < best && eligible(#[trigger] scores@[i], min_trades)
                        ==> scores@[i]->0.expectancy.lt(r.1)
            },
        },
{
    let mut best: Option<usize> = None;
    let mut best_exp = Real { bits: NEG_INF };
    let mut i: usize = 0;
    while i < scores.len()
        invariant
            i <= scores@.len(),
            match best {
                None => best_exp == (Real { bits: NEG_INF }) && forall|k: int|
                    0 <= k < i ==> !eligible(#[trigger] scores@[k], min_trades),
                Some(b) => {
                    &&& b < i
                    &&& eligible(scores@[b as int], min_trades)
                    &&& best_exp == scores@[b as int]->0.expectancy
                    &&& forall|k: int|
                        0 <= k < i && eligible(#[trigger] scores@[k], min_trades)
                            ==> scores@[k]->0.expectancy.le(best_exp)
                    &&& forall|k: int|
                        0 <= k < b && eligible(#[trigger] scores@[k], min_trades)
                            ==> scores@[k]->0.expectancy.lt(best_exp)
                },
            },
        decreases scores@.len() - i,
    {
        if let Some(s) = &scores[i] {
            if s.trades >= min_trades && best_exp.less(s.expectancy) {
                best = Some(i);
                best_exp = s.expectancy;
            }
        }
        i = i + 1;
    }
    (best, best_exp)
}

// ---------------------------------------------------------------------------
// The plateau
// ---------------------------------------------------------------------------

/// The bits of 0.30 + 1e-9: how far a parameter may move.
pub const PLATEAU_BITS: u64 = 0x3FD3_3333_3446_13F2;

/// Whether a perturbation is near: within thirty percent.
pub open spec fn is_near(delta: Real) -> bool {
    delta.size().le(Real { bits: PLATEAU_BITS })
}

/// Whether the expectancy keeps its sign under every near perturbation. The
/// points are perturbations with the expectancy under each.
pub fn plateau_ok(base_expectancy: Real, points: &Vec<(Real, Real)>) -> (ok: bool)
    ensures
        ok <==> forall|i: int|
            0 <= i < points@.len() && is_near((#[trigger] points@[i]).0) ==> points@[i].1.positive()
                == base_expectancy.positive(),
{
    let base = base_expectancy.is_positive();
    let mut i: usize = 0;
    while i < points.len()
        invariant
            i <= points@.len(),
            base == base_expectancy.positive(),
            forall|k: int|
                0 <= k < i && is_near((#[trigger] points@[k]).0) ==> points@[k].1.positive() == base,
        decreases points@.len() - i,
    {
        let (delta, expectancy) = points[i];
        if delta.abs().at_most(Real { bits: PLATEAU_BITS }) && expectancy.is_positive() != base {
            assert(is_near(points@[i as int].0));
            return false;
        }
        i = i + 1;
    }
    true
}

// ---------------------------------------------------------------------------
// Resampling
// ---------------------------------------------------------------------------

/// A block length of at least 1.
pub open spec fn block_len(block_ns: i64) -> int {
    if block_ns < 1 {
        1
    } else {
        block_ns as int
    }
}

/// The block that a trade falls into.
pub open spec fn block_of(t: (i64, Real), len: int) -> int {
    t.0 as int / len
}

/// `ranges` are the runs of trades of one block: together they hold every
/// trade once and in order, each holds trades of one block, and neighbours
/// are of different blocks.
pub open spec fn are_blocks(ranges: Seq<(usize, usize)>, trades: Seq<(i64, Real)>, len: int) -> bool {
    &&& trades.len() == 0 ==> ranges.len() == 0
    &&& trades.len() > 0 ==> ranges.len() > 0 && ranges[0].0 == 0 && ranges.last().1 == trades.len()
    &&& forall|k: int|
        0 <= k < ranges.len() ==> (#[trigger] ranges[k]).0 < ranges[k].1 && ranges[k].1
            <= trades.len()
    &&& forall|k: int|
        0 < k < ranges.len() ==> (#[trigger] ranges[k]).0 == ranges[k - 1].1 && block_of(
            trades[ranges[k].0 as int],
            len,
        ) != block_of(trades[ranges[k].0 - 1], len)
    &&& forall|k: int, i: int|
        0 <= k < ranges.len() && (#[trigger] ranges[k]).0 <= i < ranges[k].1 ==> block_of(
            #[trigger] trades[i],
            len,
        ) == block_of(trades[ranges[k].0 as int], len)
}

/// The runs of trades of one block, in order.
pub fn pnl_blocks(trades: &Vec<(i64, Real)>, block_ns: i64) -> (ranges: Vec<(usize, usize)>)
    ensures
        are_blocks(ranges@, trades@, block_len(block_ns)),
{
    let len: i64 = if block_ns < 1 {
        1
    } else {
        block_ns
    };
    let mut ranges: Vec<(usize, usize)> = Vec::new();
    if trades.len() == 0 {
        return ranges;
    }
    let mut start: usize = 0;
    let mut cur: i64 = div_floor(trades[0].0, len);
    let mut i: usize = 1;
    while i < trades.len()
        invariant
            len == block_len(block_ns),
            len >= 1,
            start < i <= trades@.len(),
            cur == block_of(trades@[start as int], len as int),
            ranges@.len() == 0 ==> start == 0,
            ranges@.len() > 0 ==> ranges@[0].0 == 0 && ranges@.last().1 == start && block_of(
                trades@[start as int],
                len as int,
            ) != block_of(trades@[start - 1], len as int),
            forall|k: int|
                0 <= k < ranges@.len() ==> (#[trigger] ranges@[k]).0 < ranges@[k].1 && ranges@[k].1
                    <= start,
            forall|k: int|
                0 < k < ranges@.len() ==> (#[trigger] ranges@[k]).0 == ranges@[k - 1].1
                    && block_of(trades@[ranges@[k].0 as int], len as int) != block_of(
                    trades@[ranges@[k].0 - 1],
                    len as int,
                ),
            forall|k: int, j: int|
                0 <= k < ranges@.len() && (#[trigger] ranges@[k]).0 <= j < ranges@[k].1
                    ==> block_of(#[trigger] trades@[j], len as int) == block_of(
                    trades@[ranges@[k].0 as int],
                    len as int,
                ),
            forall|j: int|
                start <= j < i ==> block_of(#[trigger] trades@[j], len as int) == cur,
        decreases trades@.len() - i,
    {
        let b: i64 = div_floor(trades[i].0, len);
        if b != cur {
            assert(block_of(trades@[i - 1], len as int) == cur);
            ranges.push((start, i));
            start = i;
            cur = b;
        }
        i = i + 1;
    }
    ranges.push((start, i));
    ranges
}

/// The trades of drawn blocks, one block behind the other, until there are at
/// least `target`.
pub open spec fn drawn(
    ranges: Seq<(usize, usize)>,
    draws: Seq<usize>,
    target: int,
) -> Seq<usize>
    decreases draws.len(),
{
    if draws.len() == 0 {
        Seq::empty()
    } else {
        let before = drawn(ranges, draws.drop_last(), target);
        let (from, to) = ranges[draws.last() as int];
        if before.len() >= target {
            before
        } else {
            before + Seq::new((to - from) as nat, |i: int| (from + i) as usize)
        }
    }
}

/// Which trades a resampled path takes, given the blocks that were drawn.
pub fn resampled_path(ranges: &Vec<(usize, usize)>, draws: &Vec<usize>, target: usize) -> (path:
    Vec<usize>)
    requires
        forall|k: int| 0 <= k < ranges@.len() ==> (#[trigger] ranges@[k]).0 <= ranges@[k].1,
        forall|k: int| 0 <= k < draws@.len() ==> (#[trigger] draws@[k]) < ranges@.len(),
    ensures
        path@ == drawn(ranges@, draws@, target as int),
{
    let mut path: Vec<usize> = Vec::new();
    let mut d: usize = 0;
    assert(path@ =~= drawn(ranges@, draws@.take(0), target as int));
    while d < draws.len()
        invariant
            d <= draws@.len(),
            forall|k: int| 0 <= k < ranges@.len() ==> (#[trigger] ranges@[k]).0 <= ranges@[k].1,
            forall|k: int| 0 <= k < draws@.len() ==> (#[trigger] draws@[k]) < ranges@.len(),
            path@ == drawn(ranges@, draws@.take(d as int), target as int),
        decreases draws@.len() - d,
    {
        assert(draws@.take(d + 1).drop_last() =~= draws@.take(d as int));
        assert(draws@.take(d + 1).last() == draws@[d as int]);
        if path.len() < target {
            let (from, to) = ranges[draws[d]];
            let ghost p0 = path@;
            let mut i: usize = from;
            assert(path@ =~= p0 + Seq::new(0, |x: int| (from + x) as usize));
            while i < to
                invariant
                    from <= i <= to,
                    path@ == p0 + Seq::new((i - from) as nat, |x: int| (from + x) as usize),
                decreases to - i,
            {
                path.push(i);
                i = i + 1;
                assert(path@ =~= p0 + Seq::new((i - from) as nat, |x: int| (from + x) as usize));
            }
            assert(i == to);
        }
        d = d + 1;
    }
    assert(draws@.take(d as int) =~= draws@);
    path
}

/// The distribution of the greatest drawdown.
#[derive(Clone, Copy, Debug, PartialEq, Eq, Structural)]
pub struct McResult {
    pub p50_max_dd: Real,
    pub p95_max_dd: Real,
    pub worst_max_dd: Real,
    pub resamples: u32,
}

/// The ranks of numbers in the order of all patterns.
pub open spec fn ranks(v: Seq<Real>) -> Seq<i64> {
    Seq::new(v.len(), |i: int| v[i].total_rank() as i64)
}

/// Where the median of `n` sorted values stands.
pub open spec fn median_at(n: int) -> int {
    n / 2
}

/// Where the 95th percentile of `n` sorted values stands: nineteen twentieths
/// of the way, to the nearest.
pub open spec fn p95_at(n: int) -> int {
    (19 * (n - 1) + 10) / 20
}

/// `r` holds the percentiles of the drawdowns: those of them at the places
/// named, in ascending order.
pub open spec fn are_percentiles(r: McResult, drawdowns: Seq<Real>, sorted: Seq<i64>) -> bool {
    let n = drawdowns.len() as int;
    &&& ascending(sorted)
    &&& sorted.to_multiset() == ranks(drawdowns).to_multiset()
    &&& sorted.len() == n
    &&& r.p50_max_dd.total_rank() == sorted[median_at(n)]
    &&& r.p95_max_dd.total_rank() == sorted[p95_at(n)]
    &&& r.worst_max_dd.total_rank() == sorted[n - 1]
}

/// The percentiles of the greatest drawdowns of the resampled paths; zero
/// where nothing was resampled, for want of trades.
pub fn monte_carlo(drawdowns: &Vec<Real>, resamples: u32) -> (r: McResult)
    ensures
        r.resamples == resamples,
        drawdowns@.len() == 0 ==> r == (McResult {
            p50_max_dd: Real { bits: 0 },
            p95_max_dd: Real { bits: 0 },
            worst_max_dd: Real { bits: 0 },
            resamples,
        }),
        drawdowns@.len() > 0 ==> exists|sorted: Seq<i64>| #[trigger]
            are_percentiles(r, drawdowns@, sorted),
{
    let total: usize = drawdowns.len();
    if total == 0 {
        return McResult {
            p50_max_dd: Real { bits: 0 },
            p95_max_dd: Real { bits: 0 },
            worst_max_dd: Real { bits: 0 },
            resamples,
        };
    }
    let mut keys: Vec<i64> = Vec::new();
    let mut i: usize = 0;
    while i < total
        invariant
            i <= total,
            total == drawdowns@.len(),
            keys@.len() == i,
            forall|k: int| 0 <= k < i ==> #[trigger] keys@[k] == drawdowns@[k].total_rank(),
        decreases total - i,
    {
        keys.push(drawdowns[i].total_order());
        i = i + 1;
    }
    assert(keys@ =~= ranks(drawdowns@));
    let sorted = sort_numbers(&keys);
    let k: usize = total - 1;
    let above: usize = if k % 20 >= 11 {
        k / 20 + 1
    } else {
        k / 20
    };
    let p95: usize = k - above;
    assert(p95 == p95_at(total as int));
    let r = McResult {
        p50_max_dd: Real::of_total_order(sorted[total / 2]),
        p95_max_dd: Real::of_total_order(sorted[p95]),
        worst_max_dd: Real::of_total_order(sorted[total - 1]),
        resamples,
    };
    assert(are_percentiles(r, drawdowns@, sorted@));
    r
}

/// The percentiles are in order: the median is not above the 95th, nor that
/// above the worst.
pub proof fn law_percentiles_ordered(r: McResult, drawdowns: Seq<Real>, sorted: Seq<i64>)
    requires
        drawdowns.len() > 0,
        are_percentiles(r, drawdowns, sorted),
    ensures
        r.p50_max_dd.total_rank() <= r.p95_max_dd.total_rank(),
        r.p95_max_dd.total_rank() <= r.worst_max_dd.total_rank(),
{
    let n = drawdowns.len() as int;
    assert(sorted[median_at(n)] <= sorted[p95_at(n)]);
    assert(sorted[p95_at(n)] <= sorted[n - 1]);
}

proof fn lemma_spread_has(points: Seq<Seq<Real>>, values: Seq<Real>, i: int, j: int)
    requires
        0 <= i < points.len(),
        0 <= j < values.len(),
    ensures
        spread(points, values).contains(points[i].push(values[j])),
    decreases points.len(),
{
    let before = spread(points.drop_last(), values);
    let tail = Seq::new(values.len(), |x: int| points.last().push(values[x]));
    let all = spread(points, values);
    if i == points.len() - 1 {
        assert(all[before.len() + j] == tail[j]);
    } else {
        lemma_spread_has(points.drop_last(), values, i, j);
        let p = points[i].push(values[j]);
        let x = before.index_of(p);
        assert(all[x] == p);
    }
}

/// A grid leaves nothing out: each point made of one value of each axis is in
/// it.
pub proof fn law_grid_is_complete(axes: Seq<Seq<Real>>, point: Seq<Real>)
    requires
        point.len() == axes.len(),
        forall|k: int| 0 <= k < axes.len() ==> axes[k].contains(#[trigger] point[k]),
    ensures
        grid_points(axes).contains(point),
    decreases axes.len(),
{
    if axes.len() == 0 {
        assert(point =~= Seq::empty());
        assert(grid_points(axes)[0] == point);
    } else {
        let a = axes.drop_last();
        let p = point.drop_last();
        assert forall|k: int| 0 <= k < a.len() implies a[k].contains(#[trigger] p[k]) by {
            assert(axes[k].contains(point[k]));
        }
        law_grid_is_complete(a, p);
        let i = grid_points(a).index_of(p);
        let n = axes.len() - 1;
        assert(axes[n].contains(point[n]));
        let j = axes.last().index_of(point[n]);
        lemma_spread_has(grid_points(a), axes.last(), i, j);
        assert(p.push(point[n]) =~= point);
    }
}

/// A window trains for the training time and tests for the testing time, with
/// the embargo between the two and nothing else; a negative embargo is none.
pub proof fn law_window_lengths(w: Window, start: int, p: WalkForwardParams)
    requires
        is_window(w, start, p),
    ensures
        w.train_start_ns == start,
        w.train_end_ns - w.train_start_ns == p.train_ns,
        p.embargo_ns >= 0 ==> w.test_start_ns - w.train_end_ns == p.embargo_ns,
        p.embargo_ns <= 0 ==> w.test_start_ns == w.train_end_ns,
        w.test_end_ns - w.test_start_ns == p.test_ns,
        w.test_end_ns - w.train_start_ns == p.span(),
{
}

/// The two counts are those of the windows without trades and of the windows
/// that failed.
pub proof fn law_windows_counted(s: Seq<WindowResult>)
    ensures
        window_counts(s).0 == s.filter(|w: WindowResult| w.vacuous).len(),
        window_counts(s).1 == s.filter(|w: WindowResult| w.error).len(),
    decreases s.len(),
{
    reveal(Seq::filter);
    if s.len() > 0 {
        law_windows_counted(s.drop_last());
    }
}

/// A failed run cannot be chosen, nor one with too few trades, nor one whose
/// expectancy is no number or negative infinity; every other run can.
pub proof fn law_who_can_be_chosen(score: Option<MetricsSummary>, min_trades: u64)
    ensures
        eligible(score, min_trades) <==> {
            &&& score is Some
            &&& !(score->0.trades < min_trades)
            &&& !score->0.expectancy.nan()
            &&& score->0.expectancy.bits != 0xFFF0_0000_0000_0000
        },
{
}

/// A step of three tenths either way is near, and so is every smaller one;
/// one of thirty-one hundredths, a larger one or no number is not.
pub proof fn law_plateau_reach(delta: Real)
    ensures
        delta.bits <= 0x3FD3_3333_3333_3333 ==> is_near(delta),
        0x8000_0000_0000_0000 <= delta.bits <= 0xBFD3_3333_3333_3333 ==> is_near(delta),
        0x3FD3_D70A_3D70_A3D7 <= delta.bits < 0x8000_0000_0000_0000 ==> !is_near(delta),
        0xBFD3_D70A_3D70_A3D7 <= delta.bits ==> !is_near(delta),
{
}

/// A block is a stretch of time of its length, at least one nanosecond, and
/// trades are in one block where their times are.
pub proof fn law_block_is_a_stretch(t: (i64, Real), block_ns: i64)
    ensures
        block_len(block_ns) >= 1,
        block_ns >= 1 ==> block_len(block_ns) == block_ns,
        block_of(t, block_len(block_ns)) * block_len(block_ns) <= t.0,
        t.0 < block_of(t, block_len(block_ns)) * block_len(block_ns) + block_len(block_ns),
{
    let n = block_len(block_ns);
    let x = t.0 as int;
    assert(x / n * n <= x < x / n * n + n) by (nonlinear_arith)
        requires
            n >= 1,
    ;
}

/// A drawn block follows the path with all its trades in order, as long as
/// the path is shorter than the target; from there on draws change nothing.
pub proof fn law_draw_extends_the_path(
    ranges: Seq<(usize, usize)>,
    draws: Seq<usize>,
    d: usize,
    target: int,
)
    requires
        d < ranges.len(),
        ranges[d as int].0 <= ranges[d as int].1,
    ensures
        drawn(ranges, Seq::empty(), target).len() == 0,
        ({
            let p = drawn(ranges, draws, target);
            let q = drawn(ranges, draws.push(d), target);
            let (from, to) = ranges[d as int];
            if p.len() < target {
                &&& q.len() == p.len() + (to - from)
                &&& forall|i: int| 0 <= i < p.len() ==> #[trigger] q[i] == p[i]
                &&& forall|i: int| p.len() <= i < q.len() ==> #[trigger] q[i] == from + (i - p.len())
            } else {
                q == p
            }
        }),
{
    assert(draws.push(d).drop_last() =~= draws);
}

proof fn lemma_in_multiset(s: Seq<i64>, t: Seq<i64>, i: int)
    requires
        s.to_multiset() == t.to_multiset(),
        0 <= i < s.len(),
    ensures
        t.contains(s[i]),
{
    broadcast use vstd::seq_lib::group_to_multiset_ensures;

    assert(s.contains(s[i]));
    assert(s.to_multiset().count(s[i]) > 0);
}

/// The worst drawdown is one of those given, and none is above it.
pub proof fn law_worst_is_the_largest(r: McResult, drawdowns: Seq<Real>, sorted: Seq<i64>, i: int)
    requires
        are_percentiles(r, drawdowns, sorted),
        0 <= i < drawdowns.len(),
    ensures
        drawdowns[i].total_rank() <= r.worst_max_dd.total_rank(),
        drawdowns.contains(r.worst_max_dd),
        drawdowns.contains(r.p50_max_dd),
        drawdowns.contains(r.p95_max_dd),
{
    let n = drawdowns.len() as int;
    let v = ranks(drawdowns);
    assert(v[i] == drawdowns[i].total_rank());
    lemma_in_multiset(v, sorted, i);
    let j = sorted.index_of(v[i]);
    assert(sorted[j] <= sorted[n - 1]);
    lemma_a_rank_given(drawdowns, sorted, n - 1, r.worst_max_dd);
    lemma_a_rank_given(drawdowns, sorted, median_at(n), r.p50_max_dd);
    lemma_a_rank_given(drawdowns, sorted, p95_at(n), r.p95_max_dd);
}

proof fn lemma_a_rank_given(drawdowns: Seq<Real>, sorted: Seq<i64>, j: int, x: Real)
    requires
        sorted.to_multiset() == ranks(drawdowns).to_multiset(),
        0 <= j < sorted.len(),
        x.total_rank() == sorted[j],
    ensures
        drawdowns.contains(x),
{
    let v = ranks(drawdowns);
    lemma_in_multiset(sorted, v, j);
    let k = v.index_of(sorted[j]);
    assert(v[k] == drawdowns[k].total_rank());
    assert(drawdowns[k].bits == x.bits);
    assert(drawdowns[k] == x);
}

/// The median stands in the middle, the later of two middles, and the 95th
/// percentile at the place nearest to nineteen twentieths of the way.
pub proof fn law_places_of_percentiles(n: int)
    requires
        n >= 1,
    ensures
        0 <= median_at(n) < n,
        n - 1 <= 2 * median_at(n) <= n,
        0 <= p95_at(n) < n,
        -10 < 20 * p95_at(n) - 19 * (n - 1) <= 10,
{
}

/// Trades are cut into ranges where their block changes, and nowhere else:
/// two that follow each other are in one range exactly where they are in one
/// block.
pub proof fn law_cut_where_the_block_changes(
    ranges: Seq<(usize, usize)>,
    trades: Seq<(i64, Real)>,
    len: int,
    k: int,
    i: int,
)
    requires
        are_blocks(ranges, trades, len),
        0 <= k < ranges.len(),
        ranges[k].0 <= i < ranges[k].1,
        i + 1 < trades.len(),
    ensures
        i + 1 < ranges[k].1 <==> trades[i].0 as int / len == trades[i + 1].0 as int / len,
        ranges[0].0 == 0,
        ranges.last().1 == trades.len(),
        k > 0 ==> ranges[k].0 == ranges[k - 1].1,
{
    let (a, b) = (trades[i], trades[i + 1]);
    assert(block_of(a, len) == block_of(trades[ranges[k].0 as int], len));
    if i + 1 < ranges[k].1 {
        assert(block_of(b, len) == block_of(trades[ranges[k].0 as int], len));
    } else {
        assert(k + 1 < ranges.len()) by {
            if k + 1 == ranges.len() {
                assert(ranges.last() == ranges[k]);
            }
        }
        let next = ranges[k + 1];
        assert(next.0 == ranges[k].1);
        assert(block_of(trades[next.0 as int], len) != block_of(trades[next.0 - 1], len));
    }
}

} // verus!
