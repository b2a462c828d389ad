//! Views that are derived when they are asked for: footprint bars, ladder
//! samples, weighted funding, carry and liquidation stress.
//!
//! This module decides which events belong to which bucket and which numbers
//! are compared or combined; the sums themselves are formed outside.
use vstd::prelude::*;
use crate::calendar::div_floor;
use crate::event::{slug_of, EventEnvelope, MarketEvent, Side, Venue};
use crate::layout::{code_of, venue_code, venue_of_code};
use crate::number::Real;
use crate::ordered::{
    group_positions, grouped, lemma_pos, lemma_positions, occurs, positions, Key, Pair, SortedMap,
};

verus! {

// ---------------------------------------------------------------------------
// Buckets
// ---------------------------------------------------------------------------

/// An interval of at least 1.
pub open spec fn step_of(interval: i64) -> i64 {
    if interval < 1 {
        1
    } else {
        interval
    }
}

/// The start of the bucket that holds `ts`.
pub open spec fn bucket_of(ts: int, step: int) -> int {
    ts / step * step
}

/// The buckets of the events begin and end within 64 bits.
pub open spec fn buckets_fit(events: Seq<EventEnvelope>, step: int) -> bool {
    forall|i: int|
        0 <= i < events.len() ==> i64::MIN <= bucket_of(
            (#[trigger] events[i]).recv_ts_ns as int,
            step,
        ) && bucket_of(events[i].recv_ts_ns as int, step) + step <= i64::MAX
}

fn step(interval: i64) -> (s: i64)
    ensures
        s == step_of(interval),
        s >= 1,
{
    if interval < 1 {
        1
    } else {
        interval
    }
}

fn bucket(ts: i64, step: i64) -> (b: i64)
    requires
        step >= 1,
        i64::MIN <= bucket_of(ts as int, step as int) <= i64::MAX,
    ensures
        b == bucket_of(ts as int, step as int),
{
    let q: i64 = div_floor(ts, step);
    q * step
}

/// A bucket begins at or before each time in it, and ends behind it.
pub proof fn law_bucket_holds_time(ts: int, step: int)
    requires
        step >= 1,
    ensures
        bucket_of(ts, step) <= ts < bucket_of(ts, step) + step,
{
    assert(ts / step * step <= ts < ts / step * step + step) by (nonlinear_arith)
        requires
            step >= 1,
    ;
}

/// The positions of the events that satisfy `p`, in order.
pub open spec fn matching(events: Seq<EventEnvelope>, p: spec_fn(EventEnvelope) -> bool) -> Seq<
    usize,
>
    decreases events.len(),
{
    if events.len() == 0 {
        Seq::empty()
    } else {
        let before = matching(events.drop_last(), p);
        if p(events.last()) {
            before.push((events.len() - 1) as usize)
        } else {
            before
        }
    }
}

proof fn lemma_matching<K: Key>(
    events: Seq<EventEnvelope>,
    keys: Seq<K>,
    k: K::Id,
    p: spec_fn(EventEnvelope) -> bool,
)
    requires
        keys.len() == events.len(),
        forall|i: int|
            0 <= i < keys.len() ==> ((#[trigger] keys[i]).id() == k) == p(events[i]),
    ensures
        positions(keys, k) == matching(events, p),
    decreases events.len(),
{
    if events.len() > 0 {
        let k0 = keys.drop_last();
        let e0 = events.drop_last();
        assert forall|i: int| 0 <= i < k0.len() implies ((#[trigger] k0[i]).id() == k) == p(
            e0[i],
        ) by {
            assert((keys[i].id() == k) == p(events[i]));
        }
        lemma_matching(e0, k0, k, p);
        assert((keys[keys.len() - 1].id() == k) == p(events.last()));
    }
}

/// Positions that match are in range, and hold matching events.
proof fn lemma_matching_range(events: Seq<EventEnvelope>, p: spec_fn(EventEnvelope) -> bool)
    requires
        events.len() <= usize::MAX,
    ensures
        forall|i: int|
            0 <= i < matching(events, p).len() ==> (#[trigger] matching(events, p)[i]) < events.len()
                && p(events[matching(events, p)[i] as int]),
    decreases events.len(),
{
    if events.len() > 0 {
        lemma_matching_range(events.drop_last(), p);
        let b = matching(events.drop_last(), p);
        assert forall|i: int| 0 <= i < matching(events, p).len() implies (#[trigger] matching(
            events,
            p,
        )[i]) < events.len() && p(events[matching(events, p)[i] as int]) by {
            if i < b.len() {
                assert(matching(events, p)[i] == b[i]);
                assert(events.drop_last()[b[i] as int] == events[b[i] as int]);
            }
        }
    }
}

proof fn lemma_matching_exact(
    events: Seq<EventEnvelope>,
    p: spec_fn(EventEnvelope) -> bool,
    k: int,
)
    requires
        0 <= k < events.len() <= usize::MAX,
    ensures
        matching(events, p).contains(k as usize) <==> p(events[k]),
        matching(events, p).no_duplicates(),
    decreases events.len(),
{
    let e0 = events.drop_last();
    let m0 = matching(e0, p);
    let m = matching(events, p);
    lemma_matching_range(e0, p);
    if e0.len() > 0 {
        lemma_matching_exact(e0, p, if k < e0.len() { k } else { 0 });
    } else {
        assert(m0.no_duplicates());
    }
    if p(events.last()) {
        assert(m == m0.push((events.len() - 1) as usize));
        assert(m[m0.len() as int] == (events.len() - 1) as usize);
        assert forall|i: int| 0 <= i < m0.len() implies m[i] == #[trigger] m0[i] by {}
        if k < e0.len() && m0.contains(k as usize) {
            let i = m0.index_of(k as usize);
            assert(m[i] == m0[i]);
        }
        if m.contains(k as usize) && k < e0.len() {
            let i = m.index_of(k as usize);
            assert(m0[i] == k as usize);
        }
    }
}

// ---------------------------------------------------------------------------
// Footprint bars
// ---------------------------------------------------------------------------

/// One bar: its prices, and the trades in it.
#[derive(Debug)]
pub struct FootprintBar {
    pub bucket_ts_ns: i64,
    pub open: Real,
    pub high: Real,
    pub low: Real,
    pub close: Real,
    /// The positions of its trades, in order.
    pub trades: Vec<usize>,
}

/// The price of a trade.
pub open spec fn price_of(e: EventEnvelope) -> Real {
    e.body.as_trade()->0.price
}

/// Whether the event is a trade in bucket `b`.
pub open spec fn trade_in_bucket(e: EventEnvelope, step: int, b: int) -> bool {
    e.body.as_trade() is Some && bucket_of(e.recv_ts_ns as int, step) == b
}

/// The trades in bucket `b`.
pub open spec fn bar_trades(events: Seq<EventEnvelope>, step: int, b: int) -> Seq<usize> {
    matching(events, |e: EventEnvelope| trade_in_bucket(e, step, b))
}

/// The bars lose no trade and count none twice: a trade stands among those of
/// exactly one bucket, its own.
pub proof fn law_trade_in_one_bar(events: Seq<EventEnvelope>, step: int, b: int, k: int)
    requires
        0 <= k < events.len() <= usize::MAX,
    ensures
        bar_trades(events, step, b).contains(k as usize) <==> trade_in_bucket(events[k], step, b),
        bar_trades(events, step, b).no_duplicates(),
{
    lemma_matching_exact(events, |e: EventEnvelope| trade_in_bucket(e, step, b), k);
}

/// The highest price among the trades at `at`.
pub open spec fn high_of(events: Seq<EventEnvelope>, at: Seq<usize>) -> Real
    decreases at.len(),
{
    if at.len() <= 1 {
        price_of(events[at[0] as int])
    } else {
        high_of(events, at.drop_last()).max_of(price_of(events[at.last() as int]))
    }
}

/// The lowest price among the trades at `at`.
pub open spec fn low_of(events: Seq<EventEnvelope>, at: Seq<usize>) -> Real
    decreases at.len(),
{
    if at.len() <= 1 {
        price_of(events[at[0] as int])
    } else {
        low_of(events, at.drop_last()).min_of(price_of(events[at.last() as int]))
    }
}

/// `bar` is the bar of its bucket.
pub open spec fn is_bar(bar: FootprintBar, events: Seq<EventEnvelope>, step: int) -> bool {
    let at = bar_trades(events, step, bar.bucket_ts_ns as int);
    &&& bar.trades@ == at
    &&& at.len() > 0
    &&& bar.open == price_of(events[at[0] as int])
    &&& bar.close == price_of(events[at.last() as int])
    &&& bar.high == high_of(events, at)
    &&& bar.low == low_of(events, at)
}

/// Whether one of the bars is that of bucket `b`.
pub open spec fn has_bar(bars: Seq<FootprintBar>, b: int) -> bool {
    exists|i: int| 0 <= i < bars.len() && (#[trigger] bars[i]).bucket_ts_ns == b
}

/// The group of an event: trades by bucket, everything else apart.
spec fn bar_group(step: int) -> spec_fn(EventEnvelope) -> (u32, i64) {
    |e: EventEnvelope|
        if e.body.as_trade() is Some {
            (1u32, bucket_of(e.recv_ts_ns as int, step) as i64)
        } else {
            (0u32, 0i64)
        }
}

fn price_at(events: &Vec<EventEnvelope>, p: usize) -> (x: Real)
    requires
        p < events@.len(),
        events@[p as int].body.as_trade() is Some,
    ensures
        x == price_of(events@[p as int]),
{
    match events[p].body.trade_view() {
        Some(t) => t.price,
        None => Real { bits: 0 },
    }
}

/// The trades in bars of `interval_ns`, bars in order. Events that are no
/// trades are passed over, and the events need not be in order.
pub fn footprint_bars(events: &Vec<EventEnvelope>, interval_ns: i64) -> (bars: Vec<FootprintBar>)
    requires
        buckets_fit(events@, step_of(interval_ns) as int),
    ensures
        forall|i: int|
            0 <= i < bars@.len() ==> is_bar(
                #[trigger] bars@[i],
                events@,
                step_of(interval_ns) as int,
            ),
        forall|i: int, j: int|
            0 <= i < j < bars@.len() ==> (#[trigger] bars@[i]).bucket_ts_ns < (
            #[trigger] bars@[j]).bucket_ts_ns,
        forall|k: int|
            0 <= k < events@.len() && (#[trigger] events@[k]).body.as_trade() is Some ==> has_bar(
                bars@,
                bucket_of(events@[k].recv_ts_ns as int, step_of(interval_ns) as int),
            ),
{
    let s: i64 = step(interval_ns);
    let total: usize = events.len();
    let ghost g = bar_group(s as int);
    let mut keys: Vec<Pair<u32, i64>> = Vec::new();
    let mut i: usize = 0;
    while i < total
        invariant
            i <= total,
            total == events@.len(),
            s >= 1,
            buckets_fit(events@, s as int),
            g == bar_group(s as int),
            keys@.len() == i,
            forall|k: int| 0 <= k < i ==> (#[trigger] keys@[k]).id() == g(events@[k]),
        decreases total - i,
    {
        assert(i64::MIN <= bucket_of(events@[i as int].recv_ts_ns as int, s as int));
        if events[i].body.trade_view().is_some() {
            keys.push(Pair { a: 1, b: bucket(events[i].recv_ts_ns, s) });
        } else {
            keys.push(Pair { a: 0, b: 0 });
        }
        i = i + 1;
    }
    let ghost all = keys@;
    let groups = group_positions(keys);
    let ghost entries = groups.entries@;
    let mut bars: Vec<FootprintBar> = Vec::new();
    let mut n: usize = 0;
    while n < groups.entries.len()
        invariant
            n <= entries.len(),
            entries == groups.entries@,
            grouped(all, groups),
            total == events@.len(),
            all.len() == total,
            s >= 1,
            buckets_fit(events@, s as int),
            g == bar_group(s as int),
            forall|k: int| 0 <= k < all.len() ==> (#[trigger] all[k]).id() == g(events@[k]),
            forall|k: int|
                0 <= k < bars@.len() ==> is_bar(#[trigger] bars@[k], events@, s as int),
            forall|a: int, b: int|
                0 <= a < b < bars@.len() ==> (#[trigger] bars@[a]).bucket_ts_ns < (
                #[trigger] bars@[b]).bucket_ts_ns,
            forall|k: int, h: int|
                0 <= k < bars@.len() && n <= h < entries.len() && (#[trigger] entries[h]).0.a == 1
                    ==> (#[trigger] bars@[k]).bucket_ts_ns < entries[h].0.b,
            forall|h: int|
                0 <= h < n && (#[trigger] entries[h]).0.a == 1 ==> has_bar(
                    bars@,
                    entries[h].0.b as int,
                ),
        decreases entries.len() - n,
    {
        let entry = &groups.entries[n];
        let ghost id = entry.0.id();
        let ghost b0 = bars@;
        if entry.0.a == 1 {
            let b: i64 = entry.0.b;
            let ghost at = entry.1@;
            proof {
                lemma_pos(entries, n as int);
                assert(groups.map().dom().contains(id));
                assert(groups.map()[id]@ == positions(all, id));
                lemma_positions(all, id);
                let p = |e: EventEnvelope| trade_in_bucket(e, s as int, b as int);
                assert(id == (1u32, b));
                assert forall|x: int| 0 <= x < all.len() implies ((#[trigger] all[x]).id() == id)
                    == p(events@[x]) by {
                    assert(all[x].id() == g(events@[x]));
                    assert(i64::MIN <= bucket_of(events@[x].recv_ts_ns as int, s as int));
                }
                lemma_matching(events@, all, id, p);
                assert(at == bar_trades(events@, s as int, b as int));
                lemma_matching_range(events@, p);
                assert(occurs(all, id));
            }
            assert forall|x: int| 0 <= x < at.len() implies (#[trigger] at[x]) < events@.len()
                && events@[at[x] as int].body.as_trade() is Some by {
                assert(bar_trades(events@, s as int, b as int)[x] < events@.len());
            }
            let m: usize = entry.1.len();
            let open: Real = price_at(events, entry.1[0]);
            let mut high: Real = open;
            let mut low: Real = open;
            let mut j: usize = 1;
            assert(at.take(1)[0] == at[0]);
            while j < m
                invariant
                    1 <= j <= m,
                    m == at.len(),
                    at == entry.1@,
                    forall|x: int|
                        0 <= x < at.len() ==> (#[trigger] at[x]) < events@.len()
                            && events@[at[x] as int].body.as_trade() is Some,
                    high == high_of(events@, at.take(j as int)),
                    low == low_of(events@, at.take(j as int)),
                decreases m - j,
            {
                let p: Real = price_at(events, entry.1[j]);
                assert(at.take(j + 1).drop_last() =~= at.take(j as int));
                assert(at.take(j + 1).last() == at[j as int]);
                high = high.max(p);
                low = low.min(p);
                j = j + 1;
            }
            assert(at.take(j as int) =~= at);
            let close: Real = price_at(events, entry.1[m - 1]);
            let trades = copy_positions(&entry.1);
            let bar = FootprintBar { bucket_ts_ns: b, open, high, low, close, trades };
            assert(is_bar(bar, events@, s as int));
            bars.push(bar);
            assert(bars@[b0.len() as int].bucket_ts_ns == b);
        }
        proof {
            assert forall|k: int, h: int| 0 <= k < bars@.len() && n + 1 <= h < entries.len() && (
            #[trigger] entries[h]).0.a == 1 implies (#[trigger] bars@[k]).bucket_ts_ns
                < entries[h].0.b by {
                if k < b0.len() {
                    assert(bars@[k] == b0[k]);
                } else {
                    assert(<Pair<u32, i64> as Key>::precedes(
                        entries[n as int].0.id(),
                        entries[h].0.id(),
                    ));
                }
            }
            assert forall|h: int| 0 <= h < n + 1 && (#[trigger] entries[h]).0.a == 1 implies
                has_bar(bars@, entries[h].0.b as int) by {
                if h < n {
                    assert(has_bar(b0, entries[h].0.b as int));
                    let k = choose|k: int|
                        0 <= k < b0.len() && (#[trigger] b0[k]).bucket_ts_ns == entries[h].0.b;
                    assert(bars@[k] == b0[k]);
                }
            }
        }
        n = n + 1;
    }
    proof {
        assert forall|k: int|
            0 <= k < events@.len() && (#[trigger] events@[k]).body.as_trade() is Some implies
            has_bar(bars@, bucket_of(events@[k].recv_ts_ns as int, s as int)) by {
            let id = g(events@[k]);
            assert(all[k].id() == id);
            assert(occurs(all, id));
            assert(groups.map().dom().contains(id));
            let h = crate::ordered::key_pos(entries, id);
            assert(entries[h].0.id() == id);
            assert(entries[h].0.a == 1);
            assert(i64::MIN <= bucket_of(events@[k].recv_ts_ns as int, s as int));
        }
    }
    bars
}

/// A copy of positions.
fn copy_positions(v: &Vec<usize>) -> (r: Vec<usize>)
    ensures
        r@ == v@,
{
    let mut r: Vec<usize> = Vec::new();
    let mut i: usize = 0;
    while i < v.len()
        invariant
            i <= v@.len(),
            r@ =~= v@.take(i as int),
        decreases v@.len() - i,
    {
        r.push(v[i]);
        i = i + 1;
    }
    assert(v@.take(i as int) =~= v@);
    r
}

/// The average price of a bar: the quotient of value and quantity, or the
/// close where the quantity is not above zero.
pub fn vwap(qty: Real, quotient: Real, close: Real) -> (x: Real)
    ensures
        x == if qty.positive() {
            quotient
        } else {
            close
        },
{
    if qty.is_positive() {
        quotient
    } else {
        close
    }
}

// ---------------------------------------------------------------------------
// Footprint grid
// ---------------------------------------------------------------------------

/// One cell of the footprint grid: a bucket of time and a block of prices.
#[derive(Debug)]
pub struct FootprintBucketRow {
    pub bucket_ts_ns: i64,
    /// The number of the price block.
    pub price_block: i64,
    /// The trades whose aggressor bought.
    pub buys: Vec<usize>,
    /// The trades whose aggressor sold.
    pub sells: Vec<usize>,
}

/// The side of a trade.
pub open spec fn side_of(e: EventEnvelope) -> Side {
    e.body.as_trade()->0.side
}

/// The positions among the first `n` whose events are trades of that side in
/// that cell.
pub open spec fn cell_trades(
    events: Seq<EventEnvelope>,
    blocks: Seq<i64>,
    step: int,
    b: int,
    block: i64,
    side: Side,
    n: int,
) -> Seq<usize>
    decreases n,
{
    if n <= 0 {
        Seq::empty()
    } else {
        let before = cell_trades(events, blocks, step, b, block, side, n - 1);
        let e = events[n - 1];
        if trade_in_bucket(e, step, b) && blocks[n - 1] == block && side_of(e) == side {
            before.push((n - 1) as usize)
        } else {
            before
        }
    }
}

fn cell_positions(
    events: &Vec<EventEnvelope>,
    blocks: &Vec<i64>,
    s: i64,
    b: i64,
    block: i64,
    side: Side,
) -> (r: Vec<usize>)
    requires
        blocks@.len() == events@.len(),
        s >= 1,
        buckets_fit(events@, s as int),
    ensures
        r@ == cell_trades(
            events@,
            blocks@,
            s as int,
            b as int,
            block,
            side,
            events@.len() as int,
        ),
{
    let mut r: Vec<usize> = Vec::new();
    let mut i: usize = 0;
    while i < events.len()
        invariant
            i <= events@.len(),
            blocks@.len() == events@.len(),
            s >= 1,
            buckets_fit(events@, s as int),
            r@ =~= cell_trades(events@, blocks@, s as int, b as int, block, side, i as int),
        decreases events@.len() - i,
    {
        assert(i64::MIN <= bucket_of(events@[i as int].recv_ts_ns as int, s as int));
        if let Some(t) = events[i].body.trade_view() {
            if bucket(events[i].recv_ts_ns, s) == b && blocks[i] == block && t.side == side {
                r.push(i);
            }
        }
        i = i + 1;
    }
    r
}

/// `row` is the cell of its bucket and block, and holds a trade.
pub open spec fn is_cell(
    row: FootprintBucketRow,
    events: Seq<EventEnvelope>,
    blocks: Seq<i64>,
    step: int,
) -> bool {
    let n = events.len() as int;
    &&& row.buys@ == cell_trades(
        events,
        blocks,
        step,
        row.bucket_ts_ns as int,
        row.price_block,
        Side::Buy,
        n,
    )
    &&& row.sells@ == cell_trades(
        events,
        blocks,
        step,
        row.bucket_ts_ns as int,
        row.price_block,
        Side::Sell,
        n,
    )
    &&& row.buys@.len() + row.sells@.len() > 0
}

/// Whether one of the first `n` events is a trade of the cell.
spec fn cell_used(
    events: Seq<EventEnvelope>,
    blocks: Seq<i64>,
    step: int,
    id: (i64, i64),
    n: int,
) -> bool {
    exists|k: int|
        0 <= k < n && trade_in_bucket(#[trigger] events[k], step, id.0 as int) && blocks[k] == id.1
}

proof fn lemma_cell_used(
    events: Seq<EventEnvelope>,
    blocks: Seq<i64>,
    step: int,
    id: (i64, i64),
    n: int,
)
    requires
        cell_used(events, blocks, step, id, n),
    ensures
        cell_trades(events, blocks, step, id.0 as int, id.1, Side::Buy, n).len() + cell_trades(
            events,
            blocks,
            step,
            id.0 as int,
            id.1,
            Side::Sell,
            n,
        ).len() > 0,
    decreases n,
{
    let k = choose|k: int|
        0 <= k < n && trade_in_bucket(#[trigger] events[k], step, id.0 as int) && blocks[k] == id.1;
    if k < n - 1 {
        assert(cell_used(events, blocks, step, id, n - 1));
        lemma_cell_used(events, blocks, step, id, n - 1);
    }
}

/// Whether one of the cells is that of the bucket and block.
pub open spec fn has_cell(rows: Seq<FootprintBucketRow>, b: int, block: i64) -> bool {
    exists|i: int|
        0 <= i < rows.len() && (#[trigger] rows[i]).bucket_ts_ns == b && rows[i].price_block
            == block
}

/// The trades in cells of time and price, by time and then price. `blocks`
/// holds the price block of each event, and is read for trades only.
pub fn footprint_buckets(
    events: &Vec<EventEnvelope>,
    blocks: &Vec<i64>,
    interval_ns: i64,
) -> (rows: Vec<FootprintBucketRow>)
    requires
        blocks@.len() == events@.len(),
        buckets_fit(events@, step_of(interval_ns) as int),
    ensures
        forall|i: int|
            0 <= i < rows@.len() ==> is_cell(
                #[trigger] rows@[i],
                events@,
                blocks@,
                step_of(interval_ns) as int,
            ),
        forall|i: int, j: int|
            0 <= i < j < rows@.len() ==> <Pair<i64, i64> as Key>::precedes(
                ((#[trigger] rows@[i]).bucket_ts_ns, rows@[i].price_block),
                ((#[trigger] rows@[j]).bucket_ts_ns, rows@[j].price_block),
            ),
        forall|k: int|
            0 <= k < events@.len() && (#[trigger] events@[k]).body.as_trade() is Some ==> has_cell(
                rows@,
                bucket_of(events@[k].recv_ts_ns as int, step_of(interval_ns) as int),
                blocks@[k],
            ),
{
    let s: i64 = step(interval_ns);
    let mut cells: SortedMap<Pair<i64, i64>, ()> = SortedMap::new();
    let mut i: usize = 0;
    while i < events.len()
        invariant
            i <= events@.len(),
            blocks@.len() == events@.len(),
            s >= 1,
            buckets_fit(events@, s as int),
            cells.wf(),
            forall|k: int|
                0 <= k < i && (#[trigger] events@[k]).body.as_trade() is Some
                    ==> cells.map().dom().contains(
                    (bucket_of(events@[k].recv_ts_ns as int, s as int) as i64, blocks@[k]),
                ),
            forall|id: (i64, i64)| #[trigger]
                cells.map().dom().contains(id) ==> cell_used(
                    events@,
                    blocks@,
                    s as int,
                    id,
                    i as int,
                ),
        decreases events@.len() - i,
    {
        assert(i64::MIN <= bucket_of(events@[i as int].recv_ts_ns as int, s as int));
        let ghost m0 = cells.map();
        if events[i].body.trade_view().is_some() {
            let b: i64 = bucket(events[i].recv_ts_ns, s);
            cells.set(Pair { a: b, b: blocks[i] }, ());
        }
        proof {
            assert forall|id: (i64, i64)| #[trigger]
                cells.map().dom().contains(id) implies cell_used(
                events@,
                blocks@,
                s as int,
                id,
                i + 1,
            ) by {
                if m0.dom().contains(id) {
                    assert(cell_used(events@, blocks@, s as int, id, i as int));
                } else {
                    assert(trade_in_bucket(events@[i as int], s as int, id.0 as int));
                }
            }
        }
        i = i + 1;
    }
    let ghost entries = cells.entries@;
    let mut rows: Vec<FootprintBucketRow> = Vec::new();
    let mut n: usize = 0;
    while n < cells.entries.len()
        invariant
            n <= entries.len(),
            entries == cells.entries@,
            cells.wf(),
            forall|id: (i64, i64)| #[trigger]
                cells.map().dom().contains(id) ==> cell_used(
                    events@,
                    blocks@,
                    s as int,
                    id,
                    events@.len() as int,
                ),
            blocks@.len() == events@.len(),
            s >= 1,
            buckets_fit(events@, s as int),
            rows@.len() == n,
            forall|k: int|
                0 <= k < n ==> is_cell(#[trigger] rows@[k], events@, blocks@, s as int)
                    && rows@[k].bucket_ts_ns == entries[k].0.a && rows@[k].price_block
                    == entries[k].0.b,
        decreases entries.len() - n,
    {
        let b: i64 = cells.entries[n].0.a;
        let block: i64 = cells.entries[n].0.b;
        proof {
            crate::ordered::lemma_pos(entries, n as int);
            assert(cells.map().dom().contains(entries[n as int].0.id()));
            lemma_cell_used(events@, blocks@, s as int, (b, block), events@.len() as int);
        }
        rows.push(
            FootprintBucketRow {
                bucket_ts_ns: b,
                price_block: block,
                buys: cell_positions(events, blocks, s, b, block, Side::Buy),
                sells: cell_positions(events, blocks, s, b, block, Side::Sell),
            },
        );
        n = n + 1;
    }
    proof {
        assert forall|i: int, j: int| 0 <= i < j < rows@.len() implies <Pair<
            i64,
            i64,
        > as Key>::precedes(
            ((#[trigger] rows@[i]).bucket_ts_ns, rows@[i].price_block),
            ((#[trigger] rows@[j]).bucket_ts_ns, rows@[j].price_block),
        ) by {
            assert(<Pair<i64, i64> as Key>::precedes(entries[i].0.id(), entries[j].0.id()));
        }
        assert forall|k: int|
            0 <= k < events@.len() && (#[trigger] events@[k]).body.as_trade() is Some implies
            has_cell(rows@, bucket_of(events@[k].recv_ts_ns as int, s as int), blocks@[k]) by {
            assert(i64::MIN <= bucket_of(events@[k].recv_ts_ns as int, s as int));
            let id = (bucket_of(events@[k].recv_ts_ns as int, s as int) as i64, blocks@[k]);
            assert(cells.map().dom().contains(id));
            let h = crate::ordered::key_pos(entries, id);
            assert(entries[h].0.id() == id);
            assert(rows@[h].bucket_ts_ns == id.0);
        }
    }
    rows
}

// ---------------------------------------------------------------------------
// Ladder samples
// ---------------------------------------------------------------------------

/// When the ladder is sampled, and after how many events.
#[derive(Clone, Copy, Debug, PartialEq, Eq, Structural)]
pub struct DomSample {
    pub ts_ns: i64,
    pub applied: usize,
}

/// The least distance of samples: one millisecond.
pub open spec fn sample_step(every: i64) -> i64 {
    if every < 1_000_000 {
        1_000_000
    } else {
        every
    }
}

/// The first event at or behind position `from` whose time is at least `b`;
/// the number of events if there is none.
pub open spec fn first_at_or_after(events: Seq<EventEnvelope>, b: int, from: int) -> int
    decreases events.len() - from,
{
    if from >= events.len() || events[from].recv_ts_ns >= b {
        from
    } else {
        first_at_or_after(events, b, from + 1)
    }
}

/// How many events are applied when the ladder is sampled at `b`: those
/// before the first event that is not earlier than `b`, and that event too
/// where it is exactly at `b`. Behind the last event, all of them.
pub open spec fn applied_at(events: Seq<EventEnvelope>, b: int) -> int {
    let i = first_at_or_after(events, b, 0);
    if i < events.len() && events[i].recv_ts_ns == b {
        i + 1
    } else {
        i
    }
}

/// `samples` are the first samples from `from_ts` on, one every `step`.
pub open spec fn are_samples(
    samples: Seq<DomSample>,
    events: Seq<EventEnvelope>,
    from_ts: int,
    step: int,
) -> bool {
    forall|k: int|
        0 <= k < samples.len() ==> (#[trigger] samples[k]).ts_ns == from_ts + k * step
            && samples[k].applied == applied_at(events, from_ts + k * step)
}

/// Every sample that is due was taken, and none past the window: it is sampled
/// to its end, or the greatest number of samples is reached.
pub open spec fn samples_complete(n: int, from_ts: int, to_ts: int, step: int, max: int) -> bool {
    n <= max && from_ts + n * step <= to_ts + step && (n == max || from_ts + n * step > to_ts)
}

proof fn lemma_first_settled(events: Seq<EventEnvelope>, b: int, i: int)
    requires
        0 <= i <= events.len(),
        forall|k: int| 0 <= k < i ==> (#[trigger] events[k]).recv_ts_ns < b,
        i < events.len() ==> events[i].recv_ts_ns >= b,
    ensures
        first_at_or_after(events, b, 0) == i,
{
    lemma_first_from(events, b, 0, i);
}

proof fn lemma_first_from(events: Seq<EventEnvelope>, b: int, from: int, i: int)
    requires
        0 <= from <= i <= events.len(),
        forall|k: int| from <= k < i ==> (#[trigger] events[k]).recv_ts_ns < b,
        i < events.len() ==> events[i].recv_ts_ns >= b,
    ensures
        first_at_or_after(events, b, from) == i,
    decreases i - from,
{
    if from < i {
        assert(events[from].recv_ts_ns < b);
        lemma_first_from(events, b, from + 1, i);
    }
}

/// When the ladder of a book is sampled between `from_ts_ns` and `to_ts_ns`,
/// and after how many of the events. Events before the window are applied, so
/// that the book is warm at the first sample.
pub fn dom_series(
    events: &Vec<EventEnvelope>,
    from_ts_ns: i64,
    to_ts_ns: i64,
    every_ns: i64,
    max_samples: usize,
) -> (samples: Vec<DomSample>)
    requires
        to_ts_ns + sample_step(every_ns) <= i64::MAX,
    ensures
        from_ts_ns > to_ts_ns ==> samples@.len() == 0,
        from_ts_ns <= to_ts_ns ==> are_samples(
            samples@,
            events@,
            from_ts_ns as int,
            sample_step(every_ns) as int,
        ) && samples_complete(
            samples@.len() as int,
            from_ts_ns as int,
            to_ts_ns as int,
            sample_step(every_ns) as int,
            if max_samples < 1 {
                1
            } else {
                max_samples as int
            },
        ),
{
    let every: i64 = if every_ns < 1_000_000 {
        1_000_000
    } else {
        every_ns
    };
    let max: usize = if max_samples < 1 {
        1
    } else {
        max_samples
    };
    let mut samples: Vec<DomSample> = Vec::new();
    if from_ts_ns > to_ts_ns {
        return samples;
    }
    let mut next: i64 = from_ts_ns;
    let mut i: usize = 0;
    while i < events.len()
        invariant
            i <= events@.len(),
            every >= 1,
            every == sample_step(every_ns),
            max == if max_samples < 1 {
                1
            } else {
                max_samples as int
            },
            to_ts_ns + every <= i64::MAX,
            next <= to_ts_ns + every,
            samples@.len() < max,
            next == from_ts_ns + samples@.len() * every,
            are_samples(samples@, events@, from_ts_ns as int, every as int),
            next <= to_ts_ns ==> forall|k: int|
                0 <= k < i ==> (#[trigger] events@[k]).recv_ts_ns < next,
        decreases events@.len() - i,
    {
        let t: i64 = events[i].recv_ts_ns;
        while next < t && next <= to_ts_ns
            invariant
                i < events@.len(),
                t == events@[i as int].recv_ts_ns,
                every >= 1,
                every == sample_step(every_ns),
                max == if max_samples < 1 {
                    1
                } else {
                    max_samples as int
                },
                to_ts_ns + every <= i64::MAX,
                next <= to_ts_ns + every,
                samples@.len() < max,
                next == from_ts_ns + samples@.len() * every,
                are_samples(samples@, events@, from_ts_ns as int, every as int),
                next <= to_ts_ns ==> forall|k: int|
                    0 <= k < i ==> (#[trigger] events@[k]).recv_ts_ns < next,
            decreases to_ts_ns + every - next,
        {
            proof {
                lemma_first_settled(events@, next as int, i as int);
                assert((samples@.len() + 1) * every == samples@.len() * every + every)
                    by (nonlinear_arith);
            }
            let ghost s0 = samples@;
            samples.push(DomSample { ts_ns: next, applied: i });
            proof {
                assert forall|k: int| 0 <= k < samples@.len() implies (
                #[trigger] samples@[k]).ts_ns == from_ts_ns + k * every && samples@[k].applied
                    == applied_at(events@, from_ts_ns + k * every) by {
                    if k < s0.len() {
                        assert(samples@[k] == s0[k]);
                    }
                }
            }
            next = next + every;
            if samples.len() >= max {
                return samples;
            }
        }
        if next == t && next <= to_ts_ns {
            proof {
                lemma_first_settled(events@, next as int, i as int);
                assert((samples@.len() + 1) * every == samples@.len() * every + every)
                    by (nonlinear_arith);
            }
            let ghost s0 = samples@;
            samples.push(DomSample { ts_ns: t, applied: i + 1 });
            proof {
                assert forall|k: int| 0 <= k < samples@.len() implies (
                #[trigger] samples@[k]).ts_ns == from_ts_ns + k * every && samples@[k].applied
                    == applied_at(events@, from_ts_ns + k * every) by {
                    if k < s0.len() {
                        assert(samples@[k] == s0[k]);
                    }
                }
            }
            next = next + every;
            if samples.len() >= max {
                return samples;
            }
        }
        i = i + 1;
    }
    while next <= to_ts_ns
        invariant
            every >= 1,
            every == sample_step(every_ns),
            max == if max_samples < 1 {
                1
            } else {
                max_samples as int
            },
            to_ts_ns + every <= i64::MAX,
            next <= to_ts_ns + every,
            samples@.len() < max,
            next == from_ts_ns + samples@.len() * every,
            are_samples(samples@, events@, from_ts_ns as int, every as int),
            next <= to_ts_ns ==> forall|k: int|
                0 <= k < events@.len() ==> (#[trigger] events@[k]).recv_ts_ns < next,
        decreases to_ts_ns + every - next,
    {
        proof {
            lemma_first_settled(events@, next as int, events@.len() as int);
            assert((samples@.len() + 1) * every == samples@.len() * every + every)
                by (nonlinear_arith);
        }
        let ghost s0 = samples@;
        samples.push(DomSample { ts_ns: next, applied: events.len() });
        proof {
            assert forall|k: int| 0 <= k < samples@.len() implies (#[trigger] samples@[k]).ts_ns
                == from_ts_ns + k * every && samples@[k].applied == applied_at(
                events@,
                from_ts_ns + k * every,
            ) by {
                if k < s0.len() {
                    assert(samples@[k] == s0[k]);
                }
            }
        }
        next = next + every;
        if samples.len() >= max {
            return samples;
        }
    }
    samples
}

/// The ladder at one moment.
#[derive(Debug)]
pub struct DomSnapshot {
    pub ts_ns: i64,
    pub stale: bool,
    pub bids: Vec<(Real, Real)>,
    pub asks: Vec<(Real, Real)>,
}

/// What a snapshot holds.
pub struct SnapshotView {
    pub ts: i64,
    pub stale: bool,
    pub bids: Seq<(Real, Real)>,
    pub asks: Seq<(Real, Real)>,
}

impl DomSnapshot {
    pub open spec fn says(self) -> SnapshotView {
        SnapshotView { ts: self.ts_ns, stale: self.stale, bids: self.bids@, asks: self.asks@ }
    }
}

/// The number of levels of a ladder: between 1 and 50.
pub open spec fn levels_of(levels: usize) -> usize {
    if levels < 1 {
        1
    } else if levels > 50 {
        50
    } else {
        levels
    }
}

/// The first `n` levels, or all of them.
pub open spec fn top(side: Seq<(Real, Real)>, n: usize) -> Seq<(Real, Real)> {
    if side.len() <= n {
        side
    } else {
        side.take(n as int)
    }
}

/// The snapshot of a book: a stale book shows no levels.
pub open spec fn snapshot_of(
    ts: i64,
    stale: bool,
    bids: Seq<(Real, Real)>,
    asks: Seq<(Real, Real)>,
    levels: usize,
) -> SnapshotView {
    if stale {
        SnapshotView { ts, stale, bids: Seq::empty(), asks: Seq::empty() }
    } else {
        SnapshotView {
            ts,
            stale,
            bids: top(bids, levels_of(levels)),
            asks: top(asks, levels_of(levels)),
        }
    }
}

fn top_levels(side: &Vec<(Real, Real)>, n: usize) -> (r: Vec<(Real, Real)>)
    ensures
        r@ == top(side@, n),
{
    let mut r: Vec<(Real, Real)> = Vec::new();
    let mut i: usize = 0;
    while i < side.len() && i < n
        invariant
            i <= side@.len(),
            i <= n,
            r@ =~= side@.take(i as int),
        decreases side@.len() - i,
    {
        r.push(side[i]);
        i = i + 1;
    }
    assert(r@ =~= top(side@, n));
    r
}

/// Appends the ladder of a book: its best levels, best first, or none where
/// the book is stale.
pub fn push_dom_sample(
    out: &mut Vec<DomSnapshot>,
    stale: bool,
    bids: &Vec<(Real, Real)>,
    asks: &Vec<(Real, Real)>,
    ts: i64,
    levels: usize,
)
    ensures
        final(out)@.len() == old(out)@.len() + 1,
        final(out)@.drop_last() == old(out)@,
        final(out)@.last().says() == snapshot_of(ts, stale, bids@, asks@, levels),
{
    let n: usize = if levels < 1 {
        1
    } else if levels > 50 {
        50
    } else {
        levels
    };
    let ghost before = out@;
    let d = if stale {
        DomSnapshot { ts_ns: ts, stale: true, bids: Vec::new(), asks: Vec::new() }
    } else {
        DomSnapshot {
            ts_ns: ts,
            stale: false,
            bids: top_levels(bids, n),
            asks: top_levels(asks, n),
        }
    };
    proof {
        if stale {
            assert(d.bids@ =~= Seq::empty());
            assert(d.asks@ =~= Seq::empty());
        }
    }
    out.push(d);
    assert(out@.drop_last() =~= before);
}

// ---------------------------------------------------------------------------
// Funding, open interest and marks
// ---------------------------------------------------------------------------

/// Whether the event is of the venue's symbol.
pub open spec fn of_symbol(e: EventEnvelope, venue: Venue, sym: u32) -> bool {
    e.venue == venue && e.symbol.0 == sym
}

/// The last funding rate in each bucket.
pub open spec fn funding_of(
    events: Seq<EventEnvelope>,
    venue: Venue,
    sym: u32,
    step: int,
) -> Map<i64, Real>
    decreases events.len(),
{
    if events.len() == 0 {
        Map::empty()
    } else {
        let before = funding_of(events.drop_last(), venue, sym, step);
        let e = events.last();
        match e.body {
            MarketEvent::Funding { rate, .. } => if of_symbol(e, venue, sym) {
                before.insert(bucket_of(e.recv_ts_ns as int, step) as i64, rate)
            } else {
                before
            },
            _ => before,
        }
    }
}

/// The last mark in each bucket.
pub open spec fn marks_of(
    events: Seq<EventEnvelope>,
    venue: Venue,
    sym: u32,
    step: int,
) -> Map<i64, Real>
    decreases events.len(),
{
    if events.len() == 0 {
        Map::empty()
    } else {
        let before = marks_of(events.drop_last(), venue, sym, step);
        let e = events.last();
        match e.body {
            MarketEvent::MarkPrice { mark, .. } => if of_symbol(e, venue, sym) {
                before.insert(bucket_of(e.recv_ts_ns as int, step) as i64, mark)
            } else {
                before
            },
            _ => before,
        }
    }
}

/// The last finite index in each bucket.
pub open spec fn indexes_of(
    events: Seq<EventEnvelope>,
    venue: Venue,
    sym: u32,
    step: int,
) -> Map<i64, Real>
    decreases events.len(),
{
    if events.len() == 0 {
        Map::empty()
    } else {
        let before = indexes_of(events.drop_last(), venue, sym, step);
        let e = events.last();
        match e.body {
            MarketEvent::MarkPrice { index, .. } => if of_symbol(e, venue, sym) && index.finite() {
                before.insert(bucket_of(e.recv_ts_ns as int, step) as i64, index)
            } else {
                before
            },
            _ => before,
        }
    }
}

/// A usable open interest: finite and above zero.
pub open spec fn usable_oi(x: Real) -> bool {
    x.finite() && x.positive()
}

/// The usable readings of open interest, in dollars or in contracts.
pub open spec fn readings_of(
    events: Seq<EventEnvelope>,
    venue: Venue,
    sym: u32,
    usd: bool,
) -> Seq<(i64, Real)>
    decreases events.len(),
{
    if events.len() == 0 {
        Seq::empty()
    } else {
        let before = readings_of(events.drop_last(), venue, sym, usd);
        let e = events.last();
        match e.body {
            MarketEvent::OpenInterest { oi_contracts, oi_notional } => {
                let x = if usd {
                    oi_notional
                } else {
                    oi_contracts
                };
                if of_symbol(e, venue, sym) && usable_oi(x) {
                    before.push((e.recv_ts_ns, x))
                } else {
                    before
                }
            },
            _ => before,
        }
    }
}

/// The last reading at or before `end`.
pub open spec fn reading_as_of(s: Seq<(i64, Real)>, end: int) -> Option<Real>
    decreases s.len(),
{
    if s.len() == 0 {
        None
    } else if s.last().0 <= end {
        Some(s.last().1)
    } else {
        reading_as_of(s.drop_last(), end)
    }
}

/// The last reading at or before `end`.
pub fn oi_as_of(s: &Vec<(i64, Real)>, end: i64) -> (r: Option<Real>)
    ensures
        r == reading_as_of(s@, end as int),
{
    let mut i: usize = s.len();
    assert(s@.take(i as int) =~= s@);
    while i > 0
        invariant
            i <= s@.len(),
            reading_as_of(s@, end as int) == reading_as_of(s@.take(i as int), end as int),
        decreases i,
    {
        assert(s@.take(i as int).drop_last() =~= s@.take(i - 1));
        assert(s@.take(i as int).last() == s@[i - 1]);
        if s[i - 1].0 <= end {
            return Some(s[i - 1].1);
        }
        i = i - 1;
    }
    None
}

/// What one venue's symbol reported.
struct MemberSeries {
    funding: SortedMap<i64, Real>,
    oi_usd: Vec<(i64, Real)>,
    oi_contracts: Vec<(i64, Real)>,
    mark: SortedMap<i64, Real>,
    index: SortedMap<i64, Real>,
}

impl MemberSeries {
    spec fn is_of(&self, events: Seq<EventEnvelope>, venue: Venue, sym: u32, step: int) -> bool {
        &&& self.funding.wf()
        &&& self.mark.wf()
        &&& self.index.wf()
        &&& self.funding.map() == funding_of(events, venue, sym, step)
        &&& self.mark.map() == marks_of(events, venue, sym, step)
        &&& self.index.map() == indexes_of(events, venue, sym, step)
        &&& self.oi_usd@ == readings_of(events, venue, sym, true)
        &&& self.oi_contracts@ == readings_of(events, venue, sym, false)
    }
}

fn member_series(events: &Vec<EventEnvelope>, venue: Venue, sym: u32, s: i64) -> (m: MemberSeries)
    requires
        s >= 1,
        buckets_fit(events@, s as int),
    ensures
        m.is_of(events@, venue, sym, s as int),
{
    let mut m = MemberSeries {
        funding: SortedMap::new(),
        oi_usd: Vec::new(),
        oi_contracts: Vec::new(),
        mark: SortedMap::new(),
        index: SortedMap::new(),
    };
    let mut i: usize = 0;
    assert(events@.take(0).len() == 0);
    assert(m.oi_usd@ =~= Seq::<(i64, Real)>::empty());
    assert(m.oi_contracts@ =~= Seq::<(i64, Real)>::empty());
    while i < events.len()
        invariant
            i <= events@.len(),
            s >= 1,
            buckets_fit(events@, s as int),
            m.is_of(events@.take(i as int), venue, sym, s as int),
        decreases events@.len() - i,
    {
        let e = &events[i];
        assert(events@.take(i + 1).drop_last() =~= events@.take(i as int));
        assert(events@.take(i + 1).last() == *e);
        assert(i64::MIN <= bucket_of(events@[i as int].recv_ts_ns as int, s as int));
        if e.venue == venue && e.symbol.0 == sym {
            match &e.body {
                MarketEvent::Funding { rate, .. } => {
                    m.funding.set(bucket(e.recv_ts_ns, s), *rate);
                },
                MarketEvent::OpenInterest { oi_contracts, oi_notional } => {
                    if oi_notional.is_finite() && oi_notional.is_positive() {
                        m.oi_usd.push((e.recv_ts_ns, *oi_notional));
                    }
                    if oi_contracts.is_finite() && oi_contracts.is_positive() {
                        m.oi_contracts.push((e.recv_ts_ns, *oi_contracts));
                    }
                },
                MarketEvent::MarkPrice { mark, index } => {
                    let b: i64 = bucket(e.recv_ts_ns, s);
                    m.mark.set(b, *mark);
                    if index.is_finite() {
                        m.index.set(b, *index);
                    }
                },
                _ => {},
            }
        }
        i = i + 1;
    }
    assert(events@.take(i as int) =~= events@);
    m
}

/// A number that is not one.
pub const NAN_BITS: u64 = 0x7FF8_0000_0000_0000;

/// One funded symbol in a bucket, with its open interest in one unit.
#[derive(Clone, Copy, Debug, PartialEq, Eq, Structural)]
pub struct Candidate {
    pub venue: Venue,
    pub symbol: u32,
    /// The last funding rate in the bucket.
    pub rate: Real,
    /// The open interest as of the bucket's end.
    pub oi: Real,
    /// The last mark in the bucket, or NaN.
    pub mark: Real,
    /// The last finite index in the bucket, or NaN.
    pub index: Real,
}

/// The value of `k`, or NaN.
pub open spec fn value_or_nan(m: Map<i64, Real>, k: i64) -> Real {
    if m.dom().contains(k) {
        m[k]
    } else {
        Real { bits: NAN_BITS }
    }
}

/// The candidate of a symbol in bucket `b`: it is funded there, and has a
/// reading of open interest in the unit.
pub open spec fn candidate_of(
    events: Seq<EventEnvelope>,
    member: (Venue, u32),
    b: i64,
    step: int,
    usd: bool,
) -> Option<Candidate> {
    let (venue, sym) = member;
    let funding = funding_of(events, venue, sym, step);
    let oi = reading_as_of(readings_of(events, venue, sym, usd), b + step);
    if funding.dom().contains(b) && oi is Some {
        Some(
            Candidate {
                venue,
                symbol: sym,
                rate: funding[b],
                oi: oi->0,
                mark: value_or_nan(marks_of(events, venue, sym, step), b),
                index: value_or_nan(indexes_of(events, venue, sym, step), b),
            },
        )
    } else {
        None
    }
}

/// The candidates of the members in bucket `b`, in order.
pub open spec fn class_of(
    events: Seq<EventEnvelope>,
    members: Seq<(Venue, u32)>,
    b: i64,
    step: int,
    usd: bool,
) -> Seq<Candidate>
    decreases members.len(),
{
    if members.len() == 0 {
        Seq::empty()
    } else {
        let before = class_of(events, members.drop_last(), b, step, usd);
        match candidate_of(events, members.last(), b, step, usd) {
            Some(c) => before.push(c),
            None => before,
        }
    }
}

/// The candidates of one bucket in both units.
#[derive(Debug)]
pub struct FundingBucket {
    pub interval_ts_ns: i64,
    pub usd: Vec<Candidate>,
    pub contracts: Vec<Candidate>,
}

/// What a bucket holds.
pub struct BucketView {
    pub ts: i64,
    pub usd: Seq<Candidate>,
    pub contracts: Seq<Candidate>,
}

impl FundingBucket {
    pub open spec fn says(self) -> BucketView {
        BucketView { ts: self.interval_ts_ns, usd: self.usd@, contracts: self.contracts@ }
    }
}

/// What buckets hold.
pub open spec fn bucket_views(v: Seq<FundingBucket>) -> Seq<BucketView> {
    Seq::new(v.len(), |i: int| v[i].says())
}

/// The buckets with a candidate in some unit, in order.
pub open spec fn funded_buckets(
    events: Seq<EventEnvelope>,
    members: Seq<(Venue, u32)>,
    buckets: Seq<i64>,
    step: int,
) -> Seq<BucketView>
    decreases buckets.len(),
{
    if buckets.len() == 0 {
        Seq::empty()
    } else {
        let before = funded_buckets(events, members, buckets.drop_last(), step);
        let b = buckets.last();
        let usd = class_of(events, members, b, step, true);
        let contracts = class_of(events, members, b, step, false);
        if usd.len() == 0 && contracts.len() == 0 {
            before
        } else {
            before.push(BucketView { ts: b, usd, contracts })
        }
    }
}

/// Whether some event funds the venue's symbol.
pub open spec fn is_funded(events: Seq<EventEnvelope>, venue: Venue, sym: u32) -> bool {
    exists|i: int|
        0 <= i < events.len() && (#[trigger] events[i]).body is Funding && of_symbol(
            events[i],
            venue,
            sym,
        )
}

/// Whether some event funds in bucket `b`.
pub open spec fn is_funded_bucket(events: Seq<EventEnvelope>, step: int, b: int) -> bool {
    exists|i: int|
        0 <= i < events.len() && (#[trigger] events[i]).body is Funding && bucket_of(
            events[i].recv_ts_ns as int,
            step,
        ) == b
}

/// `members` are the funded symbols, by venue name and then symbol.
pub open spec fn members_by_name(events: Seq<EventEnvelope>, members: Seq<(Venue, u32)>) -> bool {
    &&& forall|i: int, j: int|
        0 <= i < j < members.len() ==> <Pair<String, u32> as Key>::precedes(
            (slug_of((#[trigger] members[i]).0), members[i].1),
            (slug_of((#[trigger] members[j]).0), members[j].1),
        )
    &&& forall|m: (Venue, u32)| #[trigger] members.contains(m) <==> is_funded(events, m.0, m.1)
}

/// `members` are the funded symbols, by venue and then symbol.
pub open spec fn members_by_venue(events: Seq<EventEnvelope>, members: Seq<(Venue, u32)>) -> bool {
    &&& forall|i: int, j: int|
        0 <= i < j < members.len() ==> <Pair<u32, u32> as Key>::precedes(
            (code_of((#[trigger] members[i]).0) as u32, members[i].1),
            (code_of((#[trigger] members[j]).0) as u32, members[j].1),
        )
    &&& forall|m: (Venue, u32)| #[trigger] members.contains(m) <==> is_funded(events, m.0, m.1)
}

/// `buckets` are the buckets with funding, in order.
pub open spec fn buckets_in_order(events: Seq<EventEnvelope>, step: int, buckets: Seq<i64>) -> bool {
    &&& forall|i: int, j: int| 0 <= i < j < buckets.len() ==> buckets[i] < buckets[j]
    &&& forall|b: i64| #[trigger] buckets.contains(b) <==> is_funded_bucket(events, step, b as int)
}

fn members_named(events: &Vec<EventEnvelope>) -> (members: Vec<(Venue, u32)>)
    ensures
        members_by_name(events@, members@),
{
    let mut set: SortedMap<Pair<String, u32>, Venue> = SortedMap::new();
    let mut i: usize = 0;
    while i < events.len()
        invariant
            i <= events@.len(),
            set.wf(),
            forall|k: (Seq<char>, u32)| #[trigger]
                set.map().dom().contains(k) ==> slug_of(set.map()[k]) == k.0 && is_funded(
                    events@.take(i as int),
                    set.map()[k],
                    k.1,
                ),
            forall|k: int|
                0 <= k < i && (#[trigger] events@[k]).body is Funding ==> set.map().dom().contains(
                    (slug_of(events@[k].venue), events@[k].symbol.0),
                ),
        decreases events@.len() - i,
    {
        let e = &events[i];
        let ghost m0 = set.map();
        if let MarketEvent::Funding { .. } = &e.body {
            set.set(Pair { a: e.venue.slug().to_owned(), b: e.symbol.0 }, e.venue);
            assert(set.map() == m0.insert((slug_of(e.venue), e.symbol.0), e.venue));
        }
        proof {
            let next = events@.take(i + 1);
            assert(next[i as int] == *e);
            assert forall|k: (Seq<char>, u32)| #[trigger] set.map().dom().contains(k) implies
                slug_of(set.map()[k]) == k.0 && is_funded(next, set.map()[k], k.1) by {
                if m0.dom().contains(k) && set.map()[k] == m0[k] {
                    assert(is_funded(events@.take(i as int), m0[k], k.1));
                    let x = choose|x: int|
                        0 <= x < i && (#[trigger] events@.take(i as int)[x]).body is Funding
                            && of_symbol(events@.take(i as int)[x], m0[k], k.1);
                    assert(next[x] == events@.take(i as int)[x]);
                } else {
                    assert(of_symbol(next[i as int], e.venue, e.symbol.0));
                }
            }
        }
        i = i + 1;
    }
    assert(events@.take(i as int) =~= events@);
    let ghost entries = set.entries@;
    let mut members: Vec<(Venue, u32)> = Vec::new();
    let mut n: usize = 0;
    while n < set.entries.len()
        invariant
            n <= entries.len(),
            entries == set.entries@,
            members@.len() == n,
            forall|k: int|
                0 <= k < n ==> #[trigger] members@[k] == (entries[k].1, entries[k].0.b),
        decreases entries.len() - n,
    {
        members.push((set.entries[n].1, set.entries[n].0.b));
        n = n + 1;
    }
    proof {
        assert forall|k: int| 0 <= k < entries.len() implies (#[trigger] entries[k]).0.a@ == slug_of(
            entries[k].1,
        ) && is_funded(events@, entries[k].1, entries[k].0.b) by {
            lemma_pos(entries, k);
            assert(set.map().dom().contains(entries[k].0.id()));
        }
        assert forall|i: int, j: int| 0 <= i < j < members@.len() implies <Pair<
            String,
            u32,
        > as Key>::precedes(
            (slug_of((#[trigger] members@[i]).0), members@[i].1),
            (slug_of((#[trigger] members@[j]).0), members@[j].1),
        ) by {
            assert(<Pair<String, u32> as Key>::precedes(entries[i].0.id(), entries[j].0.id()));
            assert(entries[i].0.a@ == slug_of(entries[i].1));
            assert(entries[j].0.a@ == slug_of(entries[j].1));
        }
        assert forall|m: (Venue, u32)| #[trigger] members@.contains(m) <==> is_funded(
            events@,
            m.0,
            m.1,
        ) by {
            if members@.contains(m) {
                let k = choose|k: int| 0 <= k < members@.len() && members@[k] == m;
                assert(is_funded(events@, entries[k].1, entries[k].0.b));
            }
            if is_funded(events@, m.0, m.1) {
                let x = choose|x: int|
                    0 <= x < events@.len() && (#[trigger] events@[x]).body is Funding && of_symbol(
                        events@[x],
                        m.0,
                        m.1,
                    );
                let key = (slug_of(m.0), m.1);
                assert(set.map().dom().contains(key));
                let k = crate::ordered::key_pos(entries, key);
                assert(entries[k].0.id() == key);
                assert(entries[k].0.a@ == slug_of(entries[k].1));
                crate::event::law_slugs_distinct(entries[k].1, m.0);
                assert(members@[k] == m);
            }
        }
    }
    members
}

fn members_ordered(events: &Vec<EventEnvelope>) -> (members: Vec<(Venue, u32)>)
    ensures
        members_by_venue(events@, members@),
{
    let mut set: SortedMap<Pair<u32, u32>, Venue> = SortedMap::new();
    let mut i: usize = 0;
    while i < events.len()
        invariant
            i <= events@.len(),
            set.wf(),
            forall|k: (u32, u32)| #[trigger]
                set.map().dom().contains(k) ==> code_of(set.map()[k]) == k.0 && is_funded(
                    events@.take(i as int),
                    set.map()[k],
                    k.1,
                ),
            forall|k: int|
                0 <= k < i && (#[trigger] events@[k]).body is Funding ==> set.map().dom().contains(
                    (code_of(events@[k].venue) as u32, events@[k].symbol.0),
                ),
        decreases events@.len() - i,
    {
        let e = &events[i];
        let ghost m0 = set.map();
        if let MarketEvent::Funding { .. } = &e.body {
            set.set(Pair { a: venue_code(e.venue) as u32, b: e.symbol.0 }, e.venue);
            assert(set.map() == m0.insert((code_of(e.venue) as u32, e.symbol.0), e.venue));
        }
        proof {
            let next = events@.take(i + 1);
            assert(next[i as int] == *e);
            assert forall|k: (u32, u32)| #[trigger] set.map().dom().contains(k) implies code_of(
                set.map()[k],
            ) == k.0 && is_funded(next, set.map()[k], k.1) by {
                if m0.dom().contains(k) && set.map()[k] == m0[k] {
                    assert(is_funded(events@.take(i as int), m0[k], k.1));
                    let x = choose|x: int|
                        0 <= x < i && (#[trigger] events@.take(i as int)[x]).body is Funding
                            && of_symbol(events@.take(i as int)[x], m0[k], k.1);
                    assert(next[x] == events@.take(i as int)[x]);
                } else {
                    assert(of_symbol(next[i as int], e.venue, e.symbol.0));
                }
            }
        }
        i = i + 1;
    }
    assert(events@.take(i as int) =~= events@);
    let ghost entries = set.entries@;
    let mut members: Vec<(Venue, u32)> = Vec::new();
    let mut n: usize = 0;
    while n < set.entries.len()
        invariant
            n <= entries.len(),
            entries == set.entries@,
            members@.len() == n,
            forall|k: int|
                0 <= k < n ==> #[trigger] members@[k] == (entries[k].1, entries[k].0.b),
        decreases entries.len() - n,
    {
        members.push((set.entries[n].1, set.entries[n].0.b));
        n = n + 1;
    }
    proof {
        assert forall|k: int| 0 <= k < entries.len() implies (#[trigger] entries[k]).0.a == code_of(
            entries[k].1,
        ) && is_funded(events@, entries[k].1, entries[k].0.b) by {
            lemma_pos(entries, k);
            assert(set.map().dom().contains(entries[k].0.id()));
        }
        assert forall|i: int, j: int| 0 <= i < j < members@.len() implies <Pair<
            u32,
            u32,
        > as Key>::precedes(
            (code_of((#[trigger] members@[i]).0) as u32, members@[i].1),
            (code_of((#[trigger] members@[j]).0) as u32, members@[j].1),
        ) by {
            assert(<Pair<u32, u32> as Key>::precedes(entries[i].0.id(), entries[j].0.id()));
            assert(entries[i].0.a == code_of(entries[i].1));
            assert(entries[j].0.a == code_of(entries[j].1));
        }
        assert forall|m: (Venue, u32)| #[trigger] members@.contains(m) <==> is_funded(
            events@,
            m.0,
            m.1,
        ) by {
            if members@.contains(m) {
                let k = choose|k: int| 0 <= k < members@.len() && members@[k] == m;
                assert(is_funded(events@, entries[k].1, entries[k].0.b));
            }
            if is_funded(events@, m.0, m.1) {
                let x = choose|x: int|
                    0 <= x < events@.len() && (#[trigger] events@[x]).body is Funding && of_symbol(
                        events@[x],
                        m.0,
                        m.1,
                    );
                let key = (code_of(m.0) as u32, m.1);
                assert(set.map().dom().contains(key));
                let k = crate::ordered::key_pos(entries, key);
                assert(entries[k].0.id() == key);
                assert(entries[k].0.a == code_of(entries[k].1));
                assert(venue_of_code(code_of(m.0)) == Some(m.0));
                assert(venue_of_code(code_of(entries[k].1)) == Some(entries[k].1));
                assert(members@[k] == m);
            }
        }
    }
    members
}

fn buckets_ordered(events: &Vec<EventEnvelope>, s: i64) -> (buckets: Vec<i64>)
    requires
        s >= 1,
        buckets_fit(events@, s as int),
    ensures
        buckets_in_order(events@, s as int, buckets@),
{
    let mut set: SortedMap<i64, ()> = SortedMap::new();
    let mut i: usize = 0;
    while i < events.len()
        invariant
            i <= events@.len(),
            s >= 1,
            buckets_fit(events@, s as int),
            set.wf(),
            forall|b: i64| #[trigger]
                set.map().dom().contains(b) <==> is_funded_bucket(
                    events@.take(i as int),
                    s as int,
                    b as int,
                ),
        decreases events@.len() - i,
    {
        let e = &events[i];
        let ghost m0 = set.map();
        let ghost prev = events@.take(i as int);
        let ghost next = events@.take(i + 1);
        assert(i64::MIN <= bucket_of(events@[i as int].recv_ts_ns as int, s as int));
        if let MarketEvent::Funding { .. } = &e.body {
            set.set(bucket(e.recv_ts_ns, s), ());
        }
        proof {
            assert(next[i as int] == *e);
            assert forall|b: i64| #[trigger] set.map().dom().contains(b) <==> is_funded_bucket(
                next,
                s as int,
                b as int,
            ) by {
                if is_funded_bucket(next, s as int, b as int) {
                    let x = choose|x: int|
                        0 <= x < next.len() && (#[trigger] next[x]).body is Funding && bucket_of(
                            next[x].recv_ts_ns as int,
                            s as int,
                        ) == b;
                    if x < i {
                        assert(prev[x] == next[x]);
                        assert(is_funded_bucket(prev, s as int, b as int));
                        assert(m0.dom().contains(b));
                    }
                }
                if m0.dom().contains(b) {
                    assert(is_funded_bucket(prev, s as int, b as int));
                    let x = choose|x: int|
                        0 <= x < prev.len() && (#[trigger] prev[x]).body is Funding && bucket_of(
                            prev[x].recv_ts_ns as int,
                            s as int,
                        ) == b;
                    assert(next[x] == prev[x]);
                }
            }
        }
        i = i + 1;
    }
    assert(events@.take(i as int) =~= events@);
    let ghost entries = set.entries@;
    let mut buckets: Vec<i64> = Vec::new();
    let mut n: usize = 0;
    while n < set.entries.len()
        invariant
            n <= entries.len(),
            entries == set.entries@,
            buckets@.len() == n,
            forall|k: int| 0 <= k < n ==> #[trigger] buckets@[k] == entries[k].0,
        decreases entries.len() - n,
    {
        buckets.push(set.entries[n].0);
        n = n + 1;
    }
    proof {
        assert forall|i: int, j: int| 0 <= i < j < buckets@.len() implies buckets@[i]
            < buckets@[j] by {
            assert(i64::precedes(entries[i].0.id(), entries[j].0.id()));
        }
        assert forall|b: i64| #[trigger] buckets@.contains(b) <==> is_funded_bucket(
            events@,
            s as int,
            b as int,
        ) by {
            if buckets@.contains(b) {
                let k = choose|k: int| 0 <= k < buckets@.len() && buckets@[k] == b;
                lemma_pos(entries, k);
                assert(set.map().dom().contains(b));
            }
            if is_funded_bucket(events@, s as int, b as int) {
                assert(set.map().dom().contains(b));
                let k = crate::ordered::key_pos(entries, b);
                assert(buckets@[k] == b);
            }
        }
    }
    buckets
}

fn nan_or(m: &SortedMap<i64, Real>, k: i64) -> (x: Real)
    requires
        m.wf(),
    ensures
        x == value_or_nan(m.map(), k),
{
    match m.get(&k) {
        Some(v) => *v,
        None => Real { bits: NAN_BITS },
    }
}

fn candidate(
    m: &MemberSeries,
    venue: Venue,
    sym: u32,
    b: i64,
    s: i64,
    usd: bool,
    Ghost(events): Ghost<Seq<EventEnvelope>>,
) -> (r: Option<Candidate>)
    requires
        s >= 1,
        m.is_of(events, venue, sym, s as int),
        b + s <= i64::MAX,
    ensures
        r == candidate_of(events, (venue, sym), b, s as int, usd),
{
    let rate: Real = match m.funding.get(&b) {
        Some(r) => *r,
        None => {
            return None;
        },
    };
    let reading = if usd {
        oi_as_of(&m.oi_usd, b + s)
    } else {
        oi_as_of(&m.oi_contracts, b + s)
    };
    match reading {
        Some(oi) => Some(
            Candidate {
                venue,
                symbol: sym,
                rate,
                oi,
                mark: nan_or(&m.mark, b),
                index: nan_or(&m.index, b),
            },
        ),
        None => None,
    }
}

fn bucket_class(
    series: &Vec<MemberSeries>,
    members: &Vec<(Venue, u32)>,
    b: i64,
    s: i64,
    usd: bool,
    Ghost(events): Ghost<Seq<EventEnvelope>>,
) -> (r: Vec<Candidate>)
    requires
        s >= 1,
        b + s <= i64::MAX,
        series@.len() == members@.len(),
        forall|i: int|
            0 <= i < series@.len() ==> (#[trigger] series@[i]).is_of(
                events,
                members@[i].0,
                members@[i].1,
                s as int,
            ),
    ensures
        r@ == class_of(events, members@, b, s as int, usd),
{
    let mut r: Vec<Candidate> = Vec::new();
    let mut i: usize = 0;
    assert(r@ =~= class_of(events, members@.take(0), b, s as int, usd));
    while i < members.len()
        invariant
            i <= members@.len(),
            s >= 1,
            b + s <= i64::MAX,
            series@.len() == members@.len(),
            forall|i: int|
                0 <= i < series@.len() ==> (#[trigger] series@[i]).is_of(
                    events,
                    members@[i].0,
                    members@[i].1,
                    s as int,
                ),
            r@ == class_of(events, members@.take(i as int), b, s as int, usd),
        decreases members@.len() - i,
    {
        assert(members@.take(i + 1).drop_last() =~= members@.take(i as int));
        assert(members@.take(i + 1).last() == members@[i as int]);
        let (venue, sym) = members[i];
        if let Some(c) = candidate(&series[i], venue, sym, b, s, usd, Ghost(events)) {
            r.push(c);
        }
        i = i + 1;
    }
    assert(members@.take(i as int) =~= members@);
    r
}

fn bucket_table(events: &Vec<EventEnvelope>, members: &Vec<(Venue, u32)>, s: i64) -> (r: Vec<
    FundingBucket,
>)
    requires
        s >= 1,
        buckets_fit(events@, s as int),
    ensures
        exists|buckets: Seq<i64>| #[trigger]
            buckets_in_order(events@, s as int, buckets) && bucket_views(r@) == funded_buckets(
                events@,
                members@,
                buckets,
                s as int,
            ),
{
    let buckets = buckets_ordered(events, s);
    let mut series: Vec<MemberSeries> = Vec::new();
    let mut i: usize = 0;
    while i < members.len()
        invariant
            i <= members@.len(),
            s >= 1,
            buckets_fit(events@, s as int),
            series@.len() == i,
            forall|k: int|
                0 <= k < i ==> (#[trigger] series@[k]).is_of(
                    events@,
                    members@[k].0,
                    members@[k].1,
                    s as int,
                ),
        decreases members@.len() - i,
    {
        let (venue, sym) = members[i];
        series.push(member_series(events, venue, sym, s));
        i = i + 1;
    }
    let mut r: Vec<FundingBucket> = Vec::new();
    let mut n: usize = 0;
    assert(bucket_views(r@) =~= funded_buckets(events@, members@, buckets@.take(0), s as int));
    while n < buckets.len()
        invariant
            n <= buckets@.len(),
            s >= 1,
            buckets_fit(events@, s as int),
            buckets_in_order(events@, s as int, buckets@),
            series@.len() == members@.len(),
            forall|k: int|
                0 <= k < series@.len() ==> (#[trigger] series@[k]).is_of(
                    events@,
                    members@[k].0,
                    members@[k].1,
                    s as int,
                ),
            bucket_views(r@) == funded_buckets(
                events@,
                members@,
                buckets@.take(n as int),
                s as int,
            ),
        decreases buckets@.len() - n,
    {
        let b: i64 = buckets[n];
        proof {
            assert(buckets@.contains(b));
            let x = choose|x: int|
                0 <= x < events@.len() && (#[trigger] events@[x]).body is Funding && bucket_of(
                    events@[x].recv_ts_ns as int,
                    s as int,
                ) == b;
            assert(bucket_of(events@[x].recv_ts_ns as int, s as int) + s <= i64::MAX);
            assert(buckets@.take(n + 1).drop_last() =~= buckets@.take(n as int));
        }
        let usd = bucket_class(&series, members, b, s, true, Ghost(events@));
        let contracts = bucket_class(&series, members, b, s, false, Ghost(events@));
        if usd.len() > 0 || contracts.len() > 0 {
            let ghost r0 = r@;
            let fb = FundingBucket { interval_ts_ns: b, usd, contracts };
            let ghost v = fb.says();
            r.push(fb);
            assert(bucket_views(r@) =~= bucket_views(r0).push(v));
        }
        n = n + 1;
    }
    assert(buckets@.take(n as int) =~= buckets@);
    r
}

/// The funded buckets with their candidates by venue name and symbol: what
/// the carry series is made of.
pub fn carry_buckets(events: &Vec<EventEnvelope>, interval_ns: i64) -> (r: Vec<FundingBucket>)
    requires
        buckets_fit(events@, step_of(interval_ns) as int),
    ensures
        exists|members: Seq<(Venue, u32)>, buckets: Seq<i64>|
            #![trigger funded_buckets(events@, members, buckets, step_of(interval_ns) as int)]
            members_by_name(events@, members) && buckets_in_order(
                events@,
                step_of(interval_ns) as int,
                buckets,
            ) && bucket_views(r@) == funded_buckets(
                events@,
                members,
                buckets,
                step_of(interval_ns) as int,
            ),
{
    let s: i64 = step(interval_ns);
    let members = members_named(events);
    bucket_table(events, &members, s)
}

/// The funded buckets with their candidates by venue and symbol: what the
/// weighted funding series is made of.
pub fn oiwa_buckets(events: &Vec<EventEnvelope>, interval_ns: i64) -> (r: Vec<FundingBucket>)
    requires
        buckets_fit(events@, step_of(interval_ns) as int),
    ensures
        exists|members: Seq<(Venue, u32)>, buckets: Seq<i64>|
            #![trigger funded_buckets(events@, members, buckets, step_of(interval_ns) as int)]
            members_by_venue(events@, members) && buckets_in_order(
                events@,
                step_of(interval_ns) as int,
                buckets,
            ) && bucket_views(r@) == funded_buckets(
                events@,
                members,
                buckets,
                step_of(interval_ns) as int,
            ),
{
    let s: i64 = step(interval_ns);
    let members = members_ordered(events);
    bucket_table(events, &members, s)
}

// ---------------------------------------------------------------------------
// Units
// ---------------------------------------------------------------------------

/// Whether the dollar class is taken: it is not empty, and the contract class
/// is empty or does not sum to more. Units are never mixed.
pub open spec fn takes_usd(b: BucketView, sum_usd: Real, sum_contracts: Real) -> bool {
    b.usd.len() > 0 && (b.contracts.len() == 0 || sum_usd.total_rank() >= sum_contracts.total_rank())
}

/// Whether the dollar class of the bucket is taken, given the sums of both.
pub fn pick_oiwa_class(b: &FundingBucket, sum_usd: Real, sum_contracts: Real) -> (usd: bool)
    ensures
        usd == takes_usd(b.says(), sum_usd, sum_contracts),
{
    b.usd.len() > 0 && (b.contracts.len() == 0 || sum_usd.total_order() >= sum_contracts.total_order())
}

/// The class that is taken is never empty in a funded bucket, and is one of
/// the two.
pub proof fn law_taken_class_nonempty(b: BucketView, sum_usd: Real, sum_contracts: Real)
    requires
        b.usd.len() > 0 || b.contracts.len() > 0,
    ensures
        takes_usd(b, sum_usd, sum_contracts) ==> b.usd.len() > 0,
        !takes_usd(b, sum_usd, sum_contracts) ==> b.contracts.len() > 0,
{
}

/// The class that is taken.
pub open spec fn taken(b: BucketView, sums: (Real, Real)) -> Seq<Candidate> {
    if takes_usd(b, sums.0, sums.1) {
        b.usd
    } else {
        b.contracts
    }
}

/// The name of the unit that is taken.
pub open spec fn unit_of(b: BucketView, sums: (Real, Real)) -> Seq<char> {
    if takes_usd(b, sums.0, sums.1) {
        "usd"@
    } else {
        "contracts"@
    }
}

/// The sum of the class that is taken.
pub open spec fn taken_sum(b: BucketView, sums: (Real, Real)) -> Real {
    if takes_usd(b, sums.0, sums.1) {
        sums.0
    } else {
        sums.1
    }
}

// ---------------------------------------------------------------------------
// The carry series
// ---------------------------------------------------------------------------

/// One symbol's funding and basis in a bucket.
#[derive(Debug)]
pub struct CarryPoint {
    pub interval_ts_ns: i64,
    pub venue: String,
    pub symbol: u32,
    pub funding_rate: Real,
    pub total_oi: Real,
    pub oi_unit: String,
    pub mark: Real,
    pub index: Real,
    /// The basis can be formed: mark and index are finite, and the index is
    /// not zero.
    pub has_basis: bool,
}

/// Whether a basis can be formed.
pub open spec fn basis_defined(mark: Real, index: Real) -> bool {
    mark.finite() && index.finite() && !index.zero()
}

/// `p` is the point of candidate `c`.
pub open spec fn is_carry_point(
    p: CarryPoint,
    b: BucketView,
    sums: (Real, Real),
    c: Candidate,
) -> bool {
    &&& p.interval_ts_ns == b.ts
    &&& p.venue@ == slug_of(c.venue)
    &&& p.symbol == c.symbol
    &&& p.funding_rate == c.rate
    &&& p.total_oi == taken_sum(b, sums)
    &&& p.oi_unit@ == unit_of(b, sums)
    &&& p.mark == c.mark
    &&& p.index == c.index
    &&& p.has_basis == basis_defined(c.mark, c.index)
}

/// Points of several buckets, flat: the bucket and the candidate of each.
pub open spec fn carry_flat(buckets: Seq<BucketView>, sums: Seq<(Real, Real)>) -> Seq<(int, int)>
    decreases buckets.len(),
{
    if buckets.len() == 0 {
        Seq::empty()
    } else {
        let n = buckets.len() - 1;
        carry_flat(buckets.drop_last(), sums) + Seq::new(
            taken(buckets.last(), sums[n]).len(),
            |i: int| (n, i),
        )
    }
}

/// The carry series: for each bucket, a point for each candidate of the unit
/// that is taken. `sums` holds, for each bucket, the summed open interest in
/// dollars and in contracts.
pub fn carry_series(buckets: &Vec<FundingBucket>, sums: &Vec<(Real, Real)>) -> (points: Vec<
    CarryPoint,
>)
    requires
        sums@.len() == buckets@.len(),
    ensures
        ({
            let flat = carry_flat(bucket_views(buckets@), sums@);
            &&& points@.len() == flat.len()
            &&& forall|i: int|
                0 <= i < points@.len() ==> is_carry_point(
                    #[trigger] points@[i],
                    buckets@[flat[i].0].says(),
                    sums@[flat[i].0],
                    taken(buckets@[flat[i].0].says(), sums@[flat[i].0])[flat[i].1],
                )
        }),
{
    let ghost views = bucket_views(buckets@);
    let mut points: Vec<CarryPoint> = Vec::new();
    let mut n: usize = 0;
    assert(views.take(0).len() == 0);
    while n < buckets.len()
        invariant
            n <= buckets@.len(),
            sums@.len() == buckets@.len(),
            views == bucket_views(buckets@),
            points@.len() == carry_flat(views.take(n as int), sums@).len(),
            forall|i: int|
                0 <= i < points@.len() ==> carry_point_at(
                    #[trigger] points@[i],
                    views,
                    sums@,
                    carry_flat(views.take(n as int), sums@)[i],
                ),
        decreases buckets@.len() - n,
    {
        let fb = &buckets[n];
        let ghost v = fb.says();
        let ghost flat0 = carry_flat(views.take(n as int), sums@);
        let ghost flat1 = carry_flat(views.take(n + 1), sums@);
        let ghost p0 = points@;
        assert(views[n as int] == v);
        assert(views.take(n + 1).drop_last() =~= views.take(n as int));
        assert(views.take(n + 1).last() == v);
        let (sum_usd, sum_contracts) = sums[n];
        let usd = pick_oiwa_class(fb, sum_usd, sum_contracts);
        let class = if usd {
            &fb.usd
        } else {
            &fb.contracts
        };
        assert(class@ == taken(v, sums@[n as int]));
        let total_oi: Real = if usd {
            sum_usd
        } else {
            sum_contracts
        };
        let mut j: usize = 0;
        while j < class.len()
            invariant
                j <= class@.len(),
                class@ == taken(v, sums@[n as int]),
                usd == takes_usd(v, sums@[n as int].0, sums@[n as int].1),
                total_oi == taken_sum(v, sums@[n as int]),
                fb.interval_ts_ns == v.ts,
                n < buckets@.len(),
                sums@.len() == buckets@.len(),
                views.len() == buckets@.len(),
                views[n as int] == v,
                flat0.len() == p0.len(),
                flat1 == flat0 + Seq::new(class@.len(), |i: int| (n as int, i)),
                points@.len() == p0.len() + j,
                forall|i: int| 0 <= i < p0.len() ==> #[trigger] points@[i] == p0[i],
                forall|i: int|
                    p0.len() <= i < points@.len() ==> carry_point_at(
                        #[trigger] points@[i],
                        views,
                        sums@,
                        flat1[i],
                    ),
            decreases class@.len() - j,
        {
            let c: Candidate = class[j];
            let oi_unit = if usd {
                "usd".to_owned()
            } else {
                "contracts".to_owned()
            };
            let p = CarryPoint {
                interval_ts_ns: fb.interval_ts_ns,
                venue: c.venue.slug().to_owned(),
                symbol: c.symbol,
                funding_rate: c.rate,
                total_oi,
                oi_unit,
                mark: c.mark,
                index: c.index,
                has_basis: c.mark.is_finite() && c.index.is_finite() && !c.index.is_zero(),
            };
            assert(flat1[p0.len() + j] == (n as int, j as int));
            assert(carry_point_at(p, views, sums@, flat1[p0.len() + j]));
            points.push(p);
            j = j + 1;
        }
        proof {
            assert forall|i: int| 0 <= i < points@.len() implies carry_point_at(
                #[trigger] points@[i],
                views,
                sums@,
                flat1[i],
            ) by {
                if i < p0.len() {
                    assert(points@[i] == p0[i]);
                    assert(flat1[i] == flat0[i]);
                }
            }
        }
        n = n + 1;
    }
    assert(views.take(n as int) =~= views);
    proof {
        let flat = carry_flat(views, sums@);
        lemma_carry_flat(views, sums@);
        assert forall|i: int| 0 <= i < points@.len() implies is_carry_point(
            #[trigger] points@[i],
            buckets@[flat[i].0].says(),
            sums@[flat[i].0],
            taken(buckets@[flat[i].0].says(), sums@[flat[i].0])[flat[i].1],
        ) by {
            assert(carry_point_at(points@[i], views, sums@, flat[i]));
            assert(0 <= flat[i].0 < views.len());
        }
    }
    points
}

/// `p` is the point at the place `at`.
spec fn carry_point_at(
    p: CarryPoint,
    views: Seq<BucketView>,
    sums: Seq<(Real, Real)>,
    at: (int, int),
) -> bool {
    is_carry_point(p, views[at.0], sums[at.0], taken(views[at.0], sums[at.0])[at.1])
}

proof fn lemma_carry_flat(views: Seq<BucketView>, sums: Seq<(Real, Real)>)
    ensures
        forall|i: int|
            0 <= i < carry_flat(views, sums).len() ==> 0 <= (#[trigger] carry_flat(views, sums)[i]).0
                < views.len(),
    decreases views.len(),
{
    if views.len() > 0 {
        lemma_carry_flat(views.drop_last(), sums);
        let b = carry_flat(views.drop_last(), sums);
        assert forall|i: int| 0 <= i < carry_flat(views, sums).len() implies 0 <= (
        #[trigger] carry_flat(views, sums)[i]).0 < views.len() by {
            if i < b.len() {
                assert(carry_flat(views, sums)[i] == b[i]);
            }
        }
    }
}

// ---------------------------------------------------------------------------
// The weighted funding series
// ---------------------------------------------------------------------------

/// One venue's part in a weighted funding point.
#[derive(Debug)]
pub struct OiwaMember {
    pub venue: String,
    pub rate: Real,
    pub oi: Real,
    pub oi_unit: String,
}

/// One weighted funding point.
#[derive(Debug)]
pub struct OiwaSeries {
    pub interval_ts_ns: i64,
    pub rate: Real,
    pub total_oi: Real,
    pub oi_unit: String,
    pub members: Vec<OiwaMember>,
}

/// `m` is the part of candidate `c`.
pub open spec fn is_oiwa_member(m: OiwaMember, c: Candidate, unit: Seq<char>) -> bool {
    m.venue@ == slug_of(c.venue) && m.rate == c.rate && m.oi == c.oi && m.oi_unit@ == unit
}

/// `p` is the point of bucket `b`; `quotient` is the weighted sum over the
/// summed weights of the unit that is taken.
pub open spec fn is_oiwa_point(
    p: OiwaSeries,
    b: BucketView,
    sums: (Real, Real),
    quotient: Real,
) -> bool {
    let class = taken(b, sums);
    &&& p.interval_ts_ns == b.ts
    &&& p.total_oi == taken_sum(b, sums)
    &&& p.oi_unit@ == unit_of(b, sums)
    &&& p.rate == if taken_sum(b, sums).positive() {
        quotient
    } else {
        Real { bits: 0 }
    }
    &&& p.members@.len() == class.len()
    &&& forall|i: int|
        0 <= i < class.len() ==> is_oiwa_member(#[trigger] p.members@[i], class[i], unit_of(b, sums))
}

/// The weighted funding series, one point for each bucket. `sums` holds the
/// summed open interest in both units, and `quotients` the weighted average
/// over the unit that is taken.
pub fn oiwa_series(
    buckets: &Vec<FundingBucket>,
    sums: &Vec<(Real, Real)>,
    quotients: &Vec<Real>,
) -> (points: Vec<OiwaSeries>)
    requires
        sums@.len() == buckets@.len(),
        quotients@.len() == buckets@.len(),
    ensures
        points@.len() == buckets@.len(),
        forall|i: int|
            0 <= i < points@.len() ==> is_oiwa_point(
                #[trigger] points@[i],
                buckets@[i].says(),
                sums@[i],
                quotients@[i],
            ),
{
    let mut points: Vec<OiwaSeries> = Vec::new();
    let mut n: usize = 0;
    while n < buckets.len()
        invariant
            n <= buckets@.len(),
            sums@.len() == buckets@.len(),
            quotients@.len() == buckets@.len(),
            points@.len() == n,
            forall|i: int|
                0 <= i < n ==> is_oiwa_point(
                    #[trigger] points@[i],
                    buckets@[i].says(),
                    sums@[i],
                    quotients@[i],
                ),
        decreases buckets@.len() - n,
    {
        let fb = &buckets[n];
        let ghost v = fb.says();
        let (sum_usd, sum_contracts) = sums[n];
        let usd = pick_oiwa_class(fb, sum_usd, sum_contracts);
        let unit: &str = if usd {
            "usd"
        } else {
            "contracts"
        };
        let class = if usd {
            &fb.usd
        } else {
            &fb.contracts
        };
        let total_oi: Real = if usd {
            sum_usd
        } else {
            sum_contracts
        };
        let mut members: Vec<OiwaMember> = Vec::new();
        let mut j: usize = 0;
        while j < class.len()
            invariant
                j <= class@.len(),
                members@.len() == j,
                forall|i: int|
                    0 <= i < j ==> is_oiwa_member(#[trigger] members@[i], class@[i], unit@),
            decreases class@.len() - j,
        {
            let c: Candidate = class[j];
            members.push(
                OiwaMember {
                    venue: c.venue.slug().to_owned(),
                    rate: c.rate,
                    oi: c.oi,
                    oi_unit: unit.to_owned(),
                },
            );
            j = j + 1;
        }
        let rate: Real = if total_oi.is_positive() {
            quotients[n]
        } else {
            Real { bits: 0 }
        };
        let p = OiwaSeries {
            interval_ts_ns: fb.interval_ts_ns,
            rate,
            total_oi,
            oi_unit: unit.to_owned(),
            members,
        };
        assert(is_oiwa_point(p, v, sums@[n as int], quotients@[n as int]));
        points.push(p);
        n = n + 1;
    }
    points
}

// ---------------------------------------------------------------------------
// Liquidation stress
// ---------------------------------------------------------------------------

/// One symbol's liquidations in a bucket.
#[derive(Debug)]
pub struct LiqPoint {
    pub interval_ts_ns: i64,
    pub venue: String,
    pub symbol: u32,
    /// The buy-side liquidations, in order.
    pub buys: Vec<usize>,
    /// The sell-side liquidations, in order.
    pub sells: Vec<usize>,
}

/// A liquidation with finite numbers, and its side.
pub open spec fn liq_side(e: EventEnvelope) -> Option<Side> {
    match e.body {
        MarketEvent::Liquidation { price, qty, side } => if price.finite() && qty.finite() {
            Some(side)
        } else {
            None
        },
        _ => None,
    }
}

fn side_of_liq(e: &EventEnvelope) -> (r: Option<Side>)
    ensures
        r == liq_side(*e),
{
    match &e.body {
        MarketEvent::Liquidation { price, qty, side } => {
            if price.is_finite() && qty.is_finite() {
                Some(*side)
            } else {
                None
            }
        },
        _ => None,
    }
}

/// The positions among the first `n` of a symbol's liquidations of that side
/// in bucket `b`.
pub open spec fn liqs_of(
    events: Seq<EventEnvelope>,
    step: int,
    b: int,
    venue: Seq<char>,
    sym: u32,
    side: Side,
    n: int,
) -> Seq<usize>
    decreases n,
{
    if n <= 0 {
        Seq::empty()
    } else {
        let before = liqs_of(events, step, b, venue, sym, side, n - 1);
        let e = events[n - 1];
        if liq_side(e) == Some(side) && bucket_of(e.recv_ts_ns as int, step) == b && slug_of(
            e.venue,
        ) == venue && e.symbol.0 == sym {
            before.push((n - 1) as usize)
        } else {
            before
        }
    }
}

fn liq_positions(
    events: &Vec<EventEnvelope>,
    s: i64,
    b: i64,
    venue: &str,
    sym: u32,
    side: Side,
) -> (r: Vec<usize>)
    requires
        s >= 1,
        buckets_fit(events@, s as int),
    ensures
        r@ == liqs_of(events@, s as int, b as int, venue@, sym, side, events@.len() as int),
{
    let mut r: Vec<usize> = Vec::new();
    let mut i: usize = 0;
    while i < events.len()
        invariant
            i <= events@.len(),
            s >= 1,
            buckets_fit(events@, s as int),
            r@ =~= liqs_of(events@, s as int, b as int, venue@, sym, side, i as int),
        decreases events@.len() - i,
    {
        let e = &events[i];
        assert(i64::MIN <= bucket_of(events@[i as int].recv_ts_ns as int, s as int));
        if let Some(side_here) = side_of_liq(e) {
            if side_here == side && bucket(e.recv_ts_ns, s) == b && crate::text::same(
                e.venue.slug(),
                venue,
            ) && e.symbol.0 == sym {
                r.push(i);
            }
        }
        i = i + 1;
    }
    r
}

/// The order of points: by bucket, then venue name, then symbol.
pub open spec fn liq_key(p: LiqPoint) -> (i64, (Seq<char>, u32)) {
    (p.interval_ts_ns, (p.venue@, p.symbol))
}

/// `p` is the point of its bucket and symbol.
pub open spec fn is_liq_point(p: LiqPoint, events: Seq<EventEnvelope>, step: int) -> bool {
    let n = events.len() as int;
    let b = p.interval_ts_ns as int;
    &&& p.buys@ == liqs_of(events, step, b, p.venue@, p.symbol, Side::Buy, n)
    &&& p.sells@ == liqs_of(events, step, b, p.venue@, p.symbol, Side::Sell, n)
    &&& p.buys@.len() + p.sells@.len() > 0
}

/// Whether event `e` is a liquidation of the bucket and symbol.
spec fn liq_at(e: EventEnvelope, step: int, key: (i64, (Seq<char>, u32))) -> bool {
    liq_side(e) is Some && bucket_of(e.recv_ts_ns as int, step) == key.0 && slug_of(e.venue)
        == key.1.0 && e.symbol.0 == key.1.1
}

/// Whether one of the first `n` events is a liquidation of the bucket and
/// symbol.
spec fn liq_used(
    events: Seq<EventEnvelope>,
    step: int,
    key: (i64, (Seq<char>, u32)),
    n: int,
) -> bool {
    exists|k: int| 0 <= k < n && liq_at(#[trigger] events[k], step, key)
}

proof fn lemma_liq_used(
    events: Seq<EventEnvelope>,
    step: int,
    key: (i64, (Seq<char>, u32)),
    n: int,
)
    requires
        liq_used(events, step, key, n),
    ensures
        liqs_of(events, step, key.0 as int, key.1.0, key.1.1, Side::Buy, n).len() + liqs_of(
            events,
            step,
            key.0 as int,
            key.1.0,
            key.1.1,
            Side::Sell,
            n,
        ).len() > 0,
    decreases n,
{
    let k = choose|k: int| 0 <= k < n && liq_at(#[trigger] events[k], step, key);
    if k < n - 1 {
        assert(liq_used(events, step, key, n - 1));
        lemma_liq_used(events, step, key, n - 1);
    }
}

/// Whether one of the points is that of the bucket and symbol.
pub open spec fn has_liq(points: Seq<LiqPoint>, key: (i64, (Seq<char>, u32))) -> bool {
    exists|i: int| 0 <= i < points.len() && liq_key(#[trigger] points[i]) == key
}

/// The liquidations by bucket, venue and symbol, in that order. Liquidations
/// with a number that is not finite are passed over, and buckets without a
/// liquidation have no point.
pub fn liq_series(events: &Vec<EventEnvelope>, interval_ns: i64) -> (points: Vec<LiqPoint>)
    requires
        buckets_fit(events@, step_of(interval_ns) as int),
    ensures
        forall|i: int|
            0 <= i < points@.len() ==> is_liq_point(
                #[trigger] points@[i],
                events@,
                step_of(interval_ns) as int,
            ),
        forall|i: int, j: int|
            0 <= i < j < points@.len() ==> <Pair<i64, Pair<String, u32>> as Key>::precedes(
                liq_key(#[trigger] points@[i]),
                liq_key(#[trigger] points@[j]),
            ),
        forall|k: int|
            0 <= k < events@.len() && liq_side(#[trigger] events@[k]) is Some ==> has_liq(
                points@,
                (
                    bucket_of(events@[k].recv_ts_ns as int, step_of(interval_ns) as int) as i64,
                    (slug_of(events@[k].venue), events@[k].symbol.0),
                ),
            ),
{
    let s: i64 = step(interval_ns);
    let mut cells: SortedMap<Pair<i64, Pair<String, u32>>, ()> = SortedMap::new();
    let mut i: usize = 0;
    while i < events.len()
        invariant
            i <= events@.len(),
            s >= 1,
            buckets_fit(events@, s as int),
            cells.wf(),
            forall|k: int|
                0 <= k < i && liq_side(#[trigger] events@[k]) is Some
                    ==> cells.map().dom().contains(
                    (
                        bucket_of(events@[k].recv_ts_ns as int, s as int) as i64,
                        (slug_of(events@[k].venue), events@[k].symbol.0),
                    ),
                ),
            forall|id: (i64, (Seq<char>, u32))| #[trigger]
                cells.map().dom().contains(id) ==> liq_used(events@, s as int, id, i as int),
        decreases events@.len() - i,
    {
        let e = &events[i];
        assert(i64::MIN <= bucket_of(events@[i as int].recv_ts_ns as int, s as int));
        let ghost m0 = cells.map();
        if side_of_liq(e).is_some() {
            let b: i64 = bucket(e.recv_ts_ns, s);
            cells.set(
                Pair { a: b, b: Pair { a: e.venue.slug().to_owned(), b: e.symbol.0 } },
                (),
            );
        }
        proof {
            assert forall|id: (i64, (Seq<char>, u32))| #[trigger]
                cells.map().dom().contains(id) implies liq_used(events@, s as int, id, i + 1) by {
                if m0.dom().contains(id) {
                    assert(liq_used(events@, s as int, id, i as int));
                } else {
                    assert(liq_at(events@[i as int], s as int, id));
                }
            }
        }
        i = i + 1;
    }
    let ghost entries = cells.entries@;
    let mut points: Vec<LiqPoint> = Vec::new();
    let mut n: usize = 0;
    while n < cells.entries.len()
        invariant
            n <= entries.len(),
            entries == cells.entries@,
            cells.wf(),
            forall|id: (i64, (Seq<char>, u32))| #[trigger]
                cells.map().dom().contains(id) ==> liq_used(
                    events@,
                    s as int,
                    id,
                    events@.len() as int,
                ),
            s >= 1,
            buckets_fit(events@, s as int),
            points@.len() == n,
            forall|k: int|
                0 <= k < n ==> is_liq_point(#[trigger] points@[k], events@, s as int) && liq_key(
                    points@[k],
                ) == entries[k].0.id(),
        decreases entries.len() - n,
    {
        let key = &cells.entries[n].0;
        let b: i64 = key.a;
        let venue = key.b.a.as_str();
        let sym: u32 = key.b.b;
        proof {
            crate::ordered::lemma_pos(entries, n as int);
            assert(cells.map().dom().contains(entries[n as int].0.id()));
            lemma_liq_used(events@, s as int, (b, (venue@, sym)), events@.len() as int);
        }
        points.push(
            LiqPoint {
                interval_ts_ns: b,
                venue: venue.to_owned(),
                symbol: sym,
                buys: liq_positions(events, s, b, venue, sym, Side::Buy),
                sells: liq_positions(events, s, b, venue, sym, Side::Sell),
            },
        );
        n = n + 1;
    }
    proof {
        assert forall|i: int, j: int| 0 <= i < j < points@.len() implies <Pair<
            i64,
            Pair<String, u32>,
        > as Key>::precedes(liq_key(#[trigger] points@[i]), liq_key(#[trigger] points@[j])) by {
            assert(<Pair<i64, Pair<String, u32>> as Key>::precedes(
                entries[i].0.id(),
                entries[j].0.id(),
            ));
        }
        assert forall|k: int|
            0 <= k < events@.len() && liq_side(#[trigger] events@[k]) is Some implies has_liq(
            points@,
            (
                bucket_of(events@[k].recv_ts_ns as int, s as int) as i64,
                (slug_of(events@[k].venue), events@[k].symbol.0),
            ),
        ) by {
            let id = (
                bucket_of(events@[k].recv_ts_ns as int, s as int) as i64,
                (slug_of(events@[k].venue), events@[k].symbol.0),
            );
            assert(cells.map().dom().contains(id));
            let h = crate::ordered::key_pos(entries, id);
            assert(entries[h].0.id() == id);
            assert(liq_key(points@[h]) == id);
        }
    }
    points
}

/// A reading as of a time is the last one at or before it, and there is none
/// exactly if all readings lie behind it.
pub proof fn law_reading_is_the_last(s: Seq<(i64, Real)>, end: int, i: int)
    ensures
        0 <= i < s.len() && s[i].0 <= end && (forall|k: int|
            i < k < s.len() ==> (#[trigger] s[k]).0 > end) ==> reading_as_of(s, end) == Some(
            s[i].1,
        ),
        reading_as_of(s, end) is None <==> forall|k: int|
            0 <= k < s.len() ==> (#[trigger] s[k]).0 > end,
    decreases s.len(),
{
    if s.len() > 0 {
        let t = s.drop_last();
        law_reading_is_the_last(t, end, i);
        let n = s.len() - 1;
        if s[n].0 > end {
            if 0 <= i < s.len() && s[i].0 <= end && (forall|k: int|
                i < k < s.len() ==> (#[trigger] s[k]).0 > end) {
                assert forall|k: int| i < k < t.len() implies (#[trigger] t[k]).0 > end by {
                    assert(t[k] == s[k]);
                }
            }
            if forall|k: int| 0 <= k < t.len() ==> (#[trigger] t[k]).0 > end {
                assert forall|k: int| 0 <= k < s.len() implies (#[trigger] s[k]).0 > end by {
                    if k < n {
                        assert(t[k] == s[k]);
                    }
                }
            }
            if forall|k: int| 0 <= k < s.len() ==> (#[trigger] s[k]).0 > end {
                assert forall|k: int| 0 <= k < t.len() implies (#[trigger] t[k]).0 > end by {
                    assert(t[k] == s[k]);
                }
            }
        }
    }
}

/// Whether an event came in the bucket that starts at a time.
pub open spec fn in_bucket(e: EventEnvelope, step: int, b: int) -> bool {
    b % step == 0 && b <= e.recv_ts_ns < b + step
}

proof fn lemma_bucket(ts: int, step: int, b: int)
    requires
        step >= 1,
    ensures
        bucket_of(ts, step) == b <==> b % step == 0 && b <= ts < b + step,
{
    law_bucket_holds_time(ts, step);
    let q = ts / step;
    vstd::arithmetic::div_mod::lemma_mod_multiples_basic(q, step);
    if b % step == 0 && b <= ts < b + step {
        let p = b / step;
        vstd::arithmetic::div_mod::lemma_fundamental_div_mod(b, step);
        assert(p * step == step * p) by (nonlinear_arith);
        assert(p == q) by (nonlinear_arith)
            requires
                step >= 1,
                p * step <= ts < p * step + step,
                q * step <= ts < q * step + step,
        ;
    }
}

/// Whether an event is a funding rate of one symbol in one bucket.
pub open spec fn funding_here(e: EventEnvelope, venue: Venue, sym: u32, step: int, b: i64) -> bool {
    e.body is Funding && e.venue == venue && e.symbol.0 == sym && in_bucket(e, step, b as int)
}

/// Whether an event is a mark price of one symbol in one bucket.
pub open spec fn mark_here(e: EventEnvelope, venue: Venue, sym: u32, step: int, b: i64) -> bool {
    e.body is MarkPrice && e.venue == venue && e.symbol.0 == sym && in_bucket(e, step, b as int)
}

/// Whether an event carries a finite index price of one symbol in one bucket.
pub open spec fn index_here(e: EventEnvelope, venue: Venue, sym: u32, step: int, b: i64) -> bool {
    mark_here(e, venue, sym, step, b) && e.body->MarkPrice_index.finite()
}

/// A bucket has the last funding rate that came in it, and none where none came.
pub proof fn law_last_funding_counts(
    events: Seq<EventEnvelope>,
    venue: Venue,
    sym: u32,
    step: int,
    b: i64,
    i: int,
)
    requires
        step >= 1,
        buckets_fit(events, step),
    ensures
        0 <= i < events.len() && funding_here(events[i], venue, sym, step, b) && (forall|k: int|
            i < k < events.len() ==> !funding_here(#[trigger] events[k], venue, sym, step, b)) ==> {
            &&& funding_of(events, venue, sym, step).dom().contains(b)
            &&& funding_of(events, venue, sym, step)[b] == events[i].body->Funding_rate
        },
        (forall|k: int|
            0 <= k < events.len() ==> !funding_here(#[trigger] events[k], venue, sym, step, b))
            ==> !funding_of(events, venue, sym, step).dom().contains(b),
    decreases events.len(),
{
    if events.len() > 0 {
        let t = events.drop_last();
        let n = events.len() - 1;
        assert(forall|k: int| 0 <= k < t.len() ==> t[k] == events[k]);
        assert(buckets_fit(t, step));
        lemma_bucket(events[n].recv_ts_ns as int, step, b as int);
        law_last_funding_counts(t, venue, sym, step, b, i);
        if funding_here(events[n], venue, sym, step, b) {
            if i < n && 0 <= i {
                assert(funding_here(events[n], venue, sym, step, b));
            }
        }
    }
}

/// A bucket has the last mark price that came in it, and none where none came.
pub proof fn law_last_mark_counts(
    events: Seq<EventEnvelope>,
    venue: Venue,
    sym: u32,
    step: int,
    b: i64,
    i: int,
)
    requires
        step >= 1,
        buckets_fit(events, step),
    ensures
        0 <= i < events.len() && mark_here(events[i], venue, sym, step, b) && (forall|k: int|
            i < k < events.len() ==> !mark_here(#[trigger] events[k], venue, sym, step, b)) ==> {
            &&& marks_of(events, venue, sym, step).dom().contains(b)
            &&& marks_of(events, venue, sym, step)[b] == events[i].body->MarkPrice_mark
        },
        (forall|k: int|
            0 <= k < events.len() ==> !mark_here(#[trigger] events[k], venue, sym, step, b))
            ==> !marks_of(events, venue, sym, step).dom().contains(b),
    decreases events.len(),
{
    if events.len() > 0 {
        let t = events.drop_last();
        let n = events.len() - 1;
        assert(forall|k: int| 0 <= k < t.len() ==> t[k] == events[k]);
        assert(buckets_fit(t, step));
        lemma_bucket(events[n].recv_ts_ns as int, step, b as int);
        law_last_mark_counts(t, venue, sym, step, b, i);
        if mark_here(events[n], venue, sym, step, b) {
            if i < n && 0 <= i {
                assert(mark_here(events[n], venue, sym, step, b));
            }
        }
    }
}

/// A bucket has the last finite index price that came in it, and none where
/// none came.
pub proof fn law_last_index_counts(
    events: Seq<EventEnvelope>,
    venue: Venue,
    sym: u32,
    step: int,
    b: i64,
    i: int,
)
    requires
        step >= 1,
        buckets_fit(events, step),
    ensures
        0 <= i < events.len() && index_here(events[i], venue, sym, step, b) && (forall|k: int|
            i < k < events.len() ==> !index_here(#[trigger] events[k], venue, sym, step, b)) ==> {
            &&& indexes_of(events, venue, sym, step).dom().contains(b)
            &&& indexes_of(events, venue, sym, step)[b] == events[i].body->MarkPrice_index
        },
        (forall|k: int|
            0 <= k < events.len() ==> !index_here(#[trigger] events[k], venue, sym, step, b))
            ==> !indexes_of(events, venue, sym, step).dom().contains(b),
    decreases events.len(),
{
    if events.len() > 0 {
        let t = events.drop_last();
        let n = events.len() - 1;
        assert(forall|k: int| 0 <= k < t.len() ==> t[k] == events[k]);
        assert(buckets_fit(t, step));
        lemma_bucket(events[n].recv_ts_ns as int, step, b as int);
        law_last_index_counts(t, venue, sym, step, b, i);
        if index_here(events[n], venue, sym, step, b) {
            if i < n && 0 <= i {
                assert(index_here(events[n], venue, sym, step, b));
            }
        }
    }
}

/// Whether an event reads the open interest of one symbol, in dollars or in
/// contracts, as a positive finite number.
pub open spec fn reading_here(e: EventEnvelope, venue: Venue, sym: u32, usd: bool) -> bool {
    e.body is OpenInterest && e.venue == venue && e.symbol.0 == sym && {
        let x = if usd {
            e.body->OpenInterest_oi_notional
        } else {
            e.body->OpenInterest_oi_contracts
        };
        x.finite() && (Real { bits: 0 }).lt(x)
    }
}

/// The readings of a symbol are its usable open interest events, in order,
/// each with its time: the notional for dollars, the contracts otherwise.
pub proof fn law_readings(events: Seq<EventEnvelope>, venue: Venue, sym: u32, usd: bool)
    ensures
        ({
            let kept = events.filter(|e: EventEnvelope| reading_here(e, venue, sym, usd));
            let r = readings_of(events, venue, sym, usd);
            &&& r.len() == kept.len()
            &&& forall|i: int|
                0 <= i < kept.len() ==> {
                    &&& (#[trigger] r[i]).0 == kept[i].recv_ts_ns
                    &&& usd ==> r[i].1 == kept[i].body->OpenInterest_oi_notional
                    &&& !usd ==> r[i].1 == kept[i].body->OpenInterest_oi_contracts
                }
        }),
    decreases events.len(),
{
    reveal(Seq::filter);
    if events.len() > 0 {
        law_readings(events.drop_last(), venue, sym, usd);
    }
}

/// Whether an event is a trade in the bucket that starts at a time.
pub open spec fn trade_here(e: EventEnvelope, step: int, b: int) -> bool {
    (e.body is Trade || e.body is TradeWithAddr) && in_bucket(e, step, b)
}

/// The price of a trade event.
pub open spec fn trade_price(e: EventEnvelope) -> Real {
    if e.body is Trade {
        e.body->Trade_price
    } else {
        e.body->TradeWithAddr_price
    }
}

/// The side of a trade event.
pub open spec fn trade_side(e: EventEnvelope) -> Side {
    if e.body is Trade {
        e.body->Trade_side
    } else {
        e.body->TradeWithAddr_side
    }
}

proof fn lemma_trade_here(e: EventEnvelope, step: int, b: int)
    requires
        step >= 1,
    ensures
        trade_in_bucket(e, step, b) <==> trade_here(e, step, b),
        trade_here(e, step, b) ==> price_of(e) == trade_price(e) && side_of(e) == trade_side(e),
{
    lemma_bucket(e.recv_ts_ns as int, step, b);
}

proof fn lemma_matching_ascends(events: Seq<EventEnvelope>, p: spec_fn(EventEnvelope) -> bool)
    requires
        events.len() <= usize::MAX,
    ensures
        forall|i: int, j: int|
            0 <= i < j < matching(events, p).len() ==> (#[trigger] matching(events, p)[i]) < (
            #[trigger] matching(events, p)[j]),
    decreases events.len(),
{
    if events.len() > 0 {
        let e0 = events.drop_last();
        let m0 = matching(e0, p);
        let m = matching(events, p);
        lemma_matching_ascends(e0, p);
        lemma_matching_range(e0, p);
        assert forall|i: int, j: int| 0 <= i < j < m.len() implies (#[trigger] m[i]) < (
        #[trigger] m[j]) by {
            assert(m[i] == m0[i]);
            if j < m0.len() {
                assert(m[j] == m0[j]);
            }
        }
    }
}

/// A bar opens at the price of the first trade of its bucket and closes at
/// that of the last.
pub proof fn law_bar_ends(bar: FootprintBar, events: Seq<EventEnvelope>, step: int, k: int)
    requires
        step >= 1,
        events.len() <= usize::MAX,
        is_bar(bar, events, step),
        0 <= k < events.len(),
        trade_here(events[k], step, bar.bucket_ts_ns as int),
    ensures
        (forall|j: int|
            0 <= j < k ==> !trade_here(#[trigger] events[j], step, bar.bucket_ts_ns as int))
            ==> bar.open == trade_price(events[k]),
        (forall|j: int|
            k < j < events.len() ==> !trade_here(
                #[trigger] events[j],
                step,
                bar.bucket_ts_ns as int,
            )) ==> bar.close == trade_price(events[k]),
{
    let b = bar.bucket_ts_ns as int;
    let p = |e: EventEnvelope| trade_in_bucket(e, step, b);
    let at = bar_trades(events, step, b);
    lemma_trade_here(events[k], step, b);
    lemma_matching_exact(events, p, k);
    lemma_matching_range(events, p);
    lemma_matching_ascends(events, p);
    let x = at.index_of(k as usize);
    let first = at[0] as int;
    let last = at[at.len() - 1] as int;
    assert(at[0] <= at[x] <= at[at.len() - 1]);
    lemma_trade_here(events[first], step, b);
    lemma_trade_here(events[last], step, b);
}

proof fn lemma_extremes(events: Seq<EventEnvelope>, at: Seq<usize>)
    requires
        at.len() > 0,
    ensures
        exists|x: int|
            0 <= x < at.len() && high_of(events, at) == price_of(events[#[trigger] at[x] as int]),
        exists|x: int|
            0 <= x < at.len() && low_of(events, at) == price_of(events[#[trigger] at[x] as int]),
        (forall|x: int| 0 <= x < at.len() ==> !price_of(events[#[trigger] at[x] as int]).nan())
            ==> forall|x: int|
            0 <= x < at.len() ==> price_of(events[#[trigger] at[x] as int]).le(
                high_of(events, at),
            ) && low_of(events, at).le(price_of(events[at[x] as int])),
    decreases at.len(),
{
    let n = at.len() - 1;
    if n == 0 {
        assert(high_of(events, at) == price_of(events[at[0] as int]));
        assert(low_of(events, at) == price_of(events[at[0] as int]));
    } else {
        let t = at.drop_last();
        assert(forall|x: int| 0 <= x < t.len() ==> t[x] == at[x]);
        lemma_extremes(events, t);
        let h = choose|x: int|
            0 <= x < t.len() && high_of(events, t) == price_of(events[#[trigger] t[x] as int]);
        let l = choose|x: int|
            0 <= x < t.len() && low_of(events, t) == price_of(events[#[trigger] t[x] as int]);
        assert(at[h] == t[h] && at[l] == t[l]);
        assert(at[n] == at.last());
        crate::number::law_max(high_of(events, t), price_of(events[at[n] as int]));
        crate::number::law_min(low_of(events, t), price_of(events[at[n] as int]));
    }
}

/// The high and the low of a bar are prices of trades in its bucket, and where
/// all its prices are numbers none is above the high or below the low.
pub proof fn law_bar_range(bar: FootprintBar, events: Seq<EventEnvelope>, step: int)
    requires
        step >= 1,
        events.len() <= usize::MAX,
        is_bar(bar, events, step),
    ensures
        exists|k: int|
            0 <= k < events.len() && trade_here(
                #[trigger] events[k],
                step,
                bar.bucket_ts_ns as int,
            ) && bar.high == trade_price(events[k]),
        exists|k: int|
            0 <= k < events.len() && trade_here(
                #[trigger] events[k],
                step,
                bar.bucket_ts_ns as int,
            ) && bar.low == trade_price(events[k]),
        (forall|k: int|
            0 <= k < events.len() && trade_here(#[trigger] events[k], step, bar.bucket_ts_ns as int)
                ==> !trade_price(events[k]).nan()) ==> forall|k: int|
            0 <= k < events.len() && trade_here(#[trigger] events[k], step, bar.bucket_ts_ns as int)
                ==> trade_price(events[k]).le(bar.high) && bar.low.le(trade_price(events[k])),
{
    let b = bar.bucket_ts_ns as int;
    let p = |e: EventEnvelope| trade_in_bucket(e, step, b);
    let at = bar_trades(events, step, b);
    lemma_extremes(events, at);
    lemma_matching_range(events, p);
    assert forall|x: int| 0 <= x < at.len() implies trade_here(
        events[#[trigger] at[x] as int],
        step,
        b,
    ) && price_of(events[at[x] as int]) == trade_price(events[at[x] as int]) by {
        lemma_trade_here(events[at[x] as int], step, b);
    }
    let h = choose|x: int|
        0 <= x < at.len() && high_of(events, at) == price_of(events[#[trigger] at[x] as int]);
    let l = choose|x: int|
        0 <= x < at.len() && low_of(events, at) == price_of(events[#[trigger] at[x] as int]);
    assert(trade_here(events[at[h] as int], step, b));
    assert(trade_here(events[at[l] as int], step, b));
    assert forall|k: int| 0 <= k < events.len() && trade_here(#[trigger] events[k], step, b) implies
        at.contains(k as usize) && price_of(events[k]) == trade_price(events[k]) by {
        lemma_trade_here(events[k], step, b);
        lemma_matching_exact(events, p, k);
    }
    assert forall|k: int| 0 <= k < events.len() && trade_here(#[trigger] events[k], step, b) && (
    forall|j: int| 0 <= j < events.len() && trade_here(#[trigger] events[j], step, b)
        ==> !trade_price(events[j]).nan()) implies trade_price(events[k]).le(bar.high)
        && bar.low.le(trade_price(events[k])) by {
        let x = at.index_of(k as usize);
        assert(at[x] == k);
    }
}

/// A cell lists a trade among its buys or its sells exactly where the trade
/// came in the cell's bucket, in its price block and on that side.
pub proof fn law_trade_in_one_cell(
    events: Seq<EventEnvelope>,
    blocks: Seq<i64>,
    step: int,
    b: int,
    block: i64,
    side: Side,
    n: int,
    k: int,
)
    requires
        step >= 1,
        0 <= n <= events.len() <= usize::MAX,
        0 <= k < n,
    ensures
        cell_trades(events, blocks, step, b, block, side, n).contains(k as usize) <==> {
            &&& trade_here(events[k], step, b)
            &&& blocks[k] == block
            &&& trade_side(events[k]) == side
        },
{
    lemma_cell_exact(events, blocks, step, b, block, side, n, k);
}

proof fn lemma_cell_exact(
    events: Seq<EventEnvelope>,
    blocks: Seq<i64>,
    step: int,
    b: int,
    block: i64,
    side: Side,
    n: int,
    k: int,
)
    requires
        step >= 1,
        0 <= n <= events.len() <= usize::MAX,
        0 <= k < events.len(),
    ensures
        cell_trades(events, blocks, step, b, block, side, n).contains(k as usize) <==> k < n && {
            &&& trade_here(events[k], step, b)
            &&& blocks[k] == block
            &&& trade_side(events[k]) == side
        },
    decreases n,
{
    if n > 0 {
        lemma_cell_exact(events, blocks, step, b, block, side, n - 1, k);
        lemma_trade_here(events[n - 1], step, b);
        let before = cell_trades(events, blocks, step, b, block, side, n - 1);
        let x = (n - 1) as usize;
        let all = before.push(x);
        assert(all[before.len() as int] == x);
        if before.contains(k as usize) {
            let i = before.index_of(k as usize);
            assert(all[i] == k as usize);
        }
        if all.contains(k as usize) {
            let i = all.index_of(k as usize);
            if i < before.len() {
                assert(before[i] == k as usize);
            }
        }
    }
}

/// A sample has applied the events before its time, and the first at its time
/// where there is one.
pub proof fn law_sample_applies_the_past(events: Seq<EventEnvelope>, b: int, i: int)
    requires
        0 <= i <= events.len(),
        forall|k: int| 0 <= k < i ==> (#[trigger] events[k]).recv_ts_ns < b,
        i < events.len() ==> events[i].recv_ts_ns >= b,
    ensures
        i < events.len() && events[i].recv_ts_ns == b ==> applied_at(events, b) == i + 1,
        i < events.len() && events[i].recv_ts_ns > b ==> applied_at(events, b) == i,
        i == events.len() ==> applied_at(events, b) == i,
{
    lemma_first_settled(events, b, i);
}

/// A sample of a stale book shows no level; any other shows the best levels of
/// each side, as many as asked, at least one and at most fifty.
pub proof fn law_sample_levels(
    ts: i64,
    stale: bool,
    bids: Seq<(Real, Real)>,
    asks: Seq<(Real, Real)>,
    levels: usize,
    i: int,
)
    ensures
        ({
            let v = snapshot_of(ts, stale, bids, asks, levels);
            &&& v.ts == ts && v.stale == stale
            &&& stale ==> v.bids.len() == 0 && v.asks.len() == 0
            &&& !stale ==> {
                &&& v.bids.len() <= bids.len() && v.asks.len() <= asks.len()
                &&& v.bids.len() <= 50 && v.asks.len() <= 50
                &&& bids.len() > 0 ==> v.bids.len() > 0
                &&& asks.len() > 0 ==> v.asks.len() > 0
                &&& 1 <= levels <= 50 && bids.len() >= levels ==> v.bids.len() == levels
                &&& 1 <= levels <= 50 && asks.len() >= levels ==> v.asks.len() == levels
                &&& levels > 50 && bids.len() >= 50 ==> v.bids.len() == 50
                &&& levels > 50 && asks.len() >= 50 ==> v.asks.len() == 50
                &&& bids.len() <= levels <= 50 ==> v.bids.len() == bids.len()
                &&& asks.len() <= levels <= 50 ==> v.asks.len() == asks.len()
            }
            &&& 0 <= i < v.bids.len() ==> v.bids[i] == bids[i]
            &&& 0 <= i < v.asks.len() ==> v.asks[i] == asks[i]
        }),
{
}

/// A sampling interval is as asked, and at least a millisecond; a bucket
/// interval at least a nanosecond.
pub proof fn law_intervals(every: i64)
    ensures
        every >= 1_000_000 ==> sample_step(every) == every,
        every <= 1_000_000 ==> sample_step(every) == 1_000_000,
        every >= 1 ==> step_of(every) == every,
        every <= 1 ==> step_of(every) == 1,
{
}

proof fn lemma_funded(events: Seq<EventEnvelope>, venue: Venue, sym: u32, step: int, b: i64)
    requires
        step >= 1,
        buckets_fit(events, step),
    ensures
        funding_of(events, venue, sym, step).dom().contains(b) <==> exists|k: int|
            0 <= k < events.len() && funding_here(#[trigger] events[k], venue, sym, step, b),
    decreases events.len(),
{
    if events.len() > 0 {
        let t = events.drop_last();
        let n = events.len() - 1;
        assert(forall|k: int| 0 <= k < t.len() ==> t[k] == events[k]);
        assert(buckets_fit(t, step));
        lemma_bucket(events[n].recv_ts_ns as int, step, b as int);
        lemma_funded(t, venue, sym, step, b);
        if funding_of(t, venue, sym, step).dom().contains(b) {
            let k = choose|k: int|
                0 <= k < t.len() && funding_here(#[trigger] t[k], venue, sym, step, b);
            assert(funding_here(events[k], venue, sym, step, b));
        }
        if funding_here(events[n], venue, sym, step, b) {
            assert(funding_of(events, venue, sym, step).dom().contains(b));
        }
        if exists|k: int|
            0 <= k < events.len() && funding_here(#[trigger] events[k], venue, sym, step, b) {
            let k = choose|k: int|
                0 <= k < events.len() && funding_here(#[trigger] events[k], venue, sym, step, b);
            if k < n {
                assert(funding_here(t[k], venue, sym, step, b));
            }
        }
    }
}

proof fn lemma_read(events: Seq<EventEnvelope>, venue: Venue, sym: u32, usd: bool, end: int)
    ensures
        reading_as_of(readings_of(events, venue, sym, usd), end) is Some <==> exists|k: int|
            0 <= k < events.len() && reading_here(#[trigger] events[k], venue, sym, usd)
                && events[k].recv_ts_ns <= end,
    decreases events.len(),
{
    if events.len() > 0 {
        let t = events.drop_last();
        let n = events.len() - 1;
        assert(forall|k: int| 0 <= k < t.len() ==> t[k] == events[k]);
        lemma_read(t, venue, sym, usd, end);
        let before = readings_of(t, venue, sym, usd);
        let all = readings_of(events, venue, sym, usd);
        if reading_here(events[n], venue, sym, usd) {
            assert(all.drop_last() =~= before);
            assert(all.last().0 == events[n].recv_ts_ns);
        } else {
            assert(all == before);
        }
        if reading_as_of(before, end) is Some {
            let k = choose|k: int|
                0 <= k < t.len() && reading_here(#[trigger] t[k], venue, sym, usd)
                    && t[k].recv_ts_ns <= end;
            assert(reading_here(events[k], venue, sym, usd));
        }
        if exists|k: int|
            0 <= k < events.len() && reading_here(#[trigger] events[k], venue, sym, usd)
                && events[k].recv_ts_ns <= end {
            let k = choose|k: int|
                0 <= k < events.len() && reading_here(#[trigger] events[k], venue, sym, usd)
                    && events[k].recv_ts_ns <= end;
            if k < n {
                assert(reading_here(t[k], venue, sym, usd));
            }
        }
    }
}

/// A member stands for a bucket exactly where it had a funding rate in the
/// bucket and a usable open interest by the bucket's end; it comes under its
/// own venue and symbol.
pub proof fn law_candidate(
    events: Seq<EventEnvelope>,
    venue: Venue,
    sym: u32,
    b: i64,
    step: int,
    usd: bool,
)
    requires
        step >= 1,
        buckets_fit(events, step),
    ensures
        candidate_of(events, (venue, sym), b, step, usd) is Some <==> (exists|k: int|
            0 <= k < events.len() && funding_here(#[trigger] events[k], venue, sym, step, b)) && (
        exists|k: int|
            0 <= k < events.len() && reading_here(#[trigger] events[k], venue, sym, usd)
                && events[k].recv_ts_ns <= b + step),
        candidate_of(events, (venue, sym), b, step, usd) matches Some(c) ==> c.venue == venue
            && c.symbol == sym,
{
    lemma_funded(events, venue, sym, step, b);
    lemma_read(events, venue, sym, usd, b + step);
}

/// A candidate's rate is the member's last in the bucket, and its open
/// interest the member's last by the bucket's end.
pub proof fn law_candidate_is_current(
    events: Seq<EventEnvelope>,
    venue: Venue,
    sym: u32,
    b: i64,
    step: int,
    usd: bool,
    i: int,
)
    requires
        step >= 1,
        buckets_fit(events, step),
        candidate_of(events, (venue, sym), b, step, usd) is Some,
        0 <= i < events.len(),
    ensures
        funding_here(events[i], venue, sym, step, b) && (forall|k: int|
            i < k < events.len() ==> !funding_here(#[trigger] events[k], venue, sym, step, b))
            ==> candidate_of(events, (venue, sym), b, step, usd)->0.rate
            == events[i].body->Funding_rate,
        reading_here(events[i], venue, sym, usd) && events[i].recv_ts_ns <= b + step && (forall|
            k: int,
        |
            i < k < events.len() ==> !(reading_here(#[trigger] events[k], venue, sym, usd)
                && events[k].recv_ts_ns <= b + step)) ==> candidate_of(
            events,
            (venue, sym),
            b,
            step,
            usd,
        )->0.oi == if usd {
            events[i].body->OpenInterest_oi_notional
        } else {
            events[i].body->OpenInterest_oi_contracts
        },
        mark_here(events[i], venue, sym, step, b) && (forall|k: int|
            i < k < events.len() ==> !mark_here(#[trigger] events[k], venue, sym, step, b))
            ==> candidate_of(events, (venue, sym), b, step, usd)->0.mark
            == events[i].body->MarkPrice_mark,
        index_here(events[i], venue, sym, step, b) && (forall|k: int|
            i < k < events.len() ==> !index_here(#[trigger] events[k], venue, sym, step, b))
            ==> candidate_of(events, (venue, sym), b, step, usd)->0.index
            == events[i].body->MarkPrice_index,
{
    law_last_funding_counts(events, venue, sym, step, b, i);
    law_last_mark_counts(events, venue, sym, step, b, i);
    law_last_index_counts(events, venue, sym, step, b, i);
    lemma_last_read(events, venue, sym, usd, b + step, i);
}

proof fn lemma_last_read(
    events: Seq<EventEnvelope>,
    venue: Venue,
    sym: u32,
    usd: bool,
    end: int,
    i: int,
)
    requires
        0 <= i < events.len(),
    ensures
        reading_here(events[i], venue, sym, usd) && events[i].recv_ts_ns <= end && (forall|k: int|
            i < k < events.len() ==> !(reading_here(#[trigger] events[k], venue, sym, usd)
                && events[k].recv_ts_ns <= end)) ==> reading_as_of(
            readings_of(events, venue, sym, usd),
            end,
        ) == Some(
            if usd {
                events[i].body->OpenInterest_oi_notional
            } else {
                events[i].body->OpenInterest_oi_contracts
            },
        ),
    decreases events.len(),
{
    let t = events.drop_last();
    let n = events.len() - 1;
    assert(forall|k: int| 0 <= k < t.len() ==> t[k] == events[k]);
    let before = readings_of(t, venue, sym, usd);
    let all = readings_of(events, venue, sym, usd);
    if reading_here(events[n], venue, sym, usd) {
        assert(all.drop_last() =~= before);
    }
    if i < n {
        lemma_last_read(t, venue, sym, usd, end, i);
    }
}

/// A bucket without a mark or an index price has no number in its place.
pub proof fn law_absent_is_no_number(m: Map<i64, Real>, k: i64)
    ensures
        m.dom().contains(k) ==> value_or_nan(m, k) == m[k],
        !m.dom().contains(k) ==> value_or_nan(m, k).nan(),
{
}

/// The class of a bucket holds the candidate of each member that has one, and
/// nothing else.
pub proof fn law_class(
    events: Seq<EventEnvelope>,
    members: Seq<(Venue, u32)>,
    b: i64,
    step: int,
    usd: bool,
    c: Candidate,
)
    ensures
        class_of(events, members, b, step, usd).contains(c) <==> exists|i: int|
            0 <= i < members.len() && candidate_of(events, #[trigger] members[i], b, step, usd)
                == Some(c),
    decreases members.len(),
{
    if members.len() > 0 {
        let t = members.drop_last();
        let n = members.len() - 1;
        law_class(events, t, b, step, usd, c);
        let before = class_of(events, t, b, step, usd);
        let all = class_of(events, members, b, step, usd);
        let last = candidate_of(events, members[n], b, step, usd);
        assert(members[n] == members.last());
        if before.contains(c) {
            let x = before.index_of(c);
            assert(all[x] == c);
            let i = choose|i: int|
                0 <= i < t.len() && candidate_of(events, #[trigger] t[i], b, step, usd) == Some(c);
            assert(candidate_of(events, members[i], b, step, usd) == Some(c));
        }
        if last == Some(c) {
            assert(all[before.len() as int] == c);
        }
        if all.contains(c) && !before.contains(c) {
            let x = all.index_of(c);
            if x < before.len() {
                assert(before[x] == c);
            }
            assert(last == Some(c));
        }
        if exists|i: int|
            0 <= i < members.len() && candidate_of(events, #[trigger] members[i], b, step, usd)
                == Some(c) {
            let i = choose|i: int|
                0 <= i < members.len() && candidate_of(events, #[trigger] members[i], b, step, usd)
                    == Some(c);
            if i < n {
                assert(candidate_of(events, t[i], b, step, usd) == Some(c));
            }
        }
    }
}

/// A bucket is shown exactly where one of its classes has a candidate, with
/// both classes.
pub proof fn law_shown_buckets(
    events: Seq<EventEnvelope>,
    members: Seq<(Venue, u32)>,
    buckets: Seq<i64>,
    step: int,
)
    ensures
        forall|i: int|
            0 <= i < funded_buckets(events, members, buckets, step).len() ==> {
                let v = #[trigger] funded_buckets(events, members, buckets, step)[i];
                &&& buckets.contains(v.ts)
                &&& v.usd == class_of(events, members, v.ts, step, true)
                &&& v.contracts == class_of(events, members, v.ts, step, false)
                &&& v.usd.len() > 0 || v.contracts.len() > 0
            },
        forall|k: int|
            0 <= k < buckets.len() && (class_of(
                events,
                members,
                #[trigger] buckets[k],
                step,
                true,
            ).len() > 0 || class_of(events, members, buckets[k], step, false).len() > 0)
                ==> exists|i: int|
                0 <= i < funded_buckets(events, members, buckets, step).len() && (
                #[trigger] funded_buckets(events, members, buckets, step)[i]).ts == buckets[k],
    decreases buckets.len(),
{
    if buckets.len() > 0 {
        let t = buckets.drop_last();
        let n = buckets.len() - 1;
        law_shown_buckets(events, members, t, step);
        let before = funded_buckets(events, members, t, step);
        let all = funded_buckets(events, members, buckets, step);
        assert(buckets[n] == buckets.last());
        assert forall|i: int| 0 <= i < all.len() implies {
            let v = #[trigger] all[i];
            &&& buckets.contains(v.ts)
            &&& v.usd == class_of(events, members, v.ts, step, true)
            &&& v.contracts == class_of(events, members, v.ts, step, false)
            &&& v.usd.len() > 0 || v.contracts.len() > 0
        } by {
            if i < before.len() {
                assert(all[i] == before[i]);
                let x = t.index_of(before[i].ts);
                assert(buckets[x] == before[i].ts);
            }
        }
        assert forall|k: int|
            0 <= k < buckets.len() && (class_of(
                events,
                members,
                #[trigger] buckets[k],
                step,
                true,
            ).len() > 0 || class_of(events, members, buckets[k], step, false).len() > 0)
            implies exists|i: int| 0 <= i < all.len() && (#[trigger] all[i]).ts == buckets[k] by {
            if k < n {
                assert(t[k] == buckets[k]);
                let i = choose|i: int| 0 <= i < before.len() && (#[trigger] before[i]).ts == t[k];
                assert(all[i] == before[i]);
            } else {
                assert(all[before.len() as int].ts == buckets[k]);
            }
        }
    }
}

/// The dollar class is taken where it alone has members, or where both have
/// and its open interest is not the smaller; the contract class otherwise.
pub proof fn law_class_taken(b: BucketView, sums: (Real, Real))
    ensures
        b.usd.len() > 0 && b.contracts.len() == 0 ==> takes_usd(b, sums.0, sums.1),
        b.usd.len() == 0 ==> !takes_usd(b, sums.0, sums.1),
        b.usd.len() > 0 && b.contracts.len() > 0 && sums.1.lt(sums.0) ==> takes_usd(
            b,
            sums.0,
            sums.1,
        ),
        b.usd.len() > 0 && b.contracts.len() > 0 && sums.0.lt(sums.1) ==> !takes_usd(
            b,
            sums.0,
            sums.1,
        ),
        b.usd.len() > 0 && sums.0 == sums.1 ==> takes_usd(b, sums.0, sums.1),
        takes_usd(b, sums.0, sums.1) ==> taken(b, sums) == b.usd && unit_of(b, sums) == "usd"@
            && taken_sum(b, sums) == sums.0,
        !takes_usd(b, sums.0, sums.1) ==> taken(b, sums) == b.contracts && unit_of(b, sums)
            == "contracts"@ && taken_sum(b, sums) == sums.1,
{
}

/// A carry point repeats its candidate and its bucket, and has a basis exactly
/// where both prices are finite and the index is not zero.
pub proof fn law_carry_point(p: CarryPoint, b: BucketView, sums: (Real, Real), c: Candidate)
    requires
        is_carry_point(p, b, sums, c),
    ensures
        p.interval_ts_ns == b.ts,
        p.venue@ == slug_of(c.venue),
        p.symbol == c.symbol,
        p.funding_rate == c.rate,
        p.mark == c.mark,
        p.index == c.index,
        p.has_basis <==> c.mark.finite() && c.index.finite() && c.index.bits != 0 && c.index.bits
            != 0x8000_0000_0000_0000,
        takes_usd(b, sums.0, sums.1) ==> p.total_oi == sums.0 && p.oi_unit@ == "usd"@,
        !takes_usd(b, sums.0, sums.1) ==> p.total_oi == sums.1 && p.oi_unit@ == "contracts"@,
{
}

/// The carry points are those of every candidate taken, bucket after bucket
/// and candidate after candidate.
pub proof fn law_carry_order(buckets: Seq<BucketView>, sums: Seq<(Real, Real)>)
    ensures
        forall|n: int, i: int|
            0 <= n < buckets.len() && 0 <= i < taken(buckets[n], sums[n]).len()
                ==> #[trigger] carry_flat(buckets, sums).contains((n, i)),
        forall|x: int|
            0 <= x < carry_flat(buckets, sums).len() ==> {
                let (n, i) = #[trigger] carry_flat(buckets, sums)[x];
                0 <= n < buckets.len() && 0 <= i < taken(buckets[n], sums[n]).len()
            },
        forall|x: int, y: int|
            0 <= x < y < carry_flat(buckets, sums).len() ==> {
                let p = #[trigger] carry_flat(buckets, sums)[x];
                let q = #[trigger] carry_flat(buckets, sums)[y];
                p.0 < q.0 || (p.0 == q.0 && p.1 < q.1)
            },
    decreases buckets.len(),
{
    if buckets.len() > 0 {
        let t = buckets.drop_last();
        let m = buckets.len() - 1;
        law_carry_order(t, sums);
        let before = carry_flat(t, sums);
        let all = carry_flat(buckets, sums);
        let tail = Seq::new(taken(buckets.last(), sums[m]).len(), |i: int| (m, i));
        assert(all == before + tail);
        assert(forall|n: int| 0 <= n < t.len() ==> t[n] == buckets[n]);
        assert forall|n: int, i: int|
            0 <= n < buckets.len() && 0 <= i < taken(
                buckets[n],
                sums[n],
            ).len() implies #[trigger] all.contains((n, i)) by {
            if n < m {
                assert(taken(t[n], sums[n]) == taken(buckets[n], sums[n]));
                assert(before.contains((n, i)));
                let x = before.index_of((n, i));
                assert(all[x] == (n, i));
            } else {
                assert(all[before.len() + i] == (n, i));
            }
        }
        assert forall|x: int| 0 <= x < all.len() implies {
            let (n, i) = #[trigger] all[x];
            0 <= n < buckets.len() && 0 <= i < taken(buckets[n], sums[n]).len()
        } by {
            if x < before.len() {
                assert(all[x] == before[x]);
            } else {
                assert(all[x] == tail[x - before.len()]);
            }
        }
        assert forall|x: int, y: int| 0 <= x < y < all.len() implies {
            let p = #[trigger] all[x];
            let q = #[trigger] all[y];
            p.0 < q.0 || (p.0 == q.0 && p.1 < q.1)
        } by {
            if x < before.len() {
                assert(all[x] == before[x]);
            }
            if y < before.len() {
                assert(all[y] == before[y]);
            }
        }
    }
}

/// The weighted rate of a bucket is the quotient where the open interest taken
/// is above zero, and zero otherwise; its members are the candidates taken.
pub proof fn law_oiwa_point(p: OiwaSeries, b: BucketView, sums: (Real, Real), quotient: Real)
    requires
        is_oiwa_point(p, b, sums, quotient),
    ensures
        p.interval_ts_ns == b.ts,
        (Real { bits: 0 }).lt(p.total_oi) ==> p.rate == quotient,
        !(Real { bits: 0 }).lt(p.total_oi) ==> p.rate == (Real { bits: 0 }),
        takes_usd(b, sums.0, sums.1) ==> p.total_oi == sums.0 && p.oi_unit@ == "usd"@
            && p.members@.len() == b.usd.len() && forall|i: int|
            0 <= i < b.usd.len() ==> (#[trigger] p.members@[i]).venue@ == slug_of(b.usd[i].venue)
                && p.members@[i].rate == b.usd[i].rate && p.members@[i].oi == b.usd[i].oi
                && p.members@[i].oi_unit@ == "usd"@,
        !takes_usd(b, sums.0, sums.1) ==> p.total_oi == sums.1 && p.oi_unit@ == "contracts"@
            && p.members@.len() == b.contracts.len() && forall|i: int|
            0 <= i < b.contracts.len() ==> (#[trigger] p.members@[i]).venue@ == slug_of(
                b.contracts[i].venue,
            ) && p.members@[i].rate == b.contracts[i].rate && p.members@[i].oi
                == b.contracts[i].oi && p.members@[i].oi_unit@ == "contracts"@,
{
}

/// A liquidation point lists an event exactly where it is a liquidation of
/// finite price and quantity, on that side, of the point's venue and symbol
/// and in its bucket.
pub proof fn law_liquidation_in_one_point(
    events: Seq<EventEnvelope>,
    step: int,
    b: int,
    venue: Seq<char>,
    sym: u32,
    side: Side,
    k: int,
)
    requires
        step >= 1,
        0 <= k < events.len() <= usize::MAX,
    ensures
        liqs_of(events, step, b, venue, sym, side, events.len() as int).contains(k as usize) <==> {
            &&& events[k].body is Liquidation
            &&& events[k].body->Liquidation_price.finite()
            &&& events[k].body->Liquidation_qty.finite()
            &&& events[k].body->Liquidation_side == side
            &&& in_bucket(events[k], step, b)
            &&& slug_of(events[k].venue) == venue
            &&& events[k].symbol.0 == sym
        },
{
    lemma_liq_exact(events, step, b, venue, sym, side, events.len() as int, k);
}

proof fn lemma_liq_exact(
    events: Seq<EventEnvelope>,
    step: int,
    b: int,
    venue: Seq<char>,
    sym: u32,
    side: Side,
    n: int,
    k: int,
)
    requires
        step >= 1,
        0 <= n <= events.len() <= usize::MAX,
        0 <= k < events.len(),
    ensures
        liqs_of(events, step, b, venue, sym, side, n).contains(k as usize) <==> k < n && {
            &&& events[k].body is Liquidation
            &&& events[k].body->Liquidation_price.finite()
            &&& events[k].body->Liquidation_qty.finite()
            &&& events[k].body->Liquidation_side == side
            &&& in_bucket(events[k], step, b)
            &&& slug_of(events[k].venue) == venue
            &&& events[k].symbol.0 == sym
        },
    decreases n,
{
    if n > 0 {
        lemma_liq_exact(events, step, b, venue, sym, side, n - 1, k);
        lemma_bucket(events[n - 1].recv_ts_ns as int, step, b);
        let before = liqs_of(events, step, b, venue, sym, side, n - 1);
        let x = (n - 1) as usize;
        let all = before.push(x);
        assert(all[before.len() as int] == x);
        if before.contains(k as usize) {
            let i = before.index_of(k as usize);
            assert(all[i] == k as usize);
        }
        if all.contains(k as usize) {
            let i = all.index_of(k as usize);
            if i < before.len() {
                assert(before[i] == k as usize);
            }
        }
    }
}

/// Samples start at the first time asked for, are a step apart and none is
/// past the last; one is missing only where there are as many as allowed.
pub proof fn law_samples_are_even(
    samples: Seq<DomSample>,
    events: Seq<EventEnvelope>,
    from_ts: int,
    to_ts: int,
    step: int,
    max: int,
    k: int,
)
    requires
        are_samples(samples, events, from_ts, step),
        samples_complete(samples.len() as int, from_ts, to_ts, step, max),
        step >= 1,
        0 <= k < samples.len(),
    ensures
        samples[0].ts_ns == from_ts,
        k > 0 ==> samples[k].ts_ns == samples[k - 1].ts_ns + step,
        samples[k].ts_ns <= to_ts,
        samples.len() <= max,
        samples.len() < max ==> samples.last().ts_ns + step > to_ts,
        samples[k].applied == applied_at(events, samples[k].ts_ns as int),
{
    let n = samples.len() as int;
    assert(0 * step == 0) by (nonlinear_arith);
    assert((k - 1) * step + step == k * step) by (nonlinear_arith);
    assert((n - 1) * step + step == n * step) by (nonlinear_arith);
    assert(k * step <= (n - 1) * step) by (nonlinear_arith)
        requires
            k <= n - 1,
            step >= 1,
    ;
    assert(samples[0].ts_ns == from_ts + 0 * step);
    assert(samples[k].ts_ns == from_ts + k * step);
    assert(samples[n - 1].ts_ns == from_ts + (n - 1) * step);
    if k > 0 {
        assert(samples[k - 1].ts_ns == from_ts + (k - 1) * step);
    }
}

/// The members are the symbols that had a funding rate, each once, and no
/// other; a bucket is one in which a funding rate came.
pub proof fn law_members(
    events: Seq<EventEnvelope>,
    members: Seq<(Venue, u32)>,
    venue: Venue,
    sym: u32,
)
    ensures
        members_by_name(events, members) ==> (members.contains((venue, sym)) <==> exists|i: int|
            0 <= i < events.len() && (#[trigger] events[i]).body is Funding && events[i].venue
                == venue && events[i].symbol.0 == sym),
        members_by_venue(events, members) ==> (members.contains((venue, sym)) <==> exists|i: int|
            0 <= i < events.len() && (#[trigger] events[i]).body is Funding && events[i].venue
                == venue && events[i].symbol.0 == sym),
{
    let m = (venue, sym);
    assert(is_funded(events, m.0, m.1) <==> exists|i: int|
        0 <= i < events.len() && (#[trigger] events[i]).body is Funding && events[i].venue == venue
            && events[i].symbol.0 == sym) by {
        if is_funded(events, venue, sym) {
            let i = choose|i: int|
                0 <= i < events.len() && (#[trigger] events[i]).body is Funding && of_symbol(
                    events[i],
                    venue,
                    sym,
                );
            assert(events[i].body is Funding);
        }
        if exists|i: int|
            0 <= i < events.len() && (#[trigger] events[i]).body is Funding && events[i].venue
                == venue && events[i].symbol.0 == sym {
            let i = choose|i: int|
                0 <= i < events.len() && (#[trigger] events[i]).body is Funding && events[i].venue
                    == venue && events[i].symbol.0 == sym;
            assert(of_symbol(events[i], venue, sym));
        }
    }
    if members_by_name(events, members) {
        assert(members.contains(m) <==> is_funded(events, m.0, m.1));
    }
    if members_by_venue(events, members) {
        assert(members.contains(m) <==> is_funded(events, m.0, m.1));
    }
}

/// Members are in the order of their venues' names, or of their venues'
/// codes, and then of their symbols.
pub proof fn law_order_of_members(
    events: Seq<EventEnvelope>,
    members: Seq<(Venue, u32)>,
    i: int,
    j: int,
)
    requires
        0 <= i < j < members.len(),
    ensures
        members_by_name(events, members) ==> crate::text::before(
            slug_of(members[i].0),
            slug_of(members[j].0),
        ) || (slug_of(members[i].0) == slug_of(members[j].0) && members[i].1 < members[j].1),
        members_by_venue(events, members) ==> code_of(members[i].0) < code_of(members[j].0) || (
        code_of(members[i].0) == code_of(members[j].0) && members[i].1 < members[j].1),
{
}

/// The buckets are those in which a funding rate came, in order.
pub proof fn law_buckets(events: Seq<EventEnvelope>, step: int, buckets: Seq<i64>, b: i64)
    requires
        step >= 1,
        buckets_in_order(events, step, buckets),
    ensures
        buckets.contains(b) <==> exists|i: int|
            0 <= i < events.len() && (#[trigger] events[i]).body is Funding && in_bucket(
                events[i],
                step,
                b as int,
            ),
        forall|i: int, j: int| 0 <= i < j < buckets.len() ==> buckets[i] < buckets[j],
{
    if is_funded_bucket(events, step, b as int) {
        let i = choose|i: int|
            0 <= i < events.len() && (#[trigger] events[i]).body is Funding && bucket_of(
                events[i].recv_ts_ns as int,
                step,
            ) == b;
        lemma_bucket(events[i].recv_ts_ns as int, step, b as int);
        assert(in_bucket(events[i], step, b as int));
    }
    if exists|i: int|
        0 <= i < events.len() && (#[trigger] events[i]).body is Funding && in_bucket(
            events[i],
            step,
            b as int,
        ) {
        let i = choose|i: int|
            0 <= i < events.len() && (#[trigger] events[i]).body is Funding && in_bucket(
                events[i],
                step,
                b as int,
            );
        lemma_bucket(events[i].recv_ts_ns as int, step, b as int);
        assert(events[i].body is Funding);
    }
}

/// A cell lists a trade among its buys where it was a purchase and among its
/// sells where it was a sale, in the cell's bucket and block.
pub proof fn law_cell(
    row: FootprintBucketRow,
    events: Seq<EventEnvelope>,
    blocks: Seq<i64>,
    step: int,
    k: int,
)
    requires
        step >= 1,
        is_cell(row, events, blocks, step),
        0 <= k < events.len() <= usize::MAX,
    ensures
        row.buys@.contains(k as usize) <==> trade_here(events[k], step, row.bucket_ts_ns as int)
            && blocks[k] == row.price_block && trade_side(events[k]) == Side::Buy,
        row.sells@.contains(k as usize) <==> trade_here(events[k], step, row.bucket_ts_ns as int)
            && blocks[k] == row.price_block && trade_side(events[k]) == Side::Sell,
        row.buys@.len() > 0 || row.sells@.len() > 0,
{
    let n = events.len() as int;
    let b = row.bucket_ts_ns as int;
    law_trade_in_one_cell(events, blocks, step, b, row.price_block, Side::Buy, n, k);
    law_trade_in_one_cell(events, blocks, step, b, row.price_block, Side::Sell, n, k);
}

/// A liquidation point lists its purchases and its sales apart.
pub proof fn law_liquidation_point(p: LiqPoint, events: Seq<EventEnvelope>, step: int, k: int)
    requires
        step >= 1,
        is_liq_point(p, events, step),
        0 <= k < events.len() <= usize::MAX,
        slug_of(events[k].venue) == p.venue@,
        events[k].symbol.0 == p.symbol,
        in_bucket(events[k], step, p.interval_ts_ns as int),
        events[k].body is Liquidation,
        events[k].body->Liquidation_price.finite(),
        events[k].body->Liquidation_qty.finite(),
    ensures
        events[k].body->Liquidation_side == Side::Buy ==> p.buys@.contains(k as usize)
            && !p.sells@.contains(k as usize),
        events[k].body->Liquidation_side == Side::Sell ==> p.sells@.contains(k as usize)
            && !p.buys@.contains(k as usize),
{
    let b = p.interval_ts_ns as int;
    law_liquidation_in_one_point(events, step, b, p.venue@, p.symbol, Side::Buy, k);
    law_liquidation_in_one_point(events, step, b, p.venue@, p.symbol, Side::Sell, k);
}

} // verus!
