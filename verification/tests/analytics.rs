use mp_research::analytics::{
    carry_buckets, carry_series, dom_series, footprint_bars, footprint_buckets, liq_series,
    oiwa_buckets, oiwa_series, pick_oiwa_class, push_dom_sample, vwap, CarryPoint, DomSnapshot,
    FootprintBar, FundingBucket, OiwaSeries,
};
use mp_research::event::{
    EventEnvelope, MarketEvent, Side, SnapshotReason, SymbolId, Venue,
};
use mp_research::number::Real;

fn r(x: f64) -> Real {
    Real { bits: x.to_bits() }
}

fn f(x: Real) -> f64 {
    f64::from_bits(x.bits)
}

fn envelope(venue: Venue, sym: u32, recv_ns: i64, seq: u64, body: MarketEvent) -> EventEnvelope {
    EventEnvelope::new(venue, SymbolId(sym), recv_ns, recv_ns, seq, body)
}

fn trade(recv_ns: i64, price: f64, qty: f64, side: Side, id: u64) -> EventEnvelope {
    envelope(
        Venue::Hyperliquid,
        1,
        recv_ns,
        id,
        MarketEvent::Trade { price: r(price), qty: r(qty), side, trade_id: id },
    )
}

fn funding(venue: Venue, sym: u32, recv_ns: i64, rate: f64) -> EventEnvelope {
    envelope(
        venue,
        sym,
        recv_ns,
        1,
        MarketEvent::Funding {
            rate: r(rate),
            interval_s: 3600,
            next_funding_ts_ns: recv_ns + 3_600_000_000_000,
        },
    )
}

fn interest(venue: Venue, sym: u32, recv_ns: i64, contracts: f64, notional: f64) -> EventEnvelope {
    envelope(
        venue,
        sym,
        recv_ns,
        2,
        MarketEvent::OpenInterest { oi_contracts: r(contracts), oi_notional: r(notional) },
    )
}

fn oi(venue: Venue, sym: u32, recv_ns: i64, notional: f64) -> EventEnvelope {
    interest(venue, sym, recv_ns, notional, notional)
}

fn liq(venue: Venue, sym: u32, recv_ns: i64, price: f64, qty: f64, side: Side) -> EventEnvelope {
    envelope(
        venue,
        sym,
        recv_ns,
        3,
        MarketEvent::Liquidation { price: r(price), qty: r(qty), side },
    )
}

fn price_qty(e: &EventEnvelope) -> (f64, f64, Side) {
    let t = e.body.trade_view().unwrap();
    (f(t.price), f(t.qty), t.side)
}

fn volume(evs: &[EventEnvelope], bar: &FootprintBar, side: Side) -> f64 {
    bar.trades
        .iter()
        .map(|i| price_qty(&evs[*i]))
        .filter(|t| t.2 == side)
        .map(|t| t.1)
        .sum()
}

fn bar_vwap(evs: &[EventEnvelope], bar: &FootprintBar) -> f64 {
    let (mut pv, mut qty) = (0.0, 0.0);
    for i in &bar.trades {
        let (p, q, _) = price_qty(&evs[*i]);
        pv += p * q;
        qty += q;
    }
    f(vwap(r(qty), r(pv / qty), bar.close))
}

fn sums(buckets: &[FundingBucket]) -> Vec<(Real, Real)> {
    buckets
        .iter()
        .map(|b| {
            let usd: f64 = b.usd.iter().map(|c| f(c.oi)).sum();
            let contracts: f64 = b.contracts.iter().map(|c| f(c.oi)).sum();
            (r(usd), r(contracts))
        })
        .collect()
}

fn oiwa(evs: &Vec<EventEnvelope>, interval: i64) -> Vec<OiwaSeries> {
    let buckets = oiwa_buckets(evs, interval);
    let sums = sums(&buckets);
    let quotients = buckets
        .iter()
        .zip(&sums)
        .map(|(b, s)| {
            let class = if pick_oiwa_class(b, s.0, s.1) { &b.usd } else { &b.contracts };
            let num: f64 = class.iter().map(|c| f(c.rate) * f(c.oi)).sum();
            let den: f64 = class.iter().map(|c| f(c.oi)).sum();
            r(num / den)
        })
        .collect();
    oiwa_series(&buckets, &sums, &quotients)
}

fn carry(evs: &Vec<EventEnvelope>, interval: i64) -> Vec<CarryPoint> {
    let buckets = carry_buckets(evs, interval);
    let sums = sums(&buckets);
    carry_series(&buckets, &sums)
}

fn basis(p: &CarryPoint) -> f64 {
    if p.has_basis {
        (f(p.mark) - f(p.index)) / f(p.index) * 10_000.0
    } else {
        f64::NAN
    }
}

#[test]
fn footprint_bars_aggregate_and_split_sides() {
    let t0 = 1_700_000_000_000_000_000i64;
    let evs = vec![
        trade(t0, 100.0, 2.0, Side::Buy, 1),
        trade(t0 + 1, 110.0, 3.0, Side::Sell, 2),
        trade(t0 + 2, 90.0, 1.0, Side::Buy, 3),
        // Next bucket:
        trade(t0 + 60_000_000_000, 95.0, 5.0, Side::Sell, 4),
    ];
    let bars = footprint_bars(&evs, 60_000_000_000);
    assert_eq!(bars.len(), 2);
    let b0 = &bars[0];
    assert_eq!(f(b0.open), 100.0);
    assert_eq!(f(b0.high), 110.0);
    assert_eq!(f(b0.low), 90.0);
    assert_eq!(f(b0.close), 90.0);
    assert_eq!(volume(&evs, b0, Side::Buy), 3.0); // 2 + 1
    assert_eq!(volume(&evs, b0, Side::Sell), 3.0);
    assert_eq!(b0.trades.len(), 3);
    // (100*2 + 110*3 + 90*1) / 6 = 620/6
    assert!((bar_vwap(&evs, b0) - 103.3333333).abs() < 1e-6);
    let b1 = &bars[1];
    assert_eq!(volume(&evs, b1, Side::Sell), 5.0);
    assert_eq!(volume(&evs, b1, Side::Buy), 0.0);
    assert_eq!(f(b1.open), 95.0);
    assert_eq!(bar_vwap(&evs, b1), 95.0);
}

#[test]
fn a_bar_without_quantity_has_its_close_as_average() {
    assert_eq!(vwap(r(0.0), r(f64::NAN), r(7.0)), r(7.0));
    assert_eq!(vwap(r(2.0), r(3.0), r(7.0)), r(3.0));
}

#[test]
fn bars_of_early_times_start_before_them() {
    let evs = vec![trade(-1, 5.0, 1.0, Side::Buy, 1)];
    assert_eq!(footprint_bars(&evs, 10)[0].bucket_ts_ns, -10);
    assert_eq!(footprint_bars(&evs, 0)[0].bucket_ts_ns, -1);
}

#[test]
fn footprint_buckets_block_price() {
    let t0 = 1_700_000_000_000_000_000i64;
    let evs = vec![
        trade(t0, 64_850.0, 1.0, Side::Buy, 1),
        trade(t0 + 1, 64_920.0, 2.0, Side::Sell, 2),
        trade(t0 + 2, 64_880.0, 1.0, Side::Buy, 3),
    ];
    let block = 100.0_f64;
    let blocks: Vec<i64> =
        evs.iter().map(|e| (price_qty(e).0 / block).floor() as i64).collect();
    let rows = footprint_buckets(&evs, &blocks, 60_000_000_000);
    assert_eq!(rows.len(), 2);
    let qty = |at: &[usize]| -> f64 { at.iter().map(|i| price_qty(&evs[*i]).1).sum() };
    assert_eq!(rows[0].price_block as f64 * block, 64_800.0);
    assert_eq!(qty(&rows[0].buys), 2.0);
    assert_eq!(qty(&rows[0].sells), 0.0);
    assert_eq!(rows[0].buys.len() + rows[0].sells.len(), 2);
    assert_eq!(rows[1].price_block as f64 * block, 64_900.0);
    assert_eq!(qty(&rows[1].sells), 2.0);
    assert_eq!(qty(&rows[1].buys), 0.0);
    assert_eq!(rows[1].buys.len() + rows[1].sells.len(), 1);
}

#[test]
fn liq_series_sums_signed_notional_per_interval() {
    let t0 = 1_700_000_000_000_000_000i64;
    let hour = 3_600_000_000_000i64;
    let evs = vec![
        liq(Venue::Bybit, 1, t0, 100.0, 2.0, Side::Buy),
        liq(Venue::Bybit, 1, t0 + 1, 100.0, 1.0, Side::Sell),
        liq(Venue::Bybit, 1, t0 + 2, 110.0, 5.0, Side::Sell),
        liq(Venue::Bybit, 1, t0 + hour, 100.0, 3.0, Side::Sell),
        // A NaN-priced liquidation must never poison the sums.
        liq(Venue::Bybit, 1, t0 + 3, f64::NAN, 9.0, Side::Buy),
        liq(Venue::Bybit, 2, t0, 50.0, 4.0, Side::Sell),
        liq(Venue::BinanceFutures, 1, t0, 100.0, 7.0, Side::Buy),
    ];
    let notional = |at: &[usize]| -> f64 {
        at.iter()
            .map(|i| match &evs[*i].body {
                MarketEvent::Liquidation { price, qty, .. } => f(*price) * f(*qty),
                _ => f64::NAN,
            })
            .sum()
    };
    let out = liq_series(&evs, hour);
    assert_eq!(out.len(), 4);
    assert_eq!(out[0].venue, "binance");
    assert!((notional(&out[0].buys) - 700.0).abs() < 1e-9);
    assert_eq!(out[0].buys.len(), 1);
    let bybit = &out[1];
    assert_eq!(bybit.venue, "bybit");
    assert_eq!(bybit.symbol, 1);
    assert_eq!(bybit.interval_ts_ns, t0.div_euclid(hour) * hour);
    assert!((notional(&bybit.buys) - 200.0).abs() < 1e-9);
    assert!((notional(&bybit.sells) - 650.0).abs() < 1e-9);
    assert!((notional(&bybit.buys) - notional(&bybit.sells) + 450.0).abs() < 1e-9);
    assert_eq!((bybit.buys.len(), bybit.sells.len()), (1, 2));
    assert_eq!(out[2].symbol, 2);
    assert!((notional(&out[2].sells) - 200.0).abs() < 1e-9);
    assert_eq!(out[2].sells.len(), 1);
    assert_eq!(out[3].interval_ts_ns, bybit.interval_ts_ns + hour);
    assert!((notional(&out[3].sells) - 300.0).abs() < 1e-9);
    assert_eq!(out[3].sells.len(), 1);
}

#[test]
fn oiwa_weights_by_oi() {
    let t0 = 1_700_000_000_000_000_000i64;
    let mut evs = vec![
        oi(Venue::Hyperliquid, 1, t0 - 60, 400.0), // OI before funding
        funding(Venue::Hyperliquid, 1, t0, 0.0001),
        oi(Venue::BinanceFutures, 1, t0 - 60, 100.0),
        funding(Venue::BinanceFutures, 1, t0, 0.0003),
        // A third venue with funding but no OI reading is left out.
        funding(Venue::Bybit, 1, t0, 0.0002),
    ];
    evs.sort_by_key(|e| (e.recv_ts_ns, e.stream_seq));
    let out = oiwa(&evs, 28_800_000_000_000);
    assert_eq!(out.len(), 1);
    let s = &out[0];
    // (0.0001*400 + 0.0003*100) / 500
    assert!((f(s.rate) - 0.00014).abs() < 1e-12);
    assert!((f(s.total_oi) - 500.0).abs() < 1e-9);
    assert_eq!(s.oi_unit, "usd");
    assert_eq!(s.members.len(), 2);
    assert_eq!(s.members[0].venue, "binance");
    assert_eq!(s.members[1].venue, "hyperliquid");
    assert_eq!(s.members[0].oi_unit, "usd");
}

#[test]
fn carry_pairs_funding_with_basis() {
    let t0 = 1_700_000_000_000_000_000i64;
    let mut evs = vec![
        oi(Venue::Hyperliquid, 1, t0 - 60, 200.0),
        funding(Venue::Hyperliquid, 1, t0, 0.0001),
        envelope(
            Venue::Hyperliquid,
            1,
            t0,
            3,
            MarketEvent::MarkPrice { mark: r(100.1), index: r(100.0) },
        ),
    ];
    evs.sort_by_key(|e| (e.recv_ts_ns, e.stream_seq));
    let out = carry(&evs, 3_600_000_000_000);
    assert_eq!(out.len(), 1);
    let p = &out[0];
    assert_eq!(p.venue, "hyperliquid");
    assert_eq!(p.symbol, 1);
    assert!((f(p.funding_rate) - 0.0001).abs() < 1e-15);
    assert!((f(p.total_oi) - 200.0).abs() < 1e-9);
    // Both units present and equal: the tie goes to dollars.
    assert_eq!(p.oi_unit, "usd");
    assert!((f(p.mark) - 100.1).abs() < 1e-12);
    assert!((f(p.index) - 100.0).abs() < 1e-12);
    assert!((basis(p) - 10.0).abs() < 1e-9);

    // A funded interval with no mark still emits.
    let mut evs2 = vec![
        oi(Venue::Hyperliquid, 1, t0 - 60, 200.0),
        funding(Venue::Hyperliquid, 1, t0, 0.0001),
    ];
    evs2.sort_by_key(|e| (e.recv_ts_ns, e.stream_seq));
    let out2 = carry(&evs2, 3_600_000_000_000);
    assert_eq!(out2.len(), 1);
    assert!(f(out2[0].mark).is_nan());
    assert!(basis(&out2[0]).is_nan());
}

#[test]
fn carry_keeps_multiple_symbols_per_venue() {
    let t0 = 1_700_000_000_000_000_000i64;
    let mut evs = vec![
        oi(Venue::Hyperliquid, 1, t0 - 60, 200.0),
        funding(Venue::Hyperliquid, 1, t0, 0.0001),
        oi(Venue::Hyperliquid, 2, t0 - 60, 300.0),
        funding(Venue::Hyperliquid, 2, t0, 0.0002),
    ];
    evs.sort_by_key(|e| (e.recv_ts_ns, e.stream_seq));
    let out = carry(&evs, 3_600_000_000_000);
    assert_eq!(out.len(), 2, "both symbols must emit per interval");
    assert_eq!((out[0].symbol, out[1].symbol), (1, 2));
    assert!((f(out[0].funding_rate) - 0.0001).abs() < 1e-15);
    assert!((f(out[1].funding_rate) - 0.0002).abs() < 1e-15);
}

#[test]
fn oiwa_omits_unfunded_intervals() {
    let t0 = 1_700_000_000_000_000_000i64;
    let evs = vec![
        oi(Venue::Hyperliquid, 1, t0, 100.0),
        oi(Venue::Hyperliquid, 1, t0 + 28_800_000_000_000, 100.0),
    ];
    assert!(oiwa(&evs, 28_800_000_000_000).is_empty());
}

#[test]
fn oiwa_falls_back_to_contracts_and_never_mixes_units() {
    let t0 = 1_700_000_000_000_000_000i64;
    let hl = || interest(Venue::Hyperliquid, 1, t0 - 60, 200.0, f64::NAN);
    let hl_f = || funding(Venue::Hyperliquid, 1, t0, 0.0001);
    let bn = interest(Venue::BinanceFutures, 1, t0 - 60, f64::NAN, 300.0);
    let bn_f = funding(Venue::BinanceFutures, 1, t0, 0.0003);
    let mut evs = vec![hl(), hl_f(), bn, bn_f];
    evs.sort_by_key(|e| (e.recv_ts_ns, e.stream_seq));
    let out = oiwa(&evs, 28_800_000_000_000);
    assert_eq!(out.len(), 1);
    let s = &out[0];
    // The dollar class (300) is larger than the contract class (200).
    assert_eq!(s.oi_unit, "usd");
    assert_eq!(s.members.len(), 1);
    assert_eq!(s.members[0].venue, "binance");
    assert!((f(s.rate) - 0.0003).abs() < 1e-15);

    let evs2 = vec![hl(), hl_f()];
    let out2 = oiwa(&evs2, 28_800_000_000_000);
    assert_eq!(out2.len(), 1);
    assert_eq!(out2[0].oi_unit, "contracts");
    assert_eq!(out2[0].members[0].venue, "hyperliquid");
    assert!((f(out2[0].total_oi) - 200.0).abs() < 1e-9);
}

fn book(recv_ns: i64, seq: u64) -> EventEnvelope {
    envelope(
        Venue::Hyperliquid,
        1,
        recv_ns,
        seq,
        MarketEvent::BookSnapshot { seq, reason: SnapshotReason::Init },
    )
}

fn ladder(levels: &[(f64, f64)]) -> Vec<(Real, Real)> {
    levels.iter().map(|(p, q)| (r(*p), r(*q))).collect()
}

#[test]
fn dom_samples_warm_book_at_boundaries() {
    let t0 = 1_700_000_000_000_000_000i64;
    let evs = vec![
        book(t0 - 10, 10),
        envelope(
            Venue::Hyperliquid,
            1,
            t0 + 1,
            11,
            MarketEvent::BookDelta { first_seq: 11, last_seq: 11 },
        ),
    ];
    // The book behind each number of applied events.
    let states = [
        (true, ladder(&[]), ladder(&[])),
        (false, ladder(&[(101.0, 5.0), (100.5, 3.0)]), ladder(&[(102.0, 4.0)])),
        (false, ladder(&[(101.0, 5.0), (100.5, 3.0)]), ladder(&[(102.5, 1.5)])),
    ];
    let mut out: Vec<DomSnapshot> = Vec::new();
    for s in dom_series(&evs, t0, t0 + 10_000_000_000, 5_000_000_000, 100) {
        let (stale, bids, asks) = &states[s.applied];
        push_dom_sample(&mut out, *stale, bids, asks, s.ts_ns, 5);
    }
    assert_eq!(out.len(), 3);
    assert_eq!(out[0].ts_ns, t0);
    assert!(!out[0].stale);
    assert_eq!(out[0].bids, ladder(&[(101.0, 5.0), (100.5, 3.0)]));
    assert_eq!(out[0].asks, ladder(&[(102.0, 4.0)]));
    assert_eq!(out[1].asks, ladder(&[(102.5, 1.5)]));
    assert_eq!(out[1].bids, ladder(&[(101.0, 5.0), (100.5, 3.0)]));
    assert_eq!(out[2].asks, ladder(&[(102.5, 1.5)]));
}

#[test]
fn dom_levels_capped_and_stale_samples_empty() {
    let t0 = 1_700_000_000_000_000_000i64;
    // A book, a hole at the start of the window, and a book again.
    let evs = vec![
        book(t0 - 1, 10),
        envelope(
            Venue::Hyperliquid,
            1,
            t0,
            12,
            MarketEvent::BookDelta { first_seq: 12, last_seq: 12 },
        ),
        book(t0 + 10_000_000_000, 20),
    ];
    let states = [
        (true, ladder(&[]), ladder(&[])),
        (false, ladder(&[(100.0, 1.0)]), ladder(&[(101.0, 1.0)])),
        (true, ladder(&[(100.0, 1.0)]), ladder(&[(101.0, 1.0)])),
        (false, ladder(&[(99.0, 2.0), (98.0, 1.0)]), ladder(&[(102.0, 3.0), (103.0, 1.0)])),
    ];
    let mut out: Vec<DomSnapshot> = Vec::new();
    for s in dom_series(&evs, t0, t0 + 15_000_000_000, 5_000_000_000, 100) {
        let (stale, bids, asks) = &states[s.applied];
        push_dom_sample(&mut out, *stale, bids, asks, s.ts_ns, 1);
    }
    assert_eq!(out.len(), 4);
    assert!(out[0].stale, "gap must mark the ladder stale");
    assert!(out[0].bids.is_empty());
    assert!(!out[2].stale);
    assert_eq!(out[2].bids, ladder(&[(99.0, 2.0)]));
    assert_eq!(out[2].asks, ladder(&[(102.0, 3.0)]));
}

#[test]
fn dom_max_samples_caps_and_window_is_bounded() {
    let t0 = 1_700_000_000_000_000_000i64;
    let evs = vec![book(t0 - 1, 10), book(t0 + 60_000_000_000, 11)];
    // Every 100 ms over a minute is 600 samples, capped at 50.
    let out = dom_series(&evs, t0, t0 + 60_000_000_000, 100_000_000, 50);
    assert_eq!(out.len(), 50);
    assert_eq!(out[0].ts_ns, t0);
    assert_eq!(out[49].ts_ns, t0 + 49 * 100_000_000);
    // A reversed window yields nothing.
    assert!(dom_series(&evs, t0 + 10, t0, 100_000_000, 50).is_empty());
}

#[test]
fn intervals_without_an_event_of_the_kind_are_left_out() {
    let t0 = 1_700_000_000_000_000_000i64;
    let hour = 3_600_000_000_000i64;
    let evs = vec![
        trade(t0, 100.0, 1.0, Side::Buy, 1),
        liq(Venue::Bybit, 1, t0 + hour, 100.0, 2.0, Side::Buy),
        liq(Venue::Bybit, 1, t0 + 2 * hour, f64::NAN, 2.0, Side::Buy),
    ];
    let cells = footprint_buckets(&evs, &vec![1, 1, 1], hour);
    assert_eq!(cells.len(), 1);
    assert_eq!(cells[0].buys, vec![0]);
    let points = liq_series(&evs, hour);
    assert_eq!(points.len(), 1);
    assert_eq!(points[0].buys, vec![1]);
}
