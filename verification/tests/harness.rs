use mp_research::event::{EventEnvelope, MarketEvent, Side, SymbolId, Venue};
use mp_research::gates::{evaluate_g1, G1Params, G1Result, G1Texts, NetProfits};
use mp_research::harness::{
    count_windows, monte_carlo, param_combinations, pick_best_eligible, plateau_ok, pnl_blocks,
    resampled_path, slice_by_recv, walk_forward, MetricsSummary, WalkForwardParams, WindowResult,
    WindowRun, PLATEAU_BITS,
};
use mp_research::metrics::{Metrics, TallySums};
use mp_research::number::Real;
use mp_research::strategy_resolve::{
    strategy_named, universe_from_events, ExitThreshold, StrategyChoice,
};
use mp_research::tracker::{RunRecord, SummaryTexts};

const MS: i64 = 1_000_000;
const DAY: i64 = 86_400_000_000_000;

fn r(x: f64) -> Real {
    Real { bits: x.to_bits() }
}

fn f(x: Real) -> f64 {
    f64::from_bits(x.bits)
}

fn trade(venue: Venue, sym: u32, recv: i64) -> EventEnvelope {
    EventEnvelope::new(
        venue,
        SymbolId(sym),
        recv,
        recv,
        recv as u64,
        MarketEvent::Trade { price: r(100.0), qty: r(1.0), side: Side::Buy, trade_id: 1 },
    )
}

fn feed(n: i64) -> Vec<EventEnvelope> {
    (0..n).map(|i| trade(Venue::Bybit, 0, i * 100 * MS)).collect()
}

fn record(m: &mut Metrics, pnl: f64) {
    let sums = TallySums { win: r(f(m.all.gross_win) + pnl), loss: r(f(m.all.gross_loss) - pnl) };
    m.record_trade(r(pnl), sums);
}

fn record_maker(m: &mut Metrics, pnl: f64) {
    let all = TallySums { win: r(f(m.all.gross_win) + pnl), loss: r(f(m.all.gross_loss) - pnl) };
    let tagged =
        TallySums { win: r(f(m.maker.gross_win) + pnl), loss: r(f(m.maker.gross_loss) - pnl) };
    m.record_maker_trade(r(pnl), all, tagged);
}

fn judge(m: &Metrics, stress: f64, p: &G1Params) -> G1Result {
    let net = f(m.all.gross_win) - f(m.all.gross_loss);
    let maker = f(m.maker.gross_win) - f(m.maker.gross_loss);
    let tape = f(m.tape.gross_win) - f(m.tape.gross_loss);
    let nets = NetProfits {
        maker: r(maker),
        without_maker: r(net - maker),
        tape: r(tape),
        without_tape: r(net - tape),
    };
    let texts = G1Texts {
        stress: format!("{stress:+.6}"),
        drawdown: format!("{:.2}", f(m.max_drawdown)),
        budget: format!("{:.2}", f(p.dd_budget)),
    };
    evaluate_g1(m, r(stress), p, nets, &texts)
}

#[test]
fn str_9_g1_passes_only_when_all_conditions_met() {
    let mut m = Metrics::new();
    for _ in 0..150 {
        record(&mut m, 1.0); // 150 winning trades
    }
    let p = G1Params { min_trades: 100, dd_budget: r(1_000.0) };
    assert!(judge(&m, 0.5, &p).pass);
    let refused = judge(&m, 0.0, &p);
    assert!(!refused.pass);
    assert_eq!(
        refused.reasons,
        vec!["expectancy in 2x-cost column is +0.000000 (must be > 0)".to_string()]
    );
    let mut few = Metrics::new();
    for _ in 0..50 {
        record(&mut few, 1.0);
    }
    let refused = judge(&few, 0.5, &p);
    assert!(!refused.pass);
    assert_eq!(refused.reasons, vec!["only 50 trades (need >= 100)".to_string()]);
    m.max_drawdown = r(1_000.5);
    assert_eq!(
        judge(&m, 0.5, &p).reasons,
        vec!["max drawdown 1000.50 exceeds budget 1000.00".to_string()]
    );
}

#[test]
fn sim_12_g1_rejects_optimistic_maker_dependent_edge() {
    let mut m = Metrics::new();
    for _ in 0..60 {
        record(&mut m, 1.0);
    }
    for _ in 0..60 {
        record(&mut m, -1.0);
    }
    for _ in 0..30 {
        record_maker(&mut m, 2.0); // maker-only profit
    }
    let p = G1Params { min_trades: 100, dd_budget: r(f64::INFINITY) };
    let g = judge(&m, 0.5, &p);
    assert!(!g.pass);
    assert!(g.reasons.iter().any(|s| s.contains("maker-dependent")));
    assert_eq!(m.wins, 90);
    assert_eq!(G1Params::default().min_trades, 100);
}

#[test]
fn sim_9_walk_forward_rolls_windows_and_reports_oos() {
    let events = feed(400); // spans 0 .. 399*100ms
    let span = events.last().unwrap().recv_ts_ns;
    let wf = WalkForwardParams {
        train_ns: span / 4,
        test_ns: span / 8,
        step_ns: span / 8,
        embargo_ns: 0,
    };
    let windows = walk_forward(&events, wf);
    assert!(windows.len() >= 2, "expected multiple rolling windows");
    for w in &windows {
        assert!(!slice_by_recv(&events, w.test_start_ns, w.test_end_ns).is_empty());
        assert!(w.test_end_ns > w.test_start_ns);
        assert!(w.test_start_ns > w.train_start_ns);
    }
}

#[test]
fn an_embargo_is_in_neither_part() {
    let events = feed(100);
    let p = WalkForwardParams {
        train_ns: 2000 * MS,
        test_ns: 1000 * MS,
        step_ns: 1000 * MS,
        embargo_ns: 500 * MS,
    };
    let windows = walk_forward(&events, p);
    assert_eq!(windows.len(), 7);
    assert_eq!(windows[1].train_start_ns, 1000 * MS);
    assert_eq!(windows[1].train_end_ns, 3000 * MS);
    assert_eq!(windows[1].test_start_ns, 3500 * MS);
    assert_eq!(windows[1].test_end_ns, 4500 * MS);
    let train = slice_by_recv(&events, windows[0].train_start_ns, windows[0].train_end_ns);
    let test = slice_by_recv(&events, windows[0].test_start_ns, windows[0].test_end_ns);
    assert_eq!(train.len(), 20);
    assert_eq!(train[19].recv_ts_ns, 1900 * MS);
    assert_eq!(test.len(), 10);
    assert_eq!(test[0].recv_ts_ns, 2500 * MS);
    assert!(walk_forward(&[], p).is_empty());
}

#[test]
fn sim_9_plateau_flags_sign_flip_within_30pct() {
    let points = |v: &[(f64, f64)]| -> Vec<(Real, Real)> {
        v.iter().map(|(d, e)| (r(*d), r(*e))).collect()
    };
    assert!(!plateau_ok(r(0.5), &points(&[(0.10, 0.4), (0.20, -0.1)])));
    assert!(plateau_ok(r(0.5), &points(&[(0.10, 0.45), (0.30, 0.2), (-0.30, 0.3)])));
    assert!(plateau_ok(r(0.5), &points(&[(0.50, -0.2)])));
    assert!(!plateau_ok(r(0.5), &points(&[(-0.30, -0.2)])));
    assert_eq!(PLATEAU_BITS, (0.30_f64 + 1e-9).to_bits());
}

fn bootstrap(pnls: &Vec<(i64, Real)>, resamples: u32, seed: u64, block: i64) -> Vec<Real> {
    let blocks = pnl_blocks(pnls, block);
    if blocks.is_empty() {
        return Vec::new();
    }
    let mut state = seed;
    (0..resamples)
        .map(|_| {
            let draws: Vec<usize> = (0..pnls.len())
                .map(|_| {
                    state = state.wrapping_mul(6_364_136_223_846_793_005).wrapping_add(1);
                    (state >> 33) as usize % blocks.len()
                })
                .collect();
            let (mut equity, mut peak, mut dd) = (0.0_f64, 0.0_f64, 0.0_f64);
            for i in resampled_path(&blocks, &draws, pnls.len()) {
                equity += f(pnls[i].1);
                peak = peak.max(equity);
                dd = dd.max(peak - equity);
            }
            r(dd)
        })
        .collect()
}

#[test]
fn sim_9_monte_carlo_is_seeded_and_reports_dd_distribution() {
    let pnls: Vec<(i64, Real)> = vec![
        (0, r(10.0)),
        (MS, r(-5.0)),
        (DAY, r(-8.0)),
        (DAY + MS, r(3.0)),
        (2 * DAY, r(-12.0)),
        (2 * DAY + MS, r(6.0)),
    ];
    let a = monte_carlo(&bootstrap(&pnls, 500, 99, DAY), 500);
    let b = monte_carlo(&bootstrap(&pnls, 500, 99, DAY), 500);
    assert_eq!(a, b, "same seed: identical distribution");
    assert!(f(a.p50_max_dd) >= 0.0);
    assert!(f(a.p95_max_dd) >= f(a.p50_max_dd));
    assert!(f(a.worst_max_dd) >= f(a.p95_max_dd));
    let c = monte_carlo(&bootstrap(&pnls, 500, 1234, DAY), 500);
    assert!(f(c.p95_max_dd) >= f(c.p50_max_dd));
}

#[test]
fn sim_9_monte_carlo_empty_is_zero() {
    let mc = monte_carlo(&bootstrap(&vec![], 100, 1, DAY), 100);
    assert_eq!(f(mc.p95_max_dd), 0.0);
    assert_eq!(mc.resamples, 100);
}

#[test]
fn percentiles_are_taken_at_their_places() {
    let dds: Vec<Real> = (0..=100).rev().map(|i| r(i as f64)).collect();
    let mc = monte_carlo(&dds, 101);
    assert_eq!((f(mc.p50_max_dd), f(mc.p95_max_dd), f(mc.worst_max_dd)), (50.0, 95.0, 100.0));
    for n in 1..400usize {
        let dds: Vec<Real> = (0..n).map(|i| r(i as f64)).collect();
        let mc = monte_carlo(&dds, n as u32);
        let at = |q: f64| (q * (n as f64 - 1.0)).round();
        assert_eq!(f(mc.p50_max_dd), at(0.50));
        assert_eq!(f(mc.p95_max_dd), at(0.95));
    }
}

#[test]
fn trades_fall_into_runs_of_one_block() {
    let pnls: Vec<(i64, Real)> =
        [-1, 0, 5, 10, 11, 3].iter().map(|t| (*t, r(1.0))).collect();
    assert_eq!(pnl_blocks(&pnls, 10), vec![(0, 1), (1, 3), (3, 5), (5, 6)]);
    assert_eq!(resampled_path(&vec![(0, 1), (1, 3)], &vec![1, 0, 1], 3), vec![1, 2, 0]);
}

#[test]
fn a_grid_has_every_point() {
    let axes = vec![vec![r(1.0), r(2.0)], vec![r(3.0)], vec![r(4.0), r(5.0)]];
    let points: Vec<Vec<f64>> =
        param_combinations(&axes).iter().map(|p| p.iter().map(|x| f(*x)).collect()).collect();
    assert_eq!(
        points,
        vec![
            vec![1.0, 3.0, 4.0],
            vec![1.0, 3.0, 5.0],
            vec![2.0, 3.0, 4.0],
            vec![2.0, 3.0, 5.0]
        ]
    );
    assert_eq!(param_combinations(&vec![]), vec![Vec::<Real>::new()]);
    assert!(param_combinations(&vec![vec![r(1.0)], vec![]]).is_empty());
}

fn score(trades: u64, expectancy: f64) -> Option<MetricsSummary> {
    Some(MetricsSummary { trades, expectancy: r(expectancy), ..MetricsSummary::default() })
}

#[test]
fn a_combination_that_never_trades_is_never_chosen() {
    let scores = vec![score(0, 0.0), score(12, -0.5), None, score(20, -0.1), score(30, -0.1)];
    let (best, exp) = pick_best_eligible(&scores, 10);
    assert_eq!(best, Some(3));
    assert_eq!(f(exp), -0.1);
    let (none, exp) = pick_best_eligible(&vec![score(0, 5.0), None, score(99, f64::NAN)], 10);
    assert_eq!(none, None);
    assert_eq!(f(exp), f64::NEG_INFINITY);
}

#[test]
fn windows_say_what_became_of_them() {
    let w = walk_forward(
        &feed(100),
        WalkForwardParams { train_ns: 10 * MS, test_ns: 10 * MS, step_ns: 3_000 * MS, embargo_ns: 0 },
    );
    let ran = score(5, 0.25).unwrap();
    let results = vec![
        WindowResult::of(w[0], WindowRun::Ran(ran)),
        WindowResult::of(w[1], WindowRun::Failed),
        WindowResult::of(w[2], WindowRun::Nothing),
    ];
    let verdicts: Vec<&str> = results.iter().map(|r| r.verdict()).collect();
    assert_eq!(verdicts, vec!["SELECTED", "ERROR", "VACUOUS"]);
    assert_eq!(results[0].oos, ran);
    assert_eq!(results[1].oos, MetricsSummary::default());
    assert_eq!(count_windows(&results), (1, 1));
}

fn run_record(id: &str, config: &str) -> RunRecord {
    RunRecord::new(
        id.into(),
        "abc123".into(),
        config,
        0,
        200 * 100 * MS,
        vec![111, 222],
        42,
        MetricsSummary::default(),
    )
}

#[test]
fn sim_10_run_record_is_reproducible_and_identifies_experiments() {
    let rec = run_record("01J000RUNID", "latency_ns=50ms;fee=0.00055");
    let texts = SummaryTexts {
        expectancy: "0".into(),
        stress_expectancy_2x: "-0.5".into(),
        max_drawdown: "1.25".into(),
    };
    let line = rec.to_jsonl(&texts);
    assert!(line.contains("\"config_hash\""));
    assert!(line.contains("\"git_sha\":\"abc123\""));
    assert!(line.contains("\"decision_log_hash\""));
    assert!(line.contains("\"manifest_hashes\":[111,222]"));
    assert!(line.ends_with(
        "\"trades\":0,\"expectancy\":0,\"stress_expectancy_2x\":-0.5,\"max_drawdown\":1.25}"
    ));
    let parsed: serde_json::Value = serde_json::from_str(&line).unwrap();
    assert_eq!(parsed["data_to_ns"].as_i64(), Some(20_000_000_000));
    let rec2 = run_record("01J000OTHER", "latency_ns=50ms;fee=0.00055");
    assert!(rec.same_experiment(&rec2));
    let rec3 = run_record("01J000THIRD", "latency_ns=100ms;fee=0.00055");
    assert!(!rec.same_experiment(&rec3));
}

#[test]
fn names_stand_for_strategies() {
    let entry = Some(r(0.5));
    assert_eq!(strategy_named("coinflip", None, None), Ok(StrategyChoice::CoinFlip));
    assert_eq!(strategy_named("null", entry, None), Ok(StrategyChoice::Idle));
    assert_eq!(
        strategy_named("carry-v1", entry, None),
        Ok(StrategyChoice::Carry { entry, exit: ExitThreshold::FifthOf(r(0.5)) })
    );
    assert_eq!(
        strategy_named("carry-v1", entry, Some(r(0.1))),
        Ok(StrategyChoice::Carry { entry, exit: ExitThreshold::Given(r(0.1)) })
    );
    assert_eq!(
        strategy_named("orderflow-v1", entry, None),
        Ok(StrategyChoice::Orderflow { entry, exit: ExitThreshold::Own })
    );
    assert_eq!(
        strategy_named("nope", None, None),
        Err("unknown strategy: nope (coinflip|null|carry-v1|orderflow-v1|liq-fade-v1)".into())
    );
}

#[test]
fn a_universe_is_what_the_events_show() {
    let events = vec![
        trade(Venue::Bybit, 3, 0),
        trade(Venue::Okx, 3, 1),
        trade(Venue::Bybit, 1, 2),
    ];
    let u = universe_from_events(&events);
    assert_eq!(u.venues, vec![Venue::Bybit, Venue::Okx]);
    assert_eq!(u.symbols, vec![SymbolId(3), SymbolId(1)]);
    let venues = [Venue::Bybit, Venue::Okx, Venue::Deribit, Venue::Hyperliquid, Venue::Fred];
    let many: Vec<EventEnvelope> =
        (0..20).map(|i| trade(venues[i as usize % 5], i, i as i64)).collect();
    let u = universe_from_events(&many);
    // The search ends at the sixth symbol.
    assert_eq!(u.symbols.len(), 6);
    assert_eq!(u.venues.len(), 5);
}

#[test]
fn a_number_that_is_none_never_passes() {
    let mut m = Metrics::new();
    for _ in 0..150 {
        record(&mut m, 1.0);
    }
    let p = G1Params { min_trades: 100, dd_budget: r(10.0) };
    assert!(judge(&m, 0.5, &p).pass);
    let v = judge(&m, f64::NAN, &p);
    assert_eq!(v.reasons.len(), 1);
    assert!(v.reasons[0].contains("(must be > 0)"));
    m.max_drawdown = r(f64::NAN);
    let v = judge(&m, 0.5, &p);
    assert_eq!(v.reasons.len(), 1);
    assert!(v.reasons[0].starts_with("max drawdown"));
}
