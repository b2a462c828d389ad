use mp_research::account::{classify_fill, Accountant, FillKind, FillNumbers, FundingNumbers};
use mp_research::decision_log::{DecisionLog, FeatureRecord};
use mp_research::cli::effective_strategy;
use mp_research::determinism::{
    check_day, check_sim_config, replay, DeterminismConfig, ReplaySummary, DEFAULT_SEED,
};
use mp_research::engine::{
    dispatch_all, strategy_seed, Answer, Backtester, FillCosts, SimConfig, Step,
};
use mp_research::error::SimError;
use mp_research::event::{EventEnvelope, Liquidity, MarketEvent, Side, SymbolId, Venue};
use mp_research::fills::{FillModel, FillOptimism, MarketOffer, Print, ProducedFill};
use mp_research::metrics::{Metrics, TallySums};
use mp_research::number::Real;
use mp_research::order::{Fill, IntentTexts, OrderIntent, OrderKind, SizeUnit};
use mp_research::paper::PaperSession;
use mp_research::strategy_resolve::{strategy_named, StrategyChoice};

const MS: i64 = 1_000_000;
const HR: i64 = 3_600_000_000_000;
const SYM: SymbolId = SymbolId(0);

fn r(x: f64) -> Real {
    Real { bits: x.to_bits() }
}

fn f(x: Real) -> f64 {
    f64::from_bits(x.bits)
}

fn event(recv: i64, body: MarketEvent) -> EventEnvelope {
    EventEnvelope::new(Venue::Bybit, SYM, recv, recv, recv as u64, body)
}

fn trade(recv: i64, price: f64, qty: f64, side: Side) -> EventEnvelope {
    event(
        recv,
        MarketEvent::Trade { price: r(price), qty: r(qty), side, trade_id: recv as u64 },
    )
}

fn funding(recv: i64, rate: f64) -> EventEnvelope {
    event(
        recv,
        MarketEvent::Funding {
            rate: r(rate),
            interval_s: 28_800,
            next_funding_ts_ns: recv + 28_800_000_000_000,
        },
    )
}

fn order(strategy: &str, side: Side, kind: OrderKind, qty: f64) -> OrderIntent {
    OrderIntent {
        intent_id: 7,
        strategy: strategy.into(),
        venue: Venue::Bybit,
        symbol: SYM,
        side,
        kind,
        qty: SizeUnit::Contracts(r(qty)),
        reduce_only: false,
        tag: "t".into(),
    }
}

fn texts(i: &OrderIntent) -> IntentTexts {
    IntentTexts { kind: format!("{:?}", i.kind), qty: format!("{:?}", i.qty), tif: "Ioc".into() }
}

// ---------------------------------------------------------------------------
// Arithmetic around the account
// ---------------------------------------------------------------------------

fn fill_numbers(a: &Accountant, symbol: SymbolId, signed: f64, price: f64, fee: f64) -> FillNumbers {
    let p = a.position_record(symbol);
    let (qty, avg) = (f(p.qty), f(p.avg));
    let sum = qty + signed;
    let closed = signed.abs().min(qty.abs());
    let gross = closed * (price - avg) * qty.signum();
    let (held, traded) = if qty == 0.0 { (0.0, 0.0) } else { (closed / qty.abs(), closed / signed.abs()) };
    let (leg_fees, gross) = match classify_fill(p.qty, r(signed), r(sum)) {
        FillKind::Open => (fee, 0.0),
        FillKind::Increase => (f(p.fees) + fee, 0.0),
        FillKind::Reduce => (f(p.fees) * (1.0 - held), gross),
        FillKind::Close => (0.0, gross),
        FillKind::Flip => (fee * (1.0 - traded), gross),
    };
    FillNumbers {
        cash: r(f(a.cash) - price * signed - fee),
        fees: r(f(a.fees) + fee),
        realized: r(f(a.realized) + gross),
        sum: r(sum),
        average: r((avg * qty + price * signed) / sum),
        leg_fees: r(leg_fees),
        leg_funding: r(f(p.funding) * (1.0 - held)),
        gross: r(gross),
        attributed_fees: r(f(p.fees) * held + fee * traded),
        attributed_funding: r(f(p.funding) * held),
    }
}

fn apply(a: &mut Accountant, signed: f64, price: f64, fee: f64, tag: FillOptimism)
    -> mp_research::account::FillOutcome {
    let n = fill_numbers(a, SYM, signed, price, fee);
    a.apply_fill(SYM, r(signed), r(price), tag, n)
}

fn funding_numbers(a: &Accountant, symbol: SymbolId, rate: f64) -> FundingNumbers {
    let p = a.position_record(symbol);
    let mark = a.marks.get(&symbol.0).map(|m| f(*m)).unwrap_or(0.0);
    let pay = rate * f(p.qty) * mark;
    FundingNumbers {
        cash: r(f(a.cash) - pay),
        funding_paid: r(f(a.funding_paid) + pay),
        leg_funding: r(f(p.funding) + pay),
    }
}

fn accrue(a: &mut Accountant, rate: f64) {
    let n = funding_numbers(a, SYM, rate);
    a.accrue_funding(SYM, r(rate), n);
}

fn unrealized(a: &Accountant) -> f64 {
    a.positions().iter().map(|h| f(h.qty) * (f(h.mark) - f(h.avg))).sum()
}

fn equity(a: &Accountant) -> f64 {
    f(a.cash) + a.positions().iter().map(|h| f(h.qty) * f(h.mark)).sum::<f64>()
}

fn residual(a: &Accountant) -> f64 {
    equity(a)
        - (f(a.start_cash) + f(a.realized) + unrealized(a) - f(a.fees) - f(a.funding_paid))
}

// ---------------------------------------------------------------------------
// A small simulator around the library
// ---------------------------------------------------------------------------

trait Probe {
    fn feature(&mut self, position: f64, timers: &mut Vec<i64>) -> Vec<OrderIntent>;
    fn timer(&mut self) -> Vec<OrderIntent> {
        Vec::new()
    }
}

struct Script {
    orders: Vec<(OrderKind, Side, f64)>,
    next: usize,
}

impl Probe for Script {
    fn feature(&mut self, _: f64, _: &mut Vec<i64>) -> Vec<OrderIntent> {
        let i = self.next;
        self.next += 1;
        match self.orders.get(i) {
            Some((kind, side, qty)) => vec![order("scripted", *side, *kind, *qty)],
            None => Vec::new(),
        }
    }
}

struct RoundTrip {
    fired: bool,
    closed: bool,
    close: bool,
}

impl Probe for RoundTrip {
    fn feature(&mut self, position: f64, _: &mut Vec<i64>) -> Vec<OrderIntent> {
        if !self.fired {
            self.fired = true;
            return vec![order("scripted", Side::Buy, OrderKind::Market, 1.0)];
        }
        if self.close && !self.closed && position > 0.0 {
            self.closed = true;
            return vec![order("scripted", Side::Sell, OrderKind::Market, 1.0)];
        }
        Vec::new()
    }
}

struct Coin {
    state: u64,
}

impl Probe for Coin {
    fn feature(&mut self, _: f64, _: &mut Vec<i64>) -> Vec<OrderIntent> {
        self.state = self.state.wrapping_mul(6_364_136_223_846_793_005).wrapping_add(1);
        let side = if self.state >> 33 & 1 == 0 { Side::Buy } else { Side::Sell };
        vec![order("coinflip", side, OrderKind::Market, 1.0)]
    }
}

struct Swing {
    arm: bool,
}

impl Probe for Swing {
    fn feature(&mut self, _: f64, timers: &mut Vec<i64>) -> Vec<OrderIntent> {
        if self.arm {
            timers.push(HR);
        }
        vec![order("swing", Side::Buy, OrderKind::Market, 0.01)]
    }
    fn timer(&mut self) -> Vec<OrderIntent> {
        vec![order("swing", Side::Buy, OrderKind::Market, 0.01)]
    }
}

struct Idle;

impl Probe for Idle {
    fn feature(&mut self, _: f64, _: &mut Vec<i64>) -> Vec<OrderIntent> {
        Vec::new()
    }
}

#[derive(Clone)]
struct Book {
    bids: Vec<(f64, f64)>,
    asks: Vec<(f64, f64)>,
}

struct Sim {
    bt: Backtester,
    probe: Box<dyn Probe>,
    book: Option<Book>,
    bar: Option<i64>,
    gate: bool,
}

impl Sim {
    fn new(cfg: SimConfig, probe: Box<dyn Probe>, bar_close: bool) -> Sim {
        let bt = Backtester::from_strategies(cfg, vec![vec!["cvd.bybit".into()]], vec![bar_close]);
        Sim { bt, probe, book: None, bar: None, gate: true }
    }

    fn equity(&self) -> f64 {
        equity(&self.bt.acct)
    }

    fn dispatch(&mut self, now: i64, intents: Vec<OrderIntent>) {
        for mut intent in intents {
            let t = texts(&intent);
            self.bt.stamp_intent(&mut intent, &t);
            let asked = self.bt.gate_request(&intent, now, r(0.0)).is_some();
            let pass = asked && self.gate;
            let verdict = if pass { "Pass" } else { "Reject" };
            self.bt.enqueue(&intent, now, None, r(0.0), verdict, pass);
        }
    }

    fn account_for(&mut self, fills: Vec<ProducedFill>) {
        for p in fills {
            let rate = f(self.bt.fee_rate(p.liquidity));
            let fee = f(p.price) * f(p.qty) * rate;
            let signed = if p.side == Side::Buy { f(p.qty) } else { -f(p.qty) };
            let n = fill_numbers(&self.bt.acct, p.symbol, signed, f(p.price), fee);
            let net = f(n.gross) - f(n.attributed_fees) - f(n.attributed_funding);
            let sums = |t: mp_research::metrics::Tally| TallySums {
                win: r(f(t.gross_win) + net),
                loss: r(f(t.gross_loss) - net),
            };
            let held = self.bt.acct.position_record(p.symbol);
            let tagged = match held.optimism.worse(p.optimism) {
                FillOptimism::Tape => self.bt.metrics.tape,
                _ => self.bt.metrics.maker,
            };
            let c = FillCosts {
                fee: r(fee),
                net: r(net),
                all: sums(self.bt.metrics.all),
                tagged: sums(tagged),
            };
            self.bt.apply_produced_fill(&p, n, c);
        }
    }

    fn offers(&self) -> Vec<MarketOffer> {
        let cfg = self.bt.cfg;
        let (slip, part) = (f(cfg.slip_frac), f(cfg.participation));
        let mark = self.bt.latest_mark.get(&SYM.0).map(|m| f(*m));
        self.bt
            .pending
            .pending
            .iter()
            .map(|p| {
                let way = if p.side == Side::Buy { 1.0 } else { -1.0 };
                let tape = mark.map(|m| r(m * (1.0 + way * slip)));
                let qty = f(p.qty);
                let levels = self.book.as_ref().map(|b| if p.side == Side::Buy { &b.asks } else { &b.bids });
                let book = match (cfg.fill_model, levels) {
                    (FillModel::L1TopOfBook, Some(l)) => {
                        l.first().map(|(px, q)| (px * (1.0 + way * slip), q * part))
                    }
                    (FillModel::L2DepthWalk, Some(l)) => {
                        let (mut left, mut paid) = (qty, 0.0);
                        for (px, q) in l {
                            let take = left.min(*q);
                            paid += take * px;
                            left -= take;
                        }
                        Some((paid / (qty - left), qty - left))
                    }
                    _ => None,
                };
                let left = book.map(|(_, q)| qty - qty.min(q)).unwrap_or(0.0);
                MarketOffer { book: book.map(|(px, q)| (r(px), r(q))), left: r(left), tape }
            })
            .collect()
    }

    fn match_market(&mut self, now: i64) -> Vec<ProducedFill> {
        let offers = self.offers();
        let model = self.bt.cfg.fill_model;
        self.bt.pending.try_fill_market(model, SYM, now, &offers)
    }

    fn match_bars(&mut self, price: f64, now: i64) -> Vec<ProducedFill> {
        let cfg = self.bt.cfg;
        let bar = now.div_euclid(cfg.bar_tf_ns);
        let closed = match self.bar {
            Some(b) if b != bar => Some((b + 1) * cfg.bar_tf_ns),
            _ => None,
        };
        self.bar = Some(bar);
        let slip = f(cfg.slip_frac);
        let (buy, sell) = (r(price * (1.0 + slip)), r(price * (1.0 - slip)));
        self.bt.pending.on_trade_l0(SYM, closed, buy, sell)
    }

    fn match_limits(&mut self, price: f64, qty: f64, side: Side, now: i64) -> Vec<ProducedFill> {
        let cfg = self.bt.cfg;
        let share = qty * f(cfg.queue_share);
        let print = Print { price: r(price), aggressor: side, share: r(share) };
        let lefts: Vec<Real> = self
            .bt
            .pending
            .pending
            .iter()
            .map(|p| r(f(p.qty) - f(p.qty).min(share)))
            .collect();
        self.bt.pending.try_fill_limit_trade_print(cfg.fill_model, SYM, print, now, &lefts)
    }

    fn step(&mut self, ev: &EventEnvelope) {
        let now = ev.recv_ts_ns;
        let equity = self.equity();
        let at_bar = self.bt.at_bar_boundary(now);
        let mut fills = Vec::new();
        for step in self.bt.on_event(ev, r(equity)) {
            let print = ev.body.trade_view();
            match step {
                Step::Book => {}
                Step::Note => {
                    let rate = match &ev.body {
                        MarketEvent::Funding { rate, .. } => f(*rate),
                        _ => 0.0,
                    };
                    let n = funding_numbers(&self.bt.acct, SYM, rate);
                    self.bt.note_event(ev, n);
                }
                Step::Bars => fills.extend(self.match_bars(f(print.unwrap().price), now)),
                Step::Limits => {
                    let t = print.unwrap();
                    fills.extend(self.match_limits(f(t.price), f(t.qty), t.side, now));
                }
                Step::Market => fills.extend(self.match_market(now)),
                Step::Apply => self.account_for(std::mem::take(&mut fills)),
                Step::Mid => {
                    if let Some(b) = &self.book {
                        let mid = (b.bids[0].0 + b.asks[0].0) / 2.0;
                        self.bt.note_mid(SYM, r(mid));
                    }
                }
                Step::Timers => {
                    let due = self.bt.fire_timers(now, at_bar);
                    for _ in &due.fire {
                        let intents = self.probe.timer();
                        self.dispatch(now, intents);
                    }
                    self.bt.requeue(due.deferred);
                }
                Step::Features => {
                    if print.is_some() {
                        self.tell(ev, at_bar);
                    }
                }
                Step::Sample => {
                    let equity = self.equity();
                    let drawdown = f(self.bt.metrics.next_peak(r(equity))) - equity;
                    let last = self.bt.metrics.last_equity.map(f).unwrap_or(equity);
                    self.bt.end_event(now, r(equity), r(drawdown), r((equity / last).ln()));
                }
            }
        }
    }

    fn tell(&mut self, ev: &EventEnvelope, at_bar: bool) {
        let now = ev.recv_ts_ns;
        let u = FeatureRecord {
            feature: 1,
            venue: ev.venue,
            symbol: SYM,
            ts_ns: now,
            value: r(1.0),
            ver: 1,
        };
        for idx in self.bt.note_feature(&u, "cvd.bybit", at_bar) {
            let mut timers = Vec::new();
            let position = f(self.bt.position(SYM));
            let intents = self.probe.feature(position, &mut timers);
            for after in timers {
                self.bt.set_timer(now, after, idx);
            }
            self.dispatch(now, intents);
        }
    }

    fn run(&mut self, events: &[EventEnvelope]) -> Result<(), SimError> {
        self.bt.check_coverage(r(1.0))?;
        for ev in events {
            self.step(ev);
        }
        self.bt.check_funding()
    }

    fn position(&self) -> f64 {
        f(self.bt.position(SYM))
    }

    fn expectancy(&self) -> f64 {
        let t = self.bt.metrics.all;
        f(self.bt.metrics.expectancy(r((f(t.gross_win) - f(t.gross_loss)) / t.trades as f64)))
    }

    fn stress2x(&self) -> f64 {
        let t = self.bt.metrics.all;
        let net = f(t.gross_win) - f(t.gross_loss) - f(self.bt.fees());
        f(self.bt.metrics.stress_expectancy(r(net / t.trades as f64)))
    }
}

fn cfg(fill_model: FillModel) -> SimConfig {
    SimConfig { fill_model, latency_ns: 0, slip_frac: r(0.0), ..SimConfig::default() }
}

fn one_shot(cfg: SimConfig, kind: OrderKind, side: Side, qty: f64) -> Sim {
    Sim::new(cfg, Box::new(Script { orders: vec![(kind, side, qty)], next: 0 }), false)
}

fn feed(n: i64) -> Vec<EventEnvelope> {
    (0..n)
        .map(|i| {
            trade(
                i * 100 * MS,
                100.0 + (i % 7) as f64 * 0.5,
                1.0,
                if i % 2 == 0 { Side::Buy } else { Side::Sell },
            )
        })
        .collect()
}

fn coin_sim(seed: u64) -> Sim {
    let cfg = SimConfig { latency_ns: 50 * MS, ..SimConfig::default() };
    Sim::new(cfg, Box::new(Coin { state: seed }), false)
}

// ---------------------------------------------------------------------------
// Runs
// ---------------------------------------------------------------------------

#[test]
fn sim_1_clock_is_driven_by_events() {
    let mut sim = coin_sim(1);
    let events = feed(40);
    sim.run(&events).unwrap();
    assert_eq!(sim.bt.now_ns(), events.last().unwrap().recv_ts_ns);
}

#[test]
fn sim_7_replay_is_deterministic() {
    let run = |seed: u64| {
        let mut sim = coin_sim(seed);
        sim.run(&feed(40)).unwrap();
        (sim.bt.decision_log().hash(), sim.equity())
    };
    let a = run(1234);
    let b = run(1234);
    assert_eq!(a.0, b.0, "identical inputs: identical decision-log hash");
    assert_eq!(a.1.to_bits(), b.1.to_bits(), "identical final equity");
    let c = run(9999);
    assert_ne!(a.0, c.0);
}

#[test]
fn sim_13_accounting_identity_holds_through_run() {
    let mut sim = coin_sim(7);
    sim.run(&feed(40)).unwrap();
    assert!(residual(&sim.bt.acct).abs() < 1e-6, "{}", residual(&sim.bt.acct));
    assert!(sim.bt.decision_log().fill_count() > 0);
}

#[test]
fn swg_5_summary_reports_bar_return_sharpe() {
    let cfg = SimConfig { latency_ns: 50 * MS, bar_tf_ns: 10 * MS, ..SimConfig::default() };
    let mut sim = Sim::new(cfg, Box::new(Coin { state: 7 }), false);
    sim.run(&feed(40)).unwrap();
    let returns: Vec<f64> = sim.bt.metrics.bar_returns.iter().map(|x| f(*x)).collect();
    let n = returns.len() as f64;
    let mean = returns.iter().sum::<f64>() / n;
    let var = returns.iter().map(|x| (x - mean).powi(2)).sum::<f64>() / (n - 1.0);
    let sharpe = sim.bt.metrics.sharpe(r(var), r(mean / var.sqrt()));
    assert!(sharpe.is_some(), "multi-bar run must produce a Sharpe");
    assert!(f(sharpe.unwrap()).is_finite());

    let day = SimConfig { latency_ns: 50 * MS, bar_tf_ns: 24 * HR, ..SimConfig::default() };
    let mut short = Sim::new(day, Box::new(Coin { state: 7 }), false);
    short.run(&feed(8)).unwrap();
    assert!(short.bt.metrics.sharpe(r(1.0), r(1.0)).is_none(), "warmup: no Sharpe");
}

#[test]
fn sim_2_l1_market_buy_is_capped_by_top_of_book_participation() {
    let mut sim = one_shot(cfg(FillModel::L1TopOfBook), OrderKind::Market, Side::Buy, 10.0);
    sim.book = Some(Book { bids: vec![(99.0, 100.0)], asks: vec![(100.0, 4.0)] });
    sim.run(&[trade(MS, 100.0, 1.0, Side::Buy), trade(2 * MS, 100.0, 1.0, Side::Buy)]).unwrap();
    // Half of the best level of 4, not the 10 that were asked for.
    assert!(sim.position() > 0.0 && sim.position() < 10.0);
    assert_eq!(sim.position(), 2.0);
    assert_eq!(f(sim.bt.pending.pending[0].qty), 8.0);
}

#[test]
fn sim_2_l1_limit_trade_print_rule_bans_touch_fills() {
    let mut sim =
        one_shot(cfg(FillModel::L1TopOfBook), OrderKind::Limit { px: r(99.0) }, Side::Buy, 1.0);
    sim.run(&[trade(0, 100.0, 1.0, Side::Buy), trade(MS, 99.5, 1.0, Side::Sell)]).unwrap();
    assert_eq!(sim.position(), 0.0, "touching the level must not fill");
    sim.run(&[trade(2 * MS, 98.5, 1.0, Side::Sell)]).unwrap();
    assert_eq!(sim.position(), 1.0);
    assert_eq!(f(sim.bt.avg_cost(SYM)), 99.0, "fills at the resting limit price");
    assert!(sim.bt.metrics().maker.trades == 0);
}

#[test]
fn sim_2_l2_market_buy_walks_multiple_levels_and_pays_impact() {
    let mut sim = one_shot(cfg(FillModel::L2DepthWalk), OrderKind::Market, Side::Buy, 3.0);
    sim.book = Some(Book { bids: vec![(99.0, 100.0)], asks: vec![(100.0, 1.0), (101.0, 5.0)] });
    sim.run(&[trade(MS, 100.0, 1.0, Side::Buy), trade(2 * MS, 100.0, 1.0, Side::Buy)]).unwrap();
    assert_eq!(sim.position(), 3.0);
    let expected_avg = (100.0 + 2.0 * 101.0) / 3.0;
    assert!((f(sim.bt.avg_cost(SYM)) - expected_avg).abs() < 1e-9);
}

#[test]
fn sim_2_l2_limit_fill_capped_by_queue_share_needs_multiple_prints() {
    let mut sim =
        one_shot(cfg(FillModel::L2DepthWalk), OrderKind::Limit { px: r(99.0) }, Side::Buy, 1.0);
    sim.run(&[trade(0, 100.0, 1.0, Side::Buy)]).unwrap();
    // A crossing print of 1 fills a quarter.
    sim.run(&[trade(MS, 98.0, 1.0, Side::Sell)]).unwrap();
    assert!((sim.position() - 0.25).abs() < 1e-9, "{}", sim.position());
    sim.run(&[trade(2 * MS, 98.0, 3.0, Side::Sell)]).unwrap();
    assert!((sim.position() - 1.0).abs() < 1e-9, "{}", sim.position());
}

#[test]
fn sim_4_funding_event_present_lets_the_run_report() {
    let mut sim = one_shot(cfg(FillModel::L1TopOfBook), OrderKind::Market, Side::Buy, 1.0);
    let events =
        [trade(0, 100.0, 1.0, Side::Buy), funding(4 * HR, 0.0001), trade(9 * HR, 100.0, 1.0, Side::Buy)];
    assert!(sim.run(&events).is_ok());
    assert_eq!(sim.position(), 1.0);
}

#[test]
fn sim_4_missing_funding_refuses_to_report_a_held_perp_position() {
    let mut sim = one_shot(cfg(FillModel::L1TopOfBook), OrderKind::Market, Side::Buy, 1.0);
    let events = [
        trade(0, 100.0, 1.0, Side::Buy),       // asks for the position
        trade(0, 100.0, 1.0, Side::Buy),       // opens the position
        trade(9 * HR, 100.0, 1.0, Side::Buy), // time passes, no Funding ever
    ];
    assert_eq!(sim.run(&events), Err(SimError::MissingFunding(SYM)));
}

#[test]
fn a_position_held_over_a_boundary_needs_its_funding() {
    let mut sim = one_shot(cfg(FillModel::L1TopOfBook), OrderKind::Market, Side::Buy, 1.0);
    let events = [
        trade(0, 100.0, 1.0, Side::Buy),
        trade(MS, 100.0, 1.0, Side::Buy),
        trade(9 * HR, 100.0, 1.0, Side::Buy),
    ];
    assert_eq!(sim.run(&events), Err(SimError::MissingFunding(SYM)));
    // Two boundaries need two events.
    sim.step(&funding(10 * HR, 0.0001));
    assert!(sim.bt.check_funding().is_ok());
    sim.step(&trade(17 * HR, 100.0, 1.0, Side::Buy));
    assert_eq!(sim.bt.check_funding(), Err(SimError::MissingFunding(SYM)));
}

#[test]
fn sim_6_low_manifest_coverage_refuses_the_run() {
    let sim = one_shot(SimConfig::default(), OrderKind::Market, Side::Buy, 1.0);
    let err = sim.bt.check_coverage(r(0.90)).unwrap_err();
    assert_eq!(err, SimError::LowCoverage { actual: r(0.90), required: r(0.995) });
    assert_eq!(
        err.message("0.900000", "0.995000"),
        "stream coverage 0.900000 < required 0.995000 (SIM-6)"
    );
}

#[test]
fn sim_6_full_coverage_runs_normally() {
    let mut sim = one_shot(SimConfig::default(), OrderKind::Market, Side::Buy, 1.0);
    assert!(sim.bt.check_coverage(r(1.0)).is_ok());
    assert!(sim.run(&[trade(0, 100.0, 1.0, Side::Buy)]).is_ok());
}

#[test]
fn sim_8_stress_expectancy_2x_is_never_better_than_base_when_fees_positive() {
    let mut sim = one_shot(cfg(FillModel::L1TopOfBook), OrderKind::Market, Side::Buy, 1.0);
    sim.run(&[trade(0, 100.0, 1.0, Side::Buy), trade(MS, 110.0, 1.0, Side::Buy)]).unwrap();
    assert!(sim.stress2x() <= sim.expectancy() + 1e-12);
}

#[test]
fn sim_12_optimistic_maker_fills_are_tracked_separately() {
    let probe = Script {
        orders: vec![
            (OrderKind::Limit { px: r(99.0) }, Side::Buy, 1.0),
            (OrderKind::Market, Side::Sell, 1.0),
        ],
        next: 0,
    };
    let mut sim = Sim::new(cfg(FillModel::L1TopOfBook), Box::new(probe), false);
    sim.run(&[trade(0, 100.0, 1.0, Side::Buy), trade(MS, 98.0, 1.0, Side::Sell)]).unwrap();
    assert_eq!(sim.position(), 1.0);
    sim.run(&[trade(2 * MS, 105.0, 5.0, Side::Sell)]).unwrap();
    // The optimistic entry keeps the trade in the maker tally.
    assert_eq!(sim.position(), 0.0);
    assert_eq!(sim.bt.metrics().maker.trades, 1);
    assert_eq!(sim.bt.metrics().tape.trades, 0);
    assert_eq!(sim.bt.metrics().all.trades, 1);
}

#[test]
fn sim_3_fill_waits_for_configured_latency() {
    let cfg = SimConfig { latency_ns: 200 * MS, ..cfg(FillModel::L1TopOfBook) };
    let mut sim = one_shot(cfg, OrderKind::Market, Side::Buy, 1.0);
    sim.run(&[trade(0, 100.0, 1.0, Side::Buy), trade(100 * MS, 101.0, 1.0, Side::Buy)]).unwrap();
    assert_eq!(sim.position(), 0.0, "fill before latency elapsed");
    sim.run(&[trade(250 * MS, 102.0, 1.0, Side::Buy)]).unwrap();
    assert_eq!(sim.position(), 1.0);
    assert_eq!(f(sim.bt.avg_cost(SYM)), 102.0, "fills at the post-latency print");
}

#[test]
fn regression_audit1_expectancy_is_net_of_entry_and_exit_fees() {
    let probe = Script {
        orders: vec![(OrderKind::Market, Side::Buy, 1.0), (OrderKind::Market, Side::Sell, 1.0)],
        next: 0,
    };
    let cfg = SimConfig { taker_fee: r(0.01), ..cfg(FillModel::L1TopOfBook) };
    let mut sim = Sim::new(cfg, Box::new(probe), false);
    sim.run(&[
        trade(0, 100.0, 1.0, Side::Buy),
        trade(MS, 105.0, 1.0, Side::Buy),
        trade(2 * MS, 110.0, 1.0, Side::Buy),
    ])
    .unwrap();
    assert_eq!(sim.bt.metrics().all.trades, 1, "one closed round trip");
    let net = 5.0 - (105.0 * 0.01 + 110.0 * 0.01); // 2.85
    assert!((sim.expectancy() - net).abs() < 1e-9, "{}", sim.expectancy());
    assert!((sim.stress2x() - 0.70).abs() < 1e-9, "{}", sim.stress2x());
    assert!(residual(&sim.bt.acct).abs() < 1e-9);
    assert_eq!(sim.bt.trade_pnls().len(), 1);
    assert!((f(sim.bt.trade_pnls()[0].1) - net).abs() < 1e-9);
}

#[test]
fn regression_audit2_trade_print_at_price_does_not_fill() {
    let mut sim =
        one_shot(cfg(FillModel::L1TopOfBook), OrderKind::Limit { px: r(99.0) }, Side::Buy, 1.0);
    sim.run(&[trade(0, 100.0, 1.0, Side::Buy), trade(MS, 99.0, 5.0, Side::Sell)]).unwrap();
    assert_eq!(sim.position(), 0.0, "a print at the limit price is a touch, not a fill");
    sim.run(&[trade(2 * MS, 98.99, 1.0, Side::Sell)]).unwrap();
    assert_eq!(sim.position(), 1.0);
}

fn hourly_feed(n: i64) -> Vec<EventEnvelope> {
    let mut evs: Vec<EventEnvelope> =
        (0..n).map(|i| trade(i * HR, 100.0 + (i % 5) as f64, 1.0, Side::Buy)).collect();
    evs.push(funding(n * HR + 1_000_000_000, 0.0001));
    evs
}

fn swing(bar_close: bool, arm: bool) -> Sim {
    let cfg = SimConfig { latency_ns: 0, bar_tf_ns: 4 * HR, ..SimConfig::default() };
    let mut sim = Sim::new(cfg, Box::new(Swing { arm }), bar_close);
    sim.run(&hourly_feed(9)).unwrap();
    sim
}

#[test]
fn swg_7_swing_strategy_dispatched_only_on_bar_close() {
    let sim = swing(true, false);
    assert_eq!(sim.bt.decision_log().intent_count(), 3);
    assert!(sim.bt.decision_log().fill_count() > 0);
}

#[test]
fn swg_7_event_cadence_strategy_keeps_per_event_dispatch() {
    assert_eq!(swing(false, false).bt.decision_log().intent_count(), 9);
}

#[test]
fn swg_7_swing_timer_deferred_to_bar_close_not_dropped() {
    assert_eq!(swing(true, true).bt.decision_log().intent_count(), 5);
    assert_eq!(swing(false, true).bt.decision_log().intent_count(), 18);
}

#[test]
fn a_shut_gate_lets_nothing_fill() {
    let mut open = coin_sim(42);
    open.run(&feed(100)).unwrap();
    assert!(open.bt.decision_log().fill_count() > 0);
    let mut shut = coin_sim(42);
    shut.gate = false;
    shut.run(&feed(100)).unwrap();
    assert_eq!(shut.bt.decision_log().fill_count(), 0);
    assert!(shut.bt.decision_log().intent_count() > 0, "intents were still emitted");
    assert_ne!(open.bt.decision_log().hash(), shut.bt.decision_log().hash());
}

#[test]
fn an_invalid_intent_is_logged_and_goes_no_further() {
    let mut bt = Backtester::from_strategies(SimConfig::default(), vec![], vec![]);
    let bad = order("s", Side::Buy, OrderKind::Market, -1.0);
    bt.enqueue(&bad, 0, Some("negative size"), r(0.0), "Pass", true);
    assert_eq!(bt.decision_log().lines(), &vec!["X|1|7|negative size".to_string()]);
    assert!(bt.pending.pending.is_empty());
    // A cancellation, or an order for nothing, leaves no trace at all.
    bt.enqueue(&order("s", Side::Buy, OrderKind::Cancel, 1.0), 0, None, r(0.0), "Pass", true);
    bt.enqueue(&bad, 0, None, r(0.0), "Pass", true);
    assert_eq!(bt.decision_log().lines().len(), 1);
    // A sized order waits.
    let mut sized = order("s", Side::Sell, OrderKind::Market, 1.0);
    sized.qty = SizeUnit::RiskUnits(r(1.0));
    bt.enqueue(&sized, 5, None, r(2.5), "Pass", true);
    assert_eq!(f(bt.pending.pending[0].qty), 2.5);
    assert_eq!(bt.pending.pending[0].ready_ns, 150_000_005);
    assert_eq!(bt.decision_log().lines()[1], "V|2|7|Pass");
}

#[test]
fn the_gate_is_asked_of_the_last_minute() {
    let mut bt = Backtester::from_strategies(SimConfig::default(), vec![], vec![]);
    let buy = order("s", Side::Buy, OrderKind::Limit { px: r(9.0) }, 2.0);
    let sell = order("s", Side::Sell, OrderKind::Market, 2.0);
    bt.enqueue(&buy, 0, None, r(0.0), "Pass", true);
    bt.enqueue(&buy, 30_000_000_000, None, r(0.0), "Pass", true);
    let g = bt.gate_request(&buy, 59_999_999_999, r(0.0)).unwrap();
    assert_eq!(g.orders_last_min, 2);
    assert_eq!(f(g.price), 9.0);
    assert_eq!(f(g.signed_qty), 2.0);
    let g = bt.gate_request(&sell, 60_000_000_000, r(0.0)).unwrap();
    assert_eq!(g.orders_last_min, 1);
    assert_eq!(f(g.signed_qty), -2.0);
    assert_eq!(f(g.price), 0.0);
    assert_eq!(f(g.day_start_equity), 100_000.0);
    assert!(bt.gate_request(&order("s", Side::Buy, OrderKind::Cancel, 1.0), 0, r(0.0)).is_none());
}

#[test]
fn audit_h2_engine_namespaces_intent_ids_across_strategies() {
    let mut bt = Backtester::from_strategies(SimConfig::default(), vec![vec![]], vec![false]);
    let mut intents = vec![
        order("carry-v1", Side::Buy, OrderKind::Market, 1.0),
        order("liq-fade", Side::Sell, OrderKind::Market, 1.0),
    ];
    for intent in intents.iter_mut() {
        let t = texts(intent);
        bt.stamp_intent(intent, &t);
        bt.enqueue(intent, 0, None, r(0.0), "Pass", true);
    }
    assert_ne!(intents[0].intent_id, intents[1].intent_id);
    assert_eq!(intents[0].intent_id, 0);
    assert_eq!(intents[1].intent_id, 1);
    assert_eq!(bt.next_intent, 2);
    assert_eq!(bt.strategy_of(0).map(|s| s.as_str()), Some("carry-v1"));
    assert_eq!(bt.strategy_of(1).map(|s| s.as_str()), Some("liq-fade"));
    assert!(bt.strategy_of(2).is_none());
}

#[test]
fn remarks_come_ahead_of_intents() {
    let mut bt = Backtester::from_strategies(SimConfig::default(), vec![], vec![]);
    bt.log_remarks(&vec!["because".into(), "and".into()]);
    assert_eq!(bt.decision_log().lines(), &vec!["L|1|because".to_string(), "L|2|and".to_string()]);
}

#[test]
fn a_strategy_hears_what_it_subscribes_to() {
    let subs = vec![vec!["cvd.".to_string()], vec!["*".to_string()], vec!["funding".to_string()]];
    let mut bt = Backtester::from_strategies(SimConfig::default(), subs, vec![false, true, false]);
    let u = FeatureRecord { feature: 3, venue: Venue::Okx, symbol: SYM, ts_ns: -5, value: r(0.5), ver: 2 };
    assert_eq!(bt.note_feature(&u, "cvd.bybit", true), vec![0, 1]);
    assert_eq!(bt.note_feature(&u, "cvd.bybit", false), vec![0]);
    assert_eq!(bt.note_feature(&u, "vol.rv.1h", false), Vec::<usize>::new());
    assert_eq!(f(bt.sizing_inputs(SYM).0), 0.5);
    assert_eq!(f(bt.sizing_inputs(SymbolId(9)).0), 0.02);
    assert_eq!(
        bt.decision_log().lines()[0],
        format!("U|1|3|Okx|0|-5|{}|2", 0.5_f64.to_bits())
    );
}

#[test]
fn seeds_of_strategies_differ() {
    assert_eq!(strategy_seed(42, 0), 42);
    assert_eq!(strategy_seed(42, 1), 42u64.wrapping_add(0x9E37_79B9_7F4A_7C15));
    assert_eq!(
        strategy_seed(u64::MAX, 2),
        u64::MAX.wrapping_add(0x9E37_79B9_7F4A_7C15u64.wrapping_mul(2))
    );
}

#[test]
fn the_default_configuration_holds_the_stated_numbers() {
    let c = SimConfig::default();
    let numbers = [
        (c.taker_fee, 0.00055),
        (c.maker_fee, 0.0002),
        (c.slip_frac, 0.0001),
        (c.participation, 0.5),
        (c.queue_share, 0.25),
        (c.start_cash, 100_000.0),
        (c.default_vol_frac, 0.02),
        (c.per_trade_risk_pct, 0.005),
        (c.k_stop, 1.5),
        (c.step_size, 0.0001),
        (c.min_notional, 5.0),
        (c.min_coverage, 0.995),
        (c.limits.max_order_notional, 1_000_000.0),
        (c.limits.max_position_notional, 5_000_000.0),
        (c.limits.max_gross_portfolio, 10_000_000.0),
        (c.limits.max_px_dev_frac, 0.05),
        (c.limits.strategy_daily_loss_budget, f64::INFINITY),
        (c.limits.max_corr_adjusted_portfolio, 10_000_000.0),
    ];
    for (have, want) in numbers {
        assert_eq!(f(have), want);
    }
}

// ---------------------------------------------------------------------------
// The account
// ---------------------------------------------------------------------------

#[test]
fn sim_2_taker_fill_applies_fee_and_slippage() {
    let mut acct = Accountant::new(r(100_000.0));
    acct.mark(SYM, r(100.0));
    let px = 100.0 * 1.0001;
    let fee = px * 2.0 * 0.00055;
    apply(&mut acct, 2.0, px, fee, FillOptimism::Exact);
    assert_eq!(f(acct.position(SYM)), 2.0);
    let expected_cash = 100_000.0 - px * 2.0 - fee;
    assert!((equity(&acct) - (expected_cash + 2.0 * px)).abs() < 1e-6);
}

#[test]
fn sim_13_realized_and_funding_identity() {
    let mut acct = Accountant::new(r(1000.0));
    acct.mark(SYM, r(100.0));
    apply(&mut acct, 1.0, 100.0, 1.0, FillOptimism::Exact); // buy 1 @100 fee 1
    acct.mark(SYM, r(110.0));
    accrue(&mut acct, 0.001); // long pays 0.001*1*110 = 0.11
    apply(&mut acct, -1.0, 110.0, 1.0, FillOptimism::Exact); // sell 1 @110 fee 1
    assert!(residual(&acct).abs() < 1e-9);
    assert!((f(acct.realized()) - 10.0).abs() < 1e-9);
    assert!((f(acct.funding_paid()) - 0.11).abs() < 1e-9);
}

#[test]
fn sim_13_funding_attributed_to_closed_trade() {
    let mut acct = Accountant::new(r(1000.0));
    acct.mark(SYM, r(100.0));
    apply(&mut acct, 10.0, 100.0, 0.0, FillOptimism::Exact); // long 10 @100
    accrue(&mut acct, 0.001); // pays 1.0
    let o = apply(&mut acct, -10.0, 100.0, 0.0, FillOptimism::Exact); // close @100
    assert!((f(o.realized_gross) - 0.0).abs() < 1e-9, "flat price: no realized");
    assert!((f(o.attributed_funding) - 1.0).abs() < 1e-9);
    assert!(residual(&acct).abs() < 1e-9);
    assert!((f(acct.funding_paid()) - 1.0).abs() < 1e-9);
}

#[test]
fn sim_13_trade_tag_keeps_entry_leg_optimism() {
    let mut acct = Accountant::new(r(1000.0));
    acct.mark(SYM, r(100.0));
    apply(&mut acct, 5.0, 100.0, 0.0, FillOptimism::Maker); // optimistic entry
    let add = apply(&mut acct, 3.0, 100.0, 0.0, FillOptimism::Exact);
    assert!(f(add.closed_qty) == 0.0, "add-on is not a close");
    let o = apply(&mut acct, -8.0, 100.0, 0.0, FillOptimism::Tape); // taker exit
    assert!(f(o.closed_qty) == 8.0);
    assert!(o.optimism == FillOptimism::Maker, "{:?}", o.optimism);
    // A flip closes the old trade under its tag and starts the new side's
    // with its own.
    apply(&mut acct, 2.0, 100.0, 0.0, FillOptimism::Maker);
    let flip = apply(&mut acct, -5.0, 100.0, 0.0, FillOptimism::Tape);
    assert!(f(flip.closed_qty) == 2.0);
    assert!(flip.optimism == FillOptimism::Maker, "{:?}", flip.optimism);
    let o2 = apply(&mut acct, 3.0, 100.0, 0.0, FillOptimism::Tape);
    assert!(f(o2.closed_qty) == 3.0);
    assert!(o2.optimism == FillOptimism::Tape, "{:?}", o2.optimism);
}

#[test]
fn unusable_marks_and_rates_are_passed_over() {
    let mut acct = Accountant::new(r(1000.0));
    apply(&mut acct, 1.0, 100.0, 0.0, FillOptimism::Exact);
    acct.mark(SYM, r(f64::NAN));
    acct.mark(SYM, r(-1.0));
    assert_eq!(f(acct.positions()[0].mark), 100.0);
    accrue(&mut acct, f64::INFINITY);
    assert_eq!(f(acct.funding_paid()), 0.0);
    assert_eq!(acct.open_positions(), 1);
    apply(&mut acct, -1.0, 100.0, 0.0, FillOptimism::Exact);
    assert_eq!(acct.open_positions(), 0);
}

// ---------------------------------------------------------------------------
// Decision logs
// ---------------------------------------------------------------------------

#[test]
fn sim_11_replay_live_diff_detects_divergence() {
    let run = |seed: u64| {
        let mut sim = coin_sim(seed);
        sim.run(&feed(200)).unwrap();
        sim
    };
    let live = run(42);
    let again = run(42);
    assert_eq!(live.bt.decision_log().first_divergence(again.bt.decision_log()), None);
    let other = run(9999);
    assert!(live.bt.decision_log().first_divergence(other.bt.decision_log()).is_some());
}

#[test]
fn sim_11_length_mismatch_with_shared_prefix_diverges() {
    let mut a = DecisionLog::new();
    let mut b = DecisionLog::new();
    let intent = order("s", Side::Buy, OrderKind::Market, 1.0);
    a.record_intent(1, &intent, &texts(&intent));
    b.record_intent(1, &intent, &texts(&intent));
    a.record_intent(2, &intent, &texts(&intent)); // a is longer
    assert_eq!(a.first_divergence(&b), Some(1));
    assert_eq!(b.first_divergence(&a), Some(1));
}

#[test]
fn lines_of_a_log_have_their_form() {
    let mut log = DecisionLog::new();
    let intent = order("s", Side::Buy, OrderKind::Market, 1.0);
    let t = IntentTexts { kind: "Market".into(), qty: "Contracts(1.0)".into(), tif: "Ioc".into() };
    log.record_intent(1, &intent, &t);
    let fill = Fill {
        intent_id: 1,
        symbol: SYM,
        side: Side::Sell,
        price: r(1.0),
        qty: r(2.0),
        fee: r(0.0),
        liquidity: Liquidity::Maker,
        ts_ns: 9,
    };
    log.record_fill(2, &fill);
    log.record_fill_tagged(3, &fill, FillOptimism::Tape);
    assert_eq!(log.lines()[0], "I|1|s|Buy|0|Market|Contracts(1.0)|Ioc|false");
    assert_eq!(log.lines()[1], "F|2|0|Sell|4607182418800017408|4611686018427387904|0|Maker|none");
    assert_eq!(log.lines()[2], "F|3|0|Sell|4607182418800017408|4611686018427387904|0|Maker|tape");
    assert_eq!((log.intent_count(), log.fill_count()), (1, 2));
    let mut h: u64 = 0xcbf29ce484222325;
    for line in log.lines() {
        for b in line.as_bytes() {
            h = (h ^ *b as u64).wrapping_mul(0x100000001b3);
        }
    }
    assert_eq!(log.hash(), h);
}

fn day(seed: u64) -> mp_research::determinism::DayReplay {
    let mut sim = coin_sim(seed);
    sim.run(&feed(50)).unwrap();
    let cfg = DeterminismConfig::defaults();
    replay("2026-08-13", &cfg, 50, sim.bt.decision_log())
}

#[test]
fn mod_10_decision_path_deterministic_two_runs_byte_identical() {
    let a = day(1);
    let b = day(1);
    assert_eq!(a.lines, b.lines, "byte-identical decision logs");
    assert_eq!(a.summary.hash, b.summary.hash);
    assert_eq!(mp_research::determinism::first_divergence(&a.lines, &b.lines), None);
}

#[test]
fn mod_10_emitting_strategy_is_deterministic_across_runs() {
    let run = || {
        let mut sim = Sim::new(check_sim_config(), Box::new(Coin { state: DEFAULT_SEED }), false);
        for ev in &feed(50) {
            sim.step(ev);
        }
        sim
    };
    let (a, b) = (run(), run());
    assert_eq!(a.bt.decision_log().lines(), b.bt.decision_log().lines());
    assert_eq!(a.bt.decision_log().hash(), b.bt.decision_log().hash());
    assert!(a.bt.decision_log().intent_count() > 0, "the emitter must actually trade");
}

#[test]
fn mod_9_daily_determinism_replay_matches_live_summary() {
    let v = check_day(&day(1), &day(1), None);
    assert!(v.self_consistent, "{}", v.reason);
    assert!(v.passed, "{}", v.reason);
    assert!(!v.live_present);
    let live = day(1).summary;
    let v2 = check_day(&day(1), &day(1), Some(&live));
    assert!(v2.passed, "{}", v2.reason);
    assert_eq!(v2.live_matches, Some(true));
}

#[test]
fn mod_9_determinism_diff_fails_when_live_hash_differs() {
    let live = ReplaySummary {
        date: "2026-08-13".into(),
        strategy: "carry-v1".into(),
        seed: DEFAULT_SEED,
        event_count: 50,
        lines: 1,
        intents: 1,
        fills: 0,
        hash: 0xDEAD, // a live log that disagrees with the replay
    };
    let v = check_day(&day(1), &day(1), Some(&live));
    assert!(!v.passed, "live mismatch must fail");
    assert_eq!(v.live_matches, Some(false));
    assert!(v.reason.contains("does not match the live"), "{}", v.reason);
    assert_eq!(v.divergence_line, Some(0));
}

#[test]
fn two_replays_that_differ_fail_the_day() {
    let v = check_day(&day(1), &day(2), None);
    assert!(!v.passed && !v.self_consistent);
    assert_eq!(v.live_matches, None);
    let at = v.divergence_line.unwrap();
    assert!(v.reason.contains(&format!("diverged at decision {at} ")), "{}", v.reason);
}

// ---------------------------------------------------------------------------
// Paper sessions
// ---------------------------------------------------------------------------

fn copy(events: &[EventEnvelope]) -> Vec<EventEnvelope> {
    events
        .iter()
        .map(|e| {
            let t = e.body.trade_view();
            match (t, &e.body) {
                (Some(t), _) => trade(e.recv_ts_ns, f(t.price), f(t.qty), t.side),
                (None, MarketEvent::Funding { rate, .. }) => funding(e.recv_ts_ns, f(*rate)),
                _ => unreachable!(),
            }
        })
        .collect()
}

fn paper_sim(probe: Box<dyn Probe>) -> Sim {
    let cfg = SimConfig {
        bar_tf_ns: 1_000_000,
        latency_ns: 0,
        fill_model: FillModel::L0BarFill,
        ..SimConfig::default()
    };
    Sim::new(cfg, probe, false)
}

fn push(session: &mut PaperSession, sim: &mut Sim, events: &[EventEnvelope]) -> u64 {
    let fresh = session.push_batch(copy(events));
    for ev in &fresh {
        sim.step(ev);
    }
    fresh.len() as u64
}

fn ticks(n: i64, m: i64) -> Vec<EventEnvelope> {
    (0..n)
        .map(|i| {
            trade(
                i * 1_000_000 + 1,
                100.0 + (i % m) as f64,
                1.0,
                if i % 2 == 0 { Side::Buy } else { Side::Sell },
            )
        })
        .collect()
}

#[test]
fn sim_15_paper_stream_and_replay_produce_identical_decision_logs() {
    let events = ticks(200, 7);
    let mut replayed = paper_sim(Box::new(Coin { state: 7 }));
    replayed.run(&events).unwrap();
    let mut session = PaperSession::new();
    let mut paper = paper_sim(Box::new(Coin { state: 7 }));
    push(&mut session, &mut paper, &events[..50]);
    push(&mut session, &mut paper, &events[..80]); // overlap 50..80
    push(&mut session, &mut paper, &events[70..]); // overlap 70..80
    assert_eq!(
        replayed.bt.decision_log().hash(),
        paper.bt.decision_log().hash(),
        "paper (batched) must equal replay (one slice)"
    );
    assert_eq!(session.consumed, 200);
    assert!(session.duplicates >= 60);
    assert!(paper.bt.check_funding().is_ok());
}

#[test]
fn sim_15_paper_session_duplicate_frames_do_not_double_count() {
    let events = ticks(10, 1);
    let mut session = PaperSession::new();
    let mut sim = paper_sim(Box::new(Coin { state: 7 }));
    assert_eq!(push(&mut session, &mut sim, &events), 10);
    let hash_once = sim.bt.decision_log().hash();
    assert_eq!(push(&mut session, &mut sim, &events), 0);
    assert_eq!(sim.bt.decision_log().hash(), hash_once);
    assert_eq!(session.duplicates, 10);
}

#[test]
fn sim_15_paper_close_refuses_missing_funding_for_held_perp() {
    // Nothing traded, nothing held: closing is fine.
    let mut session = PaperSession::new();
    let mut sim = paper_sim(Box::new(Idle));
    push(&mut session, &mut sim, &ticks(5, 1));
    assert!(sim.bt.check_funding().is_ok());
}

#[test]
fn pap_1_task_invokes_closed_day() {
    let mut session = PaperSession::new();
    let mut sim = paper_sim(Box::new(Coin { state: 7 }));
    assert_eq!(push(&mut session, &mut sim, &ticks(10, 1)), 10);
    assert!(sim.bt.check_funding().is_ok());
}

#[test]
fn pap_2_paper_fills_are_in_process_sim_fills() {
    let mut session = PaperSession::new();
    let mut sim = paper_sim(Box::new(RoundTrip { fired: false, closed: false, close: false }));
    assert_eq!(push(&mut session, &mut sim, &ticks(6, 3)), 6);
    assert!(sim.bt.check_funding().is_ok());
    assert!(sim.position() > 0.0, "{}", sim.position());
}

#[test]
fn pap_3_risk_gate_refuses_held_perp_missing_funding() {
    let nine_hours = 9 * HR;
    let events = vec![
        trade(1_000_001, 100.0, 1.0, Side::Buy),
        trade(2_000_001, 100.0, 1.0, Side::Buy),
        trade(nine_hours + 1, 100.0, 1.0, Side::Buy),
    ];
    let held = || paper_sim(Box::new(RoundTrip { fired: false, closed: false, close: false }));
    let mut sim = held();
    push(&mut PaperSession::new(), &mut sim, &events);
    assert_eq!(sim.bt.check_funding(), Err(SimError::MissingFunding(SymbolId(0))));
    // The same hold with a funding event certifies.
    let mut funded = held();
    let mut session = PaperSession::new();
    push(&mut session, &mut funded, &events);
    push(&mut session, &mut funded, &[funding(nine_hours + 2_000_001, 0.0001)]);
    assert!(funded.bt.check_funding().is_ok());
}

#[test]
fn pap_5_paper_equals_backtest_hash() {
    let events = ticks(200, 7);
    let mut replayed = paper_sim(Box::new(Coin { state: 7 }));
    replayed.run(&events).unwrap();
    let mut paper = paper_sim(Box::new(Coin { state: 7 }));
    push(&mut PaperSession::new(), &mut paper, &events);
    assert_eq!(replayed.bt.decision_log().hash(), paper.bt.decision_log().hash());
}

#[test]
fn pap_9_close_fault_signal_resets_streak() {
    let mut clean = paper_sim(Box::new(RoundTrip { fired: false, closed: false, close: true }));
    push(&mut PaperSession::new(), &mut clean, &ticks(10, 3));
    let ok_result = clean.bt.check_funding();
    assert!(ok_result.is_ok(), "clean session must close");
    assert!(clean.position().abs() < 1e-9, "round trip must flatten");
    assert_eq!(clean.bt.metrics().all.trades, 1);
    let mut faulty = paper_sim(Box::new(RoundTrip { fired: false, closed: false, close: false }));
    let events = [
        trade(1_000_001, 100.0, 1.0, Side::Buy),
        trade(2_000_001, 100.0, 1.0, Side::Buy),
        trade(9 * HR + 1, 100.0, 1.0, Side::Buy),
    ];
    push(&mut PaperSession::new(), &mut faulty, &events);
    assert!(faulty.bt.check_funding().is_err(), "the funding fault must fail close");
}

/// The probe that a resolved strategy name stands for.
fn named(name: &str) -> Box<dyn Probe> {
    match strategy_named(name, None, None).unwrap() {
        StrategyChoice::CoinFlip => Box::new(Coin { state: 7 }),
        StrategyChoice::Idle => Box::new(Idle),
        other => panic!("{other:?}"),
    }
}

#[test]
fn pap_4_zero_intents_latch_path_runs_but_emits_nothing() {
    let events = ticks(40, 5);
    let args = vec!["--zero-intents".to_string()];
    let latched_name = effective_strategy(&args, "coinflip");
    assert_eq!(latched_name, "null");
    let mut session = PaperSession::new();
    let mut latched = paper_sim(named(&latched_name));
    assert_eq!(push(&mut session, &mut latched, &events), 40);
    assert!(latched.bt.check_funding().is_ok());
    assert_eq!(latched.bt.metrics().all.trades, 0);
    assert_eq!(latched.bt.decision_log().intent_count(), 0);
    assert_ne!(
        strategy_named("coinflip", None, None).unwrap(),
        strategy_named("null", None, None).unwrap(),
        "the substitution must actually swap the strategy"
    );
    let mut normal = paper_sim(named(&effective_strategy(&vec![], "coinflip")));
    push(&mut PaperSession::new(), &mut normal, &events);
    assert!(normal.bt.check_funding().is_ok());
    assert!(normal.bt.decision_log().intent_count() > 0);
}

#[test]
fn pap_6_journal_kind_paper() {
    let events = ticks(20, 3);
    let mut session = PaperSession::new();
    let mut sim = paper_sim(Box::new(Coin { state: 7 }));
    let mut consumed = 0;
    for batch in events.chunks(10) {
        consumed += push(&mut session, &mut sim, batch);
    }
    assert!(sim.bt.check_funding().is_ok());
    let hash = sim.bt.decision_log().hash();
    let trades = sim.bt.metrics().all.trades;
    assert!(hash != 0);
    assert_eq!(consumed, 20);
    assert!(trades <= consumed);
    let mut entry = serde_json::Map::new();
    for (key, value) in [
        ("run_id", serde_json::Value::from("paper-20260830-1234")),
        ("kind", "paper".into()),
        ("date", "2026-08-30".into()),
        ("strategy", "swing-range-reclaim-v1".into()),
        ("seed", 42.into()),
        ("latched", false.into()),
        ("exit_code", 0.into()),
        ("expectancy", sim.expectancy().into()),
        ("trades", trades.into()),
        ("faults", 0.into()),
        ("decision_log_hash", hash.into()),
    ] {
        entry.insert(key.to_string(), value);
    }
    let text = serde_json::to_string(&entry).unwrap();
    let parsed: serde_json::Value = serde_json::from_str(&text).unwrap();
    assert_eq!(parsed["kind"], "paper");
    assert_eq!(parsed["run_id"], "paper-20260830-1234");
    assert_eq!(parsed["date"], "2026-08-30");
    assert_eq!(parsed["latched"], false);
    assert_eq!(parsed["exit_code"], 0);
    assert!(parsed["expectancy"].is_number());
    assert!(parsed["trades"].is_number());
    assert_eq!(parsed["faults"], 0);
    assert!(parsed["decision_log_hash"].is_number());
}

#[test]
fn pap_7_telegram_payload_carries_real_run_state() {
    let mut sim = paper_sim(Box::new(RoundTrip { fired: false, closed: false, close: true }));
    push(&mut PaperSession::new(), &mut sim, &ticks(10, 3));
    assert!(sim.bt.check_funding().is_ok());
    let (trades, hash) = (sim.bt.metrics().all.trades, sim.bt.decision_log().hash());
    assert_eq!(trades, 1);
    assert!(sim.position().abs() < 1e-9, "round trip must flatten");
    let detail = format!(
        "paper 2026-08-30: strategy=swing-range-reclaim-v1 seed=42 latched=false faults=0 \
         expectancy={:+.6} trades={trades}",
        sim.expectancy()
    );
    let mut payload = serde_json::Map::new();
    payload.insert("id".into(), "daily-paper".into());
    payload.insert("detail".into(), detail.into());
    payload.insert("severity".into(), "p3".into());
    payload.insert("decision_log_hash".into(), hash.into());
    let payload = serde_json::Value::Object(payload);
    assert_eq!(payload["id"], "daily-paper");
    assert!(payload["detail"].is_string());
    let shown = payload["detail"].as_str().unwrap();
    assert!(shown.contains(&format!("trades={}", sim.bt.metrics().all.trades)));
    assert!(shown.contains(&format!("{:+.6}", sim.expectancy())));
    assert!(shown.contains("latched=") && shown.contains("faults="));
    assert_eq!(payload["decision_log_hash"], serde_json::Value::from(hash));
    assert!(payload["decision_log_hash"].is_number());
}

#[test]
fn pap_8_paper_tail_over_a_log_is_idempotent_and_equals_replay() {
    let total = 40;
    let log = ticks(total, 7);
    let mut session = PaperSession::new();
    let mut tailed = paper_sim(Box::new(Coin { state: 7 }));
    let mut consumed = 0;
    for _ in 0..3 {
        consumed += push(&mut session, &mut tailed, &log);
    }
    assert_eq!(consumed, total as u64, "every frame consumed exactly once");
    assert!(session.duplicates >= 2 * total as u64, "{}", session.duplicates);
    assert!(tailed.bt.check_funding().is_ok());
    let mut once = paper_sim(Box::new(Coin { state: 7 }));
    push(&mut PaperSession::new(), &mut once, &log);
    assert_eq!(tailed.bt.decision_log().hash(), once.bt.decision_log().hash());
}

// ---------------------------------------------------------------------------
// Metrics
// ---------------------------------------------------------------------------

#[test]
fn swg_5_sharpe_and_deflated_sharpe() {
    let mut m = Metrics::new();
    let mut last = 100.0_f64;
    m.record_bar_return(r(last), r(0.0));
    for i in 1..10 {
        let e = 100.0 + (i as f64) * 0.5;
        m.record_bar_return(r(e), r((e / last).ln()));
        last = e;
    }
    let returns: Vec<f64> = m.bar_returns.iter().map(|x| f(*x)).collect();
    assert_eq!(returns.len(), 9);
    let mean = returns.iter().sum::<f64>() / 9.0;
    let var = returns.iter().map(|x| (x - mean).powi(2)).sum::<f64>() / 8.0;
    let s = m.sharpe(r(var), r(mean / var.sqrt() * 365.0_f64.sqrt())).unwrap();
    assert!(f(s) > 0.0, "rising curve must have positive sharpe");
    let deflate = |n, adjusted| mp_research::metrics::deflated(Some(s), n, adjusted);
    assert_eq!(deflate(1, r(0.0)), Some(s));
    assert_eq!(deflate(100, r(f(s) - 2.0)), Some(r(f(s) - 2.0)));

    let mut cold = Metrics::new();
    cold.record_bar_return(r(100.0), r(0.0));
    assert!(cold.sharpe(r(1.0), r(1.0)).is_none());
    assert!(mp_research::metrics::deflated(None, 10, r(1.0)).is_none());
}

#[test]
fn drawdown_is_measured_from_the_peak() {
    let mut m = Metrics::new();
    for e in [100.0, 90.0, 120.0, 101.0, 110.0] {
        let d = f(m.next_peak(r(e))) - e;
        m.sample_equity(r(e), r(d));
    }
    assert_eq!(f(m.max_drawdown), 19.0);
    assert_eq!(f(m.peak_equity), 120.0);
    assert_eq!(f(m.profit_factor(r(3.0))), f64::INFINITY);
}

#[test]
fn events_take_their_steps_in_order() {
    let steps = |model: FillModel, ev: &EventEnvelope| {
        let cfg = SimConfig { fill_model: model, ..SimConfig::default() };
        Backtester::from_strategies(cfg, vec![], vec![]).on_event(ev, r(0.0))
    };
    let print = trade(1, 100.0, 1.0, Side::Buy);
    let other = funding(1, 0.0001);
    let (head, tail) = ([Step::Book, Step::Note], [Step::Timers, Step::Features, Step::Sample]);
    let whole = |middle: &[Step]| [&head[..], middle, &tail[..]].concat();
    assert_eq!(
        steps(FillModel::L1TopOfBook, &print),
        whole(&[Step::Limits, Step::Market, Step::Apply, Step::Mid])
    );
    assert_eq!(
        steps(FillModel::L0BarFill, &print),
        whole(&[Step::Bars, Step::Apply, Step::Mid])
    );
    assert_eq!(
        steps(FillModel::L2DepthWalk, &other),
        whole(&[Step::Mid, Step::Market, Step::Apply])
    );
    assert_eq!(steps(FillModel::L0BarFill, &other), whole(&[Step::Mid]));
}

#[test]
fn answers_are_gathered_in_the_order_of_the_strategies() {
    let answer = |name: &str, n: usize| {
        let intents: Vec<(OrderIntent, IntentTexts)> = (0..n)
            .map(|_| {
                let i = order(name, Side::Buy, OrderKind::Market, 1.0);
                let t = texts(&i);
                (i, t)
            })
            .collect();
        Answer { intents, remarks: vec![format!("{name} says")] }
    };
    let all = dispatch_all(vec![answer("a", 2), answer("b", 0), answer("c", 1)]);
    let names: Vec<&str> = all.intents.iter().map(|(i, _)| i.strategy.as_str()).collect();
    assert_eq!(names, vec!["a", "a", "c"]);
    assert_eq!(all.remarks, vec!["a says", "b says", "c says"]);
}

#[test]
fn rates_without_trades_are_nothing() {
    let m = Metrics::new();
    let q = r(0.25);
    for x in [
        m.expectancy(q),
        m.maker_expectancy(q),
        m.tape_expectancy(q),
        m.stress_expectancy(q),
        m.hit_rate(q),
    ] {
        assert_eq!(x, r(0.0));
    }
    let mut m = Metrics::new();
    let sums = TallySums { win: r(2.0), loss: r(0.0) };
    m.record_trade_with_optimism(r(2.0), FillOptimism::Tape, sums, sums);
    assert_eq!(m.hit_rate(q), q);
    assert_eq!(m.tape_expectancy(q), q);
    assert_eq!(m.maker_expectancy(q), r(0.0));
}
