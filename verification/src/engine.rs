//! The backtester: what an event, a timer, an intent and a fill do to a run.
//!
//! Strategies, features, risk rules and arithmetic are run by the caller
//! between the steps; each step takes what they returned.
//! [`Backtester::on_event`] says which steps an event takes, and in which
//! order.
use vstd::prelude::*;
use crate::account::{
    marks_after, nought, outcome_of, position_after, kind_of, ends_trade, Accountant, FillNumbers,
    FundingNumbers, Position, Totals,
};
use crate::calendar::{div_floor, DAY_NS};
use crate::decision_log::{
    feature_line, fill_line, intent_line, invalid_line, remark_line, verdict_line, DecisionLog,
    FeatureRecord, LogView,
};
use crate::error::SimError;
use crate::event::{EventEnvelope, Liquidity, MarketEvent, Side, SymbolId, Venue};
use crate::fills::{
    bar_quote, fill_of, fills, limit_quote, market_quote, produced, remaining, FillModel, FillParams,
    MarketOffer, Pending, PendingBook, PendingKind, Print, ProducedFill, Quote,
};
use crate::metrics::{
    bar_sampled, no_trades, peak_after, trades_with, Curve, Metrics, TallySums, Trades,
};
use crate::number::{Real, INF};
use crate::order::{Fill, IntentTexts, OrderIntent, OrderKind, SizeUnit};
use crate::ordered::{lemma_pos, sort_order, stably_sorted, Key, SortedMap};
use crate::text::{same, starts, starts_with};

verus! {

// ---------------------------------------------------------------------------
// Configuration
// ---------------------------------------------------------------------------

/// The limits of the risk gate.
#[derive(Clone, Copy, Debug, PartialEq, Eq, Structural)]
pub struct RiskLimits {
    pub max_order_notional: Real,
    pub max_position_notional: Real,
    pub max_gross_portfolio: Real,
    pub max_px_dev_frac: Real,
    pub max_orders_per_min: u32,
    pub strategy_daily_loss_budget: Real,
    pub portfolio_daily_loss_budget: Real,
    pub max_concurrent_positions: u32,
    pub max_corr_adjusted_portfolio: Real,
}

/// The configuration of a run.
#[derive(Clone, Copy, Debug, PartialEq, Eq, Structural)]
pub struct SimConfig {
    pub fill_model: FillModel,
    pub latency_ns: i64,
    pub taker_fee: Real,
    pub maker_fee: Real,
    pub slip_frac: Real,
    pub participation: Real,
    pub queue_share: Real,
    pub bar_tf_ns: i64,
    pub start_cash: Real,
    pub default_vol_frac: Real,
    pub per_trade_risk_pct: Real,
    pub k_stop: Real,
    pub step_size: Real,
    pub min_notional: Real,
    pub min_coverage: Real,
    pub funding_check_interval_ns: i64,
    pub limits: RiskLimits,
}

/// A number by its pattern.
pub open spec fn pattern(bits: u64) -> Real {
    Real { bits }
}

/// Limits that leave a simulation free: 1e6 for an order, 5e6 for a position,
/// 1e7 for all, 5 percent off the mark, and no loss budget.
pub open spec fn default_limits() -> RiskLimits {
    RiskLimits {
        max_order_notional: pattern(0x412E_8480_0000_0000),
        max_position_notional: pattern(0x4153_12D0_0000_0000),
        max_gross_portfolio: pattern(0x4163_12D0_0000_0000),
        max_px_dev_frac: pattern(0x3FA9_9999_9999_999A),
        max_orders_per_min: 1_000,
        strategy_daily_loss_budget: pattern(INF),
        portfolio_daily_loss_budget: pattern(INF),
        max_concurrent_positions: 1_000,
        max_corr_adjusted_portfolio: pattern(0x4163_12D0_0000_0000),
    }
}

/// Top-of-book fills after 150 ms at 5.5 and 2 basis points, one basis point
/// of slippage, half the best level, a quarter of a print, bars of a minute,
/// 100 000 of cash, coverage of 0.995 and funding every eight hours.
pub open spec fn default_config() -> SimConfig {
    SimConfig {
        fill_model: FillModel::L1TopOfBook,
        latency_ns: 150_000_000,
        taker_fee: pattern(0x3F42_05BC_01A3_6E2F),
        maker_fee: pattern(0x3F2A_36E2_EB1C_432D),
        slip_frac: pattern(0x3F1A_36E2_EB1C_432D),
        participation: pattern(0x3FE0_0000_0000_0000),
        queue_share: pattern(0x3FD0_0000_0000_0000),
        bar_tf_ns: 60_000_000_000,
        start_cash: pattern(0x40F8_6A00_0000_0000),
        default_vol_frac: pattern(0x3F94_7AE1_47AE_147B),
        per_trade_risk_pct: pattern(0x3F74_7AE1_47AE_147B),
        k_stop: pattern(0x3FF8_0000_0000_0000),
        step_size: pattern(0x3F1A_36E2_EB1C_432D),
        min_notional: pattern(0x4014_0000_0000_0000),
        min_coverage: pattern(0x3FEF_D70A_3D70_A3D7),
        funding_check_interval_ns: 28_800_000_000_000,
        limits: default_limits(),
    }
}

impl Default for RiskLimits {
    fn default() -> (l: Self)
        ensures
            l == default_limits(),
    {
        RiskLimits {
            max_order_notional: Real { bits: 0x412E_8480_0000_0000 },
            max_position_notional: Real { bits: 0x4153_12D0_0000_0000 },
            max_gross_portfolio: Real { bits: 0x4163_12D0_0000_0000 },
            max_px_dev_frac: Real { bits: 0x3FA9_9999_9999_999A },
            max_orders_per_min: 1_000,
            strategy_daily_loss_budget: Real { bits: INF },
            portfolio_daily_loss_budget: Real { bits: INF },
            max_concurrent_positions: 1_000,
            max_corr_adjusted_portfolio: Real { bits: 0x4163_12D0_0000_0000 },
        }
    }
}

impl Default for SimConfig {
    fn default() -> (c: Self)
        ensures
            c == default_config(),
    {
        SimConfig {
            fill_model: FillModel::default(),
            latency_ns: 150_000_000,
            taker_fee: Real { bits: 0x3F42_05BC_01A3_6E2F },
            maker_fee: Real { bits: 0x3F2A_36E2_EB1C_432D },
            slip_frac: Real { bits: 0x3F1A_36E2_EB1C_432D },
            participation: Real { bits: 0x3FE0_0000_0000_0000 },
            queue_share: Real { bits: 0x3FD0_0000_0000_0000 },
            bar_tf_ns: 60_000_000_000,
            start_cash: Real { bits: 0x40F8_6A00_0000_0000 },
            default_vol_frac: Real { bits: 0x3F94_7AE1_47AE_147B },
            per_trade_risk_pct: Real { bits: 0x3F74_7AE1_47AE_147B },
            k_stop: Real { bits: 0x3FF8_0000_0000_0000 },
            step_size: Real { bits: 0x3F1A_36E2_EB1C_432D },
            min_notional: Real { bits: 0x4014_0000_0000_0000 },
            min_coverage: Real { bits: 0x3FEF_D70A_3D70_A3D7 },
            funding_check_interval_ns: 28_800_000_000_000,
            limits: RiskLimits::default(),
        }
    }
}

/// The seed of a strategy: the run's own for the first, and a fixed mix of it
/// for the others.
pub open spec fn seed_of(seed: u64, idx: usize) -> u64 {
    if idx == 0 {
        seed
    } else {
        ((seed + (idx as u64 * 0x9E37_79B9_7F4A_7C15) % 0x1_0000_0000_0000_0000)
            % 0x1_0000_0000_0000_0000) as u64
    }
}

/// The seed of a strategy.
pub fn strategy_seed(seed: u64, idx: usize) -> (s: u64)
    ensures
        s == seed_of(seed, idx),
{
    if idx == 0 {
        seed
    } else {
        seed.wrapping_add((idx as u64).wrapping_mul(0x9E37_79B9_7F4A_7C15))
    }
}

// ---------------------------------------------------------------------------
// The state of a run
// ---------------------------------------------------------------------------

/// A timer: when it is due, its number, and the strategy that set it.
#[derive(Clone, Copy, Debug, PartialEq, Eq, Structural)]
pub struct Timer {
    pub at_ns: i64,
    pub id: u64,
    pub owner: usize,
}

/// A run.
#[derive(Debug)]
pub struct Backtester {
    pub cfg: SimConfig,
    /// What each strategy subscribes to.
    pub strat_subs: Vec<Vec<String>>,
    /// Which strategies act on the close of a bar only.
    pub bar_close: Vec<bool>,
    pub acct: Accountant,
    pub log: DecisionLog,
    pub metrics: Metrics,
    pub pending: PendingBook,
    pub latest_vol: SortedMap<u32, Real>,
    pub latest_mark: SortedMap<u32, Real>,
    pub now: i64,
    pub run_start_ns: Option<i64>,
    pub trade_pnls: Vec<(i64, Real)>,
    /// The symbols that were seen.
    pub allowed: Vec<(Venue, SymbolId)>,
    /// When orders went to the risk gate.
    pub intent_ts: Vec<i64>,
    /// The day, and the equity at its first event.
    pub day_start: Option<(i64, Real)>,
    pub seq: u64,
    pub next_intent: u128,
    pub timers: Vec<Timer>,
    pub next_timer: u64,
    /// Funding events by symbol.
    pub funding_count: SortedMap<u32, u32>,
    /// Since when each symbol is held.
    pub hold_start: SortedMap<u32, i64>,
    /// The strategy of each intent.
    pub intent_strategy: SortedMap<u128, String>,
    pub last_bar_epoch: i64,
}

/// What a run holds.
pub struct RunView {
    pub cfg: SimConfig,
    pub positions: Map<u32, Position>,
    pub acct_marks: Map<u32, Real>,
    pub totals: Totals,
    pub log: LogView,
    pub trades: Trades,
    pub curve: Curve,
    pub pending: Seq<Pending>,
    pub vols: Map<u32, Real>,
    pub marks: Map<u32, Real>,
    pub now: i64,
    pub run_start: Option<i64>,
    pub trade_pnls: Seq<(i64, Real)>,
    pub allowed: Seq<(Venue, SymbolId)>,
    pub intent_ts: Seq<i64>,
    pub day_start: Option<(i64, Real)>,
    pub seq: int,
    pub next_intent: int,
    pub timers: Seq<Timer>,
    pub next_timer: int,
    pub funding_count: Map<u32, u32>,
    pub hold_start: Map<u32, i64>,
    pub intent_strategy: Map<u128, Seq<char>>,
    pub last_bar_epoch: i64,
}

/// The names of strategies by intent.
pub open spec fn names_of(m: Map<u128, String>) -> Map<u128, Seq<char>> {
    Map::new(|k: u128| m.dom().contains(k), |k: u128| m[k]@)
}

/// A log with one more line.
pub open spec fn logged(l: LogView, line: Seq<char>) -> LogView {
    LogView { lines: l.lines.push(line), ..l }
}

/// A bar length of at least 1.
pub open spec fn bar_len(cfg: SimConfig) -> int {
    if cfg.bar_tf_ns < 1 {
        1
    } else {
        cfg.bar_tf_ns as int
    }
}

/// The position in `symbol`.
pub open spec fn held_in(v: RunView, symbol: u32) -> Position {
    if v.positions.dom().contains(symbol) {
        v.positions[symbol]
    } else {
        crate::account::flat()
    }
}

/// A run before its first event.
pub open spec fn fresh_run(cfg: SimConfig) -> RunView {
    RunView {
        cfg,
        positions: Map::empty(),
        acct_marks: Map::empty(),
        totals: Totals {
            start_cash: cfg.start_cash,
            cash: cfg.start_cash,
            realized: nought(),
            fees: nought(),
            funding_paid: nought(),
        },
        log: LogView { intents: 0, fills: 0, lines: Seq::empty() },
        trades: Trades { all: no_trades(), wins: 0, maker: no_trades(), tape: no_trades() },
        curve: Curve {
            max_drawdown: nought(),
            bar_returns: Seq::empty(),
            last_equity: None,
            peak_equity: nought(),
            started: false,
        },
        pending: Seq::empty(),
        vols: Map::empty(),
        marks: Map::empty(),
        now: 0,
        run_start: None,
        trade_pnls: Seq::empty(),
        allowed: Seq::empty(),
        intent_ts: Seq::empty(),
        day_start: None,
        seq: 0,
        next_intent: 0,
        timers: Seq::empty(),
        next_timer: 0,
        funding_count: Map::empty(),
        hold_start: Map::empty(),
        intent_strategy: Map::empty(),
        last_bar_epoch: i64::MIN,
    }
}

impl Backtester {
    pub open spec fn wf(&self) -> bool {
        &&& self.acct.wf()
        &&& self.log.wf()
        &&& self.latest_vol.wf()
        &&& self.latest_mark.wf()
        &&& self.funding_count.wf()
        &&& self.hold_start.wf()
        &&& self.intent_strategy.wf()
        &&& self.strat_subs@.len() == self.bar_close@.len()
        &&& forall|i: int|
            0 <= i < self.timers@.len() ==> (#[trigger] self.timers@[i]).owner
                < self.bar_close@.len()
    }

    pub open spec fn view(&self) -> RunView {
        RunView {
            cfg: self.cfg,
            positions: self.acct.positions.map(),
            acct_marks: self.acct.marks.map(),
            totals: self.acct.totals(),
            log: self.log.says(),
            trades: self.metrics.trades_view(),
            curve: self.metrics.curve(),
            pending: self.pending.pending@,
            vols: self.latest_vol.map(),
            marks: self.latest_mark.map(),
            now: self.now,
            run_start: self.run_start_ns,
            trade_pnls: self.trade_pnls@,
            allowed: self.allowed@,
            intent_ts: self.intent_ts@,
            day_start: self.day_start,
            seq: self.seq as int,
            next_intent: self.next_intent as int,
            timers: self.timers@,
            next_timer: self.next_timer as int,
            funding_count: self.funding_count.map(),
            hold_start: self.hold_start.map(),
            intent_strategy: names_of(self.intent_strategy.map()),
            last_bar_epoch: self.last_bar_epoch,
        }
    }

    /// What does not change in a run.
    pub open spec fn same_strategies(&self, other: &Backtester) -> bool {
        self.strat_subs == other.strat_subs && self.bar_close == other.bar_close
    }

    /// A run of the given strategies: what each subscribes to, and whether it
    /// acts on the close of a bar only.
    pub fn from_strategies(cfg: SimConfig, strat_subs: Vec<Vec<String>>, bar_close: Vec<bool>) -> (b:
        Self)
        requires
            strat_subs@.len() == bar_close@.len(),
        ensures
            b.wf(),
            b.strat_subs == strat_subs,
            b.bar_close == bar_close,
            b@ == fresh_run(cfg),
    {
        let b = Backtester {
            cfg,
            strat_subs,
            bar_close,
            acct: Accountant::new(cfg.start_cash),
            log: DecisionLog::new(),
            metrics: Metrics::new(),
            pending: PendingBook::default(),
            latest_vol: SortedMap::new(),
            latest_mark: SortedMap::new(),
            now: 0,
            run_start_ns: None,
            trade_pnls: Vec::new(),
            allowed: Vec::new(),
            intent_ts: Vec::new(),
            day_start: None,
            seq: 0,
            next_intent: 0,
            timers: Vec::new(),
            next_timer: 0,
            funding_count: SortedMap::new(),
            hold_start: SortedMap::new(),
            intent_strategy: SortedMap::new(),
            last_bar_epoch: i64::MIN,
        };
        assert(b@.intent_strategy =~= fresh_run(cfg).intent_strategy);
        assert(b@.pending =~= Seq::<Pending>::empty());
        assert(b@.trade_pnls =~= Seq::<(i64, Real)>::empty());
        assert(b@.allowed =~= Seq::<(Venue, SymbolId)>::empty());
        assert(b@.intent_ts =~= Seq::<i64>::empty());
        assert(b@.timers =~= Seq::<Timer>::empty());
        assert(b@ == fresh_run(cfg));
        b
    }
}

// ---------------------------------------------------------------------------
// Events
// ---------------------------------------------------------------------------

/// The run at the start of an event.
pub open spec fn begun(
    v: RunView,
    venue: Venue,
    symbol: SymbolId,
    recv: i64,
    equity: Real,
) -> RunView {
    let day = (recv as int / DAY_NS as int) as i64;
    RunView {
        run_start: match v.run_start {
            Some(t) => Some(t),
            None => Some(recv),
        },
        now: recv,
        allowed: if v.allowed.contains((venue, symbol)) {
            v.allowed
        } else {
            v.allowed.push((venue, symbol))
        },
        day_start: match v.day_start {
            Some((d, e)) => if d == day {
                Some((d, e))
            } else {
                Some((day, equity))
            },
            None => Some((day, equity)),
        },
        ..v
    }
}

/// The run with a new price of a symbol.
pub open spec fn marked(v: RunView, symbol: u32, price: Real) -> RunView {
    RunView {
        marks: v.marks.insert(symbol, price),
        acct_marks: marks_after(v.acct_marks, symbol, price),
        ..v
    }
}

/// The funding events of a symbol.
pub open spec fn fundings(m: Map<u32, u32>, symbol: u32) -> u32 {
    if m.dom().contains(symbol) {
        m[symbol]
    } else {
        0
    }
}

/// The run with a funding event.
pub open spec fn funded(v: RunView, symbol: u32, rate: Real, n: FundingNumbers) -> RunView {
    let counted = RunView {
        funding_count: v.funding_count.insert(
            symbol,
            (fundings(v.funding_count, symbol) + 1) as u32,
        ),
        ..v
    };
    let p = held_in(v, symbol);
    if p.qty.zero() || !rate.finite() {
        counted
    } else {
        RunView {
            totals: Totals { cash: n.cash, funding_paid: n.funding_paid, ..v.totals },
            positions: v.positions.insert(symbol, Position { funding: n.leg_funding, ..p }),
            ..counted
        }
    }
}

/// What an event does before any fill: a trade or a mark sets the price, and a
/// funding event is counted and charged.
pub open spec fn noted(v: RunView, e: EventEnvelope, n: FundingNumbers) -> RunView {
    match e.body {
        MarketEvent::Trade { price, .. } => marked(v, e.symbol.0, price),
        MarketEvent::TradeWithAddr { price, .. } => marked(v, e.symbol.0, price),
        MarketEvent::MarkPrice { mark, .. } => marked(v, e.symbol.0, mark),
        MarketEvent::Funding { rate, .. } => funded(v, e.symbol.0, rate, n),
        _ => v,
    }
}

/// A step of an event.
#[derive(Clone, Copy, Debug, PartialEq, Eq, Structural)]
pub enum Step {
    /// The order book of the symbol takes the event.
    Book,
    /// [`Backtester::note_event`].
    Note,
    /// A print goes into the bars, and a bar that closes fills waiting orders.
    Bars,
    /// A print is held against the limits that wait.
    Limits,
    /// The market orders that wait are held against the book and the tape.
    Market,
    /// The fills that were found are accounted for, in order.
    Apply,
    /// [`Backtester::note_mid`], where the book can be trusted.
    Mid,
    /// [`Backtester::fire_timers`], what fires, and [`Backtester::requeue`].
    Timers,
    /// [`Backtester::note_feature`] for each new value, and whom it is told.
    Features,
    /// [`Backtester::end_event`].
    Sample,
}

/// How an event's price is held against the orders that wait: a print before
/// the middle of the book sets the price, any other event behind it.
pub open spec fn matching_steps(is_trade: bool, model: FillModel) -> Seq<Step> {
    if is_trade && model == FillModel::L0BarFill {
        seq![Step::Bars, Step::Apply, Step::Mid]
    } else if is_trade {
        seq![Step::Limits, Step::Market, Step::Apply, Step::Mid]
    } else if model == FillModel::L0BarFill {
        seq![Step::Mid]
    } else {
        seq![Step::Mid, Step::Market, Step::Apply]
    }
}

/// The steps of an event, in order.
pub open spec fn steps_of(body: MarketEvent, model: FillModel) -> Seq<Step> {
    seq![Step::Book, Step::Note] + matching_steps(body.as_trade() is Some, model)
        + seq![Step::Timers, Step::Features, Step::Sample]
}

fn event_steps(is_trade: bool, model: FillModel) -> (v: Vec<Step>)
    ensures
        v@ == seq![Step::Book, Step::Note] + matching_steps(is_trade, model)
            + seq![Step::Timers, Step::Features, Step::Sample],
{
    let mut v: Vec<Step> = vec![Step::Book, Step::Note];
    let bars = matches!(model, FillModel::L0BarFill);
    if is_trade {
        if bars {
            v.push(Step::Bars);
        } else {
            v.push(Step::Limits);
            v.push(Step::Market);
        }
        v.push(Step::Apply);
        v.push(Step::Mid);
    } else {
        v.push(Step::Mid);
        if !bars {
            v.push(Step::Market);
            v.push(Step::Apply);
        }
    }
    assert(v@ =~= seq![Step::Book, Step::Note] + matching_steps(is_trade, model));
    v.push(Step::Timers);
    v.push(Step::Features);
    v.push(Step::Sample);
    assert(v@ =~= seq![Step::Book, Step::Note] + matching_steps(is_trade, model)
        + seq![Step::Timers, Step::Features, Step::Sample]);
    v
}

/// Whether a step finds fills.
pub open spec fn finds_fills(s: Step) -> bool {
    s is Bars || s is Limits || s is Market
}

/// Whether a step lets strategies act on the event.
pub open spec fn lets_act(s: Step) -> bool {
    s is Timers || s is Features
}

/// A strategy acts on an event only behind the fills that it brings, so no
/// order is filled by the event that caused it. All fills of an event are
/// found before the first is accounted for, and all are accounted for.
pub proof fn law_fills_before_decisions(body: MarketEvent, model: FillModel, i: int, j: int)
    requires
        0 <= i < steps_of(body, model).len(),
        0 <= j < steps_of(body, model).len(),
    ensures
        finds_fills(steps_of(body, model)[i]) && steps_of(body, model)[j] is Apply ==> i < j,
        finds_fills(steps_of(body, model)[i]) ==> steps_of(body, model).contains(Step::Apply),
        steps_of(body, model)[i] is Apply && lets_act(steps_of(body, model)[j]) ==> i < j,
{
    let s = steps_of(body, model);
    if body.as_trade() is Some && model == FillModel::L0BarFill {
        assert(s[3] is Apply);
    } else if body.as_trade() is Some {
        assert(s[4] is Apply);
    } else if model != FillModel::L0BarFill {
        assert(s[4] is Apply);
    }
}

fn contains_pair(v: &Vec<(Venue, SymbolId)>, venue: Venue, symbol: SymbolId) -> (r: bool)
    ensures
        r == v@.contains((venue, symbol)),
{
    let mut i: usize = 0;
    while i < v.len()
        invariant
            i <= v@.len(),
            forall|k: int| 0 <= k < i ==> v@[k] != (venue, symbol),
        decreases v@.len() - i,
    {
        if v[i].0 == venue && v[i].1 == symbol {
            assert(v@[i as int] == (venue, symbol));
            return true;
        }
        i = i + 1;
    }
    false
}

impl Backtester {
    /// Begins an event: the clock is set to it, its symbol becomes known, and
    /// a new day keeps its first equity. Gives back the steps that follow.
    pub fn on_event(&mut self, ev: &EventEnvelope, equity: Real) -> (steps: Vec<Step>)
        requires
            old(self).wf(),
        ensures
            final(self).wf(),
            final(self).same_strategies(old(self)),
            final(self)@ == begun(old(self)@, ev.venue, ev.symbol, ev.recv_ts_ns, equity),
            steps@ == steps_of(ev.body, old(self).cfg.fill_model),
    {
        if self.run_start_ns.is_none() {
            self.run_start_ns = Some(ev.recv_ts_ns);
        }
        self.now = ev.recv_ts_ns;
        if !contains_pair(&self.allowed, ev.venue, ev.symbol) {
            self.allowed.push((ev.venue, ev.symbol));
        }
        let day: i64 = div_floor(ev.recv_ts_ns, DAY_NS);
        let same_day = match self.day_start {
            Some((d, _)) => d == day,
            None => false,
        };
        if !same_day {
            self.day_start = Some((day, equity));
        }
        event_steps(ev.body.trade_view().is_some(), self.cfg.fill_model)
    }

    /// Notes what an event says, before any fill.
    pub fn note_event(&mut self, ev: &EventEnvelope, n: FundingNumbers)
        requires
            old(self).wf(),
            fundings(old(self)@.funding_count, ev.symbol.0) < u32::MAX,
        ensures
            final(self).wf(),
            final(self).same_strategies(old(self)),
            final(self)@ == noted(old(self)@, *ev, n),
    {
        match &ev.body {
            MarketEvent::Trade { price, .. } => {
                self.note_mid(ev.symbol, *price);
            },
            MarketEvent::TradeWithAddr { price, .. } => {
                self.note_mid(ev.symbol, *price);
            },
            MarketEvent::MarkPrice { mark, .. } => {
                self.note_mid(ev.symbol, *mark);
            },
            MarketEvent::Funding { rate, .. } => {
                let count: u32 = match self.funding_count.get(&ev.symbol.0) {
                    Some(c) => *c,
                    None => 0,
                };
                self.funding_count.set(ev.symbol.0, count + 1);
                self.acct.accrue_funding(ev.symbol, *rate, n);
            },
            _ => {},
        }
    }

    /// Takes a new price of a symbol; the middle of a trustworthy book comes
    /// behind the price of the event itself.
    pub fn note_mid(&mut self, symbol: SymbolId, price: Real)
        requires
            old(self).wf(),
        ensures
            final(self).wf(),
            final(self).same_strategies(old(self)),
            final(self)@ == marked(old(self)@, symbol.0, price),
    {
        self.latest_mark.set(symbol.0, price);
        self.acct.mark(symbol, price);
    }

    /// Whether an event is the first of its bar.
    pub fn at_bar_boundary(&self, now: i64) -> (r: bool)
        ensures
            r == (now as int / bar_len(self.cfg) != self.last_bar_epoch),
    {
        let tf: i64 = if self.cfg.bar_tf_ns < 1 {
            1
        } else {
            self.cfg.bar_tf_ns
        };
        div_floor(now, tf) != self.last_bar_epoch
    }

    /// Ends an event: the equity is sampled, and once more where a bar began.
    pub fn end_event(&mut self, recv: i64, equity: Real, drawdown: Real, log_return: Real)
        requires
            old(self).wf(),
        ensures
            final(self).wf(),
            final(self).same_strategies(old(self)),
            final(self)@ == ended(old(self)@, recv, equity, drawdown, log_return),
    {
        self.metrics.sample_equity(equity, drawdown);
        let tf: i64 = if self.cfg.bar_tf_ns < 1 {
            1
        } else {
            self.cfg.bar_tf_ns
        };
        let epoch: i64 = div_floor(recv, tf);
        if epoch != self.last_bar_epoch {
            self.last_bar_epoch = epoch;
            self.metrics.record_bar_return(equity, log_return);
        }
    }
}

/// The run at the end of an event.
pub open spec fn ended(
    v: RunView,
    recv: i64,
    equity: Real,
    drawdown: Real,
    log_return: Real,
) -> RunView {
    let epoch = recv as int / bar_len(v.cfg);
    let sampled = Curve {
        peak_equity: peak_after(v.curve, equity),
        max_drawdown: v.curve.max_drawdown.max_of(drawdown),
        started: true,
        ..v.curve
    };
    if epoch != v.last_bar_epoch {
        RunView {
            curve: bar_sampled(sampled, equity, log_return),
            last_bar_epoch: epoch as i64,
            ..v
        }
    } else {
        RunView { curve: sampled, ..v }
    }
}

// ---------------------------------------------------------------------------
// Timers
// ---------------------------------------------------------------------------

/// When timers are due.
pub open spec fn due_times(timers: Seq<Timer>) -> Seq<i64> {
    Seq::new(timers.len(), |i: int| timers[i].at_ns)
}

/// The timers that are not due at `now`, in the given order.
pub open spec fn not_due(timers: Seq<Timer>, order: Seq<usize>, now: i64) -> Seq<Timer>
    decreases order.len(),
{
    if order.len() == 0 {
        Seq::empty()
    } else {
        let before = not_due(timers, order.drop_last(), now);
        let t = timers[order.last() as int];
        if t.at_ns > now {
            before.push(t)
        } else {
            before
        }
    }
}

/// Whether a strategy must wait for the close of the bar.
pub open spec fn must_wait(bar_close: Seq<bool>, owner: usize, at_bar: bool) -> bool {
    bar_close[owner as int] && !at_bar
}

/// The timers that fire at `now`, in the given order.
pub open spec fn firing(
    timers: Seq<Timer>,
    order: Seq<usize>,
    now: i64,
    bar_close: Seq<bool>,
    at_bar: bool,
) -> Seq<u64>
    decreases order.len(),
{
    if order.len() == 0 {
        Seq::empty()
    } else {
        let before = firing(timers, order.drop_last(), now, bar_close, at_bar);
        let t = timers[order.last() as int];
        if t.at_ns <= now && !must_wait(bar_close, t.owner, at_bar) {
            before.push(t.id)
        } else {
            before
        }
    }
}

/// The timers that are due but wait for the next bar, in the given order.
pub open spec fn deferring(
    timers: Seq<Timer>,
    order: Seq<usize>,
    now: i64,
    bar_close: Seq<bool>,
    at_bar: bool,
    boundary: int,
) -> Seq<Timer>
    decreases order.len(),
{
    if order.len() == 0 {
        Seq::empty()
    } else {
        let before = deferring(timers, order.drop_last(), now, bar_close, at_bar, boundary);
        let t = timers[order.last() as int];
        if t.at_ns <= now && must_wait(bar_close, t.owner, at_bar) {
            before.push(Timer { at_ns: boundary as i64, ..t })
        } else {
            before
        }
    }
}

/// The start of the bar behind `now`.
pub open spec fn next_boundary(now: int, len: int) -> int {
    now / len * len + len
}

/// The timers of an event: those that fire, and those that wait.
#[derive(Debug)]
pub struct Due {
    pub fire: Vec<u64>,
    pub deferred: Vec<Timer>,
}

impl Backtester {
    /// Takes out the timers that are due, earliest first and else in the order
    /// in which they were set. One of a strategy that acts on the close of a
    /// bar only is put off to the next bar, never dropped.
    pub fn fire_timers(&mut self, now: i64, at_bar: bool) -> (due: Due)
        requires
            old(self).wf(),
            next_boundary(now as int, bar_len(old(self).cfg)) <= i64::MAX,
        ensures
            final(self).wf(),
            final(self).same_strategies(old(self)),
            exists|order: Seq<usize>| #[trigger]
                stably_sorted(due_times(old(self)@.timers), order) && final(self)@ == (RunView {
                    timers: not_due(old(self)@.timers, order, now),
                    ..old(self)@
                }) && due.fire@ == firing(
                    old(self)@.timers,
                    order,
                    now,
                    old(self).bar_close@,
                    at_bar,
                ) && due.deferred@ == deferring(
                    old(self)@.timers,
                    order,
                    now,
                    old(self).bar_close@,
                    at_bar,
                    next_boundary(now as int, bar_len(old(self).cfg)),
                ),
            forall|i: int|
                0 <= i < due.deferred@.len() ==> (#[trigger] due.deferred@[i]).owner < old(
                    self,
                ).bar_close@.len(),
    {
        let tf: i64 = if self.cfg.bar_tf_ns < 1 {
            1
        } else {
            self.cfg.bar_tf_ns
        };
        proof {
            law_next_bar_is_ahead(now as int, tf as int);
            assert(now as int / tf as int * tf as int >= i64::MIN - tf);
        }
        let start: i128 = div_floor(now, tf) as i128;
        proof {
            assert(-0x8000_0000_0000_0000 <= start <= 0x7FFF_FFFF_FFFF_FFFF);
            assert(start * tf + tf == next_boundary(now as int, tf as int));
        }
        let boundary: i64 = mul_wide(start, tf);
        let ghost timers = self.timers@;
        let ghost strategies = self.bar_close@;
        let mut keys: Vec<i64> = Vec::new();
        let mut i: usize = 0;
        while i < self.timers.len()
            invariant
                i <= timers.len(),
                timers == self.timers@,
                keys@.len() == i,
                forall|k: int| 0 <= k < i ==> #[trigger] keys@[k] == timers[k].at_ns,
            decreases timers.len() - i,
        {
            keys.push(self.timers[i].at_ns);
            i = i + 1;
        }
        assert(keys@ =~= due_times(timers));
        let order = sort_order(&keys);
        let mut still: Vec<Timer> = Vec::new();
        let mut fire: Vec<u64> = Vec::new();
        let mut deferred: Vec<Timer> = Vec::new();
        let mut n: usize = 0;
        assert(order@.take(0).len() == 0);
        assert(still@ =~= Seq::<Timer>::empty());
        assert(fire@ =~= Seq::<u64>::empty());
        assert(deferred@ =~= Seq::<Timer>::empty());
        while n < order.len()
            invariant
                n <= order@.len(),
                timers == self.timers@,
                strategies == self.bar_close@,
                stably_sorted(due_times(timers), order@),
                forall|i: int|
                    0 <= i < timers.len() ==> (#[trigger] timers[i]).owner < strategies.len(),
                forall|i: int|
                    0 <= i < still@.len() ==> (#[trigger] still@[i]).owner < strategies.len(),
                forall|i: int|
                    0 <= i < deferred@.len() ==> (#[trigger] deferred@[i]).owner < strategies.len(),
                still@ == not_due(timers, order@.take(n as int), now),
                fire@ == firing(timers, order@.take(n as int), now, strategies, at_bar),
                deferred@ == deferring(
                    timers,
                    order@.take(n as int),
                    now,
                    strategies,
                    at_bar,
                    boundary as int,
                ),
            decreases order@.len() - n,
        {
            let p: usize = order[n];
            assert(order@.take(n + 1).drop_last() =~= order@.take(n as int));
            assert(order@.take(n + 1).last() == p);
            let t: Timer = self.timers[p];
            if t.at_ns > now {
                still.push(t);
            } else if self.bar_close[t.owner] && !at_bar {
                deferred.push(Timer { at_ns: boundary, id: t.id, owner: t.owner });
            } else {
                fire.push(t.id);
            }
            n = n + 1;
        }
        assert(order@.take(n as int) =~= order@);
        self.timers = still;
        let due = Due { fire, deferred };
        assert(boundary == next_boundary(now as int, bar_len(old(self).cfg)));
        assert(timers == old(self)@.timers);
        assert(self@ == (RunView { timers: not_due(timers, order@, now), ..old(self)@ }));
        assert(stably_sorted(due_times(old(self)@.timers), order@));
        due
    }

    /// Puts timers behind the others.
    pub fn requeue(&mut self, deferred: Vec<Timer>)
        requires
            old(self).wf(),
            forall|i: int|
                0 <= i < deferred@.len() ==> (#[trigger] deferred@[i]).owner < old(
                    self,
                ).bar_close@.len(),
        ensures
            final(self).wf(),
            final(self).same_strategies(old(self)),
            final(self)@ == (RunView { timers: old(self)@.timers + deferred@, ..old(self)@ }),
    {
        let ghost t0 = self.timers@;
        let ghost v0 = self@;
        let mut i: usize = 0;
        assert(t0 + deferred@.take(0) =~= t0);
        while i < deferred.len()
            invariant
                i <= deferred@.len(),
                self.wf(),
                self.same_strategies(old(self)),
                forall|i: int|
                    0 <= i < deferred@.len() ==> (#[trigger] deferred@[i]).owner
                        < self.bar_close@.len(),
                self@ == (RunView { timers: t0 + deferred@.take(i as int), ..v0 }),
            decreases deferred@.len() - i,
        {
            self.timers.push(deferred[i]);
            assert(self.timers@ =~= t0 + deferred@.take(i + 1));
            i = i + 1;
        }
        assert(deferred@.take(i as int) =~= deferred@);
    }

    /// Sets a timer for a strategy, and gives back its number.
    pub fn set_timer(&mut self, now: i64, after_ns: i64, owner: usize) -> (id: u64)
        requires
            old(self).wf(),
            owner < old(self).bar_close@.len(),
            old(self).next_timer < u64::MAX,
            i64::MIN <= now + after_ns <= i64::MAX,
        ensures
            final(self).wf(),
            final(self).same_strategies(old(self)),
            id == old(self).next_timer + 1,
            final(self)@ == (RunView {
                next_timer: old(self)@.next_timer + 1,
                timers: old(self)@.timers.push(
                    Timer { at_ns: (now + after_ns) as i64, id, owner },
                ),
                ..old(self)@
            }),
    {
        self.next_timer = self.next_timer + 1;
        let id: u64 = self.next_timer;
        self.timers.push(Timer { at_ns: now + after_ns, id, owner });
        id
    }
}

fn mul_wide(start: i128, tf: i64) -> (r: i64)
    requires
        -0x8000_0000_0000_0000 <= start <= 0x7FFF_FFFF_FFFF_FFFF,
        tf >= 1,
        i64::MIN <= start * tf + tf <= i64::MAX,
    ensures
        r == start * tf + tf,
{
    let wide: i128 = tf as i128;
    assert(-0x8000_0000_0000_0000 * 0x8000_0000_0000_0000 <= start * wide <= 0x8000_0000_0000_0000
        * 0x8000_0000_0000_0000) by (nonlinear_arith)
        requires
            -0x8000_0000_0000_0000 <= start <= 0x7FFF_FFFF_FFFF_FFFF,
            1 <= wide <= 0x7FFF_FFFF_FFFF_FFFF,
    ;
    (start * wide + wide) as i64
}

/// A timer that is put off comes behind the present, at the start of a bar.
pub proof fn law_next_bar_is_ahead(now: int, len: int)
    requires
        len >= 1,
    ensures
        now < next_boundary(now, len) <= now + len,
        next_boundary(now, len) % len == 0,
{
    assert(now / len * len <= now < now / len * len + len) by (nonlinear_arith)
        requires
            len >= 1,
    ;
    assert((now / len * len + len) % len == 0) by (nonlinear_arith)
        requires
            len >= 1,
    ;
}

/// No timer is lost: each one that was set fires, waits for its time, or is
/// put off, and there are no others.
pub proof fn law_no_timer_lost(
    timers: Seq<Timer>,
    order: Seq<usize>,
    now: i64,
    bar_close: Seq<bool>,
    at_bar: bool,
    boundary: int,
)
    ensures
        not_due(timers, order, now).len() + firing(timers, order, now, bar_close, at_bar).len()
            + deferring(timers, order, now, bar_close, at_bar, boundary).len() == order.len(),
        forall|i: int|
            0 <= i < order.len() ==> kept_or_fired(
                timers[#[trigger] order[i] as int],
                not_due(timers, order, now),
                firing(timers, order, now, bar_close, at_bar),
                deferring(timers, order, now, bar_close, at_bar, boundary),
                boundary,
            ),
    decreases order.len(),
{
    if order.len() > 0 {
        let before = order.drop_last();
        law_no_timer_lost(timers, before, now, bar_close, at_bar, boundary);
        let (w0, w) = (not_due(timers, before, now), not_due(timers, order, now));
        let (f0, f) = (
            firing(timers, before, now, bar_close, at_bar),
            firing(timers, order, now, bar_close, at_bar),
        );
        let (d0, d) = (
            deferring(timers, before, now, bar_close, at_bar, boundary),
            deferring(timers, order, now, bar_close, at_bar, boundary),
        );
        assert forall|i: int| 0 <= i < order.len() implies kept_or_fired(
            timers[#[trigger] order[i] as int],
            w,
            f,
            d,
            boundary,
        ) by {
            let t = timers[order[i] as int];
            if i < before.len() {
                assert(before[i] == order[i]);
                let put_off = Timer { at_ns: boundary as i64, ..t };
                if w0.contains(t) {
                    let k = w0.index_of(t);
                    assert(w[k] == t);
                } else if f0.contains(t.id) {
                    let k = f0.index_of(t.id);
                    assert(f[k] == t.id);
                } else {
                    let k = d0.index_of(put_off);
                    assert(d[k] == put_off);
                }
            } else if t.at_ns > now {
                assert(w[w.len() - 1] == t);
            } else if must_wait(bar_close, t.owner, at_bar) {
                assert(d[d.len() - 1] == (Timer { at_ns: boundary as i64, ..t }));
            } else {
                assert(f[f.len() - 1] == t.id);
            }
        }
    }
}

/// Whether a timer waits, fired, or is put off to `boundary`.
pub open spec fn kept_or_fired(
    t: Timer,
    waiting: Seq<Timer>,
    fired: Seq<u64>,
    deferred: Seq<Timer>,
    boundary: int,
) -> bool {
    waiting.contains(t) || fired.contains(t.id) || deferred.contains(
        Timer { at_ns: boundary as i64, ..t },
    )
}

// ---------------------------------------------------------------------------
// Features
// ---------------------------------------------------------------------------

/// Whether a subscription covers a feature: it is `*` or a prefix of its name.
pub open spec fn covers(sub: Seq<char>, name: Seq<char>) -> bool {
    sub == "*"@ || starts(name, sub)
}

/// Whether one of the subscriptions covers a feature.
pub open spec fn any_covers(subs: Seq<String>, name: Seq<char>) -> bool {
    exists|i: int| 0 <= i < subs.len() && covers((#[trigger] subs[i])@, name)
}

/// The strategies that are told of a feature, in order: those that subscribe
/// to it and need not wait for the close of the bar.
pub open spec fn told(
    strat_subs: Seq<Vec<String>>,
    bar_close: Seq<bool>,
    name: Seq<char>,
    at_bar: bool,
    n: int,
) -> Seq<usize>
    decreases n,
{
    if n <= 0 {
        Seq::empty()
    } else {
        let before = told(strat_subs, bar_close, name, at_bar, n - 1);
        if !must_wait(bar_close, (n - 1) as usize, at_bar) && any_covers(
            strat_subs[n - 1]@,
            name,
        ) {
            before.push((n - 1) as usize)
        } else {
            before
        }
    }
}

impl Backtester {
    /// Whether a strategy subscribes to a feature.
    pub fn subscribed(&self, idx: usize, name: &str) -> (r: bool)
        requires
            idx < self.strat_subs@.len(),
        ensures
            r == any_covers(self.strat_subs@[idx as int]@, name@),
    {
        let subs = &self.strat_subs[idx];
        let mut i: usize = 0;
        while i < subs.len()
            invariant
                i <= subs@.len(),
                idx < self.strat_subs@.len(),
                *subs == self.strat_subs@[idx as int],
                forall|k: int| 0 <= k < i ==> !covers((#[trigger] subs@[k])@, name@),
            decreases subs@.len() - i,
        {
            if same(subs[i].as_str(), "*") || starts_with(name, subs[i].as_str()) {
                assert(covers(subs@[i as int]@, name@));
                return true;
            }
            i = i + 1;
        }
        false
    }

    /// Logs a feature value, keeps it where it is a volatility, and gives back
    /// the strategies to tell.
    pub fn note_feature(&mut self, u: &FeatureRecord, name: &str, at_bar: bool) -> (idxs: Vec<usize>)
        requires
            old(self).wf(),
            old(self).seq < u64::MAX,
        ensures
            final(self).wf(),
            final(self).same_strategies(old(self)),
            idxs@ == told(
                old(self).strat_subs@,
                old(self).bar_close@,
                name@,
                at_bar,
                old(self).strat_subs@.len() as int,
            ),
            final(self)@ == (RunView {
                seq: old(self)@.seq + 1,
                log: logged(old(self)@.log, feature_line((old(self).seq + 1) as u64, *u)),
                vols: if starts(name@, "vol.rv"@) {
                    old(self)@.vols.insert(u.symbol.0, u.value)
                } else {
                    old(self)@.vols
                },
                ..old(self)@
            }),
    {
        self.seq = self.seq + 1;
        self.log.record_feature(self.seq, u);
        if starts_with(name, "vol.rv") {
            self.latest_vol.set(u.symbol.0, u.value);
        }
        let mut idxs: Vec<usize> = Vec::new();
        let mut i: usize = 0;
        while i < self.strat_subs.len()
            invariant
                i <= self.strat_subs@.len(),
                self.strat_subs@.len() == self.bar_close@.len(),
                idxs@ =~= told(self.strat_subs@, self.bar_close@, name@, at_bar, i as int),
            decreases self.strat_subs@.len() - i,
        {
            if (!self.bar_close[i] || at_bar) && self.subscribed(i, name) {
                idxs.push(i);
            }
            i = i + 1;
        }
        idxs
    }
}

/// A strategy that acts on the close of a bar only is never told of a feature
/// within a bar.
pub proof fn law_bar_close_strategies_wait(
    strat_subs: Seq<Vec<String>>,
    bar_close: Seq<bool>,
    name: Seq<char>,
    n: int,
    i: int,
)
    requires
        0 <= n <= bar_close.len() <= usize::MAX,
        0 <= i < told(strat_subs, bar_close, name, false, n).len(),
    ensures
        told(strat_subs, bar_close, name, false, n)[i] < n,
        !bar_close[told(strat_subs, bar_close, name, false, n)[i] as int],
    decreases n,
{
    let before = told(strat_subs, bar_close, name, false, n - 1);
    if i < before.len() {
        law_bar_close_strategies_wait(strat_subs, bar_close, name, n - 1, i);
        assert(told(strat_subs, bar_close, name, false, n)[i] == before[i]);
    }
}

// ---------------------------------------------------------------------------
// Intents
// ---------------------------------------------------------------------------

/// The run with remarks of a strategy in its log.
pub open spec fn remarked(v: RunView, logs: Seq<String>) -> RunView
    decreases logs.len(),
{
    if logs.len() == 0 {
        v
    } else {
        let before = remarked(v, logs.drop_last());
        RunView {
            seq: before.seq + 1,
            log: logged(before.log, remark_line((before.seq + 1) as u64, logs.last()@)),
            ..before
        }
    }
}

/// What a strategy answered: its intents with their texts, and its remarks.
#[derive(Debug)]
pub struct Answer {
    pub intents: Vec<(OrderIntent, IntentTexts)>,
    pub remarks: Vec<String>,
}

/// The intents of several answers, in order.
pub open spec fn all_intents(answers: Seq<Answer>) -> Seq<(OrderIntent, IntentTexts)>
    decreases answers.len(),
{
    if answers.len() == 0 {
        Seq::empty()
    } else {
        all_intents(answers.drop_last()) + answers.last().intents@
    }
}

/// The remarks of several answers, in order.
pub open spec fn all_remarks(answers: Seq<Answer>) -> Seq<String>
    decreases answers.len(),
{
    if answers.len() == 0 {
        Seq::empty()
    } else {
        all_remarks(answers.drop_last()) + answers.last().remarks@
    }
}

/// The answers of all strategies to one call as one answer: they are recorded
/// in the order of the strategies, all remarks ahead of all intents.
pub fn dispatch_all(answers: Vec<Answer>) -> (all: Answer)
    ensures
        all.intents@ == all_intents(answers@),
        all.remarks@ == all_remarks(answers@),
{
    let ghost given = answers@;
    let mut answers = answers;
    let mut all = Answer { intents: Vec::new(), remarks: Vec::new() };
    assert(all.intents@ =~= Seq::<(OrderIntent, IntentTexts)>::empty());
    assert(all.remarks@ =~= Seq::<String>::empty());
    assert(given.take(given.len() as int) =~= given);
    while answers.len() > 0
        invariant
            answers@.len() <= given.len(),
            answers@ =~= given.take(answers@.len() as int),
            all_intents(given) =~= all_intents(answers@) + all.intents@,
            all_remarks(given) =~= all_remarks(answers@) + all.remarks@,
        decreases answers@.len(),
    {
        let ghost before = answers@;
        if let Some(mut last) = answers.pop() {
            assert(before.drop_last() =~= answers@);
            assert(last == before.last());
            last.intents.append(&mut all.intents);
            last.remarks.append(&mut all.remarks);
            all = last;
        }
    }
    assert(all_intents(answers@) =~= Seq::<(OrderIntent, IntentTexts)>::empty());
    assert(all_remarks(answers@) =~= Seq::<String>::empty());
    all
}

/// The run with an intent in its log, under the next number of the run.
pub open spec fn stamped(v: RunView, i: OrderIntent, t: IntentTexts) -> RunView {
    RunView {
        next_intent: v.next_intent + 1,
        intent_strategy: v.intent_strategy.insert(v.next_intent as u128, i.strategy@),
        seq: v.seq + 1,
        log: LogView {
            intents: v.log.intents + 1,
            ..logged(v.log, intent_line((v.seq + 1) as u64, i, t))
        },
        ..v
    }
}

impl Backtester {
    /// Logs the remarks of a strategy, ahead of the intents that they explain.
    pub fn log_remarks(&mut self, logs: &Vec<String>)
        requires
            old(self).wf(),
            old(self).seq + logs@.len() <= u64::MAX,
        ensures
            final(self).wf(),
            final(self).same_strategies(old(self)),
            final(self)@ == remarked(old(self)@, logs@),
            final(self).seq == old(self).seq + logs@.len(),
    {
        let mut i: usize = 0;
        assert(logs@.take(0).len() == 0);
        while i < logs.len()
            invariant
                i <= logs@.len(),
                self.wf(),
                self.same_strategies(old(self)),
                self.seq == old(self).seq + i,
                old(self).seq + logs@.len() <= u64::MAX,
                self@ == remarked(old(self)@, logs@.take(i as int)),
            decreases logs@.len() - i,
        {
            assert(logs@.take(i + 1).drop_last() =~= logs@.take(i as int));
            assert(logs@.take(i + 1).last() == logs@[i as int]);
            self.seq = self.seq + 1;
            self.log.record_log(self.seq, logs[i].as_str());
            i = i + 1;
        }
        assert(logs@.take(i as int) =~= logs@);
    }

    /// Gives an intent the next number of the run, keeps which strategy it is
    /// of, and logs it.
    pub fn stamp_intent(&mut self, intent: &mut OrderIntent, texts: &IntentTexts)
        requires
            old(self).wf(),
            old(self).seq < u64::MAX,
            old(self).next_intent < u128::MAX,
            old(self).log.intents < u64::MAX,
        ensures
            final(self).wf(),
            final(self).same_strategies(old(self)),
            *final(intent) == (OrderIntent {
                intent_id: old(self).next_intent,
                ..*old(intent)
            }),
            final(self)@ == stamped(old(self)@, *old(intent), *texts),
    {
        let ghost m0 = self.intent_strategy.map();
        let id: u128 = self.next_intent;
        intent.intent_id = id;
        self.next_intent = self.next_intent + 1;
        let name: String = intent.strategy.as_str().to_owned();
        let ghost named = name;
        self.intent_strategy.set(id, name);
        self.seq = self.seq + 1;
        self.log.record_intent(self.seq, intent, texts);
        assert(names_of(self.intent_strategy.map()) =~= names_of(m0).insert(id, intent.strategy@))
            by {
            assert(self.intent_strategy.map() == m0.insert(id, named));
        }
        assert(self@ == stamped(old(self)@, *old(intent), *texts));
    }
}

/// No two intents of a run get one number, and each number leads back to the
/// strategy that asked.
pub proof fn law_intents_attributed(
    v: RunView,
    a: OrderIntent,
    b: OrderIntent,
    s: IntentTexts,
    t: IntentTexts,
)
    requires
        0 <= v.next_intent,
        v.next_intent + 1 <= u128::MAX,
    ensures
        ({
            let w = stamped(stamped(v, a, s), b, t);
            &&& w.intent_strategy[v.next_intent as u128] == a.strategy@
            &&& w.intent_strategy[(v.next_intent + 1) as u128] == b.strategy@
            &&& v.next_intent as u128 != (v.next_intent + 1) as u128
            &&& w.next_intent == v.next_intent + 2
        }),
{
}

// ---------------------------------------------------------------------------
// The way to the risk gate
// ---------------------------------------------------------------------------

/// Sixty seconds.
pub const RATE_WINDOW_NS: i64 = 60_000_000_000;

/// The times within the last sixty seconds.
pub open spec fn recent(times: Seq<i64>, now: i64) -> Seq<i64>
    decreases times.len(),
{
    if times.len() == 0 {
        Seq::empty()
    } else {
        let before = recent(times.drop_last(), now);
        if now - times.last() < RATE_WINDOW_NS {
            before.push(times.last())
        } else {
            before
        }
    }
}

/// The size of an order: contracts as asked for, but not below zero, or what
/// the sizing rule made of its units of risk.
pub open spec fn order_qty(qty: SizeUnit, sized: Real) -> Real {
    match qty {
        SizeUnit::Contracts(c) => c.max_of(nought()),
        SizeUnit::RiskUnits(_) => sized,
    }
}

/// The kind of order that waits; nothing for a cancellation.
pub open spec fn pending_kind(k: OrderKind) -> Option<PendingKind> {
    match k {
        OrderKind::Market => Some(PendingKind::Market),
        OrderKind::Limit { px } => Some(PendingKind::Limit(px)),
        OrderKind::Cancel => None,
    }
}

/// Whether an intent goes to the risk gate: it asks for an order, of a size
/// that is not zero or below.
pub open spec fn goes_to_gate(i: OrderIntent, sized: Real) -> bool {
    pending_kind(i.kind) is Some && !order_qty(i.qty, sized).le(nought())
}

/// The last price of a symbol; zero where there is none.
pub open spec fn mark_in(v: RunView, symbol: u32) -> Real {
    if v.marks.dom().contains(symbol) {
        v.marks[symbol]
    } else {
        nought()
    }
}

/// What the risk gate is asked.
#[derive(Clone, Copy, Debug, PartialEq, Eq, Structural)]
pub struct GateRequest {
    pub venue: Venue,
    pub symbol: SymbolId,
    pub side: Side,
    pub kind: PendingKind,
    pub qty: Real,
    /// The quantity, below zero for a sale.
    pub signed_qty: Real,
    /// The limit, or the last price for a market order.
    pub price: Real,
    pub mark: Real,
    pub current_position_qty: Real,
    pub orders_last_min: u32,
    pub open_positions: u32,
    /// The equity at the first event of the day, or the cash at the start.
    pub day_start_equity: Real,
    pub reduce_only: bool,
}

/// The signed quantity of an order.
pub open spec fn signed_of(side: Side, qty: Real) -> Real {
    match side {
        Side::Buy => qty,
        Side::Sell => qty.opposite(),
    }
}

fn signed(side: Side, qty: Real) -> (x: Real)
    ensures
        x == signed_of(side, qty),
{
    match side {
        Side::Buy => qty,
        Side::Sell => qty.negated(),
    }
}

/// The run behind an intent. An invalid one is logged and goes no further; a
/// cancellation, or an order for nothing, is passed over; any other is logged
/// with the verdict of the risk rule, and waits for a fill where it passed.
pub open spec fn enqueued(
    v: RunView,
    i: OrderIntent,
    now: i64,
    invalid: Option<Seq<char>>,
    sized: Real,
    verdict: Seq<char>,
    pass: bool,
) -> RunView {
    match invalid {
        Some(reason) => RunView {
            seq: v.seq + 1,
            log: logged(v.log, invalid_line((v.seq + 1) as u64, i.intent_id, reason)),
            ..v
        },
        None => if !goes_to_gate(i, sized) {
            v
        } else {
            RunView {
                intent_ts: recent(v.intent_ts, now).push(now),
                seq: v.seq + 1,
                log: logged(v.log, verdict_line((v.seq + 1) as u64, i.intent_id, verdict)),
                pending: if pass {
                    v.pending.push(
                        Pending {
                            symbol: i.symbol,
                            venue: i.venue,
                            side: i.side,
                            qty: order_qty(i.qty, sized),
                            kind: pending_kind(i.kind)->0,
                            ready_ns: (now + v.cfg.latency_ns) as i64,
                            intent_id: i.intent_id,
                        },
                    )
                } else {
                    v.pending
                },
                ..v
            }
        },
    }
}

fn kept_recent(times: &Vec<i64>, now: i64) -> (r: Vec<i64>)
    ensures
        r@ == recent(times@, now),
{
    let mut r: Vec<i64> = Vec::new();
    let mut i: usize = 0;
    assert(r@ =~= recent(times@.take(0), now));
    while i < times.len()
        invariant
            i <= times@.len(),
            r@ == recent(times@.take(i as int), now),
        decreases times@.len() - i,
    {
        assert(times@.take(i + 1).drop_last() =~= times@.take(i as int));
        assert(times@.take(i + 1).last() == times@[i as int]);
        if (now as i128) - (times[i] as i128) < RATE_WINDOW_NS as i128 {
            r.push(times[i]);
        }
        i = i + 1;
    }
    assert(times@.take(i as int) =~= times@);
    r
}

fn sized_qty(qty: SizeUnit, sized: Real) -> (q: Real)
    ensures
        q == order_qty(qty, sized),
{
    match qty {
        SizeUnit::Contracts(c) => c.max(Real { bits: 0 }),
        SizeUnit::RiskUnits(_) => sized,
    }
}

impl Backtester {
    /// What the sizing rule reads of a symbol: its volatility, or the default
    /// one, and its last price.
    pub fn sizing_inputs(&self, symbol: SymbolId) -> (r: (Real, Real))
        requires
            self.wf(),
        ensures
            r.0 == if self@.vols.dom().contains(symbol.0) {
                self@.vols[symbol.0]
            } else {
                self.cfg.default_vol_frac
            },
            r.1 == mark_in(self@, symbol.0),
    {
        let vol: Real = match self.latest_vol.get(&symbol.0) {
            Some(v) => *v,
            None => self.cfg.default_vol_frac,
        };
        let mark: Real = match self.latest_mark.get(&symbol.0) {
            Some(m) => *m,
            None => Real { bits: 0 },
        };
        (vol, mark)
    }

    /// What the risk gate is asked of an intent; nothing where it does not go
    /// there.
    pub fn gate_request(&self, intent: &OrderIntent, now: i64, sized: Real) -> (r: Option<
        GateRequest,
    >)
        requires
            self.wf(),
        ensures
            r is Some <==> goes_to_gate(*intent, sized),
            r matches Some(g) ==> {
                let mark = mark_in(self@, intent.symbol.0);
                &&& g.venue == intent.venue
                &&& g.symbol == intent.symbol
                &&& g.side == intent.side
                &&& Some(g.kind) == pending_kind(intent.kind)
                &&& g.qty == order_qty(intent.qty, sized)
                &&& g.signed_qty == signed_of(intent.side, g.qty)
                &&& g.mark == mark
                &&& g.price == match g.kind {
                    PendingKind::Limit(px) => px,
                    PendingKind::Market => mark,
                }
                &&& g.current_position_qty == held_in(self@, intent.symbol.0).qty
                &&& g.orders_last_min == recent(self@.intent_ts, now).len() as u32
                &&& g.open_positions == crate::account::count_open(
                    self.acct.positions.entries@,
                ) as u32
                &&& g.day_start_equity == match self.day_start {
                    Some((_, e)) => e,
                    None => self.cfg.start_cash,
                }
                &&& g.reduce_only == intent.reduce_only
            },
    {
        let kind: PendingKind = match intent.kind {
            OrderKind::Market => PendingKind::Market,
            OrderKind::Limit { px } => PendingKind::Limit(px),
            OrderKind::Cancel => {
                return None;
            },
        };
        let qty: Real = sized_qty(intent.qty, sized);
        if qty.at_most(Real { bits: 0 }) {
            return None;
        }
        let mark: Real = self.sizing_inputs(intent.symbol).1;
        let times = kept_recent(&self.intent_ts, now);
        let orders: u64 = times.len() as u64;
        let open: u64 = self.acct.open_positions() as u64;
        Some(
            GateRequest {
                venue: intent.venue,
                symbol: intent.symbol,
                side: intent.side,
                kind,
                qty,
                signed_qty: signed(intent.side, qty),
                price: match kind {
                    PendingKind::Limit(px) => px,
                    PendingKind::Market => mark,
                },
                mark,
                current_position_qty: self.acct.position(intent.symbol),
                orders_last_min: low_u32(orders),
                open_positions: low_u32(open),
                day_start_equity: match self.day_start {
                    Some((_, e)) => e,
                    None => self.cfg.start_cash,
                },
                reduce_only: intent.reduce_only,
            },
        )
    }

    /// Takes an intent on its way: `invalid` is why it is not valid, if it is
    /// not, `sized` is what the sizing rule made of it, and `verdict` and
    /// `pass` are what the risk gate said.
    pub fn enqueue(
        &mut self,
        intent: &OrderIntent,
        now: i64,
        invalid: Option<&str>,
        sized: Real,
        verdict: &str,
        pass: bool,
    )
        requires
            old(self).wf(),
            old(self).seq < u64::MAX,
            i64::MIN <= now + old(self).cfg.latency_ns <= i64::MAX,
        ensures
            final(self).wf(),
            final(self).same_strategies(old(self)),
            final(self)@ == enqueued(
                old(self)@,
                *intent,
                now,
                match invalid {
                    Some(e) => Some(e@),
                    None => None,
                },
                sized,
                verdict@,
                pass,
            ),
    {
        match invalid {
            Some(e) => {
                self.seq = self.seq + 1;
                self.log.record_invalid_intent(self.seq, intent.intent_id, e);
            },
            None => {
                let kind: PendingKind = match intent.kind {
                    OrderKind::Market => PendingKind::Market,
                    OrderKind::Limit { px } => PendingKind::Limit(px),
                    OrderKind::Cancel => {
                        return ;
                    },
                };
                let qty: Real = sized_qty(intent.qty, sized);
                if qty.at_most(Real { bits: 0 }) {
                    return ;
                }
                self.intent_ts = kept_recent(&self.intent_ts, now);
                self.intent_ts.push(now);
                self.seq = self.seq + 1;
                self.log.record_verdict(self.seq, intent.intent_id, verdict);
                if pass {
                    self.pending.push(
                        Pending {
                            symbol: intent.symbol,
                            venue: intent.venue,
                            side: intent.side,
                            qty,
                            kind,
                            ready_ns: now + self.cfg.latency_ns,
                            intent_id: intent.intent_id,
                        },
                    );
                }
            },
        }
    }
}

/// The low 32 bits.
#[verifier::truncate]
fn low_u32(n: u64) -> (r: u32)
    ensures
        r == n as u32,
{
    n as u32
}

/// An order waits for a fill only if it is valid and the risk rule let it pass;
/// nothing else changes what waits.
pub proof fn law_only_passed_orders_wait(
    v: RunView,
    i: OrderIntent,
    now: i64,
    invalid: Option<Seq<char>>,
    sized: Real,
    verdict: Seq<char>,
    pass: bool,
)
    ensures
        invalid is Some || !pass || !goes_to_gate(i, sized) ==> enqueued(
            v,
            i,
            now,
            invalid,
            sized,
            verdict,
            pass,
        ).pending == v.pending,
        invalid is None && pass && goes_to_gate(i, sized) ==> enqueued(
            v,
            i,
            now,
            invalid,
            sized,
            verdict,
            pass,
        ).pending.drop_last() == v.pending,
{
    let w = enqueued(v, i, now, invalid, sized, verdict, pass);
    if invalid is None && pass && goes_to_gate(i, sized) {
        assert(w.pending.drop_last() =~= v.pending);
    }
}

/// Every time that the rate window keeps lies within it.
pub proof fn law_rate_window(times: Seq<i64>, now: i64, i: int)
    requires
        0 <= i < recent(times, now).len(),
    ensures
        now - recent(times, now)[i] < RATE_WINDOW_NS,
    decreases times.len(),
{
    let before = recent(times.drop_last(), now);
    if i < before.len() {
        law_rate_window(times.drop_last(), now, i);
        assert(recent(times, now)[i] == before[i]);
    }
}

// ---------------------------------------------------------------------------
// Fills
// ---------------------------------------------------------------------------

/// What a fill costs and brings.
#[derive(Clone, Copy, Debug, PartialEq, Eq, Structural)]
pub struct FillCosts {
    pub fee: Real,
    /// The profit of what was closed, after fees and funding.
    pub net: Real,
    /// The sums of the main tally with that profit.
    pub all: TallySums,
    /// The sums of the tally of its tag with that profit.
    pub tagged: TallySums,
}

/// The fill as it is logged.
pub open spec fn fill_record(p: ProducedFill, fee: Real, now: i64) -> Fill {
    Fill {
        intent_id: p.intent_id,
        symbol: p.symbol,
        side: p.side,
        price: p.price,
        qty: p.qty,
        fee,
        liquidity: p.liquidity,
        ts_ns: now,
    }
}

/// Since when symbols are held, behind a fill: a symbol that is held keeps the
/// time from which it was, and one that is not is forgotten.
pub open spec fn holds_after(m: Map<u32, i64>, symbol: u32, qty: Real, now: i64) -> Map<u32, i64> {
    if qty.zero() {
        m.remove(symbol)
    } else if m.dom().contains(symbol) {
        m
    } else {
        m.insert(symbol, now)
    }
}

/// The run behind a fill.
pub open spec fn filled(v: RunView, p: ProducedFill, n: FillNumbers, c: FillCosts) -> RunView {
    let signed = signed_of(p.side, p.qty);
    let before = held_in(v, p.symbol.0);
    let after = position_after(before, signed, p.price, p.optimism, n);
    let outcome = outcome_of(before, signed, p.optimism, n);
    let closed = outcome.closed_qty.positive();
    RunView {
        positions: v.positions.insert(p.symbol.0, after),
        acct_marks: marks_after(v.acct_marks, p.symbol.0, p.price),
        totals: Totals {
            cash: n.cash,
            fees: n.fees,
            realized: if ends_trade(kind_of(before.qty, signed, n.sum)) {
                n.realized
            } else {
                v.totals.realized
            },
            ..v.totals
        },
        hold_start: holds_after(v.hold_start, p.symbol.0, after.qty, v.now),
        trades: if closed {
            trades_with(v.trades, c.net, outcome.optimism, c.all, c.tagged)
        } else {
            v.trades
        },
        trade_pnls: if closed {
            v.trade_pnls.push((v.now, c.net))
        } else {
            v.trade_pnls
        },
        seq: v.seq + 1,
        log: LogView {
            fills: v.log.fills + 1,
            ..logged(
                v.log,
                fill_line((v.seq + 1) as u64, fill_record(p, c.fee, v.now), p.optimism),
            )
        },
        ..v
    }
}

impl Backtester {
    /// The rate of the fee: a fill that provided liquidity pays the maker's.
    pub fn fee_rate(&self, liquidity: Liquidity) -> (r: Real)
        ensures
            r == match liquidity {
                Liquidity::Maker => self.cfg.maker_fee,
                Liquidity::Taker => self.cfg.taker_fee,
            },
    {
        match liquidity {
            Liquidity::Maker => self.cfg.maker_fee,
            Liquidity::Taker => self.cfg.taker_fee,
        }
    }

    /// Accounts for a fill, logs it, and gives it back for the strategies. A
    /// fill that closes a part of a position is a trade, under the worst tag
    /// of its legs.
    pub fn apply_produced_fill(&mut self, p: &ProducedFill, n: FillNumbers, c: FillCosts) -> (f:
        Fill)
        requires
            old(self).wf(),
            old(self).seq < u64::MAX,
            old(self).log.fills < u64::MAX,
            old(self).metrics.has_room(),
        ensures
            final(self).wf(),
            final(self).same_strategies(old(self)),
            f == fill_record(*p, c.fee, old(self).now),
            final(self)@ == filled(old(self)@, *p, n, c),
    {
        let ghost h0 = self.hold_start.map();
        let signed_qty: Real = signed(p.side, p.qty);
        let outcome = self.acct.apply_fill(p.symbol, signed_qty, p.price, p.optimism, n);
        let qty: Real = self.acct.position(p.symbol);
        match self.hold_start.find(&p.symbol.0) {
            Ok(i) => {
                if qty.is_zero() {
                    let _ = self.hold_start.remove_at(i);
                }
            },
            Err(i) => {
                if !qty.is_zero() {
                    self.hold_start.set(p.symbol.0, self.now);
                } else {
                    assert(h0.remove(p.symbol.0) =~= h0);
                }
            },
        }
        if outcome.closed_qty.is_positive() {
            self.metrics.record_trade_with_optimism(c.net, outcome.optimism, c.all, c.tagged);
            self.trade_pnls.push((self.now, c.net));
        }
        self.seq = self.seq + 1;
        let f = Fill {
            intent_id: p.intent_id,
            symbol: p.symbol,
            side: p.side,
            price: p.price,
            qty: p.qty,
            fee: c.fee,
            liquidity: p.liquidity,
            ts_ns: self.now,
        };
        self.log.record_fill_tagged(self.seq, &f, p.optimism);
        f
    }

    /// What the fill models read of the configuration.
    pub fn fill_params(&self) -> (p: FillParams)
        ensures
            p == (FillParams {
                model: self.cfg.fill_model,
                slip_frac: self.cfg.slip_frac,
                participation: self.cfg.participation,
                queue_share: self.cfg.queue_share,
                bar_tf_ns: self.cfg.bar_tf_ns,
            }),
    {
        FillParams {
            model: self.cfg.fill_model,
            slip_frac: self.cfg.slip_frac,
            participation: self.cfg.participation,
            queue_share: self.cfg.queue_share,
            bar_tf_ns: self.cfg.bar_tf_ns,
        }
    }

    pub fn metrics(&self) -> (m: &Metrics)
        ensures
            *m == self.metrics,
    {
        &self.metrics
    }

    pub fn decision_log(&self) -> (l: &DecisionLog)
        ensures
            *l == self.log,
    {
        &self.log
    }

    /// The quantity held.
    pub fn position(&self, symbol: SymbolId) -> (q: Real)
        requires
            self.wf(),
        ensures
            q == held_in(self@, symbol.0).qty,
    {
        self.acct.position(symbol)
    }

    /// The average cost of what is held.
    pub fn avg_cost(&self, symbol: SymbolId) -> (x: Real)
        requires
            self.wf(),
        ensures
            x == held_in(self@, symbol.0).avg,
    {
        self.acct.avg_cost(symbol)
    }

    /// The time of the run's clock.
    pub fn now_ns(&self) -> (t: i64)
        ensures
            t == self.now,
    {
        self.now
    }

    /// The fees paid.
    pub fn fees(&self) -> (x: Real)
        ensures
            x == self@.totals.fees,
    {
        self.acct.fees()
    }

    /// The profits of the closed trades, with their times.
    pub fn trade_pnls(&self) -> (v: &Vec<(i64, Real)>)
        ensures
            v@ == self@.trade_pnls,
    {
        &self.trade_pnls
    }

    /// The strategy that an intent is of, if it is known.
    pub fn strategy_of(&self, intent_id: u128) -> (r: Option<&String>)
        requires
            self.wf(),
        ensures
            match r {
                Some(s) => self@.intent_strategy.dom().contains(intent_id) && s@
                    == self@.intent_strategy[intent_id],
                None => !self@.intent_strategy.dom().contains(intent_id),
            },
    {
        self.intent_strategy.get(&intent_id)
    }
}

// ---------------------------------------------------------------------------
// Guards
// ---------------------------------------------------------------------------

/// The interval of funding, at least 1.
pub open spec fn funding_len(cfg: SimConfig) -> int {
    if cfg.funding_check_interval_ns < 1 {
        1
    } else {
        cfg.funding_check_interval_ns as int
    }
}

/// How many funding boundaries lie between two times.
pub open spec fn boundaries(from: int, to: int, len: int) -> int {
    to / len - from / len
}

/// Whether a held symbol saw fewer funding events than boundaries.
pub open spec fn lacks_funding(v: RunView, symbol: u32) -> bool {
    v.hold_start.dom().contains(symbol) && fundings(v.funding_count, symbol) < boundaries(
        v.hold_start[symbol] as int,
        v.now as int,
        funding_len(v.cfg),
    )
}

impl Backtester {
    /// Refuses a run that held a symbol across a funding boundary without the
    /// funding event for it, naming the first such symbol.
    pub fn check_funding_coverage(&self) -> (r: Result<(), SimError>)
        requires
            self.wf(),
        ensures
            match r {
                Ok(()) => self@.run_start is None || forall|s: u32| !lacks_funding(self@, s),
                Err(SimError::MissingFunding(s)) => self@.run_start is Some && lacks_funding(
                    self@,
                    s.0,
                ) && forall|t: u32| t < s.0 ==> !lacks_funding(self@, t),
                Err(_) => false,
            },
    {
        if self.run_start_ns.is_none() {
            return Ok(());
        }
        let len: i64 = if self.cfg.funding_check_interval_ns < 1 {
            1
        } else {
            self.cfg.funding_check_interval_ns
        };
        let end: i64 = div_floor(self.now, len);
        let entries = &self.hold_start.entries;
        let mut i: usize = 0;
        while i < entries.len()
            invariant
                i <= entries@.len(),
                entries@ == self.hold_start.entries@,
                self.wf(),
                self@.run_start is Some,
                len == funding_len(self.cfg),
                len >= 1,
                end == self.now as int / len as int,
                forall|k: int|
                    0 <= k < i ==> !lacks_funding(self@, (#[trigger] entries@[k]).0),
            decreases entries@.len() - i,
        {
            let symbol: u32 = entries[i].0;
            let start: i64 = div_floor(entries[i].1, len);
            let count: u32 = match self.funding_count.get(&symbol) {
                Some(c) => *c,
                None => 0,
            };
            proof {
                lemma_pos(self.hold_start.entries@, i as int);
            }
            if (count as i128) < end as i128 - start as i128 {
                proof {
                    assert forall|t: u32| t < symbol implies !lacks_funding(self@, t) by {
                        if self.hold_start.map().dom().contains(t) {
                            let k = crate::ordered::key_pos(entries@, t);
                            assert(entries@[k].0.id() == t);
                            if k > i {
                                assert(u32::precedes(entries@[i as int].0.id(), entries@[k].0.id()));
                            }
                        }
                    }
                }
                return Err(SimError::MissingFunding(SymbolId(symbol)));
            }
            i = i + 1;
        }
        proof {
            assert forall|s: u32| !lacks_funding(self@, s) by {
                if self.hold_start.map().dom().contains(s) {
                    let k = crate::ordered::key_pos(entries@, s);
                    assert(entries@[k].0.id() == s);
                    assert(!lacks_funding(self@, entries@[k].0));
                }
            }
        }
        Ok(())
    }

    /// The guard at the end of a session.
    pub fn check_funding(&self) -> (r: Result<(), SimError>)
        requires
            self.wf(),
        ensures
            match r {
                Ok(()) => self@.run_start is None || forall|s: u32| !lacks_funding(self@, s),
                Err(SimError::MissingFunding(s)) => self@.run_start is Some && lacks_funding(
                    self@,
                    s.0,
                ) && forall|t: u32| t < s.0 ==> !lacks_funding(self@, t),
                Err(_) => false,
            },
    {
        self.check_funding_coverage()
    }

    /// Refuses to run over a recording that covers too little.
    pub fn check_coverage(&self, coverage: Real) -> (r: Result<(), SimError>)
        ensures
            match r {
                Ok(()) => !coverage.lt(self.cfg.min_coverage),
                Err(e) => coverage.lt(self.cfg.min_coverage) && e == (SimError::LowCoverage {
                    actual: coverage,
                    required: self.cfg.min_coverage,
                }),
            },
    {
        if coverage.less(self.cfg.min_coverage) {
            Err(SimError::LowCoverage { actual: coverage, required: self.cfg.min_coverage })
        } else {
            Ok(())
        }
    }
}

/// A hold that crosses no funding boundary owes no funding event.
pub proof fn law_no_boundary_no_funding(v: RunView, symbol: u32)
    requires
        v.hold_start.dom().contains(symbol),
        v.hold_start[symbol] as int / funding_len(v.cfg) == v.now as int / funding_len(v.cfg),
    ensures
        !lacks_funding(v, symbol),
{
}

// ---------------------------------------------------------------------------
// Orders over a whole run
// ---------------------------------------------------------------------------

/// How waiting orders are held against the market: with what, and when.
pub enum Matching {
    Bars { symbol: SymbolId, close_ts: i64, buy_px: Real, sell_px: Real },
    Market { model: FillModel, symbol: SymbolId, now: i64, offers: Seq<MarketOffer> },
    Limits { model: FillModel, symbol: SymbolId, print: Print, now: i64, lefts: Seq<Real> },
}

/// When the matching takes place; bars are matched as of their close.
pub open spec fn matched_at(m: Matching) -> int {
    match m {
        Matching::Bars { close_ts, .. } => close_ts as int,
        Matching::Market { now, .. } => now as int,
        Matching::Limits { now, .. } => now as int,
    }
}

/// The quotes that the matching gives the orders.
pub open spec fn quotes_of(pending: Seq<Pending>, m: Matching) -> Seq<Option<Quote>> {
    match m {
        Matching::Bars { symbol, close_ts, buy_px, sell_px } => Seq::new(
            pending.len(),
            |i: int| bar_quote(pending[i], symbol, close_ts as int, buy_px, sell_px),
        ),
        Matching::Market { model, symbol, now, offers } => Seq::new(
            pending.len(),
            |i: int| market_quote(pending[i], model, symbol, now as int, offers[i]),
        ),
        Matching::Limits { model, symbol, print, now, lefts } => Seq::new(
            pending.len(),
            |i: int| limit_quote(pending[i], model, symbol, now as int, print, lefts[i]),
        ),
    }
}

/// A step of a run, as far as the orders that wait are concerned.
pub enum Deed {
    /// [`Backtester::enqueue`].
    Asked {
        intent: OrderIntent,
        now: i64,
        invalid: Option<Seq<char>>,
        sized: Real,
        verdict: Seq<char>,
        pass: bool,
    },
    /// A matching of the orders that wait.
    Matched(Matching),
    /// Any other step: it leaves them alone.
    Other,
}

/// The deed leads from one state of a run to the next.
pub open spec fn leads_to(v: RunView, d: Deed, w: RunView) -> bool {
    match d {
        Deed::Asked { intent, now, invalid, sized, verdict, pass } => i64::MIN <= now
            + v.cfg.latency_ns <= i64::MAX && w == enqueued(
            v,
            intent,
            now,
            invalid,
            sized,
            verdict,
            pass,
        ),
        Deed::Matched(m) => w.cfg == v.cfg && w.pending == remaining(
            v.pending,
            quotes_of(v.pending, m),
        ),
        Deed::Other => w.cfg == v.cfg && w.pending == v.pending,
    }
}

/// The deeds lead from state to state, and no order waits at first.
pub open spec fn is_run(states: Seq<RunView>, deeds: Seq<Deed>) -> bool {
    &&& states.len() == deeds.len() + 1
    &&& states[0].pending.len() == 0
    &&& forall|i: int|
        0 <= i < deeds.len() ==> leads_to(states[i], #[trigger] deeds[i], states[i + 1])
}

/// The deed is an order that passed the risk gate, under that number, for that
/// symbol and side, and ready at that time.
pub open spec fn is_order(
    d: Deed,
    latency: int,
    intent_id: u128,
    symbol: SymbolId,
    side: Side,
    ready_ns: int,
) -> bool {
    d matches Deed::Asked { intent, now, invalid, sized, pass, .. } && {
        &&& invalid is None
        &&& pass
        &&& goes_to_gate(intent, sized)
        &&& intent.intent_id == intent_id
        &&& intent.symbol == symbol
        &&& intent.side == side
        &&& ready_ns == now + latency
    }
}

proof fn lemma_produced_from(pending: Seq<Pending>, quotes: Seq<Option<Quote>>, k: int) -> (i: int)
    requires
        0 <= k < produced(pending, quotes).len(),
    ensures
        0 <= i < pending.len(),
        fills(quotes[i]),
        produced(pending, quotes)[k] == fill_of(pending[i], quotes[i]->0),
    decreases pending.len(),
{
    let n = pending.len() - 1;
    let before = produced(pending.drop_last(), quotes);
    if k < before.len() {
        let i = lemma_produced_from(pending.drop_last(), quotes, k);
        assert(produced(pending, quotes)[k] == before[k]);
        i
    } else {
        n
    }
}

proof fn lemma_remaining_from(pending: Seq<Pending>, quotes: Seq<Option<Quote>>, k: int) -> (i: int)
    requires
        0 <= k < remaining(pending, quotes).len(),
    ensures
        0 <= i < pending.len(),
        remaining(pending, quotes)[k] == (Pending {
            qty: remaining(pending, quotes)[k].qty,
            ..pending[i]
        }),
    decreases pending.len(),
{
    let n = pending.len() - 1;
    let before = remaining(pending.drop_last(), quotes);
    if k < before.len() {
        let i = lemma_remaining_from(pending.drop_last(), quotes, k);
        assert(remaining(pending, quotes)[k] == before[k]);
        i
    } else {
        n
    }
}

/// The configuration of a run does not change.
proof fn lemma_run_config(states: Seq<RunView>, deeds: Seq<Deed>, n: int)
    requires
        is_run(states, deeds),
        0 <= n <= deeds.len(),
    ensures
        states[n].cfg == states[0].cfg,
    decreases n,
{
    if n > 0 {
        lemma_run_config(states, deeds, n - 1);
        assert(leads_to(states[n - 1], deeds[n - 1], states[n]));
    }
}

/// Every order that waits was asked for, and passed the risk gate.
pub proof fn law_waiting_orders_passed(
    states: Seq<RunView>,
    deeds: Seq<Deed>,
    n: int,
    k: int,
) -> (j: int)
    requires
        is_run(states, deeds),
        0 <= n <= deeds.len(),
        0 <= k < states[n].pending.len(),
    ensures
        0 <= j < n,
        is_order(
            deeds[j],
            states[0].cfg.latency_ns as int,
            states[n].pending[k].intent_id,
            states[n].pending[k].symbol,
            states[n].pending[k].side,
            states[n].pending[k].ready_ns as int,
        ),
    decreases n,
{
    let v = states[n - 1];
    let d = deeds[n - 1];
    assert(leads_to(v, d, states[n]));
    lemma_run_config(states, deeds, n - 1);
    match d {
        Deed::Asked { .. } => {
            if k < v.pending.len() {
                assert(states[n].pending[k] == v.pending[k]);
                law_waiting_orders_passed(states, deeds, n - 1, k)
            } else {
                n - 1
            }
        },
        Deed::Matched(m) => {
            let i = lemma_remaining_from(v.pending, quotes_of(v.pending, m), k);
            law_waiting_orders_passed(states, deeds, n - 1, i)
        },
        Deed::Other => law_waiting_orders_passed(states, deeds, n - 1, k),
    }
}

/// Over a whole run, every fill is of an order that passed the risk gate
/// earlier, on its symbol and side, and comes no sooner than the latency after
/// it was asked for.
pub proof fn law_no_fill_before_latency(
    states: Seq<RunView>,
    deeds: Seq<Deed>,
    n: int,
    m: Matching,
    k: int,
)
    requires
        is_run(states, deeds),
        0 <= n < deeds.len(),
        deeds[n] == Deed::Matched(m),
        0 <= k < produced(states[n].pending, quotes_of(states[n].pending, m)).len(),
    ensures
        exists|j: int, ready_ns: int|
            0 <= j < n && ready_ns <= matched_at(m) && #[trigger] is_order(
                deeds[j],
                states[0].cfg.latency_ns as int,
                produced(states[n].pending, quotes_of(states[n].pending, m))[k].intent_id,
                produced(states[n].pending, quotes_of(states[n].pending, m))[k].symbol,
                produced(states[n].pending, quotes_of(states[n].pending, m))[k].side,
                ready_ns,
            ),
{
    let pending = states[n].pending;
    let i = lemma_produced_from(pending, quotes_of(pending, m), k);
    let j = law_waiting_orders_passed(states, deeds, n, i);
    let ready_ns = pending[i].ready_ns as int;
    assert(quotes_of(pending, m)[i] is Some);
    assert(ready_ns <= matched_at(m));
    let f = produced(pending, quotes_of(pending, m))[k];
    assert(f == fill_of(pending[i], quotes_of(pending, m)[i]->0));
    assert(is_order(
        deeds[j],
        states[0].cfg.latency_ns as int,
        f.intent_id,
        f.symbol,
        f.side,
        ready_ns,
    ));
}

// ---------------------------------------------------------------------------
// What the steps of a run mean
// ---------------------------------------------------------------------------

/// An event sets the clock, makes its symbol known beside those that were, and
/// begins a day exactly if it is of another day than the last: that day keeps
/// the equity of its first event.
pub proof fn law_event_begins(
    v: RunView,
    venue: Venue,
    symbol: SymbolId,
    recv: i64,
    equity: Real,
    pair: (Venue, SymbolId),
    day: i64,
    first: Real,
)
    ensures
        ({
            let w = begun(v, venue, symbol, recv, equity);
            &&& w.now == recv
            &&& v.run_start is None ==> w.run_start == Some(recv)
            &&& v.run_start is Some ==> w.run_start == v.run_start
            &&& w.allowed.contains((venue, symbol))
            &&& v.allowed.contains(pair) ==> w.allowed.contains(pair)
            &&& w.allowed.contains(pair) ==> v.allowed.contains(pair) || pair == (venue, symbol)
            &&& day * 86_400_000_000_000 <= recv < day * 86_400_000_000_000 + 86_400_000_000_000
                ==> {
                &&& v.day_start is None ==> w.day_start == Some((day, equity))
                &&& v.day_start == Some((day, first)) ==> w.day_start == Some((day, first))
            }
            &&& !(day * 86_400_000_000_000 <= recv < day * 86_400_000_000_000
                + 86_400_000_000_000) && v.day_start == Some((day, first)) ==> w.day_start is Some
                && w.day_start != Some((day, first)) && w.day_start != Some((day, equity))
        }),
{
    let w = begun(v, venue, symbol, recv, equity);
    let at = recv as int / 86_400_000_000_000;
    assert(at * 86_400_000_000_000 <= recv < at * 86_400_000_000_000 + 86_400_000_000_000);
    if v.allowed.contains((venue, symbol)) {
    } else {
        assert(w.allowed[v.allowed.len() as int] == (venue, symbol));
    }
    if v.allowed.contains(pair) {
        let k = v.allowed.index_of(pair);
        assert(w.allowed[k] == pair);
    }
}

/// A trade or a mark sets the price of its symbol and of no other. A funding
/// event counts once for its symbol, and is charged exactly if the symbol is
/// held and the rate is a number. Any other event changes nothing here.
pub proof fn law_event_noted(v: RunView, e: EventEnvelope, n: FundingNumbers, other: u32)
    requires
        fundings(v.funding_count, e.symbol.0) < u32::MAX,
    ensures
        ({
            let w = noted(v, e, n);
            let s = e.symbol.0;
            &&& (e.body matches MarketEvent::Trade { price, .. } ==> w.marks.dom().contains(s)
                && w.marks[s] == price)
            &&& (e.body matches MarketEvent::TradeWithAddr { price, .. } ==> w.marks.dom().contains(
                s,
            ) && w.marks[s] == price)
            &&& (e.body matches MarketEvent::MarkPrice { mark, .. } ==> w.marks.dom().contains(s)
                && w.marks[s] == mark)
            &&& other != s ==> w.marks.dom().contains(other) == v.marks.dom().contains(other)
            &&& other != s && v.marks.dom().contains(other) ==> w.marks[other] == v.marks[other]
            &&& e.body is Funding ==> w.funding_count.dom().contains(s) && w.funding_count[s]
                == fundings(v.funding_count, s) + 1 && w.marks == v.marks
            &&& !(e.body is Funding) ==> w.funding_count == v.funding_count && w.totals == v.totals
                && w.positions == v.positions
            &&& (e.body matches MarketEvent::Funding { rate, .. } ==> {
                let charged = v.positions.dom().contains(s) && !v.positions[s].qty.zero()
                    && rate.finite();
                &&& charged ==> w.totals.cash == n.cash && w.totals.funding_paid == n.funding_paid
                    && w.positions[s].funding == n.leg_funding && w.positions[s].qty
                    == v.positions[s].qty && w.positions[s].avg == v.positions[s].avg
                &&& !charged ==> w.totals == v.totals && w.positions == v.positions
                &&& w.totals.realized == v.totals.realized && w.totals.fees == v.totals.fees
            })
            &&& w.pending == v.pending
            &&& w.log == v.log
            &&& w.now == v.now
        }),
{
}

/// A bar is entered exactly if the event lies in another one than the last, and
/// only then is a return taken.
pub proof fn law_bar_entered(
    v: RunView,
    recv: i64,
    equity: Real,
    drawdown: Real,
    log_return: Real,
    bar: i64,
)
    requires
        v.cfg.bar_tf_ns >= 1,
        bar * v.cfg.bar_tf_ns <= recv < bar * v.cfg.bar_tf_ns + v.cfg.bar_tf_ns,
    ensures
        ({
            let w = ended(v, recv, equity, drawdown, log_return);
            &&& w.last_bar_epoch == bar
            &&& v.last_bar_epoch == bar ==> w.curve.bar_returns == v.curve.bar_returns
                && w.curve.last_equity == v.curve.last_equity
            &&& v.last_bar_epoch != bar ==> w.curve.last_equity == Some(equity)
            &&& v.last_bar_epoch != bar && v.curve.last_equity is Some
                && v.curve.last_equity->0.positive() && equity.positive() ==> w.curve.bar_returns
                == v.curve.bar_returns.push(log_return)
            &&& w.curve.max_drawdown == v.curve.max_drawdown || w.curve.max_drawdown == drawdown
            &&& !drawdown.nan() && !v.curve.max_drawdown.nan() ==> drawdown.le(
                w.curve.max_drawdown,
            ) && v.curve.max_drawdown.le(w.curve.max_drawdown)
        }),
{
    let len = v.cfg.bar_tf_ns as int;
    assert(recv as int / len == bar) by (nonlinear_arith)
        requires
            len >= 1,
            bar * len <= recv < bar * len + len,
    ;
}

/// A timer fires exactly if its time has come, unless its strategy waits for the
/// close of a bar and this is none; then it is put off to `boundary`. One whose
/// time has not come stays as it is.
pub proof fn law_timer_rules(
    timers: Seq<Timer>,
    order: Seq<usize>,
    now: i64,
    bar_close: Seq<bool>,
    at_bar: bool,
    boundary: int,
    i: int,
)
    requires
        0 <= i < order.len(),
    ensures
        ({
            let t = timers[order[i] as int];
            let waits = bar_close[t.owner as int] && !at_bar;
            &&& t.at_ns > now ==> not_due(timers, order, now).contains(t)
            &&& t.at_ns <= now && !waits ==> firing(timers, order, now, bar_close, at_bar).contains(
                t.id,
            )
            &&& t.at_ns <= now && waits ==> deferring(
                timers,
                order,
                now,
                bar_close,
                at_bar,
                boundary,
            ).contains(Timer { at_ns: boundary as i64, ..t })
        }),
    decreases order.len(),
{
    let f = order.drop_last();
    let t = timers[order[i] as int];
    let w = not_due(timers, order, now);
    let r = firing(timers, order, now, bar_close, at_bar);
    let d = deferring(timers, order, now, bar_close, at_bar, boundary);
    if i < f.len() {
        law_timer_rules(timers, f, now, bar_close, at_bar, boundary, i);
        assert(f[i] == order[i]);
        let (w0, r0, d0) = (
            not_due(timers, f, now),
            firing(timers, f, now, bar_close, at_bar),
            deferring(timers, f, now, bar_close, at_bar, boundary),
        );
        let later = Timer { at_ns: boundary as i64, ..t };
        if w0.contains(t) {
            assert(w[w0.index_of(t)] == t);
        }
        if r0.contains(t.id) {
            assert(r[r0.index_of(t.id)] == t.id);
        }
        if d0.contains(later) {
            assert(d[d0.index_of(later)] == later);
        }
    } else {
        if w.len() > 0 {
            assert(w[w.len() - 1] == w.last());
        }
        if r.len() > 0 {
            assert(r[r.len() - 1] == r.last());
        }
        if d.len() > 0 {
            assert(d[d.len() - 1] == d.last());
        }
    }
}

/// Nothing fires before its time, and no strategy that waits for the close of a
/// bar is called within one: each timer that fires was due, and may.
pub proof fn law_fired_timers_were_due(
    timers: Seq<Timer>,
    order: Seq<usize>,
    now: i64,
    bar_close: Seq<bool>,
    at_bar: bool,
    k: int,
) -> (i: int)
    requires
        0 <= k < firing(timers, order, now, bar_close, at_bar).len(),
    ensures
        0 <= i < order.len(),
        timers[order[i] as int].id == firing(timers, order, now, bar_close, at_bar)[k],
        timers[order[i] as int].at_ns <= now,
        !bar_close[timers[order[i] as int].owner as int] || at_bar,
    decreases order.len(),
{
    let f = order.drop_last();
    let r0 = firing(timers, f, now, bar_close, at_bar);
    if k < r0.len() {
        let i = law_fired_timers_were_due(timers, f, now, bar_close, at_bar, k);
        assert(firing(timers, order, now, bar_close, at_bar)[k] == r0[k]);
        i
    } else {
        order.len() - 1
    }
}

/// A strategy is told of a feature exactly if one of its subscriptions is `*` or
/// a beginning of the feature's name, and it need not wait for the close of a
/// bar.
pub proof fn law_told(
    strat_subs: Seq<Vec<String>>,
    bar_close: Seq<bool>,
    name: Seq<char>,
    at_bar: bool,
    n: int,
    i: usize,
)
    requires
        0 <= n <= bar_close.len() <= usize::MAX,
        i < n,
    ensures
        told(strat_subs, bar_close, name, at_bar, n).contains(i) <==> (!bar_close[i as int]
            || at_bar) && exists|k: int|
            0 <= k < strat_subs[i as int]@.len() && ((#[trigger] strat_subs[i as int]@[k])@ == "*"@
                || strat_subs[i as int]@[k]@.is_prefix_of(name)),
    decreases n,
{
    let t = told(strat_subs, bar_close, name, at_bar, n);
    let t0 = told(strat_subs, bar_close, name, at_bar, n - 1);
    let subs = strat_subs[n - 1]@;
    assert forall|k: int| 0 <= k < subs.len() implies covers((#[trigger] subs[k])@, name) == (
    subs[k]@ == "*"@ || subs[k]@.is_prefix_of(name)) by {
        lemma_prefix(subs[k]@, name);
    }
    lemma_told_below(strat_subs, bar_close, name, at_bar, n - 1);
    if i < n - 1 {
        law_told(strat_subs, bar_close, name, at_bar, n - 1, i);
        if t0.contains(i) {
            assert(t[t0.index_of(i)] == i);
        }
        if t.contains(i) {
            let k = t.index_of(i);
            if k < t0.len() {
                assert(t0[k] == i);
            }
        }
    } else {
        let may = !must_wait(bar_close, i, at_bar) && any_covers(subs, name);
        if may {
            assert(t[t.len() - 1] == i);
        }
        if t.contains(i) {
            let k = t.index_of(i);
            if k < t0.len() {
                assert(t0[k] < n - 1);
            }
        }
        if any_covers(subs, name) {
            let k = choose|k: int| 0 <= k < subs.len() && covers((#[trigger] subs[k])@, name);
            assert(subs[k]@ == "*"@ || subs[k]@.is_prefix_of(name));
        }
        if exists|k: int|
            0 <= k < subs.len() && ((#[trigger] subs[k])@ == "*"@ || subs[k]@.is_prefix_of(name)) {
            let k = choose|k: int|
                0 <= k < subs.len() && ((#[trigger] subs[k])@ == "*"@ || subs[k]@.is_prefix_of(
                    name,
                ));
            assert(covers(subs[k]@, name));
        }
    }
}

proof fn lemma_prefix(sub: Seq<char>, name: Seq<char>)
    ensures
        starts(name, sub) == sub.is_prefix_of(name),
{
    if starts(name, sub) {
        assert(sub =~= name.subrange(0, sub.len() as int));
    }
    if sub.is_prefix_of(name) {
        assert(name.take(sub.len() as int) =~= sub);
    }
}

proof fn lemma_told_below(
    strat_subs: Seq<Vec<String>>,
    bar_close: Seq<bool>,
    name: Seq<char>,
    at_bar: bool,
    n: int,
)
    requires
        0 <= n <= usize::MAX,
    ensures
        forall|k: int|
            0 <= k < told(strat_subs, bar_close, name, at_bar, n).len() ==> (#[trigger] told(
                strat_subs,
                bar_close,
                name,
                at_bar,
                n,
            )[k]) < n,
    decreases n,
{
    if n > 0 {
        lemma_told_below(strat_subs, bar_close, name, at_bar, n - 1);
        let t0 = told(strat_subs, bar_close, name, at_bar, n - 1);
        let t = told(strat_subs, bar_close, name, at_bar, n);
        assert forall|k: int| 0 <= k < t.len() implies (#[trigger] t[k]) < n by {
            if k < t0.len() {
                assert(t[k] == t0[k]);
            }
        }
    }
}

/// The orders of the last minute are exactly those within sixty seconds of now,
/// in order.
pub proof fn law_orders_of_a_minute(times: Seq<i64>, now: i64)
    ensures
        recent(times, now) == times.filter(|t: i64| now - t < 60_000_000_000),
    decreases times.len(),
{
    reveal(Seq::filter);
    if times.len() > 0 {
        law_orders_of_a_minute(times.drop_last(), now);
    }
}

/// An order in contracts is for what it says, or for nothing below zero; one in
/// units of risk for what the sizing made of it. Only an order for something
/// goes to the risk gate, and a cancellation never.
pub proof fn law_order_size(i: OrderIntent, sized: Real, c: Real)
    ensures
        i.qty == SizeUnit::Contracts(c) && c.positive() ==> order_qty(i.qty, sized) == c,
        i.qty == SizeUnit::Contracts(c) && !c.positive() ==> order_qty(i.qty, sized).zero(),
        i.qty is RiskUnits ==> order_qty(i.qty, sized) == sized,
        i.kind == OrderKind::Cancel ==> !goes_to_gate(i, sized),
        i.kind != OrderKind::Cancel && order_qty(i.qty, sized).positive() ==> goes_to_gate(
            i,
            sized,
        ),
        order_qty(i.qty, sized).le(nought()) ==> !goes_to_gate(i, sized),
{
}

/// An order that passed waits as it was asked for: symbol, venue, side, kind and
/// number, ready once the latency has passed. It counts for the rate whether it
/// passed or not, and its verdict is logged.
pub proof fn law_order_waits_as_asked(
    v: RunView,
    i: OrderIntent,
    now: i64,
    sized: Real,
    verdict: Seq<char>,
    pass: bool,
    c: Real,
    px: Real,
)
    requires
        i64::MIN <= now + v.cfg.latency_ns <= i64::MAX,
        i.qty == SizeUnit::Contracts(c),
        c.positive(),
        i.kind == OrderKind::Market || i.kind == (OrderKind::Limit { px }),
    ensures
        ({
            let w = enqueued(v, i, now, None, sized, verdict, pass);
            &&& !pass ==> w.pending == v.pending
            &&& pass ==> {
                &&& w.pending.len() == v.pending.len() + 1
                &&& w.pending.last().symbol == i.symbol
                &&& w.pending.last().venue == i.venue
                &&& w.pending.last().side == i.side
                &&& w.pending.last().qty == c
                &&& w.pending.last().ready_ns == now + v.cfg.latency_ns
                &&& w.pending.last().intent_id == i.intent_id
                &&& i.kind == OrderKind::Market ==> w.pending.last().kind == PendingKind::Market
                &&& i.kind == (OrderKind::Limit { px }) ==> w.pending.last().kind
                    == PendingKind::Limit(px)
            }
            &&& w.intent_ts.len() > 0 && w.intent_ts.last() == now
            &&& w.seq == v.seq + 1
            &&& w.log.lines.len() == v.log.lines.len() + 1
            &&& w.log.lines.last() == "V|"@ + crate::text::dec((v.seq + 1) as u64 as nat) + "|"@
                + crate::text::dec(i.intent_id as nat) + "|"@ + verdict
            &&& w.positions == v.positions && w.totals == v.totals
        }),
{
}

/// An intent that is not valid is logged with its reason, and nothing else.
pub proof fn law_invalid_goes_no_further(
    v: RunView,
    i: OrderIntent,
    now: i64,
    reason: Seq<char>,
    sized: Real,
    verdict: Seq<char>,
    pass: bool,
)
    ensures
        ({
            let w = enqueued(v, i, now, Some(reason), sized, verdict, pass);
            &&& w.pending == v.pending
            &&& w.intent_ts == v.intent_ts
            &&& w.log.lines.len() == v.log.lines.len() + 1
            &&& w.log.fills == v.log.fills && w.log.intents == v.log.intents
        }),
{
}

/// A symbol is held from the fill that opened it until one leaves nothing of it;
/// fills in between do not move that time.
pub proof fn law_held_since(m: Map<u32, i64>, symbol: u32, qty: Real, now: i64, other: u32)
    ensures
        qty.zero() ==> !holds_after(m, symbol, qty, now).dom().contains(symbol),
        !qty.zero() ==> holds_after(m, symbol, qty, now).dom().contains(symbol),
        !qty.zero() && m.dom().contains(symbol) ==> holds_after(m, symbol, qty, now)[symbol]
            == m[symbol],
        !qty.zero() && !m.dom().contains(symbol) ==> holds_after(m, symbol, qty, now)[symbol]
            == now,
        other != symbol ==> holds_after(m, symbol, qty, now).dom().contains(other)
            == m.dom().contains(other),
        other != symbol && m.dom().contains(other) ==> holds_after(m, symbol, qty, now)[other]
            == m[other],
{
}

/// A fill against the position is a trade at its time, with its net profit; any
/// other is none. A purchase counts up and a sale down, the symbol's price is
/// the fill's, and the fill is counted and logged.
pub proof fn law_fill_accounted(v: RunView, p: ProducedFill, n: FillNumbers, c: FillCosts)
    requires
        p.qty.positive(),
        v.positions.dom().contains(p.symbol.0) ==> !v.positions[p.symbol.0].qty.nan(),
    ensures
        ({
            let w = filled(v, p, n, c);
            let s = p.symbol.0;
            let long = v.positions.dom().contains(s) && v.positions[s].qty.positive();
            let short = v.positions.dom().contains(s) && v.positions[s].qty.lt(nought());
            let against = (long && p.side == Side::Sell) || (short && p.side == Side::Buy);
            &&& against ==> w.trade_pnls == v.trade_pnls.push((v.now, c.net))
            &&& !against ==> w.trade_pnls == v.trade_pnls && w.trades == v.trades
                && w.totals.realized == v.totals.realized
            &&& against ==> w.totals.realized == n.realized
            &&& against && c.net.positive() && v.trades.all.trades < u64::MAX ==> w.trades.wins
                == v.trades.wins + 1 && w.trades.all.trades == v.trades.all.trades + 1
            &&& w.totals.cash == n.cash && w.totals.fees == n.fees
            &&& !long && !short && p.side == Side::Buy ==> w.positions[s].qty == p.qty
                && w.positions[s].avg == p.price
            &&& !long && !short && p.side == Side::Sell ==> w.positions[s].qty
                == p.qty.opposite() && w.positions[s].avg == p.price
            &&& w.log.fills == v.log.fills + 1
            &&& w.log.lines.len() == v.log.lines.len() + 1
            &&& w.seq == v.seq + 1
            &&& w.pending == v.pending
            &&& w.now == v.now
        }),
{
}

/// A funding boundary lies between two times exactly if a multiple of the
/// interval does, and boundaries add up over times in a row.
pub proof fn law_funding_boundaries(from: int, mid: int, to: int, len: int, k: int)
    requires
        len >= 1,
        from <= mid <= to,
    ensures
        boundaries(from, to, len) == boundaries(from, mid, len) + boundaries(mid, to, len),
        boundaries(from, from + len, len) == 1,
        boundaries(from, from, len) == 0,
        boundaries(from, to, len) >= 0,
        from < k * len <= to ==> boundaries(from, to, len) >= 1,
        boundaries(from, to, len) >= 1 ==> from < (to / len) * len <= to,
{
    assert((from + len) / len == from / len + 1) by (nonlinear_arith)
        requires
            len >= 1,
    ;
    assert(from / len <= mid / len && mid / len <= to / len) by (nonlinear_arith)
        requires
            len >= 1,
            from <= mid <= to,
    ;
    assert((to / len) * len <= to && to < (to / len) * len + len) by (nonlinear_arith)
        requires
            len >= 1,
    ;
    assert((from / len) * len <= from && from < (from / len) * len + len) by (nonlinear_arith)
        requires
            len >= 1,
    ;
    if from < k * len <= to {
        assert(from / len < k && k <= to / len) by (nonlinear_arith)
            requires
                len >= 1,
                from < k * len <= to,
                (to / len) * len <= to < (to / len) * len + len,
                (from / len) * len <= from < (from / len) * len + len,
        ;
    }
    if boundaries(from, to, len) >= 1 {
        assert(from < (to / len) * len) by (nonlinear_arith)
            requires
                len >= 1,
                to / len >= from / len + 1,
                from < (from / len) * len + len,
        ;
    }
}

/// A run is refused for funding exactly if a symbol that is held saw fewer
/// funding events than boundaries since it is.
pub proof fn law_funding_guard(v: RunView, symbol: u32, since: i64)
    requires
        v.cfg.funding_check_interval_ns >= 1,
    ensures
        !v.hold_start.dom().contains(symbol) ==> !lacks_funding(v, symbol),
        v.hold_start.dom().contains(symbol) && v.hold_start[symbol] == since
            && !v.funding_count.dom().contains(symbol) ==> (lacks_funding(v, symbol) <==> boundaries(
            since as int,
            v.now as int,
            v.cfg.funding_check_interval_ns as int,
        ) > 0),
        v.hold_start.dom().contains(symbol) && v.hold_start[symbol] == since
            && v.funding_count.dom().contains(symbol) ==> (lacks_funding(v, symbol)
            <==> v.funding_count[symbol] < boundaries(
            since as int,
            v.now as int,
            v.cfg.funding_check_interval_ns as int,
        )),
{
}

/// A run of one strategy has the seed of the run.
pub proof fn law_first_seed(seed: u64)
    ensures
        seed_of(seed, 0) == seed,
        seed_of(seed, 1) != seed,
{
}

/// Every act of a run that is logged takes the next number and adds one line
/// at the end.
pub proof fn law_one_line_per_act(
    v: RunView,
    i: OrderIntent,
    t: IntentTexts,
    p: ProducedFill,
    n: FillNumbers,
    c: FillCosts,
    remark: String,
)
    ensures
        stamped(v, i, t).seq == v.seq + 1,
        stamped(v, i, t).log.lines == v.log.lines.push(intent_line((v.seq + 1) as u64, i, t)),
        stamped(v, i, t).log.intents == v.log.intents + 1,
        stamped(v, i, t).log.fills == v.log.fills,
        filled(v, p, n, c).seq == v.seq + 1,
        filled(v, p, n, c).log.lines.len() == v.log.lines.len() + 1,
        filled(v, p, n, c).log.lines.last() == fill_line(
            (v.seq + 1) as u64,
            (Fill {
                intent_id: p.intent_id,
                symbol: p.symbol,
                side: p.side,
                price: p.price,
                qty: p.qty,
                fee: c.fee,
                liquidity: p.liquidity,
                ts_ns: v.now,
            }),
            p.optimism,
        ),
        filled(v, p, n, c).log.fills == v.log.fills + 1,
        filled(v, p, n, c).log.intents == v.log.intents,
        remarked(v, seq![remark]).seq == v.seq + 1,
        remarked(v, seq![remark]).log.lines == v.log.lines.push(
            remark_line((v.seq + 1) as u64, remark@),
        ),
{
    assert(seq![remark].drop_last() =~= Seq::<String>::empty());
    assert(remarked(v, Seq::empty()) == v);
    assert(remarked(v, seq![remark]).log.lines =~= v.log.lines.push(
        remark_line((v.seq + 1) as u64, remark@),
    ));
}

/// Remarks are logged one after the other.
pub proof fn law_remarks_in_order(v: RunView, a: Seq<String>, b: Seq<String>)
    ensures
        remarked(v, a + b) == remarked(remarked(v, a), b),
        remarked(v, a).seq == v.seq + a.len(),
        remarked(v, a).log.lines.len() == v.log.lines.len() + a.len(),
    decreases b.len(), a.len(),
{
    if a.len() > 0 {
        law_remarks_in_order(v, a.drop_last(), Seq::empty());
    }
    if b.len() == 0 {
        assert(a + b =~= a);
    } else {
        law_remarks_in_order(v, a, b.drop_last());
        assert((a + b).drop_last() =~= a + b.drop_last());
    }
}

/// A trade matches resting orders before it moves the book's middle; any other
/// event moves the middle first. Bars are matched by trades alone.
pub proof fn law_matching_of_events(body: MarketEvent, model: FillModel)
    ensures
        ({
            let trade = body is Trade || body is TradeWithAddr;
            let s = steps_of(body, model);
            &&& s[0] is Book && s[1] is Note
            &&& s[s.len() - 3] is Timers && s[s.len() - 2] is Features && s[s.len() - 1] is Sample
            &&& trade && model == FillModel::L0BarFill ==> s.len() == 8 && s[2] is Bars
                && s[3] is Apply && s[4] is Mid
            &&& trade && model != FillModel::L0BarFill ==> s.len() == 9 && s[2] is Limits
                && s[3] is Market && s[4] is Apply && s[5] is Mid
            &&& !trade && model == FillModel::L0BarFill ==> s.len() == 6 && s[2] is Mid
            &&& !trade && model != FillModel::L0BarFill ==> s.len() == 8 && s[2] is Mid
                && s[3] is Market && s[4] is Apply
        }),
{
}

/// Each strategy's seed is the run's, moved on by a fixed stride for each
/// strategy before it, without overflow.
pub proof fn law_seeds(seed: u64, idx: usize)
    requires
        idx <= u64::MAX,
    ensures
        seed_of(seed, idx) == (seed + idx * 0x9E37_79B9_7F4A_7C15) % 0x1_0000_0000_0000_0000,
{
    let m: int = 0x1_0000_0000_0000_0000;
    let x = idx as int * 0x9E37_79B9_7F4A_7C15;
    vstd::arithmetic::div_mod::lemma_add_mod_noop_right(seed as int, x, m);
    if idx == 0 {
        assert(seed as int % m == seed);
    }
}

/// In a run a symbol that was never traded is held flat.
pub proof fn law_held_in(v: RunView, symbol: u32)
    ensures
        v.positions.dom().contains(symbol) ==> held_in(v, symbol) == v.positions[symbol],
        !v.positions.dom().contains(symbol) ==> held_in(v, symbol).qty.bits == 0 && held_in(
            v,
            symbol,
        ).avg.bits == 0,
{
}

/// The answers of the strategies are taken in the order in which they came.
pub proof fn law_answers_in_order(a: Seq<Answer>, b: Answer)
    ensures
        all_intents(a.push(b)) == all_intents(a) + b.intents@,
        all_remarks(a.push(b)) == all_remarks(a) + b.remarks@,
        all_intents(Seq::empty()).len() == 0,
        all_remarks(Seq::empty()).len() == 0,
{
    assert(a.push(b).drop_last() =~= a);
}

/// A purchase adds to a position and a sale takes from it.
pub proof fn law_signed_quantity(side: Side, qty: Real)
    ensures
        side == Side::Buy ==> signed_of(side, qty) == qty,
        side == Side::Sell && qty.positive() ==> signed_of(side, qty).lt(Real { bits: 0 }),
        signed_of(side, qty).size() == qty.size(),
{
    crate::number::law_signs(qty);
}

/// A run begins with its cash alone: nothing held, nothing waiting, nothing
/// logged.
pub proof fn law_fresh_run(cfg: SimConfig)
    ensures
        fresh_run(cfg).cfg == cfg,
        fresh_run(cfg).totals.cash == cfg.start_cash,
        fresh_run(cfg).totals.start_cash == cfg.start_cash,
        fresh_run(cfg).totals.realized.bits == 0,
        fresh_run(cfg).totals.fees.bits == 0,
        fresh_run(cfg).totals.funding_paid.bits == 0,
        fresh_run(cfg).positions.dom() == Set::<u32>::empty(),
        fresh_run(cfg).pending.len() == 0,
        fresh_run(cfg).timers.len() == 0,
        fresh_run(cfg).log.lines.len() == 0,
        fresh_run(cfg).seq == 0,
        fresh_run(cfg).next_intent == 0,
        fresh_run(cfg).trades.all.trades == 0,
        fresh_run(cfg).trades.wins == 0,
{
}

/// The usual run: orders arrive after a hundred and fifty milliseconds, bars
/// take a minute, funding is checked every eight hours.
pub proof fn law_usual_config()
    ensures
        default_config().fill_model == FillModel::L1TopOfBook,
        default_config().latency_ns == 150 * 1_000_000,
        default_config().bar_tf_ns == 60 * 1_000_000_000,
        default_config().funding_check_interval_ns == 8 * 60 * 60 * 1_000_000_000,
        default_config().limits.max_orders_per_min == 1_000,
        default_config().limits.max_concurrent_positions == 1_000,
        default_config().maker_fee.lt(default_config().taker_fee),
{
}

} // verus!
