//! Metrics of a run: closed trades, with those that rest on optimistic fills
//! counted apart, the drawdown, and the returns from bar to bar.
//!
//! Sums, quotients and logarithms are formed by the caller; which of them
//! count, and where, is decided here.
use vstd::prelude::*;
use crate::fills::FillOptimism;
use crate::number::{Real, INF};

verus! {

/// How many returns a Sharpe ratio needs.
pub const MIN_BAR_RETURNS: usize = 2;

/// A tally of closed trades.
#[derive(Clone, Copy, Debug, PartialEq, Eq, Structural)]
pub struct Tally {
    pub trades: u64,
    pub gross_win: Real,
    pub gross_loss: Real,
}

/// The sums of a tally with one more trade: its wins with the profit added,
/// and its losses with the loss added.
#[derive(Clone, Copy, Debug, PartialEq, Eq, Structural)]
pub struct TallySums {
    pub win: Real,
    pub loss: Real,
}

impl Tally {
    /// The tally with one more trade. A trade without profit or loss counts
    /// for nothing.
    pub open spec fn with_trade(self, pnl: Real, sums: TallySums) -> Tally {
        if pnl.zero() {
            self
        } else if pnl.positive() {
            Tally { trades: (self.trades + 1) as u64, gross_win: sums.win, ..self }
        } else {
            Tally { trades: (self.trades + 1) as u64, gross_loss: sums.loss, ..self }
        }
    }

    fn record(self, pnl: Real, sums: TallySums) -> (t: Tally)
        requires
            self.trades < u64::MAX,
        ensures
            t == self.with_trade(pnl, sums),
    {
        if pnl.is_zero() {
            self
        } else if pnl.is_positive() {
            Tally { trades: self.trades + 1, gross_win: sums.win, gross_loss: self.gross_loss }
        } else {
            Tally { trades: self.trades + 1, gross_win: self.gross_win, gross_loss: sums.loss }
        }
    }

    /// Profit for each trade: zero without trades, else the quotient that was
    /// formed.
    pub fn expectancy(self, quotient: Real) -> (x: Real)
        ensures
            x == if self.trades == 0 {
                Real { bits: 0 }
            } else {
                quotient
            },
    {
        if self.trades == 0 {
            Real { bits: 0 }
        } else {
            quotient
        }
    }
}

/// An empty tally.
pub open spec fn no_trades() -> Tally {
    Tally { trades: 0, gross_win: Real { bits: 0 }, gross_loss: Real { bits: 0 } }
}

impl Default for Tally {
    fn default() -> (t: Self)
        ensures
            t == no_trades(),
    {
        Tally { trades: 0, gross_win: Real { bits: 0 }, gross_loss: Real { bits: 0 } }
    }
}

/// The metrics of a run, after costs.
#[derive(Debug)]
pub struct Metrics {
    /// All closed trades.
    pub all: Tally,
    pub wins: u64,
    /// Trades that rest on a maker fill without a queue.
    pub maker: Tally,
    /// Trades that rest on a fill off the tape.
    pub tape: Tally,
    pub max_drawdown: Real,
    pub bar_returns: Vec<Real>,
    pub last_equity: Option<Real>,
    pub peak_equity: Real,
    pub started: bool,
}

/// The trades that metrics count.
pub struct Trades {
    pub all: Tally,
    pub wins: int,
    pub maker: Tally,
    pub tape: Tally,
}

/// The equity that metrics follow.
pub struct Curve {
    pub max_drawdown: Real,
    pub bar_returns: Seq<Real>,
    pub last_equity: Option<Real>,
    pub peak_equity: Real,
    pub started: bool,
}

/// The trades with one more.
pub open spec fn trades_with(
    t: Trades,
    pnl: Real,
    optimism: FillOptimism,
    all: TallySums,
    tagged: TallySums,
) -> Trades {
    Trades {
        all: t.all.with_trade(pnl, all),
        wins: t.wins + if pnl.positive() {
            1int
        } else {
            0int
        },
        maker: if optimism is Maker {
            t.maker.with_trade(pnl, tagged)
        } else {
            t.maker
        },
        tape: if optimism is Tape {
            t.tape.with_trade(pnl, tagged)
        } else {
            t.tape
        },
    }
}

/// The highest equity behind a sample. The first sample is the first peak.
pub open spec fn peak_after(c: Curve, equity: Real) -> Real {
    if c.started {
        c.peak_equity.max_of(equity)
    } else {
        equity.max_of(equity)
    }
}

/// The curve behind a bar sample. Only a bar between two positive equities has
/// a return.
pub open spec fn bar_sampled(c: Curve, equity: Real, log_return: Real) -> Curve {
    let counted = c.started && (c.last_equity matches Some(prev) && prev.positive()
        && equity.positive());
    Curve {
        started: true,
        last_equity: Some(equity),
        bar_returns: if counted {
            c.bar_returns.push(log_return)
        } else {
            c.bar_returns
        },
        ..c
    }
}

impl Metrics {
    pub open spec fn trades_view(&self) -> Trades {
        Trades { all: self.all, wins: self.wins as int, maker: self.maker, tape: self.tape }
    }

    pub open spec fn curve(&self) -> Curve {
        Curve {
            max_drawdown: self.max_drawdown,
            bar_returns: self.bar_returns@,
            last_equity: self.last_equity,
            peak_equity: self.peak_equity,
            started: self.started,
        }
    }

    /// No tally is full.
    pub open spec fn has_room(&self) -> bool {
        self.all.trades < u64::MAX && self.wins < u64::MAX && self.maker.trades < u64::MAX
            && self.tape.trades < u64::MAX
    }

    pub fn new() -> (m: Self)
        ensures
            m.trades_view() == (Trades {
                all: no_trades(),
                wins: 0,
                maker: no_trades(),
                tape: no_trades(),
            }),
            m.curve() == (Curve {
                max_drawdown: Real { bits: 0 },
                bar_returns: Seq::empty(),
                last_equity: None,
                peak_equity: Real { bits: 0 },
                started: false,
            }),
    {
        let m = Metrics {
            all: Tally::default(),
            wins: 0,
            maker: Tally::default(),
            tape: Tally::default(),
            max_drawdown: Real { bits: 0 },
            bar_returns: Vec::new(),
            last_equity: None,
            peak_equity: Real { bits: 0 },
            started: false,
        };
        assert(m.bar_returns@ =~= Seq::<Real>::empty());
        m
    }

    /// Records a closed trade.
    pub fn record_trade(&mut self, pnl: Real, sums: TallySums)
        requires
            old(self).has_room(),
        ensures
            final(self).curve() == old(self).curve(),
            final(self).trades_view() == trades_with(
                old(self).trades_view(),
                pnl,
                FillOptimism::Exact,
                sums,
                sums,
            ),
    {
        self.all = self.all.record(pnl, sums);
        if pnl.is_positive() {
            self.wins = self.wins + 1;
        }
    }

    /// Records a closed trade under the tag of its worst leg, beside the main
    /// tally.
    pub fn record_trade_with_optimism(
        &mut self,
        pnl: Real,
        optimism: FillOptimism,
        all: TallySums,
        tagged: TallySums,
    )
        requires
            old(self).has_room(),
        ensures
            final(self).curve() == old(self).curve(),
            final(self).trades_view() == trades_with(
                old(self).trades_view(),
                pnl,
                optimism,
                all,
                tagged,
            ),
    {
        self.record_trade(pnl, all);
        match optimism {
            FillOptimism::Exact => {},
            FillOptimism::Maker => {
                self.maker = self.maker.record(pnl, tagged);
            },
            FillOptimism::Tape => {
                self.tape = self.tape.record(pnl, tagged);
            },
        }
    }

    /// Records a closed trade that rests on a maker fill.
    pub fn record_maker_trade(&mut self, pnl: Real, all: TallySums, tagged: TallySums)
        requires
            old(self).has_room(),
        ensures
            final(self).curve() == old(self).curve(),
            final(self).trades_view() == trades_with(
                old(self).trades_view(),
                pnl,
                FillOptimism::Maker,
                all,
                tagged,
            ),
    {
        self.record_trade_with_optimism(pnl, FillOptimism::Maker, all, tagged);
    }

    /// Samples the equity at the close of a bar. `log_return` is the logarithm
    /// of its ratio to the sample before.
    pub fn record_bar_return(&mut self, equity: Real, log_return: Real)
        ensures
            final(self).trades_view() == old(self).trades_view(),
            final(self).curve() == bar_sampled(old(self).curve(), equity, log_return),
    {
        let ghost c = self.curve();
        if self.started {
            if let Some(prev) = self.last_equity {
                if prev.is_positive() && equity.is_positive() {
                    self.bar_returns.push(log_return);
                }
            }
        }
        self.started = true;
        self.last_equity = Some(equity);
        assert(self.bar_returns@ =~= bar_sampled(c, equity, log_return).bar_returns);
    }

    /// The highest equity, were `equity` the next sample.
    pub fn next_peak(&self, equity: Real) -> (p: Real)
        ensures
            p == peak_after(self.curve(), equity),
    {
        if self.started {
            self.peak_equity.max(equity)
        } else {
            equity.max(equity)
        }
    }

    /// Samples the equity. `drawdown` is how far it is below the highest.
    pub fn sample_equity(&mut self, equity: Real, drawdown: Real)
        ensures
            final(self).trades_view() == old(self).trades_view(),
            final(self).curve() == (Curve {
                peak_equity: peak_after(old(self).curve(), equity),
                max_drawdown: old(self).max_drawdown.max_of(drawdown),
                started: true,
                ..old(self).curve()
            }),
    {
        self.peak_equity = self.next_peak(equity);
        self.started = true;
        self.max_drawdown = self.max_drawdown.max(drawdown);
    }

    /// The Sharpe ratio `value`, where it means something: with enough
    /// returns, and a variance that is finite and above zero.
    pub fn sharpe(&self, variance: Real, value: Real) -> (s: Option<Real>)
        ensures
            s == if self.curve().bar_returns.len() < MIN_BAR_RETURNS || variance.le(
                Real { bits: 0 },
            ) || !variance.finite() {
                None
            } else {
                Some(value)
            },
    {
        if self.bar_returns.len() < MIN_BAR_RETURNS || variance.at_most(Real { bits: 0 })
            || !variance.is_finite() {
            None
        } else {
            Some(value)
        }
    }

    /// Profit for each trade: nothing without trades, else the quotient that was
    /// formed.
    pub fn expectancy(&self, quotient: Real) -> (x: Real)
        ensures
            x == if self.all.trades == 0 {
                Real { bits: 0 }
            } else {
                quotient
            },
    {
        self.all.expectancy(quotient)
    }

    /// The same over the trades that rest on a maker fill.
    pub fn maker_expectancy(&self, quotient: Real) -> (x: Real)
        ensures
            x == if self.maker.trades == 0 {
                Real { bits: 0 }
            } else {
                quotient
            },
    {
        self.maker.expectancy(quotient)
    }

    /// The same over the trades that rest on a fill off the tape.
    pub fn tape_expectancy(&self, quotient: Real) -> (x: Real)
        ensures
            x == if self.tape.trades == 0 {
                Real { bits: 0 }
            } else {
                quotient
            },
    {
        self.tape.expectancy(quotient)
    }

    /// The same with the profits lowered by added costs.
    pub fn stress_expectancy(&self, quotient: Real) -> (x: Real)
        ensures
            x == if self.all.trades == 0 {
                Real { bits: 0 }
            } else {
                quotient
            },
    {
        self.all.expectancy(quotient)
    }

    /// The share of trades that won: nothing without trades, else the quotient
    /// that was formed.
    pub fn hit_rate(&self, quotient: Real) -> (x: Real)
        ensures
            x == if self.all.trades == 0 {
                Real { bits: 0 }
            } else {
                quotient
            },
    {
        self.all.expectancy(quotient)
    }

    /// Wins against losses: infinite without losses, else the quotient that
    /// was formed.
    pub fn profit_factor(&self, quotient: Real) -> (x: Real)
        ensures
            x == if self.all.gross_loss.zero() {
                Real { bits: INF }
            } else {
                quotient
            },
    {
        if self.all.gross_loss.is_zero() {
            Real { bits: INF }
        } else {
            quotient
        }
    }
}

/// A Sharpe ratio adjusted for the number of trials: a single trial needs no
/// adjustment, and without a ratio there is none.
pub fn deflated(sharpe: Option<Real>, n_trials: u64, adjusted: Real) -> (d: Option<Real>)
    ensures
        d == match sharpe {
            None => None,
            Some(s) => if n_trials <= 1 {
                Some(s)
            } else {
                Some(adjusted)
            },
        },
{
    match sharpe {
        None => None,
        Some(s) => {
            if n_trials <= 1 {
                Some(s)
            } else {
                Some(adjusted)
            }
        },
    }
}

/// Trades under one tag never touch the tally of the other, and no tag counts
/// a trade that the main tally does not.
pub proof fn law_tags_kept_apart(
    t: Trades,
    pnl: Real,
    optimism: FillOptimism,
    all: TallySums,
    tagged: TallySums,
)
    requires
        t.maker.trades + t.tape.trades <= t.all.trades < u64::MAX,
    ensures
        ({
            let u = trades_with(t, pnl, optimism, all, tagged);
            &&& !(optimism is Maker) ==> u.maker == t.maker
            &&& !(optimism is Tape) ==> u.tape == t.tape
            &&& u.maker.trades + u.tape.trades <= u.all.trades
        }),
{
}

/// The drawdown never shrinks, and the peak never falls below a sample.
pub proof fn law_drawdown_grows(c: Curve, equity: Real, drawdown: Real)
    requires
        !c.max_drawdown.nan(),
        !c.peak_equity.nan(),
        !equity.nan(),
    ensures
        c.max_drawdown.le(c.max_drawdown.max_of(drawdown)),
        equity.le(peak_after(c, equity)),
        c.started ==> c.peak_equity.le(peak_after(c, equity)),
{
}

/// A trade is a win above zero, a loss below, and nothing at zero; each counts
/// once, on its own side.
pub proof fn law_trade_counted(
    t: Trades,
    pnl: Real,
    optimism: FillOptimism,
    all: TallySums,
    tagged: TallySums,
)
    requires
        t.all.trades < u64::MAX,
        t.maker.trades < u64::MAX,
        t.tape.trades < u64::MAX,
    ensures
        ({
            let u = trades_with(t, pnl, optimism, all, tagged);
            let win = pnl.positive();
            let loss = !pnl.zero() && !pnl.positive();
            &&& pnl.zero() ==> u == t
            &&& win ==> u.all.trades == t.all.trades + 1 && u.all.gross_win == all.win
                && u.all.gross_loss == t.all.gross_loss && u.wins == t.wins + 1
            &&& loss ==> u.all.trades == t.all.trades + 1 && u.all.gross_loss == all.loss
                && u.all.gross_win == t.all.gross_win && u.wins == t.wins
            &&& optimism == FillOptimism::Maker && win ==> u.maker.trades == t.maker.trades + 1
                && u.maker.gross_win == tagged.win && u.maker.gross_loss == t.maker.gross_loss
            &&& optimism == FillOptimism::Maker && loss ==> u.maker.trades == t.maker.trades + 1
                && u.maker.gross_loss == tagged.loss && u.maker.gross_win == t.maker.gross_win
            &&& optimism == FillOptimism::Tape && win ==> u.tape.trades == t.tape.trades + 1
                && u.tape.gross_win == tagged.win && u.tape.gross_loss == t.tape.gross_loss
            &&& optimism == FillOptimism::Tape && loss ==> u.tape.trades == t.tape.trades + 1
                && u.tape.gross_loss == tagged.loss && u.tape.gross_win == t.tape.gross_win
            &&& optimism != FillOptimism::Maker ==> u.maker == t.maker
            &&& optimism != FillOptimism::Tape ==> u.tape == t.tape
        }),
{
}

/// The first bar sets the base and has no return. Every later one has its
/// return, as long as the equity was above zero before and after.
pub proof fn law_bar_returns(c: Curve, equity: Real, log_return: Real)
    ensures
        ({
            let d = bar_sampled(c, equity, log_return);
            &&& d.last_equity == Some(equity)
            &&& d.started
            &&& d.max_drawdown == c.max_drawdown
            &&& d.peak_equity == c.peak_equity
            &&& !c.started || c.last_equity is None ==> d.bar_returns == c.bar_returns
            &&& c.started && c.last_equity is Some && c.last_equity->0.positive()
                && equity.positive() ==> d.bar_returns == c.bar_returns.push(log_return)
            &&& c.last_equity is Some && !c.last_equity->0.positive() || !equity.positive()
                ==> d.bar_returns == c.bar_returns
        }),
{
}

/// The peak is the first equity, and then the highest so far.
pub proof fn law_peak(c: Curve, equity: Real)
    requires
        !equity.nan(),
        !c.peak_equity.nan(),
    ensures
        !c.started ==> peak_after(c, equity) == equity,
        c.started && equity.le(c.peak_equity) ==> peak_after(c, equity) == c.peak_equity,
        c.started && c.peak_equity.lt(equity) ==> peak_after(c, equity) == equity,
{
}

} // verus!
