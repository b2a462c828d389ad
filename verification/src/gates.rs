//! The first gate: whether a backtest may go on to a walk-forward.
use vstd::prelude::*;
use crate::metrics::Metrics;
use crate::number::{Real, INF};
use crate::text::{dec, push_dec, push_text, views};

verus! {

/// The bounds of the first hurdle.
#[derive(Clone, Copy, Debug, PartialEq, Eq, Structural)]
pub struct G1Params {
    pub min_trades: u64,
    pub dd_budget: Real,
}

impl Default for G1Params {
    fn default() -> (p: Self)
        ensures
            p == (G1Params { min_trades: 100, dd_budget: Real { bits: INF } }),
    {
        G1Params { min_trades: 100, dd_budget: Real { bits: INF } }
    }
}

/// What was found.
#[derive(Debug)]
pub struct G1Result {
    pub pass: bool,
    pub reasons: Vec<String>,
}

/// The net profit under each tag and without it.
#[derive(Clone, Copy, Debug, PartialEq, Eq, Structural)]
pub struct NetProfits {
    pub maker: Real,
    pub without_maker: Real,
    pub tape: Real,
    pub without_tape: Real,
}

/// The numbers of the reasons as text: the stressed expectancy with its sign
/// to six places, and the drawdown and its budget to two.
#[derive(Debug)]
pub struct G1Texts {
    pub stress: String,
    pub drawdown: String,
    pub budget: String,
}

/// Whether the profit rests on one kind of optimistic fill: it made a profit,
/// and without it there is none.
pub open spec fn rests_on(trades: u64, net: Real, without: Real) -> bool {
    trades > 0 && net.positive() && without.le(Real { bits: 0 })
}

/// The reasons against a run, in order.
pub open spec fn g1_reasons(
    m: Metrics,
    stress: Real,
    p: G1Params,
    nets: NetProfits,
    t: G1Texts,
) -> Seq<Seq<char>> {
    let costs = if !stress.positive() {
        seq!["expectancy in 2x-cost column is "@ + t.stress@ + " (must be > 0)"@]
    } else {
        Seq::empty()
    };
    let few = if m.all.trades < p.min_trades {
        seq![
            "only "@ + dec(m.all.trades as nat) + " trades (need >= "@ + dec(p.min_trades as nat)
                + ")"@,
        ]
    } else {
        Seq::empty()
    };
    let deep = if !m.max_drawdown.le(p.dd_budget) {
        seq!["max drawdown "@ + t.drawdown@ + " exceeds budget "@ + t.budget@]
    } else {
        Seq::empty()
    };
    let maker = if rests_on(m.maker.trades, nets.maker, nets.without_maker) {
        seq!["edge is optimistic-maker-dependent: non-maker P&L is non-positive (SIM-12)"@]
    } else {
        Seq::empty()
    };
    let tape = if rests_on(m.tape.trades, nets.tape, nets.without_tape) {
        seq!["edge is optimistic-tape-dependent: non-tape P&L is non-positive (book fallback)"@]
    } else {
        Seq::empty()
    };
    costs + few + deep + maker + tape
}

fn depends_on(trades: u64, net: Real, without: Real) -> (r: bool)
    ensures
        r == rests_on(trades, net, without),
{
    trades > 0 && net.is_positive() && without.at_most(Real { bits: 0 })
}

/// Judges a run by its metrics and its expectancy at twice the costs. It
/// passes when nothing speaks against it; an expectancy or a drawdown that is
/// no number does.
pub fn evaluate_g1(
    metrics: &Metrics,
    stress_expectancy_2x: Real,
    p: &G1Params,
    nets: NetProfits,
    texts: &G1Texts,
) -> (r: G1Result)
    ensures
        views(r.reasons@) == g1_reasons(*metrics, stress_expectancy_2x, *p, nets, *texts),
        r.pass == (g1_reasons(*metrics, stress_expectancy_2x, *p, nets, *texts).len() == 0),
{
    let mut reasons: Vec<String> = Vec::new();
    let ghost mut want: Seq<Seq<char>> = Seq::empty();
    assert(views(reasons@) =~= want);
    if !stress_expectancy_2x.is_positive() {
        let mut s = "expectancy in 2x-cost column is ".to_owned();
        push_text(&mut s, texts.stress.as_str());
        push_text(&mut s, " (must be > 0)");
        proof {
            want = want.push(s@);
        }
        reasons.push(s);
        assert(views(reasons@) =~= want);
    }
    if metrics.all.trades < p.min_trades {
        let mut s = "only ".to_owned();
        push_dec(&mut s, metrics.all.trades);
        push_text(&mut s, " trades (need >= ");
        push_dec(&mut s, p.min_trades);
        push_text(&mut s, ")");
        proof {
            want = want.push(s@);
        }
        reasons.push(s);
        assert(views(reasons@) =~= want);
    }
    if !metrics.max_drawdown.at_most(p.dd_budget) {
        let mut s = "max drawdown ".to_owned();
        push_text(&mut s, texts.drawdown.as_str());
        push_text(&mut s, " exceeds budget ");
        push_text(&mut s, texts.budget.as_str());
        proof {
            want = want.push(s@);
        }
        reasons.push(s);
        assert(views(reasons@) =~= want);
    }
    if depends_on(metrics.maker.trades, nets.maker, nets.without_maker) {
        let s =
            "edge is optimistic-maker-dependent: non-maker P&L is non-positive (SIM-12)".to_owned();
        proof {
            want = want.push(s@);
        }
        reasons.push(s);
        assert(views(reasons@) =~= want);
    }
    if depends_on(metrics.tape.trades, nets.tape, nets.without_tape) {
        let s =
            "edge is optimistic-tape-dependent: non-tape P&L is non-positive (book fallback)".to_owned();
        proof {
            want = want.push(s@);
        }
        reasons.push(s);
        assert(views(reasons@) =~= want);
    }
    assert(want =~= g1_reasons(*metrics, stress_expectancy_2x, *p, nets, *texts));
    G1Result { pass: reasons.len() == 0, reasons }
}

/// A run passes exactly when its expectancy survives twice the costs, it has
/// enough trades, its drawdown is within budget, and its profit rests on
/// neither kind of optimistic fill.
pub proof fn law_g1_passes_only_when_all_hold(
    m: Metrics,
    stress: Real,
    p: G1Params,
    nets: NetProfits,
    t: G1Texts,
)
    ensures
        g1_reasons(m, stress, p, nets, t).len() == 0 <==> {
            &&& stress.positive()
            &&& m.all.trades >= p.min_trades
            &&& m.max_drawdown.le(p.dd_budget)
            &&& !rests_on(m.maker.trades, nets.maker, nets.without_maker)
            &&& !rests_on(m.tape.trades, nets.tape, nets.without_tape)
        },
{
}

/// What speaks against a run, one for one: an expectancy at twice the costs that
/// is not above zero, too few trades, a drawdown that is not within the budget,
/// and a profit that rests on maker fills, or on fills off the tape: those made
/// a profit, and without them there is none.
pub proof fn law_g1_reasons(
    m: Metrics,
    stress: Real,
    p: G1Params,
    nets: NetProfits,
    t: G1Texts,
)
    ensures
        ({
            let zero = Real { bits: 0 };
            let weak = !stress.positive();
            let few = m.all.trades < p.min_trades;
            let deep = !m.max_drawdown.le(p.dd_budget);
            let maker = m.maker.trades > 0 && nets.maker.positive() && nets.without_maker.le(zero);
            let tape = m.tape.trades > 0 && nets.tape.positive() && nets.without_tape.le(zero);
            let r = g1_reasons(m, stress, p, nets, t);
            &&& r.len() == (if weak {
                1int
            } else {
                0
            }) + (if few {
                1int
            } else {
                0
            }) + (if deep {
                1int
            } else {
                0
            }) + (if maker {
                1int
            } else {
                0
            }) + (if tape {
                1int
            } else {
                0
            })
            &&& weak ==> r[0] == "expectancy in 2x-cost column is "@ + t.stress@
                + " (must be > 0)"@
            &&& !weak && few ==> r[0] == "only "@ + dec(m.all.trades as nat) + " trades (need >= "@
                + dec(p.min_trades as nat) + ")"@
            &&& !weak && !few && deep ==> r[0] == "max drawdown "@ + t.drawdown@
                + " exceeds budget "@ + t.budget@
        }),
{
}

} // verus!
