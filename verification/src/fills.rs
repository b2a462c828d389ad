//! The ladder of fill models, and the book of orders that wait for a fill.
//!
//! Prices with slippage, shares and what is left of an order are formed by the
//! caller; which order fills, at which of them, and what stays behind is
//! decided here.
use vstd::prelude::*;
use crate::event::{Liquidity, Side, SymbolId, Venue};
use crate::number::Real;

verus! {

/// How optimistic a fill is.
#[derive(Clone, Copy, Debug, PartialEq, Eq, Structural)]
pub enum FillOptimism {
    /// Nothing beyond the stated slippage and fees.
    Exact,
    /// A resting order was taken to fill regardless of its place in the queue.
    Maker,
    /// A market order was priced off the tape, for want of a book.
    Tape,
}

/// The name of the tag in the decision log.
pub open spec fn optimism_text(o: FillOptimism) -> Seq<char> {
    match o {
        FillOptimism::Exact => "none"@,
        FillOptimism::Maker => "maker"@,
        FillOptimism::Tape => "tape"@,
    }
}

/// How much weight a tag has against another.
pub open spec fn optimism_weight(o: FillOptimism) -> int {
    match o {
        FillOptimism::Exact => 0,
        FillOptimism::Tape => 1,
        FillOptimism::Maker => 2,
    }
}

/// The worse of two tags.
pub open spec fn worse_of(a: FillOptimism, b: FillOptimism) -> FillOptimism {
    if optimism_weight(a) >= optimism_weight(b) {
        a
    } else {
        b
    }
}

impl FillOptimism {
    /// The name of the tag in the decision log.
    pub fn as_str(self) -> (s: &'static str)
        ensures
            s@ == optimism_text(self),
    {
        match self {
            FillOptimism::Exact => "none",
            FillOptimism::Maker => "maker",
            FillOptimism::Tape => "tape",
        }
    }

    /// The worse of two tags.
    pub fn worse(self, other: FillOptimism) -> (o: FillOptimism)
        ensures
            o == worse_of(self, other),
    {
        match (self, other) {
            (FillOptimism::Exact, _) => other,
            (FillOptimism::Tape, FillOptimism::Maker) => other,
            _ => self,
        }
    }
}

impl Default for FillOptimism {
    fn default() -> (o: Self)
        ensures
            o == FillOptimism::Exact,
    {
        FillOptimism::Exact
    }
}

/// The worse of two tags does not depend on their order, and is at least as
/// bad as either.
pub proof fn law_worse_tag(a: FillOptimism, b: FillOptimism)
    ensures
        worse_of(a, b) == worse_of(b, a),
        optimism_weight(worse_of(a, b)) >= optimism_weight(a),
        optimism_weight(worse_of(a, b)) >= optimism_weight(b),
        worse_of(a, a) == a,
{
}

/// The fill model.
#[derive(Clone, Copy, Debug, PartialEq, Eq, Structural)]
pub enum FillModel {
    /// At the open of the next bar, with slippage; always complete.
    L0BarFill,
    /// Market orders take a share of the best level; limit orders fill when a
    /// print goes through them.
    L1TopOfBook,
    /// Market orders walk the book; limit orders take a share of the print.
    L2DepthWalk,
}

impl Default for FillModel {
    fn default() -> (m: Self)
        ensures
            m == FillModel::L1TopOfBook,
    {
        FillModel::L1TopOfBook
    }
}

#[derive(Clone, Copy, Debug, PartialEq, Eq, Structural)]
pub enum PendingKind {
    Market,
    Limit(Real),
}

/// What the fill models read of a configuration.
#[derive(Clone, Copy, Debug, PartialEq, Eq, Structural)]
pub struct FillParams {
    pub model: FillModel,
    pub slip_frac: Real,
    pub participation: Real,
    pub queue_share: Real,
    pub bar_tf_ns: i64,
}

/// An order that waits for a fill.
#[derive(Clone, Copy, Debug, PartialEq, Eq, Structural)]
pub struct Pending {
    pub symbol: SymbolId,
    pub venue: Venue,
    pub side: Side,
    pub qty: Real,
    pub kind: PendingKind,
    pub ready_ns: i64,
    pub intent_id: u128,
}

/// A fill, before it is accounted for.
#[derive(Clone, Copy, Debug, PartialEq, Eq, Structural)]
pub struct ProducedFill {
    pub symbol: SymbolId,
    pub venue: Venue,
    pub side: Side,
    pub price: Real,
    pub qty: Real,
    pub intent_id: u128,
    pub liquidity: Liquidity,
    pub optimism: FillOptimism,
}

/// What an order can fill at.
#[derive(Clone, Copy, Debug, PartialEq, Eq, Structural)]
pub struct Quote {
    pub price: Real,
    pub qty: Real,
    pub liquidity: Liquidity,
    pub optimism: FillOptimism,
    /// What is left of the order behind the fill.
    pub left: Real,
}

/// The fill of order `p` at `q`.
pub open spec fn fill_of(p: Pending, q: Quote) -> ProducedFill {
    ProducedFill {
        symbol: p.symbol,
        venue: p.venue,
        side: p.side,
        price: q.price,
        qty: q.qty,
        intent_id: p.intent_id,
        liquidity: q.liquidity,
        optimism: q.optimism,
    }
}

/// Whether order `p` fills: it has a quote for a quantity above zero.
pub open spec fn fills(q: Option<Quote>) -> bool {
    q matches Some(x) && x.qty.positive()
}

/// What stays of order `p`: all of it without a fill, the rest behind a
/// smaller fill, and nothing behind a full one.
pub open spec fn remainder(p: Pending, q: Option<Quote>) -> Option<Pending> {
    if !fills(q) {
        Some(p)
    } else if q->0.qty.lt(p.qty) {
        Some(Pending { qty: q->0.left, ..p })
    } else {
        None
    }
}

/// The fills of the orders, in their order.
pub open spec fn produced(pending: Seq<Pending>, quotes: Seq<Option<Quote>>) -> Seq<ProducedFill>
    decreases pending.len(),
{
    if pending.len() == 0 {
        Seq::empty()
    } else {
        let n = pending.len() - 1;
        let before = produced(pending.drop_last(), quotes);
        if fills(quotes[n]) {
            before.push(fill_of(pending.last(), quotes[n]->0))
        } else {
            before
        }
    }
}

/// What stays of the orders, in their order.
pub open spec fn remaining(pending: Seq<Pending>, quotes: Seq<Option<Quote>>) -> Seq<Pending>
    decreases pending.len(),
{
    if pending.len() == 0 {
        Seq::empty()
    } else {
        let n = pending.len() - 1;
        let before = remaining(pending.drop_last(), quotes);
        match remainder(pending.last(), quotes[n]) {
            Some(p) => before.push(p),
            None => before,
        }
    }
}

/// The quote of a bar fill: the whole order at the new open, with slippage,
/// once the order was ready when the bar closed.
pub open spec fn bar_quote(
    p: Pending,
    symbol: SymbolId,
    close_ts: int,
    buy_px: Real,
    sell_px: Real,
) -> Option<Quote> {
    if p.symbol != symbol || p.ready_ns > close_ts {
        None
    } else {
        Some(
            Quote {
                price: if p.side == Side::Buy {
                    buy_px
                } else {
                    sell_px
                },
                qty: p.qty,
                liquidity: Liquidity::Maker,
                optimism: FillOptimism::Exact,
                left: p.qty,
            },
        )
    }
}

/// What the book and the tape offer a market order.
#[derive(Clone, Copy, Debug)]
pub struct MarketOffer {
    /// From the book: the price, and the quantity on offer. At the top of the
    /// book that is the slipped price and the share of the best level; in a
    /// walk, the average price and the quantity walked.
    pub book: Option<(Real, Real)>,
    /// What is left of the order behind a fill from the book.
    pub left: Real,
    /// From the tape: the slipped price.
    pub tape: Option<Real>,
}

/// A market fill off the tape: the whole order.
pub open spec fn tape_quote(p: Pending, offer: MarketOffer) -> Option<Quote> {
    match offer.tape {
        Some(price) => Some(
            Quote {
                price,
                qty: p.qty,
                liquidity: Liquidity::Taker,
                optimism: FillOptimism::Tape,
                left: p.qty,
            },
        ),
        None => None,
    }
}

/// A market fill from the book.
pub open spec fn book_quote(price: Real, qty: Real, left: Real) -> Quote {
    Quote { price, qty, liquidity: Liquidity::Taker, optimism: FillOptimism::Exact, left }
}

/// What the top of the book gives an order of quantity `qty`: no more than the
/// share on offer, which counts as zero where it is negative.
pub open spec fn capped(qty: Real, cap: Real) -> Real {
    qty.min_of(cap.max_of(Real { bits: 0 }))
}

/// Not above zero.
pub open spec fn not_positive(x: Real) -> bool {
    x.le(Real { bits: 0 })
}

/// The quote of a market order.
pub open spec fn market_quote(
    p: Pending,
    model: FillModel,
    symbol: SymbolId,
    now: int,
    offer: MarketOffer,
) -> Option<Quote> {
    if p.symbol != symbol || p.ready_ns > now || p.kind != PendingKind::Market {
        None
    } else {
        match (model, offer.book) {
            (FillModel::L0BarFill, _) => None,
            (FillModel::L1TopOfBook, Some((price, cap))) => {
                if not_positive(capped(p.qty, cap)) {
                    None
                } else {
                    Some(book_quote(price, capped(p.qty, cap), offer.left))
                }
            },
            (FillModel::L2DepthWalk, Some((price, walked))) => {
                if not_positive(walked) {
                    tape_quote(p, offer)
                } else {
                    Some(book_quote(price, walked, offer.left))
                }
            },
            (_, None) => tape_quote(p, offer),
        }
    }
}

/// Whether a print goes through a limit: strictly, and against the side of
/// the order. A print at the limit does not.
pub open spec fn crosses(side: Side, aggressor: Side, print: Real, limit: Real) -> bool {
    match (side, aggressor) {
        (Side::Buy, Side::Sell) => print.lt(limit),
        (Side::Sell, Side::Buy) => limit.lt(print),
        _ => false,
    }
}

/// A print on the tape.
#[derive(Clone, Copy, Debug, PartialEq, Eq, Structural)]
pub struct Print {
    pub price: Real,
    pub aggressor: Side,
    /// The part of its quantity that reaches a resting order.
    pub share: Real,
}

/// How much of a limit order a print fills.
pub open spec fn print_qty(model: FillModel, qty: Real, share: Real) -> Real {
    if model == FillModel::L2DepthWalk {
        qty.min_of(share)
    } else {
        qty
    }
}

/// The quote of a limit order: its own price, when a print goes through it.
pub open spec fn limit_quote(
    p: Pending,
    model: FillModel,
    symbol: SymbolId,
    now: int,
    print: Print,
    left: Real,
) -> Option<Quote> {
    match p.kind {
        PendingKind::Market => None,
        PendingKind::Limit(limit) => {
            if p.symbol != symbol || p.ready_ns > now || !crosses(
                p.side,
                print.aggressor,
                print.price,
                limit,
            ) || not_positive(print_qty(model, p.qty, print.share)) {
                None
            } else {
                Some(
                    Quote {
                        price: limit,
                        qty: print_qty(model, p.qty, print.share),
                        liquidity: Liquidity::Maker,
                        optimism: FillOptimism::Maker,
                        left,
                    },
                )
            }
        },
    }
}

/// The orders that wait, in the order in which they came.
#[derive(Debug)]
pub struct PendingBook {
    pub pending: Vec<Pending>,
}

impl Default for PendingBook {
    fn default() -> (b: Self)
        ensures
            b.pending@.len() == 0,
    {
        PendingBook { pending: Vec::new() }
    }
}

impl PendingBook {
    /// Adds an order behind the others.
    pub fn push(&mut self, p: Pending)
        ensures
            final(self).pending@ == old(self).pending@.push(p),
    {
        self.pending.push(p);
    }

    /// Fills each order that has a quote, and keeps the rest. `quotes` holds
    /// what each order can fill at.
    pub fn drain(&mut self, quotes: &Vec<Option<Quote>>) -> (out: Vec<ProducedFill>)
        requires
            quotes@.len() == old(self).pending@.len(),
        ensures
            out@ == produced(old(self).pending@, quotes@),
            final(self).pending@ == remaining(old(self).pending@, quotes@),
    {
        let ghost all = self.pending@;
        let mut still: Vec<Pending> = Vec::new();
        let mut out: Vec<ProducedFill> = Vec::new();
        let mut i: usize = 0;
        assert(all.take(0) =~= Seq::<Pending>::empty());
        while i < self.pending.len()
            invariant
                i <= all.len(),
                all == self.pending@,
                quotes@.len() == all.len(),
                out@ == produced(all.take(i as int), quotes@),
                still@ == remaining(all.take(i as int), quotes@),
            decreases all.len() - i,
        {
            let p: Pending = self.pending[i];
            assert(all.take(i + 1).drop_last() =~= all.take(i as int));
            assert(all.take(i + 1).last() == p);
            match quotes[i] {
                Some(q) => {
                    if q.qty.is_positive() {
                        out.push(
                            ProducedFill {
                                symbol: p.symbol,
                                venue: p.venue,
                                side: p.side,
                                price: q.price,
                                qty: q.qty,
                                intent_id: p.intent_id,
                                liquidity: q.liquidity,
                                optimism: q.optimism,
                            },
                        );
                        if q.qty.less(p.qty) {
                            still.push(Pending { qty: q.left, ..p });
                        }
                    } else {
                        still.push(p);
                    }
                },
                None => {
                    still.push(p);
                },
            }
            i = i + 1;
        }
        assert(all.take(i as int) =~= all);
        self.pending = still;
        out
    }

    /// Bar fills: when a bar of `symbol` closed at `closed`, fills its orders
    /// that were ready then. `buy_px` and `sell_px` are the new open with
    /// slippage.
    pub fn on_trade_l0(
        &mut self,
        symbol: SymbolId,
        closed: Option<i64>,
        buy_px: Real,
        sell_px: Real,
    ) -> (out: Vec<ProducedFill>)
        ensures
            closed is None ==> out@.len() == 0 && final(self).pending@ == old(self).pending@,
            closed matches Some(t) ==> {
                let quotes = Seq::new(
                    old(self).pending@.len(),
                    |i: int| bar_quote(old(self).pending@[i], symbol, t as int, buy_px, sell_px),
                );
                &&& out@ == produced(old(self).pending@, quotes)
                &&& final(self).pending@ == remaining(old(self).pending@, quotes)
            },
    {
        let close_ts: i64 = match closed {
            Some(t) => t,
            None => {
                return Vec::new();
            },
        };
        let ghost all = self.pending@;
        let ghost want = Seq::new(
            all.len(),
            |i: int| bar_quote(all[i], symbol, close_ts as int, buy_px, sell_px),
        );
        let mut quotes: Vec<Option<Quote>> = Vec::new();
        let mut i: usize = 0;
        while i < self.pending.len()
            invariant
                i <= all.len(),
                all == self.pending@,
                quotes@.len() == i,
                forall|k: int|
                    0 <= k < i ==> #[trigger] quotes@[k] == bar_quote(
                        all[k],
                        symbol,
                        close_ts as int,
                        buy_px,
                        sell_px,
                    ),
            decreases all.len() - i,
        {
            let p: Pending = self.pending[i];
            if p.symbol != symbol || p.ready_ns > close_ts {
                quotes.push(None);
            } else {
                quotes.push(
                    Some(
                        Quote {
                            price: if p.side == Side::Buy {
                                buy_px
                            } else {
                                sell_px
                            },
                            qty: p.qty,
                            liquidity: Liquidity::Maker,
                            optimism: FillOptimism::Exact,
                            left: p.qty,
                        },
                    ),
                );
            }
            i = i + 1;
        }
        assert(quotes@ =~= want);
        self.drain(&quotes)
    }

    /// Market fills of the orders of `symbol` that are ready. `offers` holds
    /// what the book and the tape offer each order, and is read for those
    /// only.
    pub fn try_fill_market(
        &mut self,
        model: FillModel,
        symbol: SymbolId,
        now: i64,
        offers: &Vec<MarketOffer>,
    ) -> (out: Vec<ProducedFill>)
        requires
            offers@.len() == old(self).pending@.len(),
        ensures
            ({
                let quotes = Seq::new(
                    old(self).pending@.len(),
                    |i: int|
                        market_quote(old(self).pending@[i], model, symbol, now as int, offers@[i]),
                );
                &&& out@ == produced(old(self).pending@, quotes)
                &&& final(self).pending@ == remaining(old(self).pending@, quotes)
            }),
    {
        let ghost all = self.pending@;
        let ghost want = Seq::new(
            all.len(),
            |i: int| market_quote(all[i], model, symbol, now as int, offers@[i]),
        );
        let mut quotes: Vec<Option<Quote>> = Vec::new();
        let mut i: usize = 0;
        while i < self.pending.len()
            invariant
                i <= all.len(),
                all == self.pending@,
                offers@.len() == all.len(),
                quotes@.len() == i,
                forall|k: int|
                    0 <= k < i ==> #[trigger] quotes@[k] == market_quote(
                        all[k],
                        model,
                        symbol,
                        now as int,
                        offers@[k],
                    ),
            decreases all.len() - i,
        {
            let p: Pending = self.pending[i];
            if p.symbol != symbol || p.ready_ns > now || p.kind != PendingKind::Market {
                quotes.push(None);
            } else {
                quotes.push(fill_market(model, p, offers[i]));
            }
            i = i + 1;
        }
        assert(quotes@ =~= want);
        self.drain(&quotes)
    }

    /// Limit fills: the print fills each ready order of `symbol` that it goes
    /// through. `lefts` holds what is left of each order behind a fill of the
    /// print's share, and is read for those only.
    pub fn try_fill_limit_trade_print(
        &mut self,
        model: FillModel,
        symbol: SymbolId,
        print: Print,
        now: i64,
        lefts: &Vec<Real>,
    ) -> (out: Vec<ProducedFill>)
        requires
            lefts@.len() == old(self).pending@.len(),
        ensures
            ({
                let quotes = Seq::new(
                    old(self).pending@.len(),
                    |i: int|
                        limit_quote(
                            old(self).pending@[i],
                            model,
                            symbol,
                            now as int,
                            print,
                            lefts@[i],
                        ),
                );
                &&& out@ == produced(old(self).pending@, quotes)
                &&& final(self).pending@ == remaining(old(self).pending@, quotes)
            }),
    {
        let ghost all = self.pending@;
        let ghost want = Seq::new(
            all.len(),
            |i: int| limit_quote(all[i], model, symbol, now as int, print, lefts@[i]),
        );
        let mut quotes: Vec<Option<Quote>> = Vec::new();
        let mut i: usize = 0;
        while i < self.pending.len()
            invariant
                i <= all.len(),
                all == self.pending@,
                lefts@.len() == all.len(),
                quotes@.len() == i,
                forall|k: int|
                    0 <= k < i ==> #[trigger] quotes@[k] == limit_quote(
                        all[k],
                        model,
                        symbol,
                        now as int,
                        print,
                        lefts@[k],
                    ),
            decreases all.len() - i,
        {
            quotes.push(fill_limit(model, self.pending[i], symbol, now, print, lefts[i]));
            i = i + 1;
        }
        assert(quotes@ =~= want);
        self.drain(&quotes)
    }
}

fn fallback_trade_price(p: Pending, offer: MarketOffer) -> (q: Option<Quote>)
    ensures
        q == tape_quote(p, offer),
{
    match offer.tape {
        Some(price) => Some(
            Quote {
                price,
                qty: p.qty,
                liquidity: Liquidity::Taker,
                optimism: FillOptimism::Tape,
                left: p.qty,
            },
        ),
        None => None,
    }
}

fn fill_market(model: FillModel, p: Pending, offer: MarketOffer) -> (q: Option<Quote>)
    requires
        p.kind == PendingKind::Market,
    ensures
        q == market_quote(p, model, p.symbol, p.ready_ns as int, offer),
{
    let zero = Real { bits: 0 };
    match model {
        FillModel::L0BarFill => None,
        FillModel::L1TopOfBook => match offer.book {
            Some((price, cap)) => {
                let qty: Real = p.qty.min(cap.max(zero));
                if qty.at_most(zero) {
                    None
                } else {
                    Some(
                        Quote {
                            price,
                            qty,
                            liquidity: Liquidity::Taker,
                            optimism: FillOptimism::Exact,
                            left: offer.left,
                        },
                    )
                }
            },
            None => fallback_trade_price(p, offer),
        },
        FillModel::L2DepthWalk => match offer.book {
            Some((price, walked)) => {
                if walked.at_most(zero) {
                    fallback_trade_price(p, offer)
                } else {
                    Some(
                        Quote {
                            price,
                            qty: walked,
                            liquidity: Liquidity::Taker,
                            optimism: FillOptimism::Exact,
                            left: offer.left,
                        },
                    )
                }
            },
            None => fallback_trade_price(p, offer),
        },
    }
}

fn fill_limit(
    model: FillModel,
    p: Pending,
    symbol: SymbolId,
    now: i64,
    print: Print,
    left: Real,
) -> (q: Option<Quote>)
    ensures
        q == limit_quote(p, model, symbol, now as int, print, left),
{
    match p.kind {
        PendingKind::Market => None,
        PendingKind::Limit(limit) => {
            let through = match (p.side, print.aggressor) {
                (Side::Buy, Side::Sell) => print.price.less(limit),
                (Side::Sell, Side::Buy) => limit.less(print.price),
                _ => false,
            };
            if p.symbol != symbol || p.ready_ns > now || !through {
                return None;
            }
            let qty: Real = match model {
                FillModel::L2DepthWalk => p.qty.min(print.share),
                _ => p.qty,
            };
            if qty.at_most(Real { bits: 0 }) {
                return None;
            }
            Some(
                Quote {
                    price: limit,
                    qty,
                    liquidity: Liquidity::Maker,
                    optimism: FillOptimism::Maker,
                    left,
                },
            )
        },
    }
}

/// Orders without a quote are untouched: where no order fills, nothing is
/// produced and the book stays as it is.
pub proof fn law_no_quote_no_change(pending: Seq<Pending>, quotes: Seq<Option<Quote>>)
    requires
        quotes.len() == pending.len(),
        forall|i: int| 0 <= i < quotes.len() ==> !fills(#[trigger] quotes[i]),
    ensures
        produced(pending, quotes) == Seq::<ProducedFill>::empty(),
        remaining(pending, quotes) == pending,
    decreases pending.len(),
{
    if pending.len() > 0 {
        lemma_shorter(pending.drop_last(), quotes, quotes.drop_last());
        law_no_quote_no_change(pending.drop_last(), quotes.drop_last());
        assert(!fills(quotes[quotes.len() - 1]));
        assert(pending.drop_last().push(pending.last()) =~= pending);
    } else {
        assert(pending =~= Seq::<Pending>::empty());
    }
}

/// Draining reads only the quotes of the orders it drains.
proof fn lemma_shorter(pending: Seq<Pending>, a: Seq<Option<Quote>>, b: Seq<Option<Quote>>)
    requires
        pending.len() <= a.len(),
        pending.len() <= b.len(),
        forall|i: int| 0 <= i < pending.len() ==> #[trigger] a[i] == b[i],
    ensures
        produced(pending, a) == produced(pending, b),
        remaining(pending, a) == remaining(pending, b),
    decreases pending.len(),
{
    if pending.len() > 0 {
        lemma_shorter(pending.drop_last(), a, b);
        assert(a[pending.len() - 1] == b[pending.len() - 1]);
    }
}

/// No order is lost: each one leaves a fill, a rest, or both.
pub proof fn law_no_order_lost(p: Pending, q: Option<Quote>)
    ensures
        fills(q) || remainder(p, q) == Some(p),
        remainder(p, q) is None ==> fills(q) && !q->0.qty.lt(p.qty),
        remainder(p, q) matches Some(r) ==> r.intent_id == p.intent_id && r.symbol == p.symbol
            && r.side == p.side && r.kind == p.kind && r.ready_ns == p.ready_ns,
{
}

/// A limit order is never filled by a print at its own price, nor by one on
/// its own side, and always at its own price.
pub proof fn law_limit_needs_print_through(
    p: Pending,
    model: FillModel,
    symbol: SymbolId,
    now: int,
    print: Print,
    left: Real,
)
    ensures
        limit_quote(p, model, symbol, now, print, left) matches Some(q) ==> (p.kind matches
            PendingKind::Limit(limit) && q.price == limit && !print.price.same(limit) && p.side
            != print.aggressor),
{
}

/// No model fills an order before it is ready.
pub proof fn law_latency_respected(
    p: Pending,
    model: FillModel,
    symbol: SymbolId,
    now: int,
    offer: MarketOffer,
    print: Print,
    price: Real,
)
    requires
        p.ready_ns > now,
    ensures
        bar_quote(p, symbol, now, price, price) is None,
        market_quote(p, model, symbol, now, offer) is None,
        limit_quote(p, model, symbol, now, print, price) is None,
{
}

/// At the top of the book a fill is never larger than the order or than the
/// share on offer.
pub proof fn law_top_of_book_capped(qty: Real, cap: Real)
    requires
        !qty.nan(),
        cap.positive(),
    ensures
        capped(qty, cap).le(qty),
        capped(qty, cap).le(cap),
{
}

/// A limit order that is ready is filled by a print exactly if the print comes
/// against it and goes through its limit: above the limit of a sale, below that
/// of a purchase. A print at the limit, or short of it, fills nothing.
pub proof fn law_limit_fills_only_through(
    p: Pending,
    limit: Real,
    model: FillModel,
    symbol: SymbolId,
    now: int,
    print: Print,
    left: Real,
)
    requires
        p.kind == PendingKind::Limit(limit),
        p.symbol == symbol,
        p.ready_ns <= now,
        p.qty.positive(),
        print.share.positive(),
    ensures
        p.side == Side::Sell ==> (limit_quote(p, model, symbol, now, print, left) is Some <==> (
        print.aggressor == Side::Buy && limit.lt(print.price))),
        p.side == Side::Buy ==> (limit_quote(p, model, symbol, now, print, left) is Some <==> (
        print.aggressor == Side::Sell && print.price.lt(limit))),
        limit_quote(p, model, symbol, now, print, left) matches Some(q) ==> {
            &&& q.price == limit
            &&& q.liquidity == Liquidity::Maker
            &&& q.optimism == FillOptimism::Maker
            &&& q.qty.positive()
            &&& q.qty.le(p.qty)
            &&& model == FillModel::L2DepthWalk ==> q.qty.le(print.share) && (q.qty == p.qty
                || q.qty == print.share)
            &&& model != FillModel::L2DepthWalk ==> q.qty == p.qty
            &&& q.left == left
        },
{
}

/// A print fills no limit order of another symbol, none that is not ready, and
/// no market order.
pub proof fn law_limit_fills_its_own(
    p: Pending,
    model: FillModel,
    symbol: SymbolId,
    now: int,
    print: Print,
    left: Real,
)
    ensures
        p.symbol != symbol || p.ready_ns > now || p.kind == PendingKind::Market ==> limit_quote(
            p,
            model,
            symbol,
            now,
            print,
            left,
        ) is None,
{
}

/// A market order that is ready is filled by its own symbol only. Without a
/// book it gets the tape's price for all of it, where there is one.
pub proof fn law_market_fill(
    p: Pending,
    model: FillModel,
    symbol: SymbolId,
    now: int,
    offer: MarketOffer,
)
    ensures
        p.symbol != symbol || p.ready_ns > now || p.kind != PendingKind::Market || model
            == FillModel::L0BarFill ==> market_quote(p, model, symbol, now, offer) is None,
        p.symbol == symbol && p.ready_ns <= now && p.kind == PendingKind::Market && model
            != FillModel::L0BarFill && offer.book is None ==> {
            let q = market_quote(p, model, symbol, now, offer);
            &&& q is Some <==> offer.tape is Some
            &&& q is Some ==> q->0.price == offer.tape->0 && q->0.qty == p.qty && q->0.optimism
                == FillOptimism::Tape && q->0.liquidity == Liquidity::Taker
        },
{
}

/// With a book, a market order that is ready gets the book's price: at the top
/// of the book for no more than is on offer there, in a walk for what was
/// walked. Nothing on offer at the top fills nothing, and a walk that finds
/// nothing falls back on the tape.
pub proof fn law_market_fill_from_book(
    p: Pending,
    model: FillModel,
    now: int,
    offer: MarketOffer,
    price: Real,
    cap: Real,
)
    requires
        p.qty.positive(),
        p.ready_ns <= now,
        p.kind == PendingKind::Market,
        offer.book == Some((price, cap)),
    ensures
        ({
            let q = market_quote(p, model, p.symbol, now, offer);
            &&& cap.positive() && model != FillModel::L0BarFill ==> q is Some && q->0.price == price
                && q->0.liquidity == Liquidity::Taker && q->0.optimism == FillOptimism::Exact
                && q->0.left == offer.left
            &&& cap.positive() && model == FillModel::L1TopOfBook ==> q->0.qty.le(cap)
                && q->0.qty.le(p.qty) && (q->0.qty == cap || q->0.qty == p.qty)
            &&& cap.positive() && model == FillModel::L2DepthWalk ==> q->0.qty == cap
            &&& cap.le(Real { bits: 0 }) && model == FillModel::L1TopOfBook ==> q is None
            &&& cap.le(Real { bits: 0 }) && model == FillModel::L2DepthWalk ==> (q is Some
                <==> offer.tape is Some)
        }),
{
}

/// A bar fills every order of its symbol that was ready when it closed, whole,
/// at the price for its side.
pub proof fn law_bar_fill(p: Pending, symbol: SymbolId, close_ts: int, buy_px: Real, sell_px: Real)
    ensures
        bar_quote(p, symbol, close_ts, buy_px, sell_px) is Some <==> p.symbol == symbol
            && p.ready_ns <= close_ts,
        bar_quote(p, symbol, close_ts, buy_px, sell_px) matches Some(q) ==> q.qty == p.qty
            && q.liquidity == Liquidity::Maker && q.optimism == FillOptimism::Exact && (p.side
            == Side::Buy ==> q.price == buy_px) && (p.side == Side::Sell ==> q.price == sell_px),
{
}

/// What becomes of each order in a matching: one that fills has its fill among
/// the fills, for its symbol, side and number, and one that does not stays as
/// it was. A smaller fill leaves the rest waiting, a full one nothing.
pub proof fn law_orders_fill_or_wait(pending: Seq<Pending>, quotes: Seq<Option<Quote>>, i: int)
    requires
        0 <= i < pending.len(),
        quotes.len() == pending.len(),
    ensures
        quotes[i] is None || !quotes[i]->0.qty.positive() ==> remaining(pending, quotes).contains(
            pending[i],
        ),
        quotes[i] is Some && quotes[i]->0.qty.positive() ==> {
            &&& exists|k: int|
                0 <= k < produced(pending, quotes).len() && {
                    let f = #[trigger] produced(pending, quotes)[k];
                    &&& f.intent_id == pending[i].intent_id
                    &&& f.symbol == pending[i].symbol
                    &&& f.venue == pending[i].venue
                    &&& f.side == pending[i].side
                    &&& f.price == quotes[i]->0.price
                    &&& f.qty == quotes[i]->0.qty
                    &&& f.liquidity == quotes[i]->0.liquidity
                    &&& f.optimism == quotes[i]->0.optimism
                }
            &&& quotes[i]->0.qty.lt(pending[i].qty) ==> remaining(pending, quotes).contains(
                Pending { qty: quotes[i]->0.left, ..pending[i] },
            )
        },
    decreases pending.len(),
{
    let n = pending.len() - 1;
    let (p0, q0) = (pending.drop_last(), quotes);
    let (f0, r0) = (produced(p0, quotes), remaining(p0, quotes));
    let (f, r) = (produced(pending, quotes), remaining(pending, quotes));
    lemma_matching_front(p0, quotes, quotes.drop_last());
    if i < n {
        law_orders_fill_or_wait(p0, quotes.drop_last(), i);
        let fills_here = quotes[i] is Some && quotes[i]->0.qty.positive();
        if !fills_here {
            let k = r0.index_of(pending[i]);
            assert(r[k] == pending[i]);
        } else {
            let k = choose|k: int|
                0 <= k < f0.len() && {
                    let x = #[trigger] f0[k];
                    &&& x.intent_id == pending[i].intent_id
                    &&& x.symbol == pending[i].symbol
                    &&& x.venue == pending[i].venue
                    &&& x.side == pending[i].side
                    &&& x.price == quotes[i]->0.price
                    &&& x.qty == quotes[i]->0.qty
                    &&& x.liquidity == quotes[i]->0.liquidity
                    &&& x.optimism == quotes[i]->0.optimism
                };
            assert(f[k] == f0[k]);
            if quotes[i]->0.qty.lt(pending[i].qty) {
                let rest = Pending { qty: quotes[i]->0.left, ..pending[i] };
                let h = r0.index_of(rest);
                assert(r[h] == rest);
            }
        }
    } else {
        if fills(quotes[n]) {
            assert(f[f.len() - 1] == fill_of(pending[n], quotes[n]->0));
        }
        if remainder(pending[n], quotes[n]) is Some {
            assert(r[r.len() - 1] == remainder(pending[n], quotes[n])->0);
        }
    }
}

proof fn lemma_matching_front(
    pending: Seq<Pending>,
    a: Seq<Option<Quote>>,
    b: Seq<Option<Quote>>,
)
    requires
        pending.len() <= a.len(),
        pending.len() <= b.len(),
        forall|i: int| 0 <= i < pending.len() ==> a[i] == b[i],
    ensures
        produced(pending, a) == produced(pending, b),
        remaining(pending, a) == remaining(pending, b),
    decreases pending.len(),
{
    if pending.len() > 0 {
        lemma_matching_front(pending.drop_last(), a, b);
        assert(a[pending.len() - 1] == b[pending.len() - 1]);
    }
}

/// A matching makes no order and no fill of its own: there are no more fills
/// than orders that have a quote, and no more orders behind it than before.
pub proof fn law_matching_adds_nothing(pending: Seq<Pending>, quotes: Seq<Option<Quote>>)
    requires
        quotes.len() == pending.len(),
    ensures
        produced(pending, quotes).len() <= pending.len(),
        remaining(pending, quotes).len() <= pending.len(),
        produced(pending, quotes).len() + remaining(pending, quotes).len() >= pending.len(),
        (forall|i: int|
            0 <= i < pending.len() ==> (#[trigger] quotes[i]) is None || !quotes[i]->0.qty.positive())
            ==> produced(pending, quotes).len() == 0 && remaining(pending, quotes) == pending,
    decreases pending.len(),
{
    if pending.len() > 0 {
        let n = pending.len() - 1;
        lemma_matching_front(pending.drop_last(), quotes, quotes.drop_last());
        law_matching_adds_nothing(pending.drop_last(), quotes.drop_last());
        if forall|i: int|
            0 <= i < pending.len() ==> (#[trigger] quotes[i]) is None
                || !quotes[i]->0.qty.positive() {
            assert forall|i: int| 0 <= i < n implies (#[trigger] quotes.drop_last()[i]) is None
                || !quotes.drop_last()[i]->0.qty.positive() by {
                assert(quotes.drop_last()[i] == quotes[i]);
            }
            assert(quotes[n] is None || !quotes[n]->0.qty.positive());
            assert(pending =~= pending.drop_last().push(pending.last()));
        }
    } else {
        assert(remaining(pending, quotes) =~= pending);
    }
}

/// The tag that counts is the one that flatters most: a maker's above the
/// tape's, and either above none.
pub proof fn law_tag_order(a: FillOptimism, b: FillOptimism)
    ensures
        a == FillOptimism::Maker || b == FillOptimism::Maker ==> worse_of(a, b)
            == FillOptimism::Maker,
        a != FillOptimism::Maker && b != FillOptimism::Maker && (a == FillOptimism::Tape || b
            == FillOptimism::Tape) ==> worse_of(a, b) == FillOptimism::Tape,
        a == FillOptimism::Exact && b == FillOptimism::Exact ==> worse_of(a, b)
            == FillOptimism::Exact,
{
}

} // verus!
