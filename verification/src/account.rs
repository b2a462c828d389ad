//! Accounts of a simulated run: positions at average cost, with the fees,
//! funding and optimism that belong to each.
//!
//! Sums and products are formed by the caller. What a fill does to a position
//! is decided here: whether it opens, adds, reduces, closes or flips, and what
//! the position remembers.
use vstd::prelude::*;
use crate::event::SymbolId;
use crate::fills::{worse_of, FillOptimism};
use crate::number::Real;
use crate::ordered::SortedMap;

verus! {

/// Zero.
pub open spec fn nought() -> Real {
    Real { bits: 0 }
}

fn zero() -> (z: Real)
    ensures
        z == nought(),
{
    Real { bits: 0 }
}

/// A position: long above zero, short below.
#[derive(Clone, Copy, Debug, PartialEq, Eq, Structural)]
pub struct Position {
    pub qty: Real,
    pub avg: Real,
    /// Fees paid on the position that no closed trade carries yet.
    pub fees: Real,
    /// Funding paid on the position that no closed trade carries yet.
    pub funding: Real,
    /// The worst tag among the fills that built the position.
    pub optimism: FillOptimism,
}

/// No position.
pub open spec fn flat() -> Position {
    Position {
        qty: nought(),
        avg: nought(),
        fees: nought(),
        funding: nought(),
        optimism: FillOptimism::Exact,
    }
}

impl Default for Position {
    fn default() -> (p: Self)
        ensures
            p == flat(),
    {
        Position {
            qty: zero(),
            avg: zero(),
            fees: zero(),
            funding: zero(),
            optimism: FillOptimism::Exact,
        }
    }
}

/// What a fill does to a position.
#[derive(Clone, Copy, Debug, PartialEq, Eq, Structural)]
pub enum FillKind {
    /// There was no position.
    Open,
    /// It adds on the same side.
    Increase,
    /// It takes off a part.
    Reduce,
    /// It takes off all.
    Close,
    /// It takes off all and opens on the other side.
    Flip,
}

/// What a fill of `signed` does to a position of `qty`; `sum` is the two
/// together.
pub open spec fn kind_of(qty: Real, signed: Real, sum: Real) -> FillKind {
    if qty.zero() {
        FillKind::Open
    } else if qty.same_sign(signed) {
        FillKind::Increase
    } else if sum.zero() {
        FillKind::Close
    } else if sum.same_sign(qty) {
        FillKind::Reduce
    } else {
        FillKind::Flip
    }
}

/// Whether a fill of that kind ends a trade, or a part of one.
pub open spec fn ends_trade(k: FillKind) -> bool {
    k is Reduce || k is Close || k is Flip
}

/// What a fill does to a position of `qty`.
pub fn classify_fill(qty: Real, signed: Real, sum: Real) -> (k: FillKind)
    ensures
        k == kind_of(qty, signed, sum),
{
    if qty.is_zero() {
        FillKind::Open
    } else if qty.agrees_in_sign(signed) {
        FillKind::Increase
    } else if sum.is_zero() {
        FillKind::Close
    } else if sum.agrees_in_sign(qty) {
        FillKind::Reduce
    } else {
        FillKind::Flip
    }
}

/// The numbers that a fill brings.
#[derive(Clone, Copy, Debug, PartialEq, Eq, Structural)]
pub struct FillNumbers {
    /// The cash behind the fill.
    pub cash: Real,
    /// All fees behind the fill.
    pub fees: Real,
    /// All realized profit behind the fill, where it ends a trade.
    pub realized: Real,
    /// The quantity behind the fill.
    pub sum: Real,
    /// The average cost behind the fill, where it adds.
    pub average: Real,
    /// The fees that the position still carries behind the fill.
    pub leg_fees: Real,
    /// The funding that the position still carries behind the fill, where it
    /// reduces.
    pub leg_funding: Real,
    /// The profit of the part that was closed, before costs.
    pub gross: Real,
    /// The fees of that part.
    pub attributed_fees: Real,
    /// The funding of that part.
    pub attributed_funding: Real,
}

/// What a fill came to.
#[derive(Clone, Copy, Debug, PartialEq, Eq, Structural)]
pub struct FillOutcome {
    pub realized_gross: Real,
    pub attributed_fees: Real,
    pub attributed_funding: Real,
    /// How much of the position was closed.
    pub closed_qty: Real,
    /// The worst tag among the legs of the trade.
    pub optimism: FillOptimism,
}

/// The position behind a fill.
pub open spec fn position_after(
    p: Position,
    signed: Real,
    price: Real,
    optimism: FillOptimism,
    n: FillNumbers,
) -> Position {
    match kind_of(p.qty, signed, n.sum) {
        FillKind::Open => Position {
            qty: signed,
            avg: price,
            fees: n.leg_fees,
            funding: nought(),
            optimism,
        },
        FillKind::Increase => Position {
            qty: n.sum,
            avg: n.average,
            fees: n.leg_fees,
            funding: p.funding,
            optimism: worse_of(p.optimism, optimism),
        },
        FillKind::Reduce => Position {
            qty: n.sum,
            avg: p.avg,
            fees: n.leg_fees,
            funding: n.leg_funding,
            optimism: worse_of(p.optimism, optimism),
        },
        FillKind::Close => flat(),
        FillKind::Flip => Position {
            qty: n.sum,
            avg: price,
            fees: n.leg_fees,
            funding: nought(),
            optimism,
        },
    }
}

/// What a fill came to.
pub open spec fn outcome_of(
    p: Position,
    signed: Real,
    optimism: FillOptimism,
    n: FillNumbers,
) -> FillOutcome {
    if ends_trade(kind_of(p.qty, signed, n.sum)) {
        FillOutcome {
            realized_gross: n.gross,
            attributed_fees: n.attributed_fees,
            attributed_funding: n.attributed_funding,
            closed_qty: signed.size().min_of(p.qty.size()),
            optimism: worse_of(p.optimism, optimism),
        }
    } else {
        FillOutcome {
            realized_gross: nought(),
            attributed_fees: nought(),
            attributed_funding: nought(),
            closed_qty: nought(),
            optimism,
        }
    }
}

/// The numbers that a funding payment brings.
#[derive(Clone, Copy, Debug, PartialEq, Eq, Structural)]
pub struct FundingNumbers {
    pub cash: Real,
    pub funding_paid: Real,
    /// The funding that the position carries behind the payment.
    pub leg_funding: Real,
}

/// A position with the price it is valued at.
#[derive(Clone, Copy, Debug, PartialEq, Eq, Structural)]
pub struct Holding {
    pub symbol: SymbolId,
    pub qty: Real,
    pub avg: Real,
    /// The last mark, or the average cost where there is none.
    pub mark: Real,
}

/// Cash, positions, profit, fees and funding.
#[derive(Debug)]
pub struct Accountant {
    pub start_cash: Real,
    pub cash: Real,
    pub realized: Real,
    pub fees: Real,
    pub funding_paid: Real,
    pub positions: SortedMap<u32, Position>,
    pub marks: SortedMap<u32, Real>,
}

/// The totals of an account.
pub struct Totals {
    pub start_cash: Real,
    pub cash: Real,
    pub realized: Real,
    pub fees: Real,
    pub funding_paid: Real,
}

/// A usable mark: finite and above zero.
pub open spec fn usable_mark(price: Real) -> bool {
    price.finite() && price.positive()
}

/// The marks behind a new one: an unusable mark is passed over.
pub open spec fn marks_after(m: Map<u32, Real>, symbol: u32, price: Real) -> Map<u32, Real> {
    if usable_mark(price) {
        m.insert(symbol, price)
    } else {
        m
    }
}

impl Accountant {
    pub open spec fn wf(&self) -> bool {
        self.positions.wf() && self.marks.wf()
    }

    pub open spec fn totals(&self) -> Totals {
        Totals {
            start_cash: self.start_cash,
            cash: self.cash,
            realized: self.realized,
            fees: self.fees,
            funding_paid: self.funding_paid,
        }
    }

    /// The position in `symbol`; flat where there is none.
    pub open spec fn held(&self, symbol: u32) -> Position {
        if self.positions.map().dom().contains(symbol) {
            self.positions.map()[symbol]
        } else {
            flat()
        }
    }

    /// An account with cash alone.
    pub fn new(start_cash: Real) -> (a: Self)
        ensures
            a.wf(),
            a.totals() == (Totals {
                start_cash,
                cash: start_cash,
                realized: nought(),
                fees: nought(),
                funding_paid: nought(),
            }),
            a.positions.map() == Map::<u32, Position>::empty(),
            a.marks.map() == Map::<u32, Real>::empty(),
    {
        Accountant {
            start_cash,
            cash: start_cash,
            realized: zero(),
            fees: zero(),
            funding_paid: zero(),
            positions: SortedMap::new(),
            marks: SortedMap::new(),
        }
    }

    /// Charges funding on a held position. Nothing is charged without a
    /// position, or at a rate that is not finite.
    pub fn accrue_funding(&mut self, symbol: SymbolId, rate: Real, n: FundingNumbers)
        requires
            old(self).wf(),
        ensures
            final(self).wf(),
            final(self).marks.map() == old(self).marks.map(),
            old(self).held(symbol.0).qty.zero() || !rate.finite() ==> final(self).totals() == old(
                self,
            ).totals() && final(self).positions.map() == old(self).positions.map(),
            !old(self).held(symbol.0).qty.zero() && rate.finite() ==> {
                &&& final(self).totals() == (Totals {
                    cash: n.cash,
                    funding_paid: n.funding_paid,
                    ..old(self).totals()
                })
                &&& final(self).positions.map() == old(self).positions.map().insert(
                    symbol.0,
                    Position { funding: n.leg_funding, ..old(self).held(symbol.0) },
                )
            },
    {
        let p: Position = match self.positions.get(&symbol.0) {
            Some(p) => *p,
            None => {
                return ;
            },
        };
        if p.qty.is_zero() || !rate.is_finite() {
            return ;
        }
        self.cash = n.cash;
        self.funding_paid = n.funding_paid;
        self.positions.set(symbol.0, Position { funding: n.leg_funding, ..p });
    }

    /// Takes a new mark for a symbol, where it is usable.
    pub fn mark(&mut self, symbol: SymbolId, price: Real)
        requires
            old(self).wf(),
        ensures
            final(self).wf(),
            final(self).totals() == old(self).totals(),
            final(self).positions == old(self).positions,
            final(self).marks.map() == marks_after(old(self).marks.map(), symbol.0, price),
    {
        if price.is_finite() && price.is_positive() {
            self.marks.set(symbol.0, price);
        }
    }

    /// Applies a fill: above zero for a purchase, below for a sale.
    pub fn apply_fill(
        &mut self,
        symbol: SymbolId,
        signed_qty: Real,
        price: Real,
        optimism: FillOptimism,
        n: FillNumbers,
    ) -> (outcome: FillOutcome)
        requires
            old(self).wf(),
        ensures
            final(self).wf(),
            outcome == outcome_of(old(self).held(symbol.0), signed_qty, optimism, n),
            final(self).positions.map() == old(self).positions.map().insert(
                symbol.0,
                position_after(old(self).held(symbol.0), signed_qty, price, optimism, n),
            ),
            final(self).marks.map() == marks_after(old(self).marks.map(), symbol.0, price),
            final(self).totals() == (Totals {
                cash: n.cash,
                fees: n.fees,
                realized: if ends_trade(kind_of(old(self).held(symbol.0).qty, signed_qty, n.sum)) {
                    n.realized
                } else {
                    old(self).realized
                },
                ..old(self).totals()
            }),
    {
        let p: Position = match self.positions.get(&symbol.0) {
            Some(p) => *p,
            None => Position::default(),
        };
        self.cash = n.cash;
        self.fees = n.fees;
        self.mark(symbol, price);
        let kind = classify_fill(p.qty, signed_qty, n.sum);
        let mut outcome = FillOutcome {
            realized_gross: zero(),
            attributed_fees: zero(),
            attributed_funding: zero(),
            closed_qty: zero(),
            optimism,
        };
        let ends = match kind {
            FillKind::Open => false,
            FillKind::Increase => false,
            _ => true,
        };
        if ends {
            self.realized = n.realized;
            outcome = FillOutcome {
                realized_gross: n.gross,
                attributed_fees: n.attributed_fees,
                attributed_funding: n.attributed_funding,
                closed_qty: signed_qty.abs().min(p.qty.abs()),
                optimism: p.optimism.worse(optimism),
            };
        }
        let next = match kind {
            FillKind::Open => Position {
                qty: signed_qty,
                avg: price,
                fees: n.leg_fees,
                funding: zero(),
                optimism,
            },
            FillKind::Increase => Position {
                qty: n.sum,
                avg: n.average,
                fees: n.leg_fees,
                funding: p.funding,
                optimism: p.optimism.worse(optimism),
            },
            FillKind::Reduce => Position {
                qty: n.sum,
                avg: p.avg,
                fees: n.leg_fees,
                funding: n.leg_funding,
                optimism: p.optimism.worse(optimism),
            },
            FillKind::Close => Position::default(),
            FillKind::Flip => Position {
                qty: n.sum,
                avg: price,
                fees: n.leg_fees,
                funding: zero(),
                optimism,
            },
        };
        self.positions.set(symbol.0, next);
        outcome
    }

    /// The quantity held; zero where there is none.
    pub fn position(&self, symbol: SymbolId) -> (q: Real)
        requires
            self.wf(),
        ensures
            q == self.held(symbol.0).qty,
    {
        match self.positions.get(&symbol.0) {
            Some(p) => p.qty,
            None => zero(),
        }
    }

    /// The position as a whole; flat where there is none.
    pub fn position_record(&self, symbol: SymbolId) -> (p: Position)
        requires
            self.wf(),
        ensures
            p == self.held(symbol.0),
    {
        match self.positions.get(&symbol.0) {
            Some(p) => *p,
            None => Position::default(),
        }
    }

    /// The average cost of the position; zero where there is none.
    pub fn avg_cost(&self, symbol: SymbolId) -> (x: Real)
        requires
            self.wf(),
        ensures
            x == self.held(symbol.0).avg,
    {
        match self.positions.get(&symbol.0) {
            Some(p) => p.avg,
            None => zero(),
        }
    }

    /// The positions by symbol, with what each is valued at.
    pub fn positions(&self) -> (v: Vec<Holding>)
        requires
            self.wf(),
        ensures
            v@.len() == self.positions.entries@.len(),
            forall|i: int| 0 <= i < v@.len() ==> self.is_holding(#[trigger] v@[i], i),
    {
        let mut v: Vec<Holding> = Vec::new();
        let mut i: usize = 0;
        while i < self.positions.entries.len()
            invariant
                i <= self.positions.entries@.len(),
                self.wf(),
                v@.len() == i,
                forall|k: int| 0 <= k < i ==> self.is_holding(#[trigger] v@[k], k),
            decreases self.positions.entries@.len() - i,
        {
            let symbol: u32 = self.positions.entries[i].0;
            let p: Position = self.positions.entries[i].1;
            let mark: Real = match self.marks.get(&symbol) {
                Some(m) => *m,
                None => p.avg,
            };
            v.push(Holding { symbol: SymbolId(symbol), qty: p.qty, avg: p.avg, mark });
            i = i + 1;
        }
        v
    }

    /// `h` is the `i`-th position by symbol.
    pub open spec fn is_holding(&self, h: Holding, i: int) -> bool {
        let (symbol, p) = self.positions.entries@[i];
        &&& h.symbol.0 == symbol
        &&& h.qty == p.qty
        &&& h.avg == p.avg
        &&& h.mark == if self.marks.map().dom().contains(symbol) {
            self.marks.map()[symbol]
        } else {
            p.avg
        }
    }

    /// How many symbols are held.
    pub fn open_positions(&self) -> (n: usize)
        ensures
            n == count_open(self.positions.entries@),
    {
        let entries = &self.positions.entries;
        let mut n: usize = 0;
        let mut i: usize = 0;
        assert(entries@.take(0).len() == 0);
        while i < entries.len()
            invariant
                i <= entries@.len(),
                n <= i,
                n == count_open(entries@.take(i as int)),
            decreases entries@.len() - i,
        {
            assert(entries@.take(i + 1).drop_last() =~= entries@.take(i as int));
            assert(entries@.take(i + 1).last() == entries@[i as int]);
            if entries[i].1.qty.abs().is_positive() {
                n = n + 1;
            }
            i = i + 1;
        }
        assert(entries@.take(i as int) =~= entries@);
        n
    }

    pub fn realized(&self) -> (x: Real)
        ensures
            x == self.realized,
    {
        self.realized
    }

    pub fn fees(&self) -> (x: Real)
        ensures
            x == self.fees,
    {
        self.fees
    }

    pub fn funding_paid(&self) -> (x: Real)
        ensures
            x == self.funding_paid,
    {
        self.funding_paid
    }
}

/// How many of the positions are held.
pub open spec fn count_open(s: Seq<(u32, Position)>) -> nat
    decreases s.len(),
{
    if s.len() == 0 {
        0
    } else {
        count_open(s.drop_last()) + if s.last().1.qty.size().positive() {
            1nat
        } else {
            0nat
        }
    }
}

/// A fill behind which nothing is held leaves no trace on the position, and a
/// fill that opens or flips starts with its own tag.
pub proof fn law_fresh_position(
    p: Position,
    signed: Real,
    price: Real,
    optimism: FillOptimism,
    n: FillNumbers,
)
    ensures
        kind_of(p.qty, signed, n.sum) is Close ==> position_after(p, signed, price, optimism, n)
            == flat(),
        kind_of(p.qty, signed, n.sum) is Open || kind_of(p.qty, signed, n.sum) is Flip
            ==> position_after(p, signed, price, optimism, n).optimism == optimism
            && position_after(p, signed, price, optimism, n).avg == price,
{
}

/// The tag of a closed trade is at least as bad as that of every leg: a
/// conservative exit never hides an optimistic entry.
pub proof fn law_trade_tag_worst_leg(
    p: Position,
    signed: Real,
    optimism: FillOptimism,
    n: FillNumbers,
)
    requires
        ends_trade(kind_of(p.qty, signed, n.sum)),
    ensures
        crate::fills::optimism_weight(outcome_of(p, signed, optimism, n).optimism)
            >= crate::fills::optimism_weight(p.optimism),
        crate::fills::optimism_weight(outcome_of(p, signed, optimism, n).optimism)
            >= crate::fills::optimism_weight(optimism),
{
}

/// A fill closes no more than was held, and no more than was traded.
pub proof fn law_closes_no_more_than_held(
    p: Position,
    signed: Real,
    optimism: FillOptimism,
    n: FillNumbers,
)
    requires
        ends_trade(kind_of(p.qty, signed, n.sum)),
        !p.qty.nan(),
        !signed.nan(),
    ensures
        outcome_of(p, signed, optimism, n).closed_qty.le(p.qty.size()),
        outcome_of(p, signed, optimism, n).closed_qty.le(signed.size()),
{
}

/// What a fill does to a position, by the signs: without a position it opens;
/// on the side of the position it adds; against it, it closes all where nothing
/// is left, a part where the rest is on the old side, and turns the position
/// where it is on the other.
pub proof fn law_fill_by_sides(qty: Real, signed: Real, sum: Real)
    ensures
        kind_of(qty, signed, sum) == FillKind::Open <==> qty.zero(),
        qty.positive() && signed.positive() ==> kind_of(qty, signed, sum) == FillKind::Increase,
        qty.lt(nought()) && signed.lt(nought()) ==> kind_of(qty, signed, sum)
            == FillKind::Increase,
        qty.positive() && signed.lt(nought()) ==> {
            &&& kind_of(qty, signed, sum) == FillKind::Close <==> sum.zero()
            &&& sum.positive() ==> kind_of(qty, signed, sum) == FillKind::Reduce
            &&& sum.lt(nought()) ==> kind_of(qty, signed, sum) == FillKind::Flip
        },
        qty.lt(nought()) && signed.positive() ==> {
            &&& kind_of(qty, signed, sum) == FillKind::Close <==> sum.zero()
            &&& sum.lt(nought()) ==> kind_of(qty, signed, sum) == FillKind::Reduce
            &&& sum.positive() ==> kind_of(qty, signed, sum) == FillKind::Flip
        },
        nought() == (Real { bits: 0 }),
{
}

/// The position behind a fill. Where it opens, it has the fill's quantity,
/// price and tag; where it adds, the sum and the new average, under the tag that
/// flatters more; a part that is closed leaves the average cost as it was; all
/// of it leaves nothing; and a turn begins anew at the fill's price.
pub proof fn law_position_behind_a_fill(
    p: Position,
    signed: Real,
    price: Real,
    optimism: FillOptimism,
    n: FillNumbers,
)
    ensures
        ({
            let q = position_after(p, signed, price, optimism, n);
            let against = (p.qty.positive() && signed.lt(nought())) || (p.qty.lt(nought())
                && signed.positive());
            let along = (p.qty.positive() && signed.positive()) || (p.qty.lt(nought())
                && signed.lt(nought()));
            &&& p.qty.zero() ==> q.qty == signed && q.avg == price && q.fees == n.leg_fees
                && q.funding == nought() && q.optimism == optimism
            &&& along ==> q.qty == n.sum && q.avg == n.average && q.fees == n.leg_fees && q.funding
                == p.funding && (q.optimism == p.optimism || q.optimism == optimism)
            &&& along && (p.optimism == FillOptimism::Maker || optimism == FillOptimism::Maker)
                ==> q.optimism == FillOptimism::Maker
            &&& against && n.sum.zero() ==> q.qty.zero() && q.avg.zero() && q.fees.zero()
                && q.funding.zero() && q.optimism == FillOptimism::Exact
            &&& against && ((p.qty.positive() && n.sum.positive()) || (p.qty.lt(nought())
                && n.sum.lt(nought()))) ==> q.qty == n.sum && q.avg == p.avg && q.fees
                == n.leg_fees && q.funding == n.leg_funding
            &&& against && ((p.qty.positive() && n.sum.lt(nought())) || (p.qty.lt(nought())
                && n.sum.positive())) ==> q.qty == n.sum && q.avg == price && q.fees == n.leg_fees
                && q.funding == nought() && q.optimism == optimism
        }),
{
}

/// What a fill came to: only one against the position closes something, and then
/// the smaller of the two quantities, with the profit, fees and funding of that
/// part.
pub proof fn law_fill_outcome(p: Position, signed: Real, optimism: FillOptimism, n: FillNumbers)
    requires
        !p.qty.nan(),
        !signed.nan(),
        !signed.zero(),
    ensures
        ({
            let o = outcome_of(p, signed, optimism, n);
            let against = (p.qty.positive() && signed.lt(nought())) || (p.qty.lt(nought())
                && signed.positive());
            &&& against <==> o.closed_qty.positive()
            &&& against ==> o.realized_gross == n.gross && o.attributed_fees == n.attributed_fees
                && o.attributed_funding == n.attributed_funding && o.closed_qty.le(signed.size())
                && o.closed_qty.le(p.qty.size()) && (o.closed_qty == signed.size() || o.closed_qty
                == p.qty.size())
            &&& !against ==> o.realized_gross.zero() && o.attributed_fees.zero()
                && o.attributed_funding.zero() && o.closed_qty.zero() && o.optimism == optimism
        }),
{
}

/// The symbols that hold something are counted, whichever side they are on.
pub proof fn law_open_positions(s: Seq<(u32, Position)>)
    requires
        forall|i: int| 0 <= i < s.len() ==> !(#[trigger] s[i]).1.qty.nan(),
    ensures
        count_open(s) == s.filter(|e: (u32, Position)| !e.1.qty.zero()).len(),
    decreases s.len(),
{
    reveal(Seq::filter);
    if s.len() > 0 {
        let f = s.drop_last();
        assert forall|i: int| 0 <= i < f.len() implies !(#[trigger] f[i]).1.qty.nan() by {
            assert(f[i] == s[i]);
        }
        law_open_positions(f);
        assert(!s[s.len() - 1].1.qty.nan());
    }
}

/// A mark counts exactly if it is a finite number above zero, and then for its
/// symbol alone.
pub proof fn law_marks(m: Map<u32, Real>, symbol: u32, price: Real, other: u32)
    ensures
        0 < price.bits < crate::number::INF ==> marks_after(m, symbol, price).dom().contains(symbol)
            && marks_after(m, symbol, price)[symbol] == price,
        !(0 < price.bits < crate::number::INF) ==> marks_after(m, symbol, price) == m,
        other != symbol ==> marks_after(m, symbol, price).dom().contains(other) == m.dom().contains(
            other,
        ) && (m.dom().contains(other) ==> marks_after(m, symbol, price)[other] == m[other]),
{
}

/// A symbol that was never traded is held flat, any other as its last fill
/// left it.
pub proof fn law_held(a: Accountant, symbol: u32)
    ensures
        a.positions.map().dom().contains(symbol) ==> a.held(symbol) == a.positions.map()[symbol],
        !a.positions.map().dom().contains(symbol) ==> {
            &&& a.held(symbol).qty.bits == 0
            &&& a.held(symbol).avg.bits == 0
            &&& a.held(symbol).fees.bits == 0
            &&& a.held(symbol).funding.bits == 0
            &&& a.held(symbol).optimism == FillOptimism::Exact
        },
{
}

/// A holding is shown at its last mark, and at its own average where it was
/// never marked.
pub proof fn law_holding_shown(a: Accountant, h: Holding, i: int)
    requires
        a.is_holding(h, i),
    ensures
        h.symbol.0 == a.positions.entries@[i].0,
        h.qty == a.positions.entries@[i].1.qty,
        h.avg == a.positions.entries@[i].1.avg,
        a.marks.map().dom().contains(h.symbol.0) ==> h.mark == a.marks.map()[h.symbol.0],
        !a.marks.map().dom().contains(h.symbol.0) ==> h.mark == h.avg,
{
}

} // verus!
