//! Orders: what a strategy asks for, and what became of it.
use vstd::prelude::*;
use crate::event::{Liquidity, Side, SymbolId, Venue};
use crate::number::Real;

verus! {

/// What an order asks for.
#[derive(Clone, Copy, Debug, PartialEq, Eq, Structural)]
pub enum OrderKind {
    Market,
    Limit { px: Real },
    Cancel,
}

/// How an order is sized.
#[derive(Clone, Copy, Debug, PartialEq, Eq, Structural)]
pub enum SizeUnit {
    /// By a number of contracts.
    Contracts(Real),
    /// By units of risk, which the sizing rule turns into contracts.
    RiskUnits(Real),
}

/// What a strategy asks for.
#[derive(Debug)]
pub struct OrderIntent {
    pub intent_id: u128,
    pub strategy: String,
    pub venue: Venue,
    pub symbol: SymbolId,
    pub side: Side,
    pub kind: OrderKind,
    pub qty: SizeUnit,
    pub reduce_only: bool,
    pub tag: String,
}

/// The parts of an intent that the log shows as text.
#[derive(Debug)]
pub struct IntentTexts {
    pub kind: String,
    pub qty: String,
    pub tif: String,
}

/// A fill that was accounted for.
#[derive(Clone, Copy, Debug, PartialEq, Eq, Structural)]
pub struct Fill {
    pub intent_id: u128,
    pub symbol: SymbolId,
    pub side: Side,
    pub price: Real,
    pub qty: Real,
    pub fee: Real,
    pub liquidity: Liquidity,
    pub ts_ns: i64,
}

/// The name of a side.
pub open spec fn side_text(s: Side) -> Seq<char> {
    match s {
        Side::Buy => "Buy"@,
        Side::Sell => "Sell"@,
    }
}

/// The name of a side.
pub fn side_name(s: Side) -> (t: &'static str)
    ensures
        t@ == side_text(s),
{
    match s {
        Side::Buy => "Buy",
        Side::Sell => "Sell",
    }
}

/// The name of a liquidity role.
pub open spec fn liquidity_text(l: Liquidity) -> Seq<char> {
    match l {
        Liquidity::Maker => "Maker"@,
        Liquidity::Taker => "Taker"@,
    }
}

/// The name of a liquidity role.
pub fn liquidity_name(l: Liquidity) -> (t: &'static str)
    ensures
        t@ == liquidity_text(l),
{
    match l {
        Liquidity::Maker => "Maker",
        Liquidity::Taker => "Taker",
    }
}

/// `true` or `false`.
pub open spec fn bool_text(b: bool) -> Seq<char> {
    if b {
        "true"@
    } else {
        "false"@
    }
}

/// `true` or `false`.
pub fn bool_name(b: bool) -> (t: &'static str)
    ensures
        t@ == bool_text(b),
{
    if b {
        "true"
    } else {
        "false"
    }
}

} // verus!
