//! Market events: what a recording holds, with numbers as [`Real`]s.
use vstd::prelude::*;
use crate::number::Real;
use crate::text::same;

verus! {

/// A source of recorded data. The order of the variants is the order of
/// venues wherever output is sorted by venue.
#[derive(Clone, Copy, Debug, PartialEq, Eq, Structural)]
pub enum Venue {
    BinanceFutures,
    Bybit,
    Okx,
    Hyperliquid,
    Coinbase,
    KrakenFutures,
    Deribit,
    Fred,
    Ethereum,
    Cboe,
    DeFiLlama,
    Coinalyze,
}

/// The name of a venue in recordings and reports.
pub open spec fn slug_of(v: Venue) -> Seq<char> {
    match v {
        Venue::BinanceFutures => "binance"@,
        Venue::Bybit => "bybit"@,
        Venue::Okx => "okx"@,
        Venue::Hyperliquid => "hyperliquid"@,
        Venue::Coinbase => "coinbase"@,
        Venue::KrakenFutures => "kraken"@,
        Venue::Deribit => "deribit"@,
        Venue::Fred => "fred"@,
        Venue::Ethereum => "ethereum"@,
        Venue::Cboe => "cboe"@,
        Venue::DeFiLlama => "defillama"@,
        Venue::Coinalyze => "coinalyze"@,
    }
}

/// The name of the venue's variant.
pub open spec fn venue_name_of(v: Venue) -> Seq<char> {
    match v {
        Venue::BinanceFutures => "BinanceFutures"@,
        Venue::Bybit => "Bybit"@,
        Venue::Okx => "Okx"@,
        Venue::Hyperliquid => "Hyperliquid"@,
        Venue::Coinbase => "Coinbase"@,
        Venue::KrakenFutures => "KrakenFutures"@,
        Venue::Deribit => "Deribit"@,
        Venue::Fred => "Fred"@,
        Venue::Ethereum => "Ethereum"@,
        Venue::Cboe => "Cboe"@,
        Venue::DeFiLlama => "DeFiLlama"@,
        Venue::Coinalyze => "Coinalyze"@,
    }
}

impl Venue {
    /// The name of the venue in recordings and reports.
    pub fn slug(self) -> (s: &'static str)
        ensures
            s@ == slug_of(self),
    {
        match self {
            Venue::BinanceFutures => "binance",
            Venue::Bybit => "bybit",
            Venue::Okx => "okx",
            Venue::Hyperliquid => "hyperliquid",
            Venue::Coinbase => "coinbase",
            Venue::KrakenFutures => "kraken",
            Venue::Deribit => "deribit",
            Venue::Fred => "fred",
            Venue::Ethereum => "ethereum",
            Venue::Cboe => "cboe",
            Venue::DeFiLlama => "defillama",
            Venue::Coinalyze => "coinalyze",
        }
    }

    /// The name of the venue's variant.
    pub fn name(self) -> (s: &'static str)
        ensures
            s@ == venue_name_of(self),
    {
        match self {
            Venue::BinanceFutures => "BinanceFutures",
            Venue::Bybit => "Bybit",
            Venue::Okx => "Okx",
            Venue::Hyperliquid => "Hyperliquid",
            Venue::Coinbase => "Coinbase",
            Venue::KrakenFutures => "KrakenFutures",
            Venue::Deribit => "Deribit",
            Venue::Fred => "Fred",
            Venue::Ethereum => "Ethereum",
            Venue::Cboe => "Cboe",
            Venue::DeFiLlama => "DeFiLlama",
            Venue::Coinalyze => "Coinalyze",
        }
    }

    /// The venue of that name, if any.
    pub fn from_slug(s: &str) -> (r: Option<Venue>)
        ensures
            match r {
                Some(v) => slug_of(v) == s@,
                None => forall|v: Venue| slug_of(v) != s@,
            },
    {
        if same(s, "binance") {
            Some(Venue::BinanceFutures)
        } else if same(s, "bybit") {
            Some(Venue::Bybit)
        } else if same(s, "okx") {
            Some(Venue::Okx)
        } else if same(s, "hyperliquid") {
            Some(Venue::Hyperliquid)
        } else if same(s, "coinbase") {
            Some(Venue::Coinbase)
        } else if same(s, "kraken") {
            Some(Venue::KrakenFutures)
        } else if same(s, "deribit") {
            Some(Venue::Deribit)
        } else if same(s, "fred") {
            Some(Venue::Fred)
        } else if same(s, "ethereum") {
            Some(Venue::Ethereum)
        } else if same(s, "cboe") {
            Some(Venue::Cboe)
        } else if same(s, "defillama") {
            Some(Venue::DeFiLlama)
        } else if same(s, "coinalyze") {
            Some(Venue::Coinalyze)
        } else {
            None
        }
    }
}

/// An interned symbol.
#[derive(Clone, Copy, Debug, PartialEq, Eq, Structural)]
pub struct SymbolId(pub u32);

/// An entry of a recording's symbol table.
#[derive(Debug)]
pub struct SymbolMeta {
    pub symbol_id: SymbolId,
    pub venue: Venue,
    pub venue_symbol: String,
}

/// The side of an order or an aggressor.
#[derive(Clone, Copy, Debug, PartialEq, Eq, Structural)]
pub enum Side {
    Buy,
    Sell,
}

/// Whether a fill provided or took liquidity.
#[derive(Clone, Copy, Debug, PartialEq, Eq, Structural)]
pub enum Liquidity {
    Maker,
    Taker,
}

/// What a connection reported.
#[derive(Clone, Copy, Debug, PartialEq, Eq, Structural)]
pub enum StatusKind {
    Connected,
    Disconnected,
    Stale,
    GapDetected,
    BackpressureDrop { dropped: u64 },
    Other,
}

/// Why a book snapshot was taken.
#[derive(Clone, Copy, Debug, PartialEq, Eq, Structural)]
pub enum SnapshotReason {
    Init,
    Periodic,
    GapResync,
}

/// Where a book snapshot came from.
#[derive(Clone, Copy, Debug, PartialEq, Eq, Structural)]
pub enum SnapshotSource {
    Unknown,
    Rest,
    Stream,
}

#[derive(Clone, Copy, Debug, PartialEq, Eq, Structural)]
pub enum OptionKind {
    Call,
    Put,
}

/// The contract that an option event is about.
#[derive(Debug)]
pub struct OptionLeg {
    pub underlying: String,
    pub strike: Real,
    pub expiry_ts_ns: i64,
    pub kind: OptionKind,
}

#[derive(Clone, Copy, Debug, PartialEq, Eq, Structural)]
pub struct OptionGreeks {
    pub delta: Real,
    pub gamma: Real,
    pub theta: Real,
    pub vega: Real,
}

/// What an event says.
#[derive(Debug)]
pub enum MarketEvent {
    Trade { price: Real, qty: Real, side: Side, trade_id: u64 },
    TradeWithAddr { price: Real, qty: Real, side: Side, trade_id: u64 },
    BookDelta { first_seq: u64, last_seq: u64 },
    BookSnapshot { seq: u64, reason: SnapshotReason },
    Funding { rate: Real, interval_s: u32, next_funding_ts_ns: i64 },
    MarkPrice { mark: Real, index: Real },
    OpenInterest { oi_contracts: Real, oi_notional: Real },
    Liquidation { price: Real, qty: Real, side: Side },
    IndexPrice { price: Real },
    Status { kind: StatusKind, detail: String },
    WhalePosition { address: String, size: Real, entry: Real, leverage: Real, liq_price: Real },
    MacroPoint { value: Real },
    OptionTrade { leg: OptionLeg, price: Real, qty: Real, side: Side, trade_id: u64 },
    OptionBook {
        leg: OptionLeg,
        bids: Vec<(Real, Real)>,
        asks: Vec<(Real, Real)>,
        change_id: u64,
        is_snapshot: bool,
    },
    OptionTicker {
        leg: OptionLeg,
        mark_iv: Real,
        mark_price: Real,
        underlying_price: Real,
        open_interest: Real,
        greeks: Option<OptionGreeks>,
    },
    NetflowSnapshot { value: Real },
}

/// Where an event came from.
#[derive(Debug)]
pub struct EventProvenance {
    pub stream: String,
    pub subscription: String,
    pub connection_id: u64,
    pub snapshot_source: SnapshotSource,
}

/// One recorded event.
#[derive(Debug)]
pub struct EventEnvelope {
    pub schema_ver: u16,
    pub venue: Venue,
    pub symbol: SymbolId,
    pub exch_ts_ns: i64,
    pub recv_ts_ns: i64,
    pub stream_seq: u64,
    pub provenance: EventProvenance,
    pub body: MarketEvent,
}

/// The schema that recordings are written in.
pub const SCHEMA_VER: u16 = 4;

/// What a trade event says.
#[derive(Clone, Copy, Debug, PartialEq, Eq, Structural)]
pub struct TradeView {
    pub price: Real,
    pub qty: Real,
    pub side: Side,
    pub trade_id: u64,
}

impl MarketEvent {
    /// The trade that the event reports, with or without addresses.
    pub open spec fn as_trade(self) -> Option<TradeView> {
        match self {
            MarketEvent::Trade { price, qty, side, trade_id } => Some(
                TradeView { price, qty, side, trade_id },
            ),
            MarketEvent::TradeWithAddr { price, qty, side, trade_id } => Some(
                TradeView { price, qty, side, trade_id },
            ),
            _ => None,
        }
    }

    /// The trade that the event reports, with or without addresses.
    pub fn trade_view(&self) -> (r: Option<TradeView>)
        ensures
            r == self.as_trade(),
    {
        match self {
            MarketEvent::Trade { price, qty, side, trade_id } => Some(
                TradeView { price: *price, qty: *qty, side: *side, trade_id: *trade_id },
            ),
            MarketEvent::TradeWithAddr { price, qty, side, trade_id } => Some(
                TradeView { price: *price, qty: *qty, side: *side, trade_id: *trade_id },
            ),
            _ => None,
        }
    }
}

impl EventEnvelope {
    /// An event of the current schema, without provenance.
    pub fn new(
        venue: Venue,
        symbol: SymbolId,
        exch_ts_ns: i64,
        recv_ts_ns: i64,
        stream_seq: u64,
        body: MarketEvent,
    ) -> (e: EventEnvelope)
        ensures
            e.schema_ver == SCHEMA_VER,
            e.venue == venue,
            e.symbol == symbol,
            e.exch_ts_ns == exch_ts_ns,
            e.recv_ts_ns == recv_ts_ns,
            e.stream_seq == stream_seq,
            e.body == body,
            e.provenance.stream@.len() == 0,
            e.provenance.subscription@.len() == 0,
            e.provenance.connection_id == 0,
            e.provenance.snapshot_source == SnapshotSource::Unknown,
    {
        EventEnvelope {
            schema_ver: SCHEMA_VER,
            venue,
            symbol,
            exch_ts_ns,
            recv_ts_ns,
            stream_seq,
            provenance: EventProvenance {
                stream: String::new(),
                subscription: String::new(),
                connection_id: 0,
                snapshot_source: SnapshotSource::Unknown,
            },
            body,
        }
    }

    /// The event with the given provenance.
    pub fn with_provenance(self, provenance: EventProvenance) -> (e: EventEnvelope)
        ensures
            e == (EventEnvelope { provenance, ..self }),
    {
        EventEnvelope {
            schema_ver: self.schema_ver,
            venue: self.venue,
            symbol: self.symbol,
            exch_ts_ns: self.exch_ts_ns,
            recv_ts_ns: self.recv_ts_ns,
            stream_seq: self.stream_seq,
            provenance,
            body: self.body,
        }
    }
}

/// Names of different venues differ.
pub proof fn law_slugs_distinct(a: Venue, b: Venue)
    ensures
        slug_of(a) == slug_of(b) ==> a == b,
{
    reveal_slugs();
}

/// Reveals the venue names.
pub proof fn reveal_slugs()
    ensures
        "binance"@ == seq!['b', 'i', 'n', 'a', 'n', 'c', 'e'],
        "bybit"@ == seq!['b', 'y', 'b', 'i', 't'],
        "okx"@ == seq!['o', 'k', 'x'],
        "hyperliquid"@ == seq!['h', 'y', 'p', 'e', 'r', 'l', 'i', 'q', 'u', 'i', 'd'],
        "coinbase"@ == seq!['c', 'o', 'i', 'n', 'b', 'a', 's', 'e'],
        "kraken"@ == seq!['k', 'r', 'a', 'k', 'e', 'n'],
        "deribit"@ == seq!['d', 'e', 'r', 'i', 'b', 'i', 't'],
        "fred"@ == seq!['f', 'r', 'e', 'd'],
        "ethereum"@ == seq!['e', 't', 'h', 'e', 'r', 'e', 'u', 'm'],
        "cboe"@ == seq!['c', 'b', 'o', 'e'],
        "defillama"@ == seq!['d', 'e', 'f', 'i', 'l', 'l', 'a', 'm', 'a'],
        "coinalyze"@ == seq!['c', 'o', 'i', 'n', 'a', 'l', 'y', 'z', 'e'],
{
    reveal_strlit("binance");
    reveal_strlit("bybit");
    reveal_strlit("okx");
    reveal_strlit("hyperliquid");
    reveal_strlit("coinbase");
    reveal_strlit("kraken");
    reveal_strlit("deribit");
    reveal_strlit("fred");
    reveal_strlit("ethereum");
    reveal_strlit("cboe");
    reveal_strlit("defillama");
    reveal_strlit("coinalyze");
    assert("binance"@ =~= seq!['b', 'i', 'n', 'a', 'n', 'c', 'e']);
    assert("bybit"@ =~= seq!['b', 'y', 'b', 'i', 't']);
    assert("okx"@ =~= seq!['o', 'k', 'x']);
    assert("hyperliquid"@ =~= seq!['h', 'y', 'p', 'e', 'r', 'l', 'i', 'q', 'u', 'i', 'd']);
    assert("coinbase"@ =~= seq!['c', 'o', 'i', 'n', 'b', 'a', 's', 'e']);
    assert("kraken"@ =~= seq!['k', 'r', 'a', 'k', 'e', 'n']);
    assert("deribit"@ =~= seq!['d', 'e', 'r', 'i', 'b', 'i', 't']);
    assert("fred"@ =~= seq!['f', 'r', 'e', 'd']);
    assert("ethereum"@ =~= seq!['e', 't', 'h', 'e', 'r', 'e', 'u', 'm']);
    assert("cboe"@ =~= seq!['c', 'b', 'o', 'e']);
    assert("defillama"@ =~= seq!['d', 'e', 'f', 'i', 'l', 'l', 'a', 'm', 'a']);
    assert("coinalyze"@ =~= seq!['c', 'o', 'i', 'n', 'a', 'l', 'y', 'z', 'e']);
}

/// A trade event is one with or without addresses; it reports its own price,
/// quantity, side and number.
pub proof fn law_trade_events(e: MarketEvent)
    ensures
        e.as_trade() is Some <==> e is Trade || e is TradeWithAddr,
        e is Trade ==> e.as_trade()->0.price == e->Trade_price && e.as_trade()->0.qty
            == e->Trade_qty && e.as_trade()->0.side == e->Trade_side && e.as_trade()->0.trade_id
            == e->Trade_trade_id,
        e is TradeWithAddr ==> e.as_trade()->0.price == e->TradeWithAddr_price
            && e.as_trade()->0.qty == e->TradeWithAddr_qty && e.as_trade()->0.side
            == e->TradeWithAddr_side && e.as_trade()->0.trade_id == e->TradeWithAddr_trade_id,
{
}

} // verus!
