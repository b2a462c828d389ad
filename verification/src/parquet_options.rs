//! Option events as columns: one row per event, and back.
//!
//! The three kinds of option event share one flat set of columns; what a kind
//! does not have is null. Book levels are stored as text.
use vstd::prelude::*;
use crate::error::{Failure, StorageError};
use crate::event::{EventEnvelope, MarketEvent, OptionGreeks, OptionKind, OptionLeg, SymbolId};
use crate::layout::{code_of, venue_code, venue_from_code, venue_of_code};
use crate::number::Real;
use crate::parquet_trades::{in_range, selected, side_code, side_code_of, side_from_code, side_of_code};
use crate::text::{dec, push_dec};

verus! {

/// The `kind` of a trade row.
pub const KIND_TRADE: u8 = 0;

/// The `kind` of a book row.
pub const KIND_BOOK: u8 = 1;

/// The `kind` of a ticker row.
pub const KIND_TICKER: u8 = 2;

/// The columns of an options file.
pub struct OptionColumns {
    pub symbol_id: Vec<u32>,
    pub venue_code: Vec<u16>,
    pub exch_ts_ns: Vec<i64>,
    pub recv_ts_ns: Vec<i64>,
    pub stream_seq: Vec<u64>,
    pub kind: Vec<u8>,
    pub underlying: Vec<String>,
    pub strike: Vec<Real>,
    pub expiry_ts_ns: Vec<i64>,
    pub option_kind: Vec<u8>,
    pub price: Vec<Option<Real>>,
    pub qty: Vec<Option<Real>>,
    pub side: Vec<Option<u8>>,
    pub trade_id: Vec<Option<u64>>,
    pub change_id: Vec<Option<u64>>,
    pub is_snapshot: Vec<Option<bool>>,
    pub bids: Vec<Option<String>>,
    pub asks: Vec<Option<String>>,
    pub mark_iv: Vec<Option<Real>>,
    pub mark_price: Vec<Option<Real>>,
    pub underlying_price: Vec<Option<Real>>,
    pub open_interest: Vec<Option<Real>>,
    pub delta: Vec<Option<Real>>,
    pub gamma: Vec<Option<Real>>,
    pub theta: Vec<Option<Real>>,
    pub vega: Vec<Option<Real>>,
}

/// The part of a row that every kind has.
pub struct RowHead {
    pub symbol_id: u32,
    pub venue_code: u16,
    pub exch_ts_ns: i64,
    pub recv_ts_ns: i64,
    pub stream_seq: u64,
    pub kind: u8,
    pub underlying: Seq<char>,
    pub strike: Real,
    pub expiry_ts_ns: i64,
    pub option_kind: u8,
}

/// The part of a row that trades have.
#[derive(Clone, Copy, Debug, PartialEq, Eq, Structural)]
pub struct TradePart {
    pub price: Option<Real>,
    pub qty: Option<Real>,
    pub side: Option<u8>,
    pub trade_id: Option<u64>,
}

/// The part of a row that books have.
pub struct BookPart {
    pub change_id: Option<u64>,
    pub is_snapshot: Option<bool>,
    pub bids: Option<Seq<char>>,
    pub asks: Option<Seq<char>>,
}

/// The part of a row that tickers have.
#[derive(Clone, Copy, Debug, PartialEq, Eq, Structural)]
pub struct TickerPart {
    pub mark_iv: Option<Real>,
    pub mark_price: Option<Real>,
    pub underlying_price: Option<Real>,
    pub open_interest: Option<Real>,
    pub delta: Option<Real>,
    pub gamma: Option<Real>,
    pub theta: Option<Real>,
    pub vega: Option<Real>,
}

/// What a row of an options file says.
pub struct OptionRow {
    pub head: RowHead,
    pub trade: TradePart,
    pub book: BookPart,
    pub ticker: TickerPart,
}

/// No trade.
pub open spec fn no_trade() -> TradePart {
    TradePart { price: None, qty: None, side: None, trade_id: None }
}

/// No book.
pub open spec fn no_book() -> BookPart {
    BookPart { change_id: None, is_snapshot: None, bids: None, asks: None }
}

/// No ticker.
pub open spec fn no_ticker() -> TickerPart {
    TickerPart {
        mark_iv: None,
        mark_price: None,
        underlying_price: None,
        open_interest: None,
        delta: None,
        gamma: None,
        theta: None,
        vega: None,
    }
}

/// The text of an optional string.
pub open spec fn opt_text(o: Option<String>) -> Option<Seq<char>> {
    match o {
        Some(s) => Some(s@),
        None => None,
    }
}

/// The code of an option kind.
pub open spec fn opt_kind_code_of(k: OptionKind) -> u8 {
    match k {
        OptionKind::Call => 0,
        OptionKind::Put => 1,
    }
}

/// The code of an option kind.
pub fn opt_kind_code(k: OptionKind) -> (c: u8)
    ensures
        c == opt_kind_code_of(k),
{
    match k {
        OptionKind::Call => 0,
        OptionKind::Put => 1,
    }
}

/// The option kind of a code.
pub open spec fn opt_kind_of_code(c: u8) -> Option<OptionKind> {
    match c {
        0 => Some(OptionKind::Call),
        1 => Some(OptionKind::Put),
        _ => None,
    }
}

/// The option kind of a code, if a kind has it.
pub fn opt_kind_from_code(c: u8) -> (r: Option<OptionKind>)
    ensures
        r == opt_kind_of_code(c),
{
    match c {
        0 => Some(OptionKind::Call),
        1 => Some(OptionKind::Put),
        _ => None,
    }
}

impl OptionColumns {
    /// All columns have the same length.
    pub open spec fn wf(&self) -> bool {
        let n = self.symbol_id@.len();
        &&& self.venue_code@.len() == n
        &&& self.exch_ts_ns@.len() == n
        &&& self.recv_ts_ns@.len() == n
        &&& self.stream_seq@.len() == n
        &&& self.kind@.len() == n
        &&& self.underlying@.len() == n
        &&& self.strike@.len() == n
        &&& self.expiry_ts_ns@.len() == n
        &&& self.option_kind@.len() == n
        &&& self.price@.len() == n
        &&& self.qty@.len() == n
        &&& self.side@.len() == n
        &&& self.trade_id@.len() == n
        &&& self.change_id@.len() == n
        &&& self.is_snapshot@.len() == n
        &&& self.bids@.len() == n
        &&& self.asks@.len() == n
        &&& self.mark_iv@.len() == n
        &&& self.mark_price@.len() == n
        &&& self.underlying_price@.len() == n
        &&& self.open_interest@.len() == n
        &&& self.delta@.len() == n
        &&& self.gamma@.len() == n
        &&& self.theta@.len() == n
        &&& self.vega@.len() == n
    }

    /// The row at `i`.
    pub open spec fn row(&self, i: int) -> OptionRow {
        OptionRow {
            head: RowHead {
                symbol_id: self.symbol_id@[i],
                venue_code: self.venue_code@[i],
                exch_ts_ns: self.exch_ts_ns@[i],
                recv_ts_ns: self.recv_ts_ns@[i],
                stream_seq: self.stream_seq@[i],
                kind: self.kind@[i],
                underlying: self.underlying@[i]@,
                strike: self.strike@[i],
                expiry_ts_ns: self.expiry_ts_ns@[i],
                option_kind: self.option_kind@[i],
            },
            trade: TradePart {
                price: self.price@[i],
                qty: self.qty@[i],
                side: self.side@[i],
                trade_id: self.trade_id@[i],
            },
            book: BookPart {
                change_id: self.change_id@[i],
                is_snapshot: self.is_snapshot@[i],
                bids: opt_text(self.bids@[i]),
                asks: opt_text(self.asks@[i]),
            },
            ticker: TickerPart {
                mark_iv: self.mark_iv@[i],
                mark_price: self.mark_price@[i],
                underlying_price: self.underlying_price@[i],
                open_interest: self.open_interest@[i],
                delta: self.delta@[i],
                gamma: self.gamma@[i],
                theta: self.theta@[i],
                vega: self.vega@[i],
            },
        }
    }

    /// The rows.
    pub open spec fn rows(&self) -> Seq<OptionRow> {
        Seq::new(self.symbol_id@.len(), |i: int| self.row(i))
    }

    /// Columns without rows.
    pub fn new() -> (c: OptionColumns)
        ensures
            c.wf(),
            c.rows() == Seq::<OptionRow>::empty(),
    {
        let c = OptionColumns {
            symbol_id: Vec::new(),
            venue_code: Vec::new(),
            exch_ts_ns: Vec::new(),
            recv_ts_ns: Vec::new(),
            stream_seq: Vec::new(),
            kind: Vec::new(),
            underlying: Vec::new(),
            strike: Vec::new(),
            expiry_ts_ns: Vec::new(),
            option_kind: Vec::new(),
            price: Vec::new(),
            qty: Vec::new(),
            side: Vec::new(),
            trade_id: Vec::new(),
            change_id: Vec::new(),
            is_snapshot: Vec::new(),
            bids: Vec::new(),
            asks: Vec::new(),
            mark_iv: Vec::new(),
            mark_price: Vec::new(),
            underlying_price: Vec::new(),
            open_interest: Vec::new(),
            delta: Vec::new(),
            gamma: Vec::new(),
            theta: Vec::new(),
            vega: Vec::new(),
        };
        assert(c.rows() =~= Seq::<OptionRow>::empty());
        c
    }

    /// Adds the row of event `e`, whose contract is `leg`.
    fn push_row(
        &mut self,
        e: &EventEnvelope,
        leg: &OptionLeg,
        kind: u8,
        trade: TradePart,
        change_id: Option<u64>,
        is_snapshot: Option<bool>,
        bids: Option<String>,
        asks: Option<String>,
        ticker: TickerPart,
    )
        requires
            old(self).wf(),
        ensures
            final(self).wf(),
            final(self).rows() == old(self).rows().push(
                OptionRow {
                    head: head_of(*e, *leg, kind),
                    trade,
                    book: BookPart {
                        change_id,
                        is_snapshot,
                        bids: opt_text(bids),
                        asks: opt_text(asks),
                    },
                    ticker,
                },
            ),
    {
        let ghost before = self.rows();
        let ghost added = OptionRow {
            head: head_of(*e, *leg, kind),
            trade,
            book: BookPart { change_id, is_snapshot, bids: opt_text(bids), asks: opt_text(asks) },
            ticker,
        };
        let ghost n = self.symbol_id@.len() as int;
        self.symbol_id.push(e.symbol.0);
        self.venue_code.push(venue_code(e.venue));
        self.exch_ts_ns.push(e.exch_ts_ns);
        self.recv_ts_ns.push(e.recv_ts_ns);
        self.stream_seq.push(e.stream_seq);
        self.kind.push(kind);
        self.underlying.push(leg.underlying.clone());
        self.strike.push(leg.strike);
        self.expiry_ts_ns.push(leg.expiry_ts_ns);
        self.option_kind.push(opt_kind_code(leg.kind));
        self.price.push(trade.price);
        self.qty.push(trade.qty);
        self.side.push(trade.side);
        self.trade_id.push(trade.trade_id);
        self.change_id.push(change_id);
        self.is_snapshot.push(is_snapshot);
        self.bids.push(bids);
        self.asks.push(asks);
        self.mark_iv.push(ticker.mark_iv);
        self.mark_price.push(ticker.mark_price);
        self.underlying_price.push(ticker.underlying_price);
        self.open_interest.push(ticker.open_interest);
        self.delta.push(ticker.delta);
        self.gamma.push(ticker.gamma);
        self.theta.push(ticker.theta);
        self.vega.push(ticker.vega);
        proof {
            assert(self.row(n) == added);
            assert forall|i: int| 0 <= i < n implies self.row(i) == #[trigger] before[i] by {}
            assert(self.rows() =~= before.push(added));
        }
    }
}

/// The part of a row that every kind has.
pub open spec fn head_of(e: EventEnvelope, leg: OptionLeg, kind: u8) -> RowHead {
    RowHead {
        symbol_id: e.symbol.0,
        venue_code: code_of(e.venue),
        exch_ts_ns: e.exch_ts_ns,
        recv_ts_ns: e.recv_ts_ns,
        stream_seq: e.stream_seq,
        kind,
        underlying: leg.underlying@,
        strike: leg.strike,
        expiry_ts_ns: leg.expiry_ts_ns,
        option_kind: opt_kind_code_of(leg.kind),
    }
}

/// The row of an option event; of a book, with its levels as `texts`.
pub open spec fn option_row_of(e: EventEnvelope, texts: (Seq<char>, Seq<char>)) -> Option<
    OptionRow,
> {
    match e.body {
        MarketEvent::OptionTrade { leg, price, qty, side, trade_id } => Some(
            OptionRow {
                head: head_of(e, leg, KIND_TRADE),
                trade: TradePart {
                    price: Some(price),
                    qty: Some(qty),
                    side: Some(side_code_of(side)),
                    trade_id: Some(trade_id),
                },
                book: no_book(),
                ticker: no_ticker(),
            },
        ),
        MarketEvent::OptionBook { leg, change_id, is_snapshot, .. } => Some(
            OptionRow {
                head: head_of(e, leg, KIND_BOOK),
                trade: no_trade(),
                book: BookPart {
                    change_id: Some(change_id),
                    is_snapshot: Some(is_snapshot),
                    bids: Some(texts.0),
                    asks: Some(texts.1),
                },
                ticker: no_ticker(),
            },
        ),
        MarketEvent::OptionTicker {
            leg,
            mark_iv,
            mark_price,
            underlying_price,
            open_interest,
            greeks,
        } => Some(
            OptionRow {
                head: head_of(e, leg, KIND_TICKER),
                trade: no_trade(),
                book: no_book(),
                ticker: TickerPart {
                    mark_iv: Some(mark_iv),
                    mark_price: Some(mark_price),
                    underlying_price: Some(underlying_price),
                    open_interest: Some(open_interest),
                    delta: match greeks {
                        Some(g) => Some(g.delta),
                        None => None,
                    },
                    gamma: match greeks {
                        Some(g) => Some(g.gamma),
                        None => None,
                    },
                    theta: match greeks {
                        Some(g) => Some(g.theta),
                        None => None,
                    },
                    vega: match greeks {
                        Some(g) => Some(g.vega),
                        None => None,
                    },
                },
            },
        ),
        _ => None,
    }
}

/// How many of the events are option books.
pub open spec fn book_count(events: Seq<EventEnvelope>) -> nat
    decreases events.len(),
{
    if events.len() == 0 {
        0
    } else {
        book_count(events.drop_last()) + if events.last().body is OptionBook {
            1nat
        } else {
            0
        }
    }
}

/// The texts of a list of pairs.
pub open spec fn text_pairs(v: Seq<(String, String)>) -> Seq<(Seq<char>, Seq<char>)> {
    Seq::new(v.len(), |i: int| (v[i].0@, v[i].1@))
}

/// The rows of the option events among `events`, in order; the books' levels
/// are `texts`, one pair for each book.
pub open spec fn option_rows_of(
    events: Seq<EventEnvelope>,
    texts: Seq<(Seq<char>, Seq<char>)>,
) -> Seq<OptionRow>
    decreases events.len(),
{
    if events.len() == 0 {
        Seq::empty()
    } else {
        let before = option_rows_of(events.drop_last(), texts);
        match option_row_of(events.last(), texts[book_count(events.drop_last()) as int]) {
            Some(r) => before.push(r),
            None => before,
        }
    }
}

/// The option events among the events at `order`, one row each; other events
/// are passed over. `levels` holds the bids and asks of each book as text.
pub fn write_options(
    events: &Vec<EventEnvelope>,
    order: &Vec<usize>,
    levels: &Vec<(String, String)>,
) -> (c: OptionColumns)
    requires
        in_range(order@, events@.len()),
        levels@.len() == book_count(selected(events@, order@)),
    ensures
        c.wf(),
        c.rows() == option_rows_of(selected(events@, order@), text_pairs(levels@)),
{
    let mut c = OptionColumns::new();
    let ghost sel = selected(events@, order@);
    let ghost texts = text_pairs(levels@);
    let book_total: usize = levels.len();
    let mut books: usize = 0;
    let mut i: usize = 0;
    assert(sel.take(0).len() == 0);
    while i < order.len()
        invariant
            i <= order@.len(),
            in_range(order@, events@.len()),
            sel == selected(events@, order@),
            texts == text_pairs(levels@),
            levels@.len() == book_count(sel),
            levels@.len() == book_total,
            books == book_count(sel.take(i as int)),
            c.wf(),
            c.rows() == option_rows_of(sel.take(i as int), texts),
        decreases order@.len() - i,
    {
        let e = &events[order[i]];
        proof {
            assert(sel.take(i + 1).drop_last() =~= sel.take(i as int));
            assert(sel.take(i + 1).last() == *e);
            lemma_book_count(sel, i + 1);
        }
        match &e.body {
            MarketEvent::OptionTrade { leg, price, qty, side, trade_id } => {
                c.push_row(
                    e,
                    leg,
                    KIND_TRADE,
                    TradePart {
                        price: Some(*price),
                        qty: Some(*qty),
                        side: Some(side_code(*side)),
                        trade_id: Some(*trade_id),
                    },
                    None,
                    None,
                    None,
                    None,
                    empty_ticker(),
                );
            },
            MarketEvent::OptionBook { leg, change_id, is_snapshot, .. } => {
                c.push_row(
                    e,
                    leg,
                    KIND_BOOK,
                    empty_trade(),
                    Some(*change_id),
                    Some(*is_snapshot),
                    Some(levels[books].0.clone()),
                    Some(levels[books].1.clone()),
                    empty_ticker(),
                );
                books = books + 1;
            },
            MarketEvent::OptionTicker {
                leg,
                mark_iv,
                mark_price,
                underlying_price,
                open_interest,
                greeks,
            } => {
                let (delta, gamma, theta, vega) = match greeks {
                    Some(g) => (Some(g.delta), Some(g.gamma), Some(g.theta), Some(g.vega)),
                    None => (None, None, None, None),
                };
                c.push_row(
                    e,
                    leg,
                    KIND_TICKER,
                    empty_trade(),
                    None,
                    None,
                    None,
                    None,
                    TickerPart {
                        mark_iv: Some(*mark_iv),
                        mark_price: Some(*mark_price),
                        underlying_price: Some(*underlying_price),
                        open_interest: Some(*open_interest),
                        delta,
                        gamma,
                        theta,
                        vega,
                    },
                );
            },
            _ => {},
        }
        i = i + 1;
    }
    assert(sel.take(i as int) =~= sel);
    c
}

proof fn lemma_book_count(events: Seq<EventEnvelope>, k: int)
    requires
        0 <= k <= events.len(),
    ensures
        book_count(events.take(k)) <= book_count(events),
    decreases events.len(),
{
    if k < events.len() {
        assert(events.drop_last().take(k) =~= events.take(k));
        lemma_book_count(events.drop_last(), k);
    } else {
        assert(events.take(k) =~= events);
    }
}

fn empty_trade() -> (t: TradePart)
    ensures
        t == no_trade(),
{
    TradePart { price: None, qty: None, side: None, trade_id: None }
}

fn empty_ticker() -> (t: TickerPart)
    ensures
        t == no_ticker(),
{
    TickerPart {
        mark_iv: None,
        mark_price: None,
        underlying_price: None,
        open_interest: None,
        delta: None,
        gamma: None,
        theta: None,
        vega: None,
    }
}

// ---------------------------------------------------------------------------
// Reading back
// ---------------------------------------------------------------------------

/// What decoding one side of a book gave: its levels, or what is wrong with
/// its text.
pub type Decoded = Result<Vec<(Real, Real)>, String>;

/// The number in a slot; a null slot holds zero.
pub open spec fn number_in(o: Option<Real>) -> Real {
    match o {
        Some(x) => x,
        None => Real { bits: 0 },
    }
}

fn number_of(o: Option<Real>) -> (x: Real)
    ensures
        x == number_in(o),
{
    match o {
        Some(x) => x,
        None => Real { bits: 0 },
    }
}

/// The levels whose price and quantity are finite, in order.
pub open spec fn finite_levels(s: Seq<(Real, Real)>) -> Seq<(Real, Real)>
    decreases s.len(),
{
    if s.len() == 0 {
        Seq::empty()
    } else {
        let before = finite_levels(s.drop_last());
        if s.last().0.finite() && s.last().1.finite() {
            before.push(s.last())
        } else {
            before
        }
    }
}

/// What is wrong with one side of a book row.
pub open spec fn side_fault(text: Option<Seq<char>>, decoded: Decoded) -> Option<Seq<char>> {
    if text is None {
        Some("OptionBook row with null bids/asks (corrupt)"@)
    } else {
        match decoded {
            Ok(_) => None,
            Err(e) => Some("bad book levels json: "@ + e@),
        }
    }
}

/// What is wrong with a row, if anything: an unknown venue or option kind, an
/// unknown row kind, or a book with something missing.
pub open spec fn row_fault(r: OptionRow, levels: (Decoded, Decoded)) -> Option<Seq<char>> {
    if venue_of_code(r.head.venue_code) is None {
        Some("unknown venue code"@)
    } else if opt_kind_of_code(r.head.option_kind) is None {
        Some("bad option kind code"@)
    } else if r.head.kind == KIND_BOOK {
        if side_fault(r.book.bids, levels.0) is Some {
            side_fault(r.book.bids, levels.0)
        } else if side_fault(r.book.asks, levels.1) is Some {
            side_fault(r.book.asks, levels.1)
        } else if r.book.change_id is None {
            Some("OptionBook row with null change_id (corrupt)"@)
        } else if r.book.is_snapshot is None {
            Some("OptionBook row with null is_snapshot (corrupt)"@)
        } else {
            None
        }
    } else if r.head.kind == KIND_TRADE || r.head.kind == KIND_TICKER {
        None
    } else {
        Some("bad option kind "@ + dec(r.head.kind as nat))
    }
}

/// `leg` is the contract of the row.
pub open spec fn is_leg_of(leg: OptionLeg, h: RowHead) -> bool {
    &&& leg.underlying@ == h.underlying
    &&& leg.strike == h.strike
    &&& leg.expiry_ts_ns == h.expiry_ts_ns
    &&& opt_kind_of_code(h.option_kind) == Some(leg.kind)
}

/// The event `e` is the event of row `r`, whose levels decode to `levels`.
pub open spec fn is_option_of(e: EventEnvelope, r: OptionRow, levels: (Decoded, Decoded)) -> bool {
    &&& venue_of_code(r.head.venue_code) == Some(e.venue)
    &&& e.symbol == SymbolId(r.head.symbol_id)
    &&& e.exch_ts_ns == r.head.exch_ts_ns
    &&& e.recv_ts_ns == r.head.recv_ts_ns
    &&& e.stream_seq == r.head.stream_seq
    &&& match e.body {
        MarketEvent::OptionTrade { leg, price, qty, side, trade_id } => r.head.kind == KIND_TRADE
            && is_leg_of(leg, r.head) && price == number_in(r.trade.price) && qty == number_in(
            r.trade.qty,
        ) && side == side_of_code(
            match r.trade.side {
                Some(c) => c,
                None => 0,
            },
        ) && trade_id == (match r.trade.trade_id {
            Some(t) => t,
            None => 0,
        }),
        MarketEvent::OptionBook { leg, bids, asks, change_id, is_snapshot } => r.head.kind
            == KIND_BOOK && is_leg_of(leg, r.head) && bids@ == finite_levels(levels.0->Ok_0@)
            && asks@ == finite_levels(levels.1->Ok_0@) && r.book.change_id == Some(change_id)
            && r.book.is_snapshot == Some(is_snapshot),
        MarketEvent::OptionTicker {
            leg,
            mark_iv,
            mark_price,
            underlying_price,
            open_interest,
            greeks,
        } => r.head.kind == KIND_TICKER && is_leg_of(leg, r.head) && mark_iv == number_in(
            r.ticker.mark_iv,
        ) && mark_price == number_in(r.ticker.mark_price) && underlying_price == number_in(
            r.ticker.underlying_price,
        ) && open_interest == number_in(r.ticker.open_interest) && greeks == if r.ticker.delta is None {
            None
        } else {
            Some(
                OptionGreeks {
                    delta: number_in(r.ticker.delta),
                    gamma: number_in(r.ticker.gamma),
                    theta: number_in(r.ticker.theta),
                    vega: number_in(r.ticker.vega),
                },
            )
        },
        _ => false,
    }
}

fn keep_finite(levels: &Vec<(Real, Real)>) -> (r: Vec<(Real, Real)>)
    ensures
        r@ == finite_levels(levels@),
{
    let mut r: Vec<(Real, Real)> = Vec::new();
    let mut i: usize = 0;
    assert(r@ =~= finite_levels(levels@.take(0)));
    while i < levels.len()
        invariant
            i <= levels@.len(),
            r@ == finite_levels(levels@.take(i as int)),
        decreases levels@.len() - i,
    {
        assert(levels@.take(i + 1).drop_last() =~= levels@.take(i as int));
        let level = levels[i];
        if level.0.is_finite() && level.1.is_finite() {
            r.push(level);
        }
        i = i + 1;
    }
    assert(levels@.take(i as int) =~= levels@);
    r
}

/// The levels of one side of a book row, if nothing is wrong with it.
fn side_levels(text: &Option<String>, decoded: &Decoded) -> (r: Result<
    Vec<(Real, Real)>,
    StorageError,
>)
    ensures
        match r {
            Ok(v) => side_fault(opt_text(*text), *decoded) is None && v@ == finite_levels(
                decoded->Ok_0@,
            ),
            Err(e) => side_fault(opt_text(*text), *decoded) is Some && e.says() == Failure::Arrow(
                side_fault(opt_text(*text), *decoded)->0,
            ),
        },
{
    match text {
        None => Err(
            StorageError::Arrow("OptionBook row with null bids/asks (corrupt)".to_owned()),
        ),
        Some(_) => match decoded {
            Ok(v) => Ok(keep_finite(v)),
            Err(e) => Err(
                StorageError::Arrow("bad book levels json: ".to_owned().concat(e.as_str())),
            ),
        },
    }
}

/// The event of row `i`, if nothing is wrong with it.
fn read_row(c: &OptionColumns, i: usize, levels: &(Decoded, Decoded)) -> (r: Result<
    EventEnvelope,
    StorageError,
>)
    requires
        c.wf(),
        i < c.symbol_id@.len(),
    ensures
        match r {
            Ok(e) => row_fault(c.row(i as int), *levels) is None && is_option_of(
                e,
                c.row(i as int),
                *levels,
            ),
            Err(e) => row_fault(c.row(i as int), *levels) is Some && e.says() == Failure::Arrow(
                row_fault(c.row(i as int), *levels)->0,
            ),
        },
{
    let venue = match venue_from_code(c.venue_code[i]) {
        Some(v) => v,
        None => {
            return Err(StorageError::Arrow("unknown venue code".to_owned()));
        },
    };
    let leg_kind = match opt_kind_from_code(c.option_kind[i]) {
        Some(k) => k,
        None => {
            return Err(StorageError::Arrow("bad option kind code".to_owned()));
        },
    };
    let leg = OptionLeg {
        underlying: c.underlying[i].clone(),
        strike: c.strike[i],
        expiry_ts_ns: c.expiry_ts_ns[i],
        kind: leg_kind,
    };
    let kind: u8 = c.kind[i];
    let body = if kind == KIND_TRADE {
        let side: u8 = match c.side[i] {
            Some(s) => s,
            None => 0,
        };
        let trade_id: u64 = match c.trade_id[i] {
            Some(t) => t,
            None => 0,
        };
        MarketEvent::OptionTrade {
            leg,
            price: number_of(c.price[i]),
            qty: number_of(c.qty[i]),
            side: side_from_code(side),
            trade_id,
        }
    } else if kind == KIND_BOOK {
        let bids = match side_levels(&c.bids[i], &levels.0) {
            Ok(v) => v,
            Err(e) => {
                return Err(e);
            },
        };
        let asks = match side_levels(&c.asks[i], &levels.1) {
            Ok(v) => v,
            Err(e) => {
                return Err(e);
            },
        };
        let change_id: u64 = match c.change_id[i] {
            Some(x) => x,
            None => {
                return Err(
                    StorageError::Arrow("OptionBook row with null change_id (corrupt)".to_owned()),
                );
            },
        };
        let is_snapshot = match c.is_snapshot[i] {
            Some(x) => x,
            None => {
                return Err(
                    StorageError::Arrow(
                        "OptionBook row with null is_snapshot (corrupt)".to_owned(),
                    ),
                );
            },
        };
        MarketEvent::OptionBook { leg, bids, asks, change_id, is_snapshot }
    } else if kind == KIND_TICKER {
        let greeks = match c.delta[i] {
            None => None,
            Some(delta) => Some(
                OptionGreeks {
                    delta,
                    gamma: number_of(c.gamma[i]),
                    theta: number_of(c.theta[i]),
                    vega: number_of(c.vega[i]),
                },
            ),
        };
        MarketEvent::OptionTicker {
            leg,
            mark_iv: number_of(c.mark_iv[i]),
            mark_price: number_of(c.mark_price[i]),
            underlying_price: number_of(c.underlying_price[i]),
            open_interest: number_of(c.open_interest[i]),
            greeks,
        }
    } else {
        let mut text = "bad option kind ".to_owned();
        push_dec(&mut text, kind as u64);
        return Err(StorageError::Arrow(text));
    };
    Ok(
        EventEnvelope::new(
            venue,
            SymbolId(c.symbol_id[i]),
            c.exch_ts_ns[i],
            c.recv_ts_ns[i],
            c.stream_seq[i],
            body,
        ),
    )
}

/// What reading the rows gives: an event for each, or what is wrong with the
/// first row that has a fault.
pub open spec fn options_read(
    c: OptionColumns,
    levels: Seq<(Decoded, Decoded)>,
    r: Result<Vec<EventEnvelope>, StorageError>,
) -> bool {
    match r {
        Ok(events) => events@.len() == c.symbol_id@.len() && forall|i: int|
            0 <= i < events@.len() ==> row_fault(c.row(i), levels[i]) is None && is_option_of(
                #[trigger] events@[i],
                c.row(i),
                levels[i],
            ),
        Err(e) => exists|i: int|
            #![trigger c.row(i)]
            {
                &&& 0 <= i < c.symbol_id@.len()
                &&& row_fault(c.row(i), levels[i]) is Some
                &&& e.says() == Failure::Arrow(row_fault(c.row(i), levels[i])->0)
                &&& forall|k: int|
                    0 <= k < i ==> row_fault(#[trigger] c.row(k), levels[k]) is None
            },
    }
}

/// The option events of the rows, in order; refused at the first row with
/// something wrong. `levels` holds what decoding the levels of each row gave.
pub fn read_options(c: &OptionColumns, levels: &Vec<(Decoded, Decoded)>) -> (r: Result<
    Vec<EventEnvelope>,
    StorageError,
>)
    requires
        c.wf(),
        levels@.len() == c.symbol_id@.len(),
    ensures
        options_read(*c, levels@, r),
{
    let mut out: Vec<EventEnvelope> = Vec::new();
    let mut i: usize = 0;
    while i < c.symbol_id.len()
        invariant
            c.wf(),
            levels@.len() == c.symbol_id@.len(),
            i <= c.symbol_id@.len(),
            out@.len() == i,
            forall|k: int| 0 <= k < i ==> row_fault(#[trigger] c.row(k), levels@[k]) is None,
            forall|k: int|
                0 <= k < i ==> is_option_of(#[trigger] out@[k], c.row(k), levels@[k]),
        decreases c.symbol_id@.len() - i,
    {
        match read_row(c, i, &levels[i]) {
            Ok(e) => {
                out.push(e);
            },
            Err(e) => {
                assert(row_fault(c.row(i as int), levels@[i as int]) is Some);
                return Err(e);
            },
        }
        i = i + 1;
    }
    Ok(out)
}

/// An option event that is written reads back as it was: nothing is wrong
/// with its row, and the event of the row has its venue, symbol, times and
/// contents. Of a book, the levels are those that its texts decode to.
pub proof fn law_option_round_trip(
    e: EventEnvelope,
    texts: (Seq<char>, Seq<char>),
    levels: (Decoded, Decoded),
)
    requires
        option_row_of(e, texts) is Some,
        levels.0 is Ok,
        levels.1 is Ok,
        e.body matches MarketEvent::OptionBook { bids, asks, .. } ==> finite_levels(
            levels.0->Ok_0@,
        ) == bids@ && finite_levels(levels.1->Ok_0@) == asks@,
    ensures
        row_fault(option_row_of(e, texts)->0, levels) is None,
        is_option_of(e, option_row_of(e, texts)->0, levels),
{
    crate::layout::law_venue_code_inverse(e.venue, code_of(e.venue));
}

/// Two events of one row say the same.
pub proof fn law_option_row_determines(
    a: EventEnvelope,
    b: EventEnvelope,
    r: OptionRow,
    levels: (Decoded, Decoded),
    texts: (Seq<char>, Seq<char>),
)
    requires
        is_option_of(a, r, levels),
        is_option_of(b, r, levels),
    ensures
        a.venue == b.venue,
        a.symbol == b.symbol,
        option_row_of(a, texts) == option_row_of(b, texts),
{
}

/// Whether the event is of an option.
pub open spec fn is_option_event(e: EventEnvelope) -> bool {
    e.body is OptionTrade || e.body is OptionBook || e.body is OptionTicker
}

/// The option events among `events`, in order.
pub open spec fn option_events(events: Seq<EventEnvelope>) -> Seq<EventEnvelope>
    decreases events.len(),
{
    if events.len() == 0 {
        Seq::empty()
    } else if is_option_event(events.last()) {
        option_events(events.drop_last()).push(events.last())
    } else {
        option_events(events.drop_last())
    }
}

/// Contracts that say the same.
pub open spec fn same_leg(a: OptionLeg, b: OptionLeg) -> bool {
    a.underlying@ == b.underlying@ && a.strike == b.strike && a.expiry_ts_ns == b.expiry_ts_ns
        && a.kind == b.kind
}

/// Option events that say the same of the same instrument at the same time.
pub open spec fn same_option_event(a: EventEnvelope, b: EventEnvelope) -> bool {
    &&& a.venue == b.venue
    &&& a.symbol == b.symbol
    &&& a.exch_ts_ns == b.exch_ts_ns
    &&& a.recv_ts_ns == b.recv_ts_ns
    &&& a.stream_seq == b.stream_seq
    &&& match (a.body, b.body) {
        (
            MarketEvent::OptionTrade { leg, price, qty, side, trade_id },
            MarketEvent::OptionTrade { leg: leg2, price: p2, qty: q2, side: s2, trade_id: t2 },
        ) => same_leg(leg, leg2) && price == p2 && qty == q2 && side == s2 && trade_id == t2,
        (
            MarketEvent::OptionBook { leg, bids, asks, change_id, is_snapshot },
            MarketEvent::OptionBook {
                leg: leg2,
                bids: b2,
                asks: a2,
                change_id: c2,
                is_snapshot: s2,
            },
        ) => same_leg(leg, leg2) && bids@ == b2@ && asks@ == a2@ && change_id == c2 && is_snapshot
            == s2,
        (
            MarketEvent::OptionTicker {
                leg,
                mark_iv,
                mark_price,
                underlying_price,
                open_interest,
                greeks,
            },
            MarketEvent::OptionTicker {
                leg: leg2,
                mark_iv: iv2,
                mark_price: mp2,
                underlying_price: up2,
                open_interest: oi2,
                greeks: g2,
            },
        ) => same_leg(leg, leg2) && mark_iv == iv2 && mark_price == mp2 && underlying_price == up2
            && open_interest == oi2 && greeks == g2,
        _ => false,
    }
}

/// The texts of a book decode to its levels.
pub open spec fn decodes_to(levels: (Decoded, Decoded), e: EventEnvelope) -> bool {
    e.body matches MarketEvent::OptionBook { bids, asks, .. } ==> {
        &&& levels.0 matches Ok(b) && finite_levels(b@) == bids@
        &&& levels.1 matches Ok(a) && finite_levels(a@) == asks@
    }
}

proof fn lemma_rows_of_options(
    events: Seq<EventEnvelope>,
    texts: Seq<(Seq<char>, Seq<char>)>,
    i: int,
) -> (t: (Seq<char>, Seq<char>))
    requires
        0 <= i < option_events(events).len(),
    ensures
        option_rows_of(events, texts).len() == option_events(events).len(),
        option_row_of(option_events(events)[i], t) == Some(option_rows_of(events, texts)[i]),
    decreases events.len(),
{
    let before = events.drop_last();
    lemma_option_row_total(before, texts);
    let own = texts[book_count(before) as int];
    if i < option_events(before).len() {
        let t = lemma_rows_of_options(before, texts, i);
        assert(option_events(events)[i] == option_events(before)[i]);
        assert(option_rows_of(events, texts)[i] == option_rows_of(before, texts)[i]);
        t
    } else {
        own
    }
}

proof fn lemma_option_row_total(events: Seq<EventEnvelope>, texts: Seq<(Seq<char>, Seq<char>)>)
    ensures
        option_rows_of(events, texts).len() == option_events(events).len(),
    decreases events.len(),
{
    if events.len() > 0 {
        lemma_option_row_total(events.drop_last(), texts);
    }
}

proof fn lemma_row_back(
    e: EventEnvelope,
    texts: (Seq<char>, Seq<char>),
    levels: (Decoded, Decoded),
)
    requires
        option_row_of(e, texts) is Some,
        decodes_to(levels, e),
    ensures
        row_fault(option_row_of(e, texts)->0, levels) is None,
        forall|back: EventEnvelope| #[trigger]
            is_option_of(back, option_row_of(e, texts)->0, levels) ==> same_option_event(back, e),
{
    crate::layout::law_venue_code_inverse(e.venue, code_of(e.venue));
}

/// A whole write followed by a whole read gives back every option event, in
/// order, as it was, where the texts of each book decode to its levels. A
/// ticker without greeks reads back without them.
pub proof fn law_options_read_back(
    events: Seq<EventEnvelope>,
    texts: Seq<(Seq<char>, Seq<char>)>,
    c: OptionColumns,
    levels: Seq<(Decoded, Decoded)>,
    r: Result<Vec<EventEnvelope>, StorageError>,
)
    requires
        c.wf(),
        c.rows() == option_rows_of(events, texts),
        levels.len() == c.symbol_id@.len(),
        forall|i: int|
            0 <= i < option_events(events).len() ==> decodes_to(
                levels[i],
                #[trigger] option_events(events)[i],
            ),
        options_read(c, levels, r),
    ensures
        r matches Ok(out) && out@.len() == option_events(events).len() && forall|i: int|
            0 <= i < out@.len() ==> same_option_event(
                #[trigger] out@[i],
                option_events(events)[i],
            ),
{
    let ops = option_events(events);
    lemma_option_row_total(events, texts);
    assert(c.rows().len() == c.symbol_id@.len());
    assert forall|i: int| 0 <= i < ops.len() implies row_fault(
        #[trigger] c.row(i),
        levels[i],
    ) is None && forall|back: EventEnvelope| #[trigger]
        is_option_of(back, c.row(i), levels[i]) ==> same_option_event(back, ops[i]) by {
        let t = lemma_rows_of_options(events, texts, i);
        assert(c.rows()[i] == c.row(i));
        assert(decodes_to(levels[i], ops[i]));
        lemma_row_back(ops[i], t, levels[i]);
    }
    match r {
        Ok(out) => {
            assert forall|i: int| 0 <= i < out@.len() implies same_option_event(
                #[trigger] out@[i],
                ops[i],
            ) by {
                assert(is_option_of(out@[i], c.row(i), levels[i]));
            }
        },
        Err(_) => {},
    }
}

/// Calls are written as zero and puts as one; no other code is a kind. The
/// three kinds of rows are numbered from zero.
pub proof fn law_option_codes(k: OptionKind, c: u8)
    ensures
        opt_kind_code_of(OptionKind::Call) == 0,
        opt_kind_code_of(OptionKind::Put) == 1,
        opt_kind_of_code(opt_kind_code_of(k)) == Some(k),
        opt_kind_of_code(c) is Some <==> c <= 1,
        KIND_TRADE == 0,
        KIND_BOOK == 1,
        KIND_TICKER == 2,
{
}

/// A row's head repeats its event and its contract.
pub proof fn law_option_head(e: EventEnvelope, leg: OptionLeg, kind: u8)
    ensures
        head_of(e, leg, kind).symbol_id == e.symbol.0,
        head_of(e, leg, kind).venue_code == code_of(e.venue),
        head_of(e, leg, kind).exch_ts_ns == e.exch_ts_ns,
        head_of(e, leg, kind).recv_ts_ns == e.recv_ts_ns,
        head_of(e, leg, kind).stream_seq == e.stream_seq,
        head_of(e, leg, kind).kind == kind,
        head_of(e, leg, kind).underlying == leg.underlying@,
        head_of(e, leg, kind).strike == leg.strike,
        head_of(e, leg, kind).expiry_ts_ns == leg.expiry_ts_ns,
        leg.kind == OptionKind::Call ==> head_of(e, leg, kind).option_kind == 0,
        leg.kind == OptionKind::Put ==> head_of(e, leg, kind).option_kind == 1,
{
}

/// A trade's row has the columns of the trade and no other, and likewise for a
/// book and a ticker.
pub proof fn law_option_row(e: EventEnvelope, texts: (Seq<char>, Seq<char>))
    ensures
        option_row_of(e, texts) is Some <==> e.body is OptionTrade || e.body is OptionBook
            || e.body is OptionTicker,
        e.body is OptionTrade ==> {
            let r = option_row_of(e, texts)->0;
            &&& r.head.kind == 0
            &&& r.trade.price == Some(e.body->OptionTrade_price)
            &&& r.trade.qty == Some(e.body->OptionTrade_qty)
            &&& r.trade.side == Some(side_code_of(e.body->OptionTrade_side))
            &&& r.trade.trade_id == Some(e.body->OptionTrade_trade_id)
            &&& r.book.change_id is None && r.book.bids is None && r.book.asks is None
            &&& r.ticker.mark_iv is None && r.ticker.delta is None
        },
        e.body is OptionBook ==> {
            let r = option_row_of(e, texts)->0;
            &&& r.head.kind == 1
            &&& r.book.change_id == Some(e.body->OptionBook_change_id)
            &&& r.book.is_snapshot == Some(e.body->OptionBook_is_snapshot)
            &&& r.book.bids == Some(texts.0)
            &&& r.book.asks == Some(texts.1)
            &&& r.trade.price is None && r.trade.trade_id is None
            &&& r.ticker.mark_iv is None && r.ticker.delta is None
        },
        e.body is OptionTicker ==> {
            let r = option_row_of(e, texts)->0;
            &&& r.head.kind == 2
            &&& r.ticker.mark_iv == Some(e.body->OptionTicker_mark_iv)
            &&& r.ticker.mark_price == Some(e.body->OptionTicker_mark_price)
            &&& r.ticker.underlying_price == Some(e.body->OptionTicker_underlying_price)
            &&& r.ticker.open_interest == Some(e.body->OptionTicker_open_interest)
            &&& e.body->OptionTicker_greeks matches Some(g) ==> r.ticker.delta == Some(g.delta)
                && r.ticker.gamma == Some(g.gamma) && r.ticker.theta == Some(g.theta)
                && r.ticker.vega == Some(g.vega)
            &&& r.trade.price is None && r.trade.trade_id is None
            &&& r.book.change_id is None && r.book.bids is None && r.book.asks is None
        },
        e.body is OptionTicker && e.body->OptionTicker_greeks is None ==> {
            let r = option_row_of(e, texts)->0;
            r.ticker.delta is None && r.ticker.gamma is None && r.ticker.theta is None
                && r.ticker.vega is None
        },
{
}

/// What is read of a row has the columns of the row; a number that is not
/// there is read as zero.
pub proof fn law_option_of_a_row(e: EventEnvelope, r: OptionRow, levels: (Decoded, Decoded))
    requires
        is_option_of(e, r, levels),
    ensures
        r.head.venue_code == code_of(e.venue),
        e.symbol.0 == r.head.symbol_id,
        e.exch_ts_ns == r.head.exch_ts_ns,
        e.recv_ts_ns == r.head.recv_ts_ns,
        e.stream_seq == r.head.stream_seq,
        e.body is OptionTrade <==> r.head.kind == 0,
        e.body is OptionBook <==> r.head.kind == 1,
        e.body is OptionTicker <==> r.head.kind == 2,
        e.body is OptionTrade ==> {
            &&& r.trade.price is Some ==> e.body->OptionTrade_price == r.trade.price->0
            &&& r.trade.price is None ==> e.body->OptionTrade_price.bits == 0
            &&& r.trade.qty is Some ==> e.body->OptionTrade_qty == r.trade.qty->0
            &&& r.trade.trade_id is Some ==> e.body->OptionTrade_trade_id == r.trade.trade_id->0
            &&& r.trade.side == Some(1u8) ==> e.body->OptionTrade_side == crate::event::Side::Sell
            &&& r.trade.side == Some(0u8) ==> e.body->OptionTrade_side == crate::event::Side::Buy
            &&& e.body->OptionTrade_leg.underlying@ == r.head.underlying
            &&& e.body->OptionTrade_leg.strike == r.head.strike
            &&& e.body->OptionTrade_leg.expiry_ts_ns == r.head.expiry_ts_ns
        },
        e.body is OptionTicker ==> {
            &&& r.ticker.mark_iv is Some ==> e.body->OptionTicker_mark_iv == r.ticker.mark_iv->0
            &&& r.ticker.mark_price is Some ==> e.body->OptionTicker_mark_price
                == r.ticker.mark_price->0
            &&& r.ticker.underlying_price is Some ==> e.body->OptionTicker_underlying_price
                == r.ticker.underlying_price->0
            &&& r.ticker.open_interest is Some ==> e.body->OptionTicker_open_interest
                == r.ticker.open_interest->0
            &&& r.ticker.delta is None <==> e.body->OptionTicker_greeks is None
        },
{
    crate::layout::law_venue_code_inverse(e.venue, r.head.venue_code);
}

/// Of decoded levels those stay whose price and size are both finite.
pub proof fn law_finite_levels(s: Seq<(Real, Real)>)
    ensures
        finite_levels(s) == s.filter(|l: (Real, Real)| l.0.finite() && l.1.finite()),
    decreases s.len(),
{
    reveal(Seq::filter);
    if s.len() > 0 {
        law_finite_levels(s.drop_last());
    }
}

/// The books are counted, so that each has the texts of its own place.
pub proof fn law_books_counted(events: Seq<EventEnvelope>)
    ensures
        book_count(events) == events.filter(|e: EventEnvelope| e.body is OptionBook).len(),
        option_events(events) == events.filter(
            |e: EventEnvelope|
                e.body is OptionTrade || e.body is OptionBook || e.body is OptionTicker,
        ),
    decreases events.len(),
{
    reveal(Seq::filter);
    if events.len() > 0 {
        law_books_counted(events.drop_last());
    }
}

/// A row is sound exactly where its venue, its option kind and its own kind
/// are known and, of a book, both sides can be read and nothing is missing.
pub proof fn law_option_row_faults(r: OptionRow, levels: (Decoded, Decoded))
    ensures
        row_fault(r, levels) is None <==> {
            &&& 1 <= r.head.venue_code <= 12
            &&& r.head.option_kind <= 1
            &&& r.head.kind <= 2
            &&& r.head.kind == 1 ==> r.book.bids is Some && r.book.asks is Some && levels.0 is Ok
                && levels.1 is Ok && r.book.change_id is Some && r.book.is_snapshot is Some
        },
{
}

} // verus!
