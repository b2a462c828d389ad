//! Trades as columns: one row per trade, and back.
use vstd::prelude::*;
use crate::error::{Failure, StorageError};
use crate::event::{EventEnvelope, MarketEvent, Side, SymbolId};
use crate::layout::{code_of, venue_code, venue_from_code, venue_of_code};
use crate::number::Real;

verus! {

/// The footer key of the schema version.
pub const KV_SCHEMA_VER: &'static str = "schema_ver";

/// The footer key of the compactor's version.
pub const KV_COMPACTOR_VERSION: &'static str = "compactor_version";

/// The footer key of the source log's hash.
pub const KV_SOURCE_LOG_HASH: &'static str = "source_log_hash";

/// The columns of a trades file. Sides are 0 for buy and 1 for sell.
pub struct TradeColumns {
    pub symbol_id: Vec<u32>,
    pub venue_code: Vec<u16>,
    pub exch_ts_ns: Vec<i64>,
    pub recv_ts_ns: Vec<i64>,
    pub stream_seq: Vec<u64>,
    pub price: Vec<Real>,
    pub qty: Vec<Real>,
    pub side: Vec<u8>,
    pub trade_id: Vec<u64>,
}

/// One row of a trades file.
#[derive(Clone, Copy, Debug, PartialEq, Eq, Structural)]
pub struct TradeRow {
    pub symbol_id: u32,
    pub venue_code: u16,
    pub exch_ts_ns: i64,
    pub recv_ts_ns: i64,
    pub stream_seq: u64,
    pub price: Real,
    pub qty: Real,
    pub side: u8,
    pub trade_id: u64,
}

/// The code of a side.
pub open spec fn side_code_of(s: Side) -> u8 {
    match s {
        Side::Buy => 0,
        Side::Sell => 1,
    }
}

/// The code of a side.
pub fn side_code(s: Side) -> (c: u8)
    ensures
        c == side_code_of(s),
{
    match s {
        Side::Buy => 0,
        Side::Sell => 1,
    }
}

/// The side of a code: anything but 0 is a sell.
pub open spec fn side_of_code(c: u8) -> Side {
    if c == 0 {
        Side::Buy
    } else {
        Side::Sell
    }
}

/// The side of a code.
pub fn side_from_code(c: u8) -> (s: Side)
    ensures
        s == side_of_code(c),
{
    if c == 0 {
        Side::Buy
    } else {
        Side::Sell
    }
}

impl TradeColumns {
    /// All columns have the same length.
    pub open spec fn wf(&self) -> bool {
        let n = self.symbol_id@.len();
        &&& self.venue_code@.len() == n
        &&& self.exch_ts_ns@.len() == n
        &&& self.recv_ts_ns@.len() == n
        &&& self.stream_seq@.len() == n
        &&& self.price@.len() == n
        &&& self.qty@.len() == n
        &&& self.side@.len() == n
        &&& self.trade_id@.len() == n
    }

    /// The row at `i`.
    pub open spec fn row(&self, i: int) -> TradeRow {
        TradeRow {
            symbol_id: self.symbol_id@[i],
            venue_code: self.venue_code@[i],
            exch_ts_ns: self.exch_ts_ns@[i],
            recv_ts_ns: self.recv_ts_ns@[i],
            stream_seq: self.stream_seq@[i],
            price: self.price@[i],
            qty: self.qty@[i],
            side: self.side@[i],
            trade_id: self.trade_id@[i],
        }
    }

    /// The rows.
    pub open spec fn rows(&self) -> Seq<TradeRow> {
        Seq::new(self.symbol_id@.len(), |i: int| self.row(i))
    }

    /// Columns without rows.
    pub fn new() -> (c: TradeColumns)
        ensures
            c.wf(),
            c.rows() == Seq::<TradeRow>::empty(),
    {
        let c = TradeColumns {
            symbol_id: Vec::new(),
            venue_code: Vec::new(),
            exch_ts_ns: Vec::new(),
            recv_ts_ns: Vec::new(),
            stream_seq: Vec::new(),
            price: Vec::new(),
            qty: Vec::new(),
            side: Vec::new(),
            trade_id: Vec::new(),
        };
        assert(c.rows() =~= Seq::<TradeRow>::empty());
        c
    }

    /// Adds a row.
    pub fn push(&mut self, r: TradeRow)
        requires
            old(self).wf(),
        ensures
            final(self).wf(),
            final(self).rows() == old(self).rows().push(r),
    {
        let ghost before = self.rows();
        self.symbol_id.push(r.symbol_id);
        self.venue_code.push(r.venue_code);
        self.exch_ts_ns.push(r.exch_ts_ns);
        self.recv_ts_ns.push(r.recv_ts_ns);
        self.stream_seq.push(r.stream_seq);
        self.price.push(r.price);
        self.qty.push(r.qty);
        self.side.push(r.side);
        self.trade_id.push(r.trade_id);
        assert(self.rows() =~= before.push(r));
    }
}

/// The row of an event, if it is a trade, with or without addresses.
pub open spec fn trade_row_of(e: EventEnvelope) -> Option<TradeRow> {
    match e.body.as_trade() {
        Some(t) => Some(
            TradeRow {
                symbol_id: e.symbol.0,
                venue_code: code_of(e.venue),
                exch_ts_ns: e.exch_ts_ns,
                recv_ts_ns: e.recv_ts_ns,
                stream_seq: e.stream_seq,
                price: t.price,
                qty: t.qty,
                side: side_code_of(t.side),
                trade_id: t.trade_id,
            },
        ),
        None => None,
    }
}

/// The events at the positions `order`.
pub open spec fn selected(events: Seq<EventEnvelope>, order: Seq<usize>) -> Seq<EventEnvelope> {
    Seq::new(order.len(), |i: int| events[order[i] as int])
}

/// Positions within `n`.
pub open spec fn in_range(order: Seq<usize>, n: nat) -> bool {
    forall|i: int| 0 <= i < order.len() ==> (#[trigger] order[i]) < n
}

/// The rows of the trades among `events`, in order.
pub open spec fn trade_rows_of(events: Seq<EventEnvelope>) -> Seq<TradeRow>
    decreases events.len(),
{
    if events.len() == 0 {
        Seq::empty()
    } else {
        let before = trade_rows_of(events.drop_last());
        match trade_row_of(events.last()) {
            Some(r) => before.push(r),
            None => before,
        }
    }
}

/// The trades among the events at `order`, one row each; other events are
/// passed over.
pub fn write_trades(events: &Vec<EventEnvelope>, order: &Vec<usize>) -> (c: TradeColumns)
    requires
        in_range(order@, events@.len()),
    ensures
        c.wf(),
        c.rows() == trade_rows_of(selected(events@, order@)),
{
    let mut c = TradeColumns::new();
    let ghost sel = selected(events@, order@);
    let mut i: usize = 0;
    assert(sel.take(0).len() == 0);
    while i < order.len()
        invariant
            i <= order@.len(),
            in_range(order@, events@.len()),
            sel == selected(events@, order@),
            c.wf(),
            c.rows() == trade_rows_of(sel.take(i as int)),
        decreases order@.len() - i,
    {
        let e = &events[order[i]];
        assert(sel.take(i + 1).drop_last() =~= sel.take(i as int));
        assert(sel.take(i + 1).last() == *e);
        if let Some(t) = e.body.trade_view() {
            c.push(
                TradeRow {
                    symbol_id: e.symbol.0,
                    venue_code: venue_code(e.venue),
                    exch_ts_ns: e.exch_ts_ns,
                    recv_ts_ns: e.recv_ts_ns,
                    stream_seq: e.stream_seq,
                    price: t.price,
                    qty: t.qty,
                    side: side_code(t.side),
                    trade_id: t.trade_id,
                },
            );
        }
        i = i + 1;
    }
    assert(sel.take(i as int) =~= sel);
    c
}

/// The event `e` is the trade of row `r`.
pub open spec fn is_trade_of(e: EventEnvelope, r: TradeRow) -> bool {
    &&& venue_of_code(r.venue_code) == Some(e.venue)
    &&& e.symbol == SymbolId(r.symbol_id)
    &&& e.exch_ts_ns == r.exch_ts_ns
    &&& e.recv_ts_ns == r.recv_ts_ns
    &&& e.stream_seq == r.stream_seq
    &&& e.body == (MarketEvent::Trade {
        price: r.price,
        qty: r.qty,
        side: side_of_code(r.side),
        trade_id: r.trade_id,
    })
}

/// Every row names a venue.
pub open spec fn venues_known(codes: Seq<u16>) -> bool {
    forall|i: int| 0 <= i < codes.len() ==> venue_of_code(#[trigger] codes[i]) is Some
}

/// The trades of the rows, in order; refused when a row's venue code is
/// unknown.
pub fn read_trades(c: &TradeColumns) -> (r: Result<Vec<EventEnvelope>, StorageError>)
    requires
        c.wf(),
    ensures
        match r {
            Ok(events) => venues_known(c.venue_code@) && events@.len() == c.rows().len() && forall|
                i: int,
            |
                0 <= i < events@.len() ==> is_trade_of(#[trigger] events@[i], c.rows()[i]),
            Err(e) => !venues_known(c.venue_code@) && e.says() == Failure::Arrow(
                "unknown venue code"@,
            ),
        },
{
    let mut out: Vec<EventEnvelope> = Vec::new();
    let mut i: usize = 0;
    while i < c.symbol_id.len()
        invariant
            c.wf(),
            i <= c.symbol_id@.len(),
            out@.len() == i,
            forall|k: int| 0 <= k < i ==> venue_of_code(#[trigger] c.venue_code@[k]) is Some,
            forall|k: int| 0 <= k < i ==> is_trade_of(#[trigger] out@[k], c.rows()[k]),
        decreases c.symbol_id@.len() - i,
    {
        let venue = match venue_from_code(c.venue_code[i]) {
            Some(v) => v,
            None => {
                return Err(StorageError::Arrow("unknown venue code".to_owned()));
            },
        };
        let e = EventEnvelope::new(
            venue,
            SymbolId(c.symbol_id[i]),
            c.exch_ts_ns[i],
            c.recv_ts_ns[i],
            c.stream_seq[i],
            MarketEvent::Trade {
                price: c.price[i],
                qty: c.qty[i],
                side: side_from_code(c.side[i]),
                trade_id: c.trade_id[i],
            },
        );
        assert(is_trade_of(e, c.rows()[i as int]));
        out.push(e);
        i = i + 1;
    }
    Ok(out)
}

/// Every row that is written names a known venue, and reads back as the trade
/// it was written from; addresses are not kept.
pub proof fn law_trade_round_trip(e: EventEnvelope, back: EventEnvelope)
    requires
        trade_row_of(e) is Some,
        is_trade_of(back, trade_row_of(e)->0),
    ensures
        venue_of_code(trade_row_of(e)->0.venue_code) is Some,
        back.venue == e.venue,
        back.symbol == e.symbol,
        back.exch_ts_ns == e.exch_ts_ns,
        back.recv_ts_ns == e.recv_ts_ns,
        back.stream_seq == e.stream_seq,
        back.body.as_trade() == e.body.as_trade(),
        e.body is Trade ==> back.body == e.body,
{
    crate::layout::law_venue_code_inverse(e.venue, code_of(e.venue));
}

/// A file of trades only has one row per trade.
pub proof fn law_trade_rows_complete(events: Seq<EventEnvelope>)
    requires
        forall|i: int| 0 <= i < events.len() ==> trade_row_of(#[trigger] events[i]) is Some,
    ensures
        trade_rows_of(events).len() == events.len(),
        forall|i: int|
            0 <= i < events.len() ==> trade_row_of(events[i]) == Some(
                #[trigger] trade_rows_of(events)[i],
            ),
    decreases events.len(),
{
    if events.len() > 0 {
        let before = events.drop_last();
        assert forall|i: int| 0 <= i < before.len() implies trade_row_of(
            #[trigger] before[i],
        ) is Some by {
            assert(trade_row_of(events[i]) is Some);
        }
        law_trade_rows_complete(before);
        assert(trade_row_of(events[events.len() - 1]) is Some);
        assert forall|i: int| 0 <= i < events.len() implies trade_row_of(events[i]) == Some(
            #[trigger] trade_rows_of(events)[i],
        ) by {
            if i < before.len() {
                assert(trade_rows_of(events)[i] == trade_rows_of(before)[i]);
                assert(before[i] == events[i]);
            }
        }
    }
}

/// What is written is read: every trade among the events comes back, in order
/// and with all that its row keeps.
pub proof fn law_trades_read_back(
    events: Seq<EventEnvelope>,
    c: TradeColumns,
    back: Seq<EventEnvelope>,
)
    requires
        c.rows() == trade_rows_of(events),
        c.wf(),
    ensures
        venues_known(c.venue_code@),
        back.len() == c.rows().len() && (forall|i: int|
            0 <= i < back.len() ==> is_trade_of(#[trigger] back[i], c.rows()[i]))
            ==> trade_rows_of(back) == trade_rows_of(events),
{
    lemma_rows_have_venues(events);
    assert forall|i: int| 0 <= i < c.venue_code@.len() implies venue_of_code(
        #[trigger] c.venue_code@[i],
    ) is Some by {
        assert(c.rows()[i].venue_code == c.venue_code@[i]);
    }
    if back.len() == c.rows().len() && (forall|i: int|
        0 <= i < back.len() ==> is_trade_of(#[trigger] back[i], c.rows()[i])) {
        assert forall|i: int| 0 <= i < back.len() implies trade_row_of(#[trigger] back[i]) == Some(
            c.rows()[i],
        ) by {
            let r = trade_rows_of(events)[i];
            assert(is_trade_of(back[i], c.rows()[i]));
            crate::layout::law_venue_code_inverse(back[i].venue, r.venue_code);
        }
        law_trade_rows_complete(back);
        assert(trade_rows_of(back) =~= c.rows());
    }
}

proof fn lemma_rows_have_venues(events: Seq<EventEnvelope>)
    ensures
        forall|i: int|
            0 <= i < trade_rows_of(events).len() ==> {
                &&& venue_of_code((#[trigger] trade_rows_of(events)[i]).venue_code) is Some
                &&& side_code_of(side_of_code(trade_rows_of(events)[i].side)) == trade_rows_of(
                    events,
                )[i].side
            },
    decreases events.len(),
{
    if events.len() > 0 {
        lemma_rows_have_venues(events.drop_last());
        let e = events.last();
        crate::layout::law_venue_code_inverse(e.venue, code_of(e.venue));
        let b = trade_rows_of(events.drop_last());
        let c = trade_rows_of(events);
        assert forall|i: int| 0 <= i < c.len() implies {
            &&& venue_of_code((#[trigger] c[i]).venue_code) is Some
            &&& side_code_of(side_of_code(c[i].side)) == c[i].side
        } by {
            if i < b.len() {
                assert(c[i] == b[i]);
            }
        }
    }
}

/// A purchase is written as zero and a sale as one; zero is read as a purchase
/// and anything else as a sale.
pub proof fn law_side_codes(s: Side, c: u8)
    ensures
        side_code_of(Side::Buy) == 0,
        side_code_of(Side::Sell) == 1,
        side_of_code(side_code_of(s)) == s,
        side_of_code(c) == Side::Buy <==> c == 0,
{
}

/// A trade's row repeats its event, column by column.
pub proof fn law_trade_row(e: EventEnvelope)
    ensures
        trade_row_of(e) is Some <==> e.body is Trade || e.body is TradeWithAddr,
        trade_row_of(e) matches Some(r) ==> {
            &&& r.symbol_id == e.symbol.0
            &&& r.venue_code == code_of(e.venue)
            &&& r.exch_ts_ns == e.exch_ts_ns
            &&& r.recv_ts_ns == e.recv_ts_ns
            &&& r.stream_seq == e.stream_seq
        },
        e.body is Trade ==> {
            let r = trade_row_of(e)->0;
            &&& r.price == e.body->Trade_price
            &&& r.qty == e.body->Trade_qty
            &&& r.side == side_code_of(e.body->Trade_side)
            &&& r.trade_id == e.body->Trade_trade_id
        },
        e.body is TradeWithAddr ==> {
            let r = trade_row_of(e)->0;
            &&& r.price == e.body->TradeWithAddr_price
            &&& r.qty == e.body->TradeWithAddr_qty
            &&& r.side == side_code_of(e.body->TradeWithAddr_side)
            &&& r.trade_id == e.body->TradeWithAddr_trade_id
        },
{
}

/// What is read of a row is a plain trade with the columns of the row.
pub proof fn law_trade_of_a_row(e: EventEnvelope, r: TradeRow)
    requires
        is_trade_of(e, r),
    ensures
        r.venue_code == code_of(e.venue),
        e.symbol.0 == r.symbol_id,
        e.exch_ts_ns == r.exch_ts_ns,
        e.recv_ts_ns == r.recv_ts_ns,
        e.stream_seq == r.stream_seq,
        e.body is Trade,
        e.body->Trade_price == r.price,
        e.body->Trade_qty == r.qty,
        e.body->Trade_trade_id == r.trade_id,
        e.body->Trade_side == Side::Buy <==> r.side == 0,
{
    crate::layout::law_venue_code_inverse(e.venue, r.venue_code);
}

/// The rows are those of the trades, in order.
pub proof fn law_trade_rows(events: Seq<EventEnvelope>)
    ensures
        ({
            let trades = events.filter(
                |e: EventEnvelope| e.body is Trade || e.body is TradeWithAddr,
            );
            &&& trade_rows_of(events).len() == trades.len()
            &&& forall|i: int|
                0 <= i < trades.len() ==> trade_row_of(trades[i]) == Some(
                    #[trigger] trade_rows_of(events)[i],
                )
        }),
    decreases events.len(),
{
    reveal(Seq::filter);
    if events.len() > 0 {
        law_trade_rows(events.drop_last());
        let t = events.drop_last().filter(
            |e: EventEnvelope| e.body is Trade || e.body is TradeWithAddr,
        );
        let all = events.filter(|e: EventEnvelope| e.body is Trade || e.body is TradeWithAddr);
        let before = trade_rows_of(events.drop_last());
        let rows = trade_rows_of(events);
        assert forall|i: int| 0 <= i < all.len() implies trade_row_of(all[i]) == Some(
            #[trigger] rows[i],
        ) by {
            if i < t.len() {
                assert(all[i] == t[i]);
                assert(rows[i] == before[i]);
            }
        }
    }
}

} // verus!
