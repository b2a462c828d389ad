//! Whale positions as columns: one row per position, and back.
use vstd::prelude::*;
use crate::error::{Failure, StorageError};
use crate::event::{EventEnvelope, MarketEvent, SymbolId};
use crate::layout::{code_of, venue_code, venue_from_code, venue_of_code};
use crate::number::Real;
use crate::parquet_trades::{in_range, selected, venues_known};

verus! {

/// The columns of a positions file.
pub struct PositionColumns {
    pub symbol_id: Vec<u32>,
    pub venue_code: Vec<u16>,
    pub exch_ts_ns: Vec<i64>,
    pub recv_ts_ns: Vec<i64>,
    pub stream_seq: Vec<u64>,
    pub address: Vec<String>,
    pub size: Vec<Real>,
    pub entry: Vec<Real>,
    pub leverage: Vec<Real>,
    pub liq_price: Vec<Real>,
}

/// What a row of a positions file says.
pub struct PositionRow {
    pub symbol_id: u32,
    pub venue_code: u16,
    pub exch_ts_ns: i64,
    pub recv_ts_ns: i64,
    pub stream_seq: u64,
    pub address: Seq<char>,
    pub size: Real,
    pub entry: Real,
    pub leverage: Real,
    pub liq_price: Real,
}

impl PositionColumns {
    /// All columns have the same length.
    pub open spec fn wf(&self) -> bool {
        let n = self.symbol_id@.len();
        &&& self.venue_code@.len() == n
        &&& self.exch_ts_ns@.len() == n
        &&& self.recv_ts_ns@.len() == n
        &&& self.stream_seq@.len() == n
        &&& self.address@.len() == n
        &&& self.size@.len() == n
        &&& self.entry@.len() == n
        &&& self.leverage@.len() == n
        &&& self.liq_price@.len() == n
    }

    /// The row at `i`.
    pub open spec fn row(&self, i: int) -> PositionRow {
        PositionRow {
            symbol_id: self.symbol_id@[i],
            venue_code: self.venue_code@[i],
            exch_ts_ns: self.exch_ts_ns@[i],
            recv_ts_ns: self.recv_ts_ns@[i],
            stream_seq: self.stream_seq@[i],
            address: self.address@[i]@,
            size: self.size@[i],
            entry: self.entry@[i],
            leverage: self.leverage@[i],
            liq_price: self.liq_price@[i],
        }
    }

    /// The rows.
    pub open spec fn rows(&self) -> Seq<PositionRow> {
        Seq::new(self.symbol_id@.len(), |i: int| self.row(i))
    }
}

/// The row of an event, if it is a whale position.
pub open spec fn position_row_of(e: EventEnvelope) -> Option<PositionRow> {
    match e.body {
        MarketEvent::WhalePosition { address, size, entry, leverage, liq_price } => Some(
            PositionRow {
                symbol_id: e.symbol.0,
                venue_code: code_of(e.venue),
                exch_ts_ns: e.exch_ts_ns,
                recv_ts_ns: e.recv_ts_ns,
                stream_seq: e.stream_seq,
                address: address@,
                size,
                entry,
                leverage,
                liq_price,
            },
        ),
        _ => None,
    }
}

/// The rows of the positions among `events`, in order.
pub open spec fn position_rows_of(events: Seq<EventEnvelope>) -> Seq<PositionRow>
    decreases events.len(),
{
    if events.len() == 0 {
        Seq::empty()
    } else {
        let before = position_rows_of(events.drop_last());
        match position_row_of(events.last()) {
            Some(r) => before.push(r),
            None => before,
        }
    }
}

/// The whale positions among the events at `order`, one row each; other
/// events are passed over.
pub fn write_positions(events: &Vec<EventEnvelope>, order: &Vec<usize>) -> (c: PositionColumns)
    requires
        in_range(order@, events@.len()),
    ensures
        c.wf(),
        c.rows() == position_rows_of(selected(events@, order@)),
{
    let mut c = PositionColumns {
        symbol_id: Vec::new(),
        venue_code: Vec::new(),
        exch_ts_ns: Vec::new(),
        recv_ts_ns: Vec::new(),
        stream_seq: Vec::new(),
        address: Vec::new(),
        size: Vec::new(),
        entry: Vec::new(),
        leverage: Vec::new(),
        liq_price: Vec::new(),
    };
    let ghost sel = selected(events@, order@);
    let mut i: usize = 0;
    assert(c.rows() =~= position_rows_of(sel.take(0)));
    while i < order.len()
        invariant
            i <= order@.len(),
            in_range(order@, events@.len()),
            sel == selected(events@, order@),
            c.wf(),
            c.rows() == position_rows_of(sel.take(i as int)),
        decreases order@.len() - i,
    {
        let e = &events[order[i]];
        let ghost before = c.rows();
        assert(sel.take(i + 1).drop_last() =~= sel.take(i as int));
        assert(sel.take(i + 1).last() == *e);
        if let MarketEvent::WhalePosition { address, size, entry, leverage, liq_price } = &e.body {
            c.symbol_id.push(e.symbol.0);
            c.venue_code.push(venue_code(e.venue));
            c.exch_ts_ns.push(e.exch_ts_ns);
            c.recv_ts_ns.push(e.recv_ts_ns);
            c.stream_seq.push(e.stream_seq);
            c.address.push(address.clone());
            c.size.push(*size);
            c.entry.push(*entry);
            c.leverage.push(*leverage);
            c.liq_price.push(*liq_price);
            assert(c.rows() =~= before.push(position_row_of(*e)->0));
        }
        i = i + 1;
    }
    assert(sel.take(i as int) =~= sel);
    c
}

/// The event `e` is the position of row `r`.
pub open spec fn is_position_of(e: EventEnvelope, r: PositionRow) -> bool {
    &&& venue_of_code(r.venue_code) == Some(e.venue)
    &&& e.symbol == SymbolId(r.symbol_id)
    &&& e.exch_ts_ns == r.exch_ts_ns
    &&& e.recv_ts_ns == r.recv_ts_ns
    &&& e.stream_seq == r.stream_seq
    &&& e.body matches MarketEvent::WhalePosition { address, size, entry, leverage, liq_price }
        && address@ == r.address && size == r.size && entry == r.entry && leverage == r.leverage
        && liq_price == r.liq_price
}

/// The positions of the rows, in order; refused when a row's venue code is
/// unknown.
pub fn read_positions(c: &PositionColumns) -> (r: Result<Vec<EventEnvelope>, StorageError>)
    requires
        c.wf(),
    ensures
        match r {
            Ok(events) => venues_known(c.venue_code@) && events@.len() == c.rows().len() && forall|
                i: int,
            |
                0 <= i < events@.len() ==> is_position_of(#[trigger] events@[i], c.rows()[i]),
            Err(e) => !venues_known(c.venue_code@) && e.says() == Failure::Arrow(
                "unknown venue code"@,
            ),
        },
{
    let mut out: Vec<EventEnvelope> = Vec::new();
    let mut i: usize = 0;
    while i < c.symbol_id.len()
        invariant
            c.wf(),
            i <= c.symbol_id@.len(),
            out@.len() == i,
            forall|k: int| 0 <= k < i ==> venue_of_code(#[trigger] c.venue_code@[k]) is Some,
            forall|k: int| 0 <= k < i ==> is_position_of(#[trigger] out@[k], c.rows()[k]),
        decreases c.symbol_id@.len() - i,
    {
        let venue = match venue_from_code(c.venue_code[i]) {
            Some(v) => v,
            None => {
                return Err(StorageError::Arrow("unknown venue code".to_owned()));
            },
        };
        let e = EventEnvelope::new(
            venue,
            SymbolId(c.symbol_id[i]),
            c.exch_ts_ns[i],
            c.recv_ts_ns[i],
            c.stream_seq[i],
            MarketEvent::WhalePosition {
                address: c.address[i].clone(),
                size: c.size[i],
                entry: c.entry[i],
                leverage: c.leverage[i],
                liq_price: c.liq_price[i],
            },
        );
        assert(is_position_of(e, c.rows()[i as int]));
        out.push(e);
        i = i + 1;
    }
    Ok(out)
}

/// Every row that is written names a known venue, and reads back as the
/// position it was written from.
pub proof fn law_position_round_trip(e: EventEnvelope, back: EventEnvelope)
    requires
        position_row_of(e) is Some,
        is_position_of(back, position_row_of(e)->0),
    ensures
        venue_of_code(position_row_of(e)->0.venue_code) is Some,
        back.venue == e.venue,
        back.symbol == e.symbol,
        back.exch_ts_ns == e.exch_ts_ns,
        back.recv_ts_ns == e.recv_ts_ns,
        back.stream_seq == e.stream_seq,
        position_row_of(back) == position_row_of(e),
{
    crate::layout::law_venue_code_inverse(e.venue, code_of(e.venue));
}

/// A position's row repeats its event, column by column.
pub proof fn law_position_row(e: EventEnvelope)
    ensures
        position_row_of(e) is Some <==> e.body is WhalePosition,
        position_row_of(e) matches Some(r) ==> {
            &&& r.symbol_id == e.symbol.0
            &&& r.venue_code == code_of(e.venue)
            &&& r.exch_ts_ns == e.exch_ts_ns
            &&& r.recv_ts_ns == e.recv_ts_ns
            &&& r.stream_seq == e.stream_seq
            &&& r.address == e.body->WhalePosition_address@
            &&& r.size == e.body->WhalePosition_size
            &&& r.entry == e.body->WhalePosition_entry
            &&& r.leverage == e.body->WhalePosition_leverage
            &&& r.liq_price == e.body->WhalePosition_liq_price
        },
{
}

/// What is read of a row is a position with the columns of the row.
pub proof fn law_position_of_a_row(e: EventEnvelope, r: PositionRow)
    requires
        is_position_of(e, r),
    ensures
        r.venue_code == code_of(e.venue),
        e.symbol.0 == r.symbol_id,
        e.exch_ts_ns == r.exch_ts_ns,
        e.recv_ts_ns == r.recv_ts_ns,
        e.stream_seq == r.stream_seq,
        e.body is WhalePosition,
        e.body->WhalePosition_address@ == r.address,
        e.body->WhalePosition_size == r.size,
        e.body->WhalePosition_entry == r.entry,
        e.body->WhalePosition_leverage == r.leverage,
        e.body->WhalePosition_liq_price == r.liq_price,
{
    crate::layout::law_venue_code_inverse(e.venue, r.venue_code);
}

/// The rows are those of the positions, in order.
pub proof fn law_position_rows(events: Seq<EventEnvelope>)
    ensures
        ({
            let kept = events.filter(|e: EventEnvelope| e.body is WhalePosition);
            &&& position_rows_of(events).len() == kept.len()
            &&& forall|i: int|
                0 <= i < kept.len() ==> position_row_of(kept[i]) == Some(
                    #[trigger] position_rows_of(events)[i],
                )
        }),
    decreases events.len(),
{
    reveal(Seq::filter);
    if events.len() > 0 {
        law_position_rows(events.drop_last());
        let t = events.drop_last().filter(|e: EventEnvelope| e.body is WhalePosition);
        let all = events.filter(|e: EventEnvelope| e.body is WhalePosition);
        let before = position_rows_of(events.drop_last());
        let rows = position_rows_of(events);
        assert forall|i: int| 0 <= i < all.len() implies position_row_of(all[i]) == Some(
            #[trigger] rows[i],
        ) by {
            if i < t.len() {
                assert(all[i] == t[i]);
                assert(rows[i] == before[i]);
            }
        }
    }
}

} // verus!
