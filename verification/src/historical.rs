//! Bootstrapping days from an external archive, apart from what was recorded
//! live.
use vstd::prelude::*;
use crate::error::StorageError;
use crate::event::{EventEnvelope, MarketEvent, Side, SymbolId, Venue};
use crate::fnv::{content_hash_hex, fnv, FNV1A_OFFSET};
use crate::layout::{glued, partition_file, partition_path};
use crate::number::Real;
use crate::ordered::{sort_order, stably_sorted, Pair};
use crate::text::{
    hex, join_path, joined, lines_of, lower_text, lowered, parse_i64, parse_int, same, split_lines,
    split_on, split_text, trim_text, trimmed, views,
};

verus! {

/// Where a day of archive text comes from.
pub trait HistoricalSource {
    fn fetch_day(&self, symbol: &str, date: &str) -> (r: Result<String, StorageError>)
    ;
}

/// A source that always gives the same text.
pub struct MockHistoricalSource {
    pub text: String,
}

impl HistoricalSource for MockHistoricalSource {
    fn fetch_day(&self, symbol: &str, date: &str) -> (r: Result<String, StorageError>)
        ensures
            r is Ok && r->Ok_0@ == self.text@,
    {
        Ok(self.text.clone())
    }
}

/// How archive days are fetched and labelled.
#[derive(Debug)]
pub struct HistoricalConfig {
    pub fidelity: String,
    /// Downloads per second.
    pub download_rate_per_sec: Real,
    pub download_max_retries: u32,
    pub download_backoff_base_ms: u64,
    pub download_backoff_cap_ms: u64,
    pub download_base_url: String,
    pub download_data_class: String,
}

/// The label of aggregated trades.
pub fn default_fidelity() -> (s: String)
    ensures
        s@ == "aggregated"@,
{
    "aggregated".to_owned()
}

/// One download per second: 1.0.
pub fn default_rate_per_sec() -> (x: Real)
    ensures
        x.bits == 0x3FF0_0000_0000_0000u64,
{
    Real { bits: 0x3FF0_0000_0000_0000 }
}

/// Retries of a failed download.
pub fn default_max_retries() -> (n: u32)
    ensures
        n == 3,
{
    3
}

/// The first backoff, in milliseconds.
pub fn default_backoff_base_ms() -> (n: u64)
    ensures
        n == 1000,
{
    1000
}

/// The longest backoff, in milliseconds.
pub fn default_backoff_cap_ms() -> (n: u64)
    ensures
        n == 30_000,
{
    30_000
}

/// The archive's address.
pub fn default_base_url() -> (s: String)
    ensures
        s@ == "https://data.binance.vision"@,
{
    "https://data.binance.vision".to_owned()
}

/// The archive's class of data.
pub fn default_data_class() -> (s: String)
    ensures
        s@ == "futures/um"@,
{
    "futures/um".to_owned()
}

impl Default for HistoricalConfig {
    fn default() -> (c: Self)
        ensures
            c.fidelity@ == "aggregated"@,
            c.download_rate_per_sec.bits == 0x3FF0_0000_0000_0000u64,
            c.download_max_retries == 3,
            c.download_backoff_base_ms == 1000,
            c.download_backoff_cap_ms == 30_000,
            c.download_base_url@ == "https://data.binance.vision"@,
            c.download_data_class@ == "futures/um"@,
    {
        HistoricalConfig {
            fidelity: default_fidelity(),
            download_rate_per_sec: default_rate_per_sec(),
            download_max_retries: default_max_retries(),
            download_backoff_base_ms: default_backoff_base_ms(),
            download_backoff_cap_ms: default_backoff_cap_ms(),
            download_base_url: default_base_url(),
            download_data_class: default_data_class(),
        }
    }
}

// ---------------------------------------------------------------------------
// Rows of the archive text
// ---------------------------------------------------------------------------

/// A row with enough columns. The price and the quantity are still text.
#[derive(Debug)]
pub struct AggRow {
    /// The line it stands on, from 0.
    pub row: u64,
    pub price: String,
    pub qty: String,
    /// The time in milliseconds, if it is a number.
    pub time_ms: Option<i64>,
    /// The buyer rested, so that the seller was the aggressor.
    pub is_buyer_maker: bool,
}

/// What a row says.
pub struct RowView {
    pub row: int,
    pub price: Seq<char>,
    pub qty: Seq<char>,
    pub time_ms: Option<int>,
    pub is_buyer_maker: bool,
}

impl AggRow {
    pub open spec fn says(self) -> RowView {
        RowView {
            row: self.row as int,
            price: self.price@,
            qty: self.qty@,
            time_ms: match self.time_ms {
                Some(t) => Some(t as int),
                None => None,
            },
            is_buyer_maker: self.is_buyer_maker,
        }
    }
}

/// What the rows say.
pub open spec fn row_views(v: Seq<AggRow>) -> Seq<RowView> {
    Seq::new(v.len(), |i: int| v[i].says())
}

/// The row on line `n`, if it has at least five columns: price, quantity,
/// quote quantity, time and whether the buyer rested.
pub open spec fn row_of_line(n: int, line: Seq<char>) -> Option<RowView> {
    let body = trimmed(line);
    let cols = split_on(body, ',');
    if body.len() == 0 || cols.len() < 5 {
        None
    } else {
        Some(
            RowView {
                row: n,
                price: trimmed(cols[0]),
                qty: trimmed(cols[1]),
                time_ms: parse_int(trimmed(cols[3]), i64::MIN as int, i64::MAX as int),
                is_buyer_maker: lowered(trimmed(cols[4])) == "true"@,
            },
        )
    }
}

/// The rows of the lines, in order.
pub open spec fn rows_of_lines(lines: Seq<Seq<char>>) -> Seq<RowView>
    decreases lines.len(),
{
    if lines.len() == 0 {
        Seq::empty()
    } else {
        let before = rows_of_lines(lines.drop_last());
        match row_of_line(lines.len() - 1, lines.last()) {
            Some(r) => before.push(r),
            None => before,
        }
    }
}

fn parse_row(n: u64, line: &str) -> (r: Option<AggRow>)
    ensures
        match r {
            Some(row) => row_of_line(n as int, line@) == Some(row.says()),
            None => row_of_line(n as int, line@) is None,
        },
{
    let body = trim_text(line);
    if body.as_str().is_empty() {
        return None;
    }
    let cols = split_text(body.as_str(), ',');
    let ghost c = split_on(body@, ',');
    assert(views(cols@).len() == cols@.len());
    if cols.len() < 5 {
        return None;
    }
    assert(c[0] == cols@[0]@ && c[1] == cols@[1]@ && c[3] == cols@[3]@ && c[4] == cols@[4]@);
    let flag = lower_text(trim_text(cols[4].as_str()).as_str());
    Some(
        AggRow {
            row: n,
            price: trim_text(cols[0].as_str()),
            qty: trim_text(cols[1].as_str()),
            time_ms: parse_i64(trim_text(cols[3].as_str()).as_str()),
            is_buyer_maker: same(flag.as_str(), "true"),
        },
    )
}

/// The rows of an archive text with enough columns, in order.
pub fn agg_rows(text: &str) -> (rows: Vec<AggRow>)
    ensures
        row_views(rows@) == rows_of_lines(lines_of(text@)),
{
    let lines = split_lines(text);
    let ghost all = views(lines@);
    let mut rows: Vec<AggRow> = Vec::new();
    let mut i: usize = 0;
    assert(row_views(rows@) =~= rows_of_lines(all.take(0)));
    while i < lines.len()
        invariant
            all == views(lines@),
            i <= lines@.len(),
            row_views(rows@) == rows_of_lines(all.take(i as int)),
        decreases lines@.len() - i,
    {
        assert(all.take(i + 1).drop_last() =~= all.take(i as int));
        assert(all.take(i + 1).last() == lines@[i as int]@);
        if let Some(row) = parse_row(i as u64, lines[i].as_str()) {
            let ghost r0 = rows@;
            let ghost v = row.says();
            rows.push(row);
            assert(row_views(rows@) =~= row_views(r0).push(v));
        }
        i = i + 1;
    }
    assert(all.take(i as int) =~= all);
    rows
}

/// The trade of a row, given the numbers that its price and quantity are; no
/// trade unless both are numbers and the time is one too.
pub open spec fn row_trade(r: RowView, price: Option<Real>, qty: Option<Real>) -> Option<
    (int, Real, Real, Side, int),
> {
    match (price, qty, r.time_ms) {
        (Some(p), Some(q), Some(t)) => Some(
            (
                t * 1_000_000,
                p,
                q,
                if r.is_buyer_maker {
                    Side::Sell
                } else {
                    Side::Buy
                },
                r.row,
            ),
        ),
        _ => None,
    }
}

/// The trades of the rows, in order.
pub open spec fn row_trades(rows: Seq<RowView>, numbers: Seq<(Option<Real>, Option<Real>)>) -> Seq<
    (int, Real, Real, Side, int),
>
    decreases rows.len(),
{
    if rows.len() == 0 {
        Seq::empty()
    } else {
        let before = row_trades(rows.drop_last(), numbers);
        let n = rows.len() - 1;
        match row_trade(rows.last(), numbers[n].0, numbers[n].1) {
            Some(t) => before.push(t),
            None => before,
        }
    }
}

/// The event of a row's trade: its time is both the exchange's and the
/// receive time, and its line is its sequence number and trade id.
pub open spec fn is_row_event(
    e: EventEnvelope,
    symbol: SymbolId,
    t: (int, Real, Real, Side, int),
) -> bool {
    &&& e.venue == Venue::BinanceFutures
    &&& e.symbol == symbol
    &&& e.exch_ts_ns == t.0
    &&& e.recv_ts_ns == t.0
    &&& e.stream_seq == t.4
    &&& e.body matches MarketEvent::Trade { price, qty, side, trade_id } && price == t.1 && qty
        == t.2 && side == t.3 && trade_id == t.4
}

/// Every row that becomes a trade has a time that fits in 64 bits of
/// nanoseconds.
pub open spec fn times_fit(rows: Seq<AggRow>, numbers: Seq<(Option<Real>, Option<Real>)>) -> bool {
    forall|i: int|
        #![trigger rows[i]]
        0 <= i < rows.len() && numbers[i].0 is Some && numbers[i].1 is Some ==> (rows[i].time_ms matches Some(
            t,
        ) ==> i64::MIN <= t * 1_000_000 <= i64::MAX)
}

/// The trades of the archive rows: `numbers` holds what the price and the
/// quantity of each row are as numbers, `None` where a text is none. A header
/// or a malformed row becomes no trade.
pub fn parse_aggtrades(
    rows: &Vec<AggRow>,
    numbers: &Vec<(Option<Real>, Option<Real>)>,
    symbol: SymbolId,
) -> (events: Vec<EventEnvelope>)
    requires
        numbers@.len() == rows@.len(),
        times_fit(rows@, numbers@),
    ensures
        ({
            let trades = row_trades(row_views(rows@), numbers@);
            &&& events@.len() == trades.len()
            &&& forall|i: int|
                0 <= i < events@.len() ==> is_row_event(#[trigger] events@[i], symbol, trades[i])
        }),
{
    let ghost all = row_views(rows@);
    let mut events: Vec<EventEnvelope> = Vec::new();
    let mut i: usize = 0;
    assert(all.take(0).len() == 0);
    while i < rows.len()
        invariant
            all == row_views(rows@),
            i <= rows@.len(),
            numbers@.len() == rows@.len(),
            times_fit(rows@, numbers@),
            events@.len() == row_trades(all.take(i as int), numbers@).len(),
            forall|k: int|
                0 <= k < events@.len() ==> is_row_event(
                    #[trigger] events@[k],
                    symbol,
                    row_trades(all.take(i as int), numbers@)[k],
                ),
        decreases rows@.len() - i,
    {
        let r = &rows[i];
        assert(all.take(i + 1).drop_last() =~= all.take(i as int));
        assert(all.take(i + 1).last() == r.says());
        let (p, q) = numbers[i];
        match (p, q, r.time_ms) {
            (Some(price), Some(qty), Some(t)) => {
                assert(rows@[i as int] == *r);
                let ts: i64 = t * 1_000_000;
                let side = if r.is_buyer_maker {
                    Side::Sell
                } else {
                    Side::Buy
                };
                events.push(
                    EventEnvelope::new(
                        Venue::BinanceFutures,
                        symbol,
                        ts,
                        ts,
                        r.row,
                        MarketEvent::Trade { price, qty, side, trade_id: r.row },
                    ),
                );
            },
            _ => {},
        }
        i = i + 1;
    }
    assert(all.take(i as int) =~= all);
    events
}

/// Rows keep their order and each trade's line number is its own, so that the
/// same text always gives the same trades in the same order.
pub proof fn law_trades_keep_line_order(
    lines: Seq<Seq<char>>,
    numbers: Seq<(Option<Real>, Option<Real>)>,
)
    ensures
        forall|i: int, j: int|
            0 <= i < j < row_trades(rows_of_lines(lines), numbers).len() ==> (
            #[trigger] row_trades(rows_of_lines(lines), numbers)[i]).4 < (
            #[trigger] row_trades(rows_of_lines(lines), numbers)[j]).4,
{
    lemma_rows_ascend(lines);
    lemma_trades_ascend(rows_of_lines(lines), numbers);
}

proof fn lemma_rows_ascend(lines: Seq<Seq<char>>)
    ensures
        forall|i: int|
            0 <= i < rows_of_lines(lines).len() ==> 0 <= (#[trigger] rows_of_lines(lines)[i]).row
                < lines.len(),
        forall|i: int, j: int|
            0 <= i < j < rows_of_lines(lines).len() ==> (#[trigger] rows_of_lines(lines)[i]).row < (
            #[trigger] rows_of_lines(lines)[j]).row,
    decreases lines.len(),
{
    if lines.len() > 0 {
        lemma_rows_ascend(lines.drop_last());
        let before = rows_of_lines(lines.drop_last());
        let all = rows_of_lines(lines);
        assert forall|i: int| 0 <= i < all.len() implies 0 <= (#[trigger] all[i]).row
            < lines.len() by {
            if i < before.len() {
                assert(all[i] == before[i]);
            }
        }
        assert forall|i: int, j: int| 0 <= i < j < all.len() implies (#[trigger] all[i]).row < (
        #[trigger] all[j]).row by {
            assert(all[i] == before[i]);
            if j < before.len() {
                assert(all[j] == before[j]);
            }
        }
    }
}

proof fn lemma_trades_ascend(rows: Seq<RowView>, numbers: Seq<(Option<Real>, Option<Real>)>)
    requires
        forall|i: int, j: int|
            0 <= i < j < rows.len() ==> (#[trigger] rows[i]).row < (#[trigger] rows[j]).row,
    ensures
        forall|i: int|
            0 <= i < row_trades(rows, numbers).len() ==> exists|k: int|
                0 <= k < rows.len() && (#[trigger] rows[k]).row == (#[trigger] row_trades(
                    rows,
                    numbers,
                )[i]).4,
        forall|i: int, j: int|
            0 <= i < j < row_trades(rows, numbers).len() ==> (#[trigger] row_trades(
                rows,
                numbers,
            )[i]).4 < (#[trigger] row_trades(rows, numbers)[j]).4,
    decreases rows.len(),
{
    if rows.len() > 0 {
        let prev = rows.drop_last();
        assert forall|i: int, j: int| 0 <= i < j < prev.len() implies (#[trigger] prev[i]).row < (
        #[trigger] prev[j]).row by {
            assert(rows[i].row < rows[j].row);
        }
        lemma_trades_ascend(prev, numbers);
        let before = row_trades(prev, numbers);
        let all = row_trades(rows, numbers);
        assert forall|i: int| 0 <= i < all.len() implies exists|k: int|
            0 <= k < rows.len() && (#[trigger] rows[k]).row == (#[trigger] all[i]).4 by {
            if i < before.len() {
                assert(all[i] == before[i]);
                let k = choose|k: int|
                    0 <= k < prev.len() && (#[trigger] prev[k]).row == before[i].4;
                assert(rows[k].row == all[i].4);
            } else {
                assert(rows[rows.len() - 1].row == all[i].4);
            }
        }
        assert forall|i: int, j: int| 0 <= i < j < all.len() implies (#[trigger] all[i]).4 < (
        #[trigger] all[j]).4 by {
            assert(all[i] == before[i]);
            if j < before.len() {
                assert(all[j] == before[j]);
            } else {
                let k = choose|k: int|
                    0 <= k < prev.len() && (#[trigger] prev[k]).row == before[i].4;
                assert(rows[k].row < rows[rows.len() - 1].row);
            }
        }
    }
}

// ---------------------------------------------------------------------------
// One day
// ---------------------------------------------------------------------------

/// What a day's bootstrap did.
#[derive(Clone, Copy, Debug, PartialEq, Eq, Structural)]
pub struct BootstrapStats {
    pub files_written: u64,
    pub files_skipped: u64,
    pub rows_written: u64,
}

/// The trades file of an archive day, in a place of its own.
pub open spec fn historical_trades_path(
    root: Seq<char>,
    symbol: Seq<char>,
    date: Seq<char>,
) -> Seq<char> {
    partition_path(joined(root, "historical"@), "trades"@, Venue::BinanceFutures, symbol, date)
}

/// The trades file of an archive day.
pub fn historical_trades_file(root: &str, symbol: &str, date: &str) -> (s: String)
    ensures
        s@ == historical_trades_path(root@, symbol@, date@),
{
    partition_file(
        join_path(root, "historical").as_str(),
        "trades",
        Venue::BinanceFutures,
        symbol,
        date,
    )
}

/// The manifest of an archive day.
pub open spec fn historical_manifest_path(
    root: Seq<char>,
    symbol: Seq<char>,
    date: Seq<char>,
) -> Seq<char> {
    joined(
        joined(joined(joined(root, "historical"@), "manifests"@), "symbol="@ + symbol),
        date + ".json"@,
    )
}

/// The manifest of an archive day.
pub fn historical_manifest_file(root: &str, symbol: &str, date: &str) -> (s: String)
    ensures
        s@ == historical_manifest_path(root@, symbol@, date@),
{
    let a = join_path(root, "historical");
    let b = join_path(a.as_str(), "manifests");
    let c = join_path(b.as_str(), glued("symbol=", symbol).as_str());
    join_path(c.as_str(), glued(date, ".json").as_str())
}

/// The label of an archive day.
#[derive(Debug)]
pub struct HistoricalManifest {
    pub schema_ver: u16,
    pub source: String,
    pub fidelity: String,
    pub symbol: String,
    pub date: String,
    pub rows: u64,
    pub source_hash: String,
}

/// What is done for an archive day.
#[derive(Debug)]
pub struct BootstrapPlan {
    /// The trades file.
    pub dest: String,
    /// The events, in the order in which they are written.
    pub order: Vec<usize>,
    /// Write the trades file; it is left alone when it holds this text's
    /// trades already.
    pub write: bool,
    pub manifest_path: String,
    pub manifest: HistoricalManifest,
    pub stats: BootstrapStats,
}

/// The hash of an archive text.
pub open spec fn archive_hash(text: Seq<char>) -> Seq<char> {
    hex(fnv(FNV1A_OFFSET, vstd::utf8::encode_utf8(text)) as nat, 16)
}

/// Whether the trades file is written, given the source hash of the one that
/// is there.
pub open spec fn rewrites(existing: Option<Seq<char>>, text: Seq<char>) -> bool {
    existing != Some(archive_hash(text))
}

/// `order` lists the events by receive time, then sequence number.
pub open spec fn in_receive_order(events: Seq<EventEnvelope>, order: Seq<usize>) -> bool {
    exists|keys: Seq<Pair<i64, u64>>|
        #![trigger stably_sorted(keys, order)]
        keys.len() == events.len() && stably_sorted(keys, order) && forall|i: int|
            0 <= i < keys.len() ==> (#[trigger] keys[i]).a == events[i].recv_ts_ns && keys[i].b
                == events[i].stream_seq
}

/// What is done for the day whose archive text is `text` and whose trades are
/// `events`; `existing` is the source hash of the trades file that is there.
/// The manifest is written either way.
pub fn bootstrap_day(
    root: &str,
    symbol: &str,
    date: &str,
    text: &str,
    events: &Vec<EventEnvelope>,
    existing: &Option<String>,
    fidelity: &str,
    schema_ver: u16,
) -> (p: BootstrapPlan)
    ensures
        p.dest@ == historical_trades_path(root@, symbol@, date@),
        in_receive_order(events@, p.order@),
        p.write == rewrites(
            match *existing {
                Some(h) => Some(h@),
                None => None,
            },
            text@,
        ),
        p.manifest_path@ == historical_manifest_path(root@, symbol@, date@),
        p.manifest.schema_ver == schema_ver,
        p.manifest.source@ == "external_archive"@,
        p.manifest.fidelity@ == fidelity@,
        p.manifest.symbol@ == symbol@,
        p.manifest.date@ == date@,
        p.manifest.rows == events@.len(),
        p.manifest.source_hash@ == archive_hash(text@),
        p.stats == (BootstrapStats {
            files_written: if p.write {
                1
            } else {
                0
            },
            files_skipped: if p.write {
                0
            } else {
                1
            },
            rows_written: events@.len() as u64,
        }),
{
    let hash = content_hash_hex(text.as_bytes());
    let mut keys: Vec<Pair<i64, u64>> = Vec::new();
    let mut i: usize = 0;
    while i < events.len()
        invariant
            i <= events@.len(),
            keys@.len() == i,
            forall|k: int|
                0 <= k < i ==> (#[trigger] keys@[k]).a == events@[k].recv_ts_ns && keys@[k].b
                    == events@[k].stream_seq,
        decreases events@.len() - i,
    {
        keys.push(Pair { a: events[i].recv_ts_ns, b: events[i].stream_seq });
        i = i + 1;
    }
    let order = sort_order(&keys);
    assert(stably_sorted(keys@, order@));
    let write = match existing {
        Some(h) => !same(h.as_str(), hash.as_str()),
        None => true,
    };
    let rows: u64 = events.len() as u64;
    let (files_written, files_skipped): (u64, u64) = if write {
        (1, 0)
    } else {
        (0, 1)
    };
    BootstrapPlan {
        dest: historical_trades_file(root, symbol, date),
        order,
        write,
        manifest_path: historical_manifest_file(root, symbol, date),
        manifest: HistoricalManifest {
            schema_ver,
            source: "external_archive".to_owned(),
            fidelity: fidelity.to_owned(),
            symbol: symbol.to_owned(),
            date: date.to_owned(),
            rows,
            source_hash: hash,
        },
        stats: BootstrapStats { files_written, files_skipped, rows_written: rows },
    }
}

/// Whether a path is among the files that are there.
pub open spec fn is_present(present: Seq<String>, path: Seq<char>) -> bool {
    exists|i: int| 0 <= i < present.len() && (#[trigger] present[i])@ == path
}

fn present_has(present: &Vec<String>, path: &str) -> (r: bool)
    ensures
        r == is_present(present@, path@),
{
    let mut i: usize = 0;
    while i < present.len()
        invariant
            i <= present@.len(),
            forall|k: int| 0 <= k < i ==> (#[trigger] present@[k])@ != path@,
        decreases present@.len() - i,
    {
        if same(present[i].as_str(), path) {
            return true;
        }
        i = i + 1;
    }
    false
}

/// Whether an archive day is complete: both its trades file and its manifest
/// are among the files that are there.
pub fn day_complete(root: &str, symbol: &str, date: &str, present: &Vec<String>) -> (r: bool)
    ensures
        r == (is_present(present@, historical_trades_path(root@, symbol@, date@)) && is_present(
            present@,
            historical_manifest_path(root@, symbol@, date@),
        )),
{
    present_has(present, historical_trades_file(root, symbol, date).as_str()) && present_has(
        present,
        historical_manifest_file(root, symbol, date).as_str(),
    )
}

/// A trades file made from this text is left alone when the day is
/// bootstrapped again, and a file made from anything that hashes otherwise is
/// written anew.
pub proof fn law_bootstrap_idempotent(text: Seq<char>, other: Seq<char>)
    ensures
        !rewrites(Some(archive_hash(text)), text),
        rewrites(None, text),
        archive_hash(other) != archive_hash(text) ==> rewrites(Some(archive_hash(other)), text),
{
}

/// A line of an archive gives a row where it is not blank and has at least
/// five columns: the price, the quantity, the time as the fourth and who was
/// the maker as the fifth.
pub proof fn law_row_columns(n: int, line: Seq<char>)
    ensures
        ({
            let cols = split_on(trimmed(line), ',');
            let r = row_of_line(n, line);
            &&& r is Some <==> trimmed(line).len() > 0 && cols.len() >= 5
            &&& r is Some ==> {
                &&& r->0.row == n
                &&& r->0.price == trimmed(cols[0])
                &&& r->0.qty == trimmed(cols[1])
                &&& r->0.time_ms == parse_int(
                    trimmed(cols[3]),
                    -0x8000_0000_0000_0000,
                    0x7FFF_FFFF_FFFF_FFFF,
                )
                &&& r->0.is_buyer_maker <==> lowered(trimmed(cols[4])) == "true"@
            }
        }),
{
}

/// A row stands for each line that gives one, under the number of the line,
/// and for no other.
pub proof fn law_rows_are_lines(lines: Seq<Seq<char>>, r: RowView)
    ensures
        rows_of_lines(lines).contains(r) <==> exists|i: int|
            0 <= i < lines.len() && row_of_line(i, #[trigger] lines[i]) == Some(r),
    decreases lines.len(),
{
    if lines.len() > 0 {
        let t = lines.drop_last();
        let n = lines.len() - 1;
        law_rows_are_lines(t, r);
        let before = rows_of_lines(t);
        let all = rows_of_lines(lines);
        assert(lines[n] == lines.last());
        if before.contains(r) {
            let x = before.index_of(r);
            assert(all[x] == r);
            let i = choose|i: int| 0 <= i < t.len() && row_of_line(i, #[trigger] t[i]) == Some(r);
            assert(row_of_line(i, lines[i]) == Some(r));
        }
        if row_of_line(n, lines[n]) == Some(r) {
            assert(all[before.len() as int] == r);
        }
        if all.contains(r) && !before.contains(r) {
            let x = all.index_of(r);
            if x < before.len() {
                assert(before[x] == r);
            }
            assert(row_of_line(n, lines[n]) == Some(r));
        }
        if exists|i: int| 0 <= i < lines.len() && row_of_line(i, #[trigger] lines[i]) == Some(r) {
            let i = choose|i: int|
                0 <= i < lines.len() && row_of_line(i, #[trigger] lines[i]) == Some(r);
            if i < n {
                assert(row_of_line(i, t[i]) == Some(r));
            }
        }
    }
}

/// A row is a trade where price, quantity and time could be read. Where the
/// buyer was the maker the seller took, so the trade is a sale; otherwise it
/// is a purchase. Its time is in nanoseconds.
pub proof fn law_row_is_a_trade(
    r: RowView,
    price: Option<Real>,
    qty: Option<Real>,
    symbol: SymbolId,
    e: EventEnvelope,
)
    ensures
        row_trade(r, price, qty) is Some <==> price is Some && qty is Some && r.time_ms is Some,
        row_trade(r, price, qty) is Some && is_row_event(e, symbol, row_trade(r, price, qty)->0)
            ==> {
            &&& e.venue == Venue::BinanceFutures
            &&& e.symbol == symbol
            &&& e.recv_ts_ns == r.time_ms->0 * 1_000_000
            &&& e.exch_ts_ns == e.recv_ts_ns
            &&& e.stream_seq == r.row
            &&& e.body is Trade
            &&& e.body->Trade_price == price->0
            &&& e.body->Trade_qty == qty->0
            &&& e.body->Trade_trade_id == r.row
            &&& r.is_buyer_maker ==> e.body->Trade_side == Side::Sell
            &&& !r.is_buyer_maker ==> e.body->Trade_side == Side::Buy
        },
{
}

/// The trades of an archive are those of the rows that are trades, and no
/// others.
pub proof fn law_trades_are_rows(
    rows: Seq<RowView>,
    numbers: Seq<(Option<Real>, Option<Real>)>,
    t: (int, Real, Real, Side, int),
)
    ensures
        row_trades(rows, numbers).contains(t) <==> exists|i: int|
            0 <= i < rows.len() && row_trade(#[trigger] rows[i], numbers[i].0, numbers[i].1)
                == Some(t),
    decreases rows.len(),
{
    if rows.len() > 0 {
        let e = rows.drop_last();
        let n = rows.len() - 1;
        law_trades_are_rows(e, numbers, t);
        let before = row_trades(e, numbers);
        let all = row_trades(rows, numbers);
        assert(rows[n] == rows.last());
        if before.contains(t) {
            let x = before.index_of(t);
            assert(all[x] == t);
            let i = choose|i: int|
                0 <= i < e.len() && row_trade(#[trigger] e[i], numbers[i].0, numbers[i].1) == Some(
                    t,
                );
            assert(row_trade(rows[i], numbers[i].0, numbers[i].1) == Some(t));
        }
        if row_trade(rows[n], numbers[n].0, numbers[n].1) == Some(t) {
            assert(all[before.len() as int] == t);
        }
        if all.contains(t) && !before.contains(t) {
            let x = all.index_of(t);
            if x < before.len() {
                assert(before[x] == t);
            }
            assert(row_trade(rows[n], numbers[n].0, numbers[n].1) == Some(t));
        }
        if exists|i: int|
            0 <= i < rows.len() && row_trade(#[trigger] rows[i], numbers[i].0, numbers[i].1)
                == Some(t) {
            let i = choose|i: int|
                0 <= i < rows.len() && row_trade(#[trigger] rows[i], numbers[i].0, numbers[i].1)
                    == Some(t);
            if i < n {
                assert(row_trade(e[i], numbers[i].0, numbers[i].1) == Some(t));
            }
        }
    }
}

/// Events are put in the order of their times, and those of one time in that
/// of their numbers.
pub proof fn law_receive_order(events: Seq<EventEnvelope>, order: Seq<usize>, i: int, j: int)
    requires
        in_receive_order(events, order),
        0 <= i < j < order.len(),
    ensures
        order.len() == events.len(),
        order[i] != order[j],
        events[order[i] as int].recv_ts_ns <= events[order[j] as int].recv_ts_ns,
        events[order[i] as int].recv_ts_ns == events[order[j] as int].recv_ts_ns
            ==> events[order[i] as int].stream_seq <= events[order[j] as int].stream_seq,
{
    let keys = choose|keys: Seq<Pair<i64, u64>>|
        #![trigger stably_sorted(keys, order)]
        keys.len() == events.len() && stably_sorted(keys, order) && forall|k: int|
            0 <= k < keys.len() ==> (#[trigger] keys[k]).a == events[k].recv_ts_ns && keys[k].b
                == events[k].stream_seq;
    let (a, b) = (order[i] as int, order[j] as int);
    crate::ordered::law_stable_sort(keys, order, i, j, a);
    assert(keys[a].a == events[a].recv_ts_ns);
    assert(keys[b].a == events[b].recv_ts_ns);
    assert(<Pair<i64, u64> as crate::ordered::Key>::id(&keys[a]) == (keys[a].a, keys[a].b));
    assert(<Pair<i64, u64> as crate::ordered::Key>::id(&keys[b]) == (keys[b].a, keys[b].b));
}

} // verus!
