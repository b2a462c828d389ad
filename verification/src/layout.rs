//! The cold store's layout: partition paths, stream names and venue codes.
use vstd::prelude::*;
use crate::error::{Failure, StorageError};
use crate::event::{MarketEvent, Venue};
use crate::text::{join_path, joined, push_text, same, to_chars, slice_text, views};

verus! {

/// The venue's name in partition paths.
pub open spec fn venue_dir_of(v: Venue) -> Seq<char> {
    match v {
        Venue::BinanceFutures => "binance_futures"@,
        Venue::Bybit => "bybit"@,
        Venue::Okx => "okx"@,
        Venue::Hyperliquid => "hyperliquid"@,
        Venue::Coinbase => "coinbase"@,
        Venue::KrakenFutures => "kraken_futures"@,
        Venue::Deribit => "deribit"@,
        Venue::Fred => "fred"@,
        Venue::Ethereum => "ethereum"@,
        Venue::Cboe => "cboe"@,
        Venue::DeFiLlama => "defillama"@,
        Venue::Coinalyze => "coinalyze"@,
    }
}

/// Stable lowercase venue name used in partition paths.
pub fn venue_slug(v: Venue) -> (s: &'static str)
    ensures
        s@ == venue_dir_of(v),
{
    match v {
        Venue::BinanceFutures => "binance_futures",
        Venue::Bybit => "bybit",
        Venue::Okx => "okx",
        Venue::Hyperliquid => "hyperliquid",
        Venue::Coinbase => "coinbase",
        Venue::KrakenFutures => "kraken_futures",
        Venue::Deribit => "deribit",
        Venue::Fred => "fred",
        Venue::Ethereum => "ethereum",
        Venue::Cboe => "cboe",
        Venue::DeFiLlama => "defillama",
        Venue::Coinalyze => "coinalyze",
    }
}

/// The number that stands for the venue in a file: its place among the
/// venues, counted from 1. New venues are appended, so codes never change.
pub open spec fn code_of(v: Venue) -> u16 {
    match v {
        Venue::BinanceFutures => 1,
        Venue::Bybit => 2,
        Venue::Okx => 3,
        Venue::Hyperliquid => 4,
        Venue::Coinbase => 5,
        Venue::KrakenFutures => 6,
        Venue::Deribit => 7,
        Venue::Fred => 8,
        Venue::Ethereum => 9,
        Venue::Cboe => 10,
        Venue::DeFiLlama => 11,
        Venue::Coinalyze => 12,
    }
}

/// The number that stands for the venue in a file.
pub fn venue_code(v: Venue) -> (c: u16)
    ensures
        c == code_of(v),
        1 <= c <= 12,
{
    match v {
        Venue::BinanceFutures => 1,
        Venue::Bybit => 2,
        Venue::Okx => 3,
        Venue::Hyperliquid => 4,
        Venue::Coinbase => 5,
        Venue::KrakenFutures => 6,
        Venue::Deribit => 7,
        Venue::Fred => 8,
        Venue::Ethereum => 9,
        Venue::Cboe => 10,
        Venue::DeFiLlama => 11,
        Venue::Coinalyze => 12,
    }
}

/// The venue of a code.
pub open spec fn venue_of_code(code: u16) -> Option<Venue> {
    match code {
        1 => Some(Venue::BinanceFutures),
        2 => Some(Venue::Bybit),
        3 => Some(Venue::Okx),
        4 => Some(Venue::Hyperliquid),
        5 => Some(Venue::Coinbase),
        6 => Some(Venue::KrakenFutures),
        7 => Some(Venue::Deribit),
        8 => Some(Venue::Fred),
        9 => Some(Venue::Ethereum),
        10 => Some(Venue::Cboe),
        11 => Some(Venue::DeFiLlama),
        12 => Some(Venue::Coinalyze),
        _ => None,
    }
}

/// The venue of a code, if a venue has it.
pub fn venue_from_code(code: u16) -> (r: Option<Venue>)
    ensures
        r == venue_of_code(code),
{
    match code {
        1 => Some(Venue::BinanceFutures),
        2 => Some(Venue::Bybit),
        3 => Some(Venue::Okx),
        4 => Some(Venue::Hyperliquid),
        5 => Some(Venue::Coinbase),
        6 => Some(Venue::KrakenFutures),
        7 => Some(Venue::Deribit),
        8 => Some(Venue::Fred),
        9 => Some(Venue::Ethereum),
        10 => Some(Venue::Cboe),
        11 => Some(Venue::DeFiLlama),
        12 => Some(Venue::Coinalyze),
        _ => None,
    }
}

/// A venue's code leads back to the venue, and a code that leads to a venue
/// is that venue's code.
pub proof fn law_venue_code_inverse(v: Venue, code: u16)
    ensures
        venue_of_code(code_of(v)) == Some(v),
        venue_of_code(code) == Some(v) ==> code == code_of(v),
{
}

/// The stream directory of an event.
pub open spec fn stream_of(body: MarketEvent) -> Seq<char> {
    match body {
        MarketEvent::Trade { .. } => "trades"@,
        MarketEvent::TradeWithAddr { .. } => "trades"@,
        MarketEvent::BookDelta { .. } => "book_deltas"@,
        MarketEvent::BookSnapshot { .. } => "book_snapshots"@,
        MarketEvent::Funding { .. } => "funding"@,
        MarketEvent::MarkPrice { .. } => "mark_price"@,
        MarketEvent::OpenInterest { .. } => "open_interest"@,
        MarketEvent::Liquidation { .. } => "liquidations"@,
        MarketEvent::IndexPrice { .. } => "index_price"@,
        MarketEvent::Status { .. } => "status"@,
        MarketEvent::WhalePosition { .. } => "positions"@,
        MarketEvent::MacroPoint { .. } => "macro"@,
        MarketEvent::OptionTrade { .. } => "options"@,
        MarketEvent::OptionBook { .. } => "options"@,
        MarketEvent::OptionTicker { .. } => "options"@,
        MarketEvent::NetflowSnapshot { .. } => "netflow"@,
    }
}

/// The stream directory of an event.
pub fn stream_type_name(body: &MarketEvent) -> (s: &'static str)
    ensures
        s@ == stream_of(*body),
{
    match body {
        MarketEvent::Trade { .. } => "trades",
        MarketEvent::TradeWithAddr { .. } => "trades",
        MarketEvent::BookDelta { .. } => "book_deltas",
        MarketEvent::BookSnapshot { .. } => "book_snapshots",
        MarketEvent::Funding { .. } => "funding",
        MarketEvent::MarkPrice { .. } => "mark_price",
        MarketEvent::OpenInterest { .. } => "open_interest",
        MarketEvent::Liquidation { .. } => "liquidations",
        MarketEvent::IndexPrice { .. } => "index_price",
        MarketEvent::Status { .. } => "status",
        MarketEvent::WhalePosition { .. } => "positions",
        MarketEvent::MacroPoint { .. } => "macro",
        MarketEvent::OptionTrade { .. } => "options",
        MarketEvent::OptionBook { .. } => "options",
        MarketEvent::OptionTicker { .. } => "options",
        MarketEvent::NetflowSnapshot { .. } => "netflow",
    }
}

/// `prefix` and `rest`, one behind the other.
pub fn glued(prefix: &str, rest: &str) -> (s: String)
    ensures
        s@ == prefix@ + rest@,
{
    let mut s = prefix.to_owned();
    push_text(&mut s, rest);
    s
}

/// `{root}/{stream}/venue={v}/symbol={s}/date={d}/part-000.parquet`.
pub open spec fn partition_path(
    root: Seq<char>,
    stream: Seq<char>,
    venue: Venue,
    symbol: Seq<char>,
    date: Seq<char>,
) -> Seq<char> {
    joined(
        joined(
            joined(joined(joined(root, stream), "venue="@ + venue_dir_of(venue)), "symbol="@ + symbol),
            "date="@ + date,
        ),
        "part-000.parquet"@,
    )
}

/// `{root}/{stream}/venue={v}/symbol={s}/date={d}/part-000.parquet`.
pub fn partition_file(root: &str, stream: &str, venue: Venue, symbol: &str, date: &str) -> (s:
    String)
    ensures
        s@ == partition_path(root@, stream@, venue, symbol@, date@),
{
    let a = join_path(root, stream);
    let b = join_path(a.as_str(), glued("venue=", venue_slug(venue)).as_str());
    let c = join_path(b.as_str(), glued("symbol=", symbol).as_str());
    let d = join_path(c.as_str(), glued("date=", date).as_str());
    join_path(d.as_str(), "part-000.parquet")
}

/// `{root}/manifests/venue={v}/date={d}.json`.
pub open spec fn manifest_path(root: Seq<char>, venue: Venue, date: Seq<char>) -> Seq<char> {
    joined(
        joined(joined(root, "manifests"@), "venue="@ + venue_dir_of(venue)),
        "date="@ + date + ".json"@,
    )
}

/// `{root}/manifests/venue={v}/date={d}.json`.
pub fn manifest_file(root: &str, venue: Venue, date: &str) -> (s: String)
    ensures
        s@ == manifest_path(root@, venue, date@),
{
    let a = join_path(root, "manifests");
    let b = join_path(a.as_str(), glued("venue=", venue_slug(venue)).as_str());
    join_path(b.as_str(), glued(glued("date=", date).as_str(), ".json").as_str())
}

/// `s` without what names no component at its end: separators, and a `.`
/// behind a separator.
pub open spec fn trim_slashes(s: Seq<char>) -> Seq<char>
    decreases s.len(),
{
    if s.len() > 0 && s.last() == '/' {
        trim_slashes(s.drop_last())
    } else if s.len() > 1 && s.last() == '.' && s[s.len() - 2] == '/' {
        trim_slashes(s.drop_last())
    } else {
        s
    }
}

/// The part of `s` up to and with its last separator; empty without one.
pub open spec fn upto_slash(s: Seq<char>) -> Seq<char>
    decreases s.len(),
{
    if s.len() == 0 || s.last() == '/' {
        s
    } else {
        upto_slash(s.drop_last())
    }
}

/// The directory that holds the path `p`: `None` for the root and the empty
/// path, and empty for a bare name.
pub open spec fn parent_of(p: Seq<char>) -> Option<Seq<char>> {
    let body = trim_slashes(p);
    if body.len() == 0 {
        None
    } else {
        let dir = trim_slashes(upto_slash(body));
        if dir.len() == 0 && upto_slash(body).len() > 0 {
            Some("/"@)
        } else {
            Some(dir)
        }
    }
}

/// The length of `chars[..n]` without what names no component at its end.
fn trimmed_len(chars: &Vec<char>, n: usize) -> (k: usize)
    requires
        n <= chars.len(),
    ensures
        k <= n,
        chars@.take(k as int) == trim_slashes(chars@.take(n as int)),
    decreases n,
{
    if n > 0 && chars[n - 1] == '/' {
        assert(chars@.take(n as int).drop_last() =~= chars@.take(n - 1));
        trimmed_len(chars, n - 1)
    } else if n > 1 && chars[n - 1] == '.' && chars[n - 2] == '/' {
        assert(chars@.take(n as int).drop_last() =~= chars@.take(n - 1));
        trimmed_len(chars, n - 1)
    } else {
        n
    }
}

/// The length of `chars[..n]` up to and with its last separator.
fn dir_len(chars: &Vec<char>, n: usize) -> (k: usize)
    requires
        n <= chars.len(),
    ensures
        k <= n,
        chars@.take(k as int) == upto_slash(chars@.take(n as int)),
    decreases n,
{
    if n == 0 || chars[n - 1] == '/' {
        n
    } else {
        assert(chars@.take(n as int).drop_last() =~= chars@.take(n - 1));
        dir_len(chars, n - 1)
    }
}

/// The directory that holds `p`.
pub fn parent_dir(p: &str) -> (r: Option<String>)
    ensures
        match r {
            Some(d) => parent_of(p@) == Some(d@),
            None => parent_of(p@) is None,
        },
{
    let chars = to_chars(p);
    assert(chars@.take(chars@.len() as int) =~= p@);
    let n: usize = trimmed_len(&chars, chars.len());
    if n == 0 {
        return None;
    }
    let k: usize = dir_len(&chars, n);
    let d: usize = trimmed_len(&chars, k);
    if d == 0 && k > 0 {
        Some("/".to_owned())
    } else {
        assert(chars@.subrange(0, d as int) =~= chars@.take(d as int));
        Some(slice_text(chars.as_slice(), 0, d))
    }
}

/// The directory of raw recordings beside the cold root; `None` when the cold
/// root has no parent.
pub fn raw_log_dir(cold_root: &str) -> (r: Option<String>)
    ensures
        match r {
            Some(d) => parent_of(cold_root@) is Some && d@ == joined(
                parent_of(cold_root@)->0,
                "raw"@,
            ),
            None => parent_of(cold_root@) is None,
        },
{
    match parent_dir(cold_root) {
        Some(p) => Some(join_path(p.as_str(), "raw")),
        None => None,
    }
}

/// The names by which raw recordings of a venue may be spelled, the usual
/// one first.
pub open spec fn venue_tokens_of(v: Venue) -> Seq<Seq<char>> {
    match v {
        Venue::BinanceFutures => seq!["binance"@, "binance_futures"@],
        Venue::KrakenFutures => seq!["kraken"@, "kraken_futures"@],
        _ => seq![venue_dir_of(v)],
    }
}

/// The names by which raw recordings of a venue may be spelled, the usual
/// one first.
pub fn raw_file_venue_tokens(v: Venue) -> (r: Vec<String>)
    ensures
        views(r@) == venue_tokens_of(v),
{
    let mut r: Vec<String> = Vec::new();
    match v {
        Venue::BinanceFutures => {
            r.push("binance".to_owned());
            r.push("binance_futures".to_owned());
        },
        Venue::KrakenFutures => {
            r.push("kraken".to_owned());
            r.push("kraken_futures".to_owned());
        },
        _ => {
            r.push(venue_slug(v).to_owned());
        },
    }
    assert(views(r@) =~= venue_tokens_of(v));
    r
}

/// The streams that own a cold partition.
pub open spec fn has_partition(stream: Seq<char>) -> bool {
    stream == "trades"@ || stream == "positions"@ || stream == "macro"@ || stream == "options"@
}

/// Whether the stream owns a cold partition; the others appear in manifests
/// only.
pub fn has_parquet_partition(stream: &str) -> (r: bool)
    ensures
        r == has_partition(stream@),
{
    same(stream, "trades") || same(stream, "positions") || same(stream, "macro") || same(
        stream,
        "options",
    )
}

/// The kinds of tables.
#[derive(Clone, Copy, Debug, PartialEq, Eq, Structural)]
pub enum TableKind {
    Trades,
    Positions,
    Macro,
    Options,
}

/// The stream of a kind of table.
pub open spec fn stream_of_kind(k: TableKind) -> Seq<char> {
    match k {
        TableKind::Trades => "trades"@,
        TableKind::Positions => "positions"@,
        TableKind::Macro => "macro"@,
        TableKind::Options => "options"@,
    }
}

/// The kind of table that a stream has: what writes its partition, and what
/// counts the rows of it. Exactly the streams that own a partition have one.
pub fn table_kind(stream: &str) -> (r: Option<TableKind>)
    ensures
        r is Some <==> has_partition(stream@),
        r == Some(TableKind::Trades) <==> stream@ == "trades"@,
        r == Some(TableKind::Positions) <==> stream@ == "positions"@,
        r == Some(TableKind::Macro) <==> stream@ == "macro"@,
        r == Some(TableKind::Options) <==> stream@ == "options"@,
        r matches Some(k) ==> stream_of_kind(k) == stream@,
{
    proof {
        lemma_streams_differ();
    }
    if same(stream, "trades") {
        Some(TableKind::Trades)
    } else if same(stream, "positions") {
        Some(TableKind::Positions)
    } else if same(stream, "macro") {
        Some(TableKind::Macro)
    } else if same(stream, "options") {
        Some(TableKind::Options)
    } else {
        None
    }
}

/// The table whose rows are counted for a stream; refused for a stream without
/// a partition.
pub fn counted_table(stream: &str) -> (r: Result<TableKind, StorageError>)
    ensures
        match r {
            Ok(k) => has_partition(stream@) && stream_of_kind(k) == stream@,
            Err(e) => !has_partition(stream@) && e.says() == Failure::Refused(
                "no parquet reader for "@ + stream@,
            ),
        },
{
    match table_kind(stream) {
        Some(k) => Ok(k),
        None => Err(StorageError::Refused(glued("no parquet reader for ", stream))),
    }
}

proof fn lemma_streams_differ()
    ensures
        stream_of_kind(TableKind::Trades) != stream_of_kind(TableKind::Positions),
        stream_of_kind(TableKind::Trades) != stream_of_kind(TableKind::Macro),
        stream_of_kind(TableKind::Trades) != stream_of_kind(TableKind::Options),
        stream_of_kind(TableKind::Positions) != stream_of_kind(TableKind::Macro),
        stream_of_kind(TableKind::Positions) != stream_of_kind(TableKind::Options),
        stream_of_kind(TableKind::Macro) != stream_of_kind(TableKind::Options),
{
    reveal_strlit("trades");
    reveal_strlit("positions");
    reveal_strlit("macro");
    reveal_strlit("options");
    assert("trades"@.len() == 6);
    assert("positions"@.len() == 9);
    assert("macro"@.len() == 5);
    assert("options"@.len() == 7);
}

/// Writing and pruning agree on which streams have tables: a stream owns a
/// partition exactly if it is that of a kind of table, and of one only.
pub proof fn law_tables_are_partitions(stream: Seq<char>)
    ensures
        has_partition(stream) <==> exists|k: TableKind| #[trigger] stream_of_kind(k) == stream,
        forall|a: TableKind, b: TableKind| #[trigger]
            stream_of_kind(a) == stream && #[trigger] stream_of_kind(b) == stream ==> a == b,
{
    lemma_streams_differ();
    if has_partition(stream) {
        if stream == "trades"@ {
            assert(stream_of_kind(TableKind::Trades) == stream);
        } else if stream == "positions"@ {
            assert(stream_of_kind(TableKind::Positions) == stream);
        } else if stream == "macro"@ {
            assert(stream_of_kind(TableKind::Macro) == stream);
        } else {
            assert(stream_of_kind(TableKind::Options) == stream);
        }
    }
}

/// The codes of the venues.
pub proof fn law_venue_codes()
    ensures
        code_of(Venue::BinanceFutures) == 1,
        code_of(Venue::Bybit) == 2,
        code_of(Venue::Okx) == 3,
        code_of(Venue::Hyperliquid) == 4,
        code_of(Venue::Coinbase) == 5,
        code_of(Venue::KrakenFutures) == 6,
        code_of(Venue::Deribit) == 7,
        code_of(Venue::Fred) == 8,
        code_of(Venue::Ethereum) == 9,
        code_of(Venue::Cboe) == 10,
        code_of(Venue::DeFiLlama) == 11,
        code_of(Venue::Coinalyze) == 12,
{
}

/// A code names a venue exactly where it is from one to twelve.
pub proof fn law_known_codes(code: u16)
    ensures
        venue_of_code(code) is Some <==> 1 <= code <= 12,
{
}

/// Trades go to one stream with or without addresses, and so do the three
/// kinds of option events; every other kind has a stream of its own.
pub proof fn law_streams_of_events(a: MarketEvent, b: MarketEvent)
    ensures
        (a is Trade || a is TradeWithAddr) <==> stream_of(a) == "trades"@,
        (a is OptionTrade || a is OptionBook || a is OptionTicker) <==> stream_of(a) == "options"@,
        a is WhalePosition <==> stream_of(a) == "positions"@,
        a is MacroPoint <==> stream_of(a) == "macro"@,
        a is BookDelta <==> stream_of(a) == "book_deltas"@,
        a is BookSnapshot <==> stream_of(a) == "book_snapshots"@,
        a is Funding <==> stream_of(a) == "funding"@,
        a is MarkPrice <==> stream_of(a) == "mark_price"@,
        a is OpenInterest <==> stream_of(a) == "open_interest"@,
        a is Liquidation <==> stream_of(a) == "liquidations"@,
        a is IndexPrice <==> stream_of(a) == "index_price"@,
        a is Status <==> stream_of(a) == "status"@,
        a is NetflowSnapshot <==> stream_of(a) == "netflow"@,
{
    reveal_strlit("trades");
    reveal_strlit("options");
    reveal_strlit("positions");
    reveal_strlit("macro");
    reveal_strlit("book_deltas");
    reveal_strlit("book_snapshots");
    reveal_strlit("funding");
    reveal_strlit("mark_price");
    reveal_strlit("open_interest");
    reveal_strlit("liquidations");
    reveal_strlit("index_price");
    reveal_strlit("status");
    reveal_strlit("netflow");
    assert("trades"@[0] != "status"@[0]);
    assert("funding"@[0] != "options"@[0] && "netflow"@[0] != "options"@[0] && "netflow"@[0]
        != "funding"@[0]);
    assert("mark_price"@.len() == 10);
    assert("book_deltas"@[0] != "index_price"@[0]);
    assert("liquidations"@.len() == 12);
    assert("open_interest"@.len() == 13);
    assert("book_snapshots"@.len() == 14);
    assert("positions"@.len() == 9);
    assert("macro"@.len() == 5);
}

proof fn lemma_upto(dir: Seq<char>, name: Seq<char>)
    requires
        forall|i: int| 0 <= i < name.len() ==> #[trigger] name[i] != '/',
    ensures
        upto_slash(dir.push('/') + name) == dir.push('/'),
    decreases name.len(),
{
    let d = dir.push('/');
    if name.len() == 0 {
        assert(d + name =~= d);
    } else {
        let t = name.drop_last();
        assert(forall|i: int| 0 <= i < t.len() ==> t[i] == name[i]);
        lemma_upto(dir, t);
        assert((d + name).drop_last() =~= d + t);
        assert((d + name).last() == name[name.len() - 1]);
    }
}

/// The parent of a name under a directory is the directory.
pub proof fn law_parent(dir: Seq<char>, name: Seq<char>)
    requires
        dir.len() > 0,
        dir.last() != '/',
        dir.last() != '.',
        name.len() > 0,
        name.last() != '.',
        forall|i: int| 0 <= i < name.len() ==> #[trigger] name[i] != '/',
    ensures
        parent_of(joined(dir, name)) == Some(dir),
{
    let p = dir.push('/') + name;
    assert(name[0] != '/' && name[name.len() - 1] != '/');
    assert(p.last() == name.last());
    assert(trim_slashes(p) == p);
    lemma_upto(dir, name);
    let d = dir.push('/');
    assert(d.drop_last() =~= dir);
    assert(trim_slashes(dir) == dir);
    assert(trim_slashes(d) == dir);
}

} // verus!
