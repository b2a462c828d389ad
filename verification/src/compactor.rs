//! Compaction: which partitions a day's events go to, which of them are
//! written anew, and how the day's manifest is merged.
use vstd::prelude::*;
use crate::audit::{AuditFinding, RawLogAudit, MIN_COVERAGE};
use crate::error::{Failure, StorageError};
use crate::event::{EventEnvelope, MarketEvent, SymbolMeta, Venue};
use crate::layout::{
    has_parquet_partition, has_partition, partition_file, partition_path, stream_of,
    stream_type_name, venue_dir_of, venue_slug,
};
use crate::manifest::{symbol_name, symbol_name_of, QualityManifest, StreamStats};
use crate::number::Real;
use crate::ordered::{
    group_positions, grouped, lemma_pos, lemma_positions, listed, occurs, positions, sort_order,
    stably_sorted, Key, Pair, comes_first,
};
use crate::parquet_options::option_rows_of;
use crate::parquet_trades::{in_range, selected};
use crate::text::{dec, join_texts, join_with, push_dec, push_text, same, views};

verus! {

/// How a compaction is run.
#[derive(Clone, Copy, Debug, PartialEq, Eq, Structural)]
pub struct CompactOptions {
    /// Write files anew even when they were made from the same source.
    pub force: bool,
}

/// The usual options: files made from the same source are left alone.
pub open spec fn usual_options() -> CompactOptions {
    CompactOptions { force: false }
}

/// What a compaction did.
#[derive(Clone, Copy, Debug, PartialEq, Eq, Structural)]
pub struct CompactStats {
    pub trades_files_written: u64,
    pub trades_files_skipped: u64,
    pub trade_rows: u64,
    pub positions_files_written: u64,
    pub positions_files_skipped: u64,
    pub position_rows: u64,
    pub macro_files_written: u64,
    pub macro_files_skipped: u64,
    pub macro_rows: u64,
    pub options_files_written: u64,
    pub options_files_skipped: u64,
    pub option_rows: u64,
}

/// One partition of a day: the events at `order` go to the file `path`.
#[derive(Debug)]
pub struct CompactTarget {
    pub stream: String,
    pub symbol_id: u32,
    pub symbol: String,
    pub path: String,
    pub order: Vec<usize>,
}

/// Which targets are written, and what that comes to.
#[derive(Debug)]
pub struct CompactPlan {
    pub write: Vec<bool>,
    pub stats: CompactStats,
}

// ---------------------------------------------------------------------------
// Targets
// ---------------------------------------------------------------------------

/// Whether event `p` goes to the stream and symbol.
pub open spec fn goes_to(
    events: Seq<EventEnvelope>,
    p: int,
    stream: Seq<char>,
    sym: u32,
) -> bool {
    0 <= p < events.len() && stream_of(events[p].body) == stream && events[p].symbol.0 == sym
}

/// Whether event `a` is written before event `b`: by receive time, then
/// sequence number, then position.
pub open spec fn written_before(events: Seq<EventEnvelope>, a: int, b: int) -> bool {
    let (x, y) = (events[a], events[b]);
    x.recv_ts_ns < y.recv_ts_ns || (x.recv_ts_ns == y.recv_ts_ns && (x.stream_seq < y.stream_seq
        || (x.stream_seq == y.stream_seq && a < b)))
}

/// `order` lists exactly the events of the stream and symbol, in the order in
/// which they are written.
pub open spec fn is_write_order(
    events: Seq<EventEnvelope>,
    stream: Seq<char>,
    sym: u32,
    order: Seq<usize>,
) -> bool {
    &&& forall|i: int|
        0 <= i < order.len() ==> goes_to(events, #[trigger] order[i] as int, stream, sym)
    &&& forall|i: int, j: int|
        0 <= i < j < order.len() ==> written_before(
            events,
            #[trigger] order[i] as int,
            #[trigger] order[j] as int,
        )
    &&& forall|p: int| #[trigger] goes_to(events, p, stream, sym) ==> listed(order, p)
}

/// Some event goes to the stream and symbol.
pub open spec fn any_goes_to(events: Seq<EventEnvelope>, stream: Seq<char>, sym: u32) -> bool {
    exists|p: int| goes_to(events, p, stream, sym)
}

/// Target `t` is the partition of its stream and symbol.
pub open spec fn is_target(
    t: CompactTarget,
    events: Seq<EventEnvelope>,
    symbols: Seq<SymbolMeta>,
    root: Seq<char>,
    venue: Venue,
    date: Seq<char>,
) -> bool {
    &&& has_partition(t.stream@)
    &&& t.symbol@ == symbol_name_of(symbols, t.symbol_id)
    &&& t.path@ == partition_path(root, t.stream@, venue, t.symbol@, date)
    &&& is_write_order(events, t.stream@, t.symbol_id, t.order@)
    &&& any_goes_to(events, t.stream@, t.symbol_id)
}

/// Target `a` stands before target `b`: by stream, then symbol id.
pub open spec fn target_before(a: CompactTarget, b: CompactTarget) -> bool {
    <Pair<String, u32> as Key>::precedes((a.stream@, a.symbol_id), (b.stream@, b.symbol_id))
}

/// Whether some target is that of the stream and symbol.
pub open spec fn has_target(targets: Seq<CompactTarget>, stream: Seq<char>, sym: u32) -> bool {
    exists|i: int|
        0 <= i < targets.len() && (#[trigger] targets[i]).stream@ == stream && targets[i].symbol_id
            == sym
}

/// `targets` are the partitions of the events: one for each stream that owns
/// partitions and each symbol that has events of it, in order.
pub open spec fn are_targets(
    targets: Seq<CompactTarget>,
    events: Seq<EventEnvelope>,
    symbols: Seq<SymbolMeta>,
    root: Seq<char>,
    venue: Venue,
    date: Seq<char>,
) -> bool {
    &&& forall|i: int|
        0 <= i < targets.len() ==> is_target(
            #[trigger] targets[i],
            events,
            symbols,
            root,
            venue,
            date,
        )
    &&& forall|i: int, j: int|
        0 <= i < j < targets.len() ==> target_before(#[trigger] targets[i], #[trigger] targets[j])
    &&& forall|stream: Seq<char>, sym: u32|
        has_partition(stream) && #[trigger] any_goes_to(events, stream, sym) ==> has_target(
            targets,
            stream,
            sym,
        )
}

/// The order in which the events at `members` are written.
fn write_order(events: &Vec<EventEnvelope>, members: &Vec<usize>) -> (order: Vec<usize>)
    requires
        in_range(members@, events@.len()),
        forall|i: int, j: int| 0 <= i < j < members@.len() ==> members@[i] < members@[j],
    ensures
        order@.len() == members@.len(),
        forall|i: int|
            0 <= i < order@.len() ==> members@.contains(#[trigger] order@[i]),
        forall|i: int, j: int|
            0 <= i < j < order@.len() ==> written_before(
                events@,
                #[trigger] order@[i] as int,
                #[trigger] order@[j] as int,
            ),
        forall|i: int| 0 <= i < members@.len() ==> listed(order@, #[trigger] members@[i] as int),
{
    let mut keys: Vec<Pair<i64, u64>> = Vec::new();
    let mut i: usize = 0;
    while i < members.len()
        invariant
            i <= members@.len(),
            in_range(members@, events@.len()),
            keys@.len() == i,
            forall|k: int|
                0 <= k < i ==> (#[trigger] keys@[k]).id() == (
                    events@[members@[k] as int].recv_ts_ns,
                    events@[members@[k] as int].stream_seq,
                ),
        decreases members@.len() - i,
    {
        let e = &events[members[i]];
        keys.push(Pair { a: e.recv_ts_ns, b: e.stream_seq });
        i = i + 1;
    }
    let sorted = sort_order(&keys);
    let mut order: Vec<usize> = Vec::new();
    let mut j: usize = 0;
    while j < sorted.len()
        invariant
            j <= sorted@.len(),
            sorted@.len() == members@.len(),
            keys@.len() == members@.len(),
            stably_sorted(keys@, sorted@),
            order@.len() == j,
            forall|k: int| 0 <= k < j ==> #[trigger] order@[k] == members@[sorted@[k] as int],
        decreases sorted@.len() - j,
    {
        order.push(members[sorted[j]]);
        j = j + 1;
    }
    proof {
        assert forall|a: int, b: int| 0 <= a < b < order@.len() implies written_before(
            events@,
            #[trigger] order@[a] as int,
            #[trigger] order@[b] as int,
        ) by {
            let (p, q) = (sorted@[a] as int, sorted@[b] as int);
            assert(comes_first(keys@, p, q));
            assert(keys@[p].id() == (
                events@[members@[p] as int].recv_ts_ns,
                events@[members@[p] as int].stream_seq,
            ));
            assert(keys@[q].id() == (
                events@[members@[q] as int].recv_ts_ns,
                events@[members@[q] as int].stream_seq,
            ));
        }
        assert forall|i: int| 0 <= i < members@.len() implies listed(
            order@,
            #[trigger] members@[i] as int,
        ) by {
            assert(listed(sorted@, i));
            let k = choose|k: int| 0 <= k < sorted@.len() && #[trigger] sorted@[k] == i;
            assert(order@[k] == members@[i]);
        }
        assert forall|i: int| 0 <= i < order@.len() implies members@.contains(
            #[trigger] order@[i],
        ) by {
            assert(members@[sorted@[i] as int] == order@[i]);
        }
    }
    order
}

/// The partitions of a day's events.
pub fn compact_targets(
    events: &Vec<EventEnvelope>,
    symbols: &Vec<SymbolMeta>,
    root: &str,
    venue: Venue,
    date: &str,
) -> (targets: Vec<CompactTarget>)
    ensures
        are_targets(targets@, events@, symbols@, root@, venue, date@),
{
    let mut keys: Vec<Pair<String, u32>> = Vec::new();
    let total: usize = events.len();
    let mut i: usize = 0;
    while i < total
        invariant
            i <= total,
            total == events@.len(),
            keys@.len() == i,
            forall|k: int|
                0 <= k < i ==> (#[trigger] keys@[k]).id() == (
                    stream_of(events@[k].body),
                    events@[k].symbol.0,
                ),
        decreases total - i,
    {
        let e = &events[i];
        keys.push(Pair { a: stream_type_name(&e.body).to_owned(), b: e.symbol.0 });
        i = i + 1;
    }
    let ghost all = keys@;
    let groups = group_positions(keys);
    let ghost entries = groups.entries@;
    let mut targets: Vec<CompactTarget> = Vec::new();
    let mut g: usize = 0;
    while g < groups.entries.len()
        invariant
            g <= groups.entries@.len(),
            entries == groups.entries@,
            all.len() == events@.len(),
            all.len() == total,
            grouped(all, groups),
            forall|k: int|
                0 <= k < all.len() ==> (#[trigger] all[k]).id() == (
                    stream_of(events@[k].body),
                    events@[k].symbol.0,
                ),
            forall|k: int|
                0 <= k < targets@.len() ==> is_target(
                    #[trigger] targets@[k],
                    events@,
                    symbols@,
                    root@,
                    venue,
                    date@,
                ),
            forall|a: int, b: int|
                0 <= a < b < targets@.len() ==> target_before(
                    #[trigger] targets@[a],
                    #[trigger] targets@[b],
                ),
            forall|k: int, h: int|
                0 <= k < targets@.len() && g <= h < entries.len() ==> <Pair<
                    String,
                    u32,
                > as Key>::precedes(
                    ((#[trigger] targets@[k]).stream@, targets@[k].symbol_id),
                    (#[trigger] entries[h]).0.id(),
                ),
            forall|h: int|
                0 <= h < g && has_partition((#[trigger] entries[h]).0.a@) ==> has_target(
                    targets@,
                    entries[h].0.a@,
                    entries[h].0.b,
                ),
        decreases groups.entries@.len() - g,
    {
        let entry = &groups.entries[g];
        let ghost k = entry.0.id();
        let ghost t0 = targets@;
        proof {
            lemma_pos(entries, g as int);
            assert(groups.map().dom().contains(k));
            assert(groups.map()[k]@ == positions(all, k));
            lemma_positions(all, k);
        }
        if has_parquet_partition(entry.0.a.as_str()) {
            let members = &entry.1;
            assert(members@ == positions(all, k));
            assert forall|x: int| 0 <= x < members@.len() implies (#[trigger] members@[x])
                < events@.len() by {
                assert(positions(all, k)[x] < all.len());
            }
            let order = write_order(events, members);
            let symbol = symbol_name(symbols, entry.0.b);
            let path = partition_file(root, entry.0.a.as_str(), venue, symbol.as_str(), date);
            let t = CompactTarget {
                stream: entry.0.a.clone(),
                symbol_id: entry.0.b,
                symbol,
                path,
                order,
            };
            proof {
                lemma_target_order(events@, all, k, members@, t.order@);
            }
            targets.push(t);
            assert(targets@[targets@.len() - 1] == t);
            assert forall|h: int| 0 <= h <= g && has_partition(
                (#[trigger] entries[h]).0.a@,
            ) implies has_target(targets@, entries[h].0.a@, entries[h].0.b) by {
                if h < g {
                    assert(has_target(t0, entries[h].0.a@, entries[h].0.b));
                    let i = choose|i: int|
                        0 <= i < t0.len() && (#[trigger] t0[i]).stream@ == entries[h].0.a@
                            && t0[i].symbol_id == entries[h].0.b;
                    assert(targets@[i] == t0[i]);
                } else {
                    assert(targets@[targets@.len() - 1].stream@ == entries[h].0.a@);
                }
            }
        }
        proof {
            assert forall|k: int, h: int| 0 <= k < targets@.len() && g + 1 <= h
                < entries.len() implies <Pair<String, u32> as Key>::precedes(
                ((#[trigger] targets@[k]).stream@, targets@[k].symbol_id),
                (#[trigger] entries[h]).0.id(),
            ) by {
                if k >= t0.len() {
                    assert(<Pair<String, u32> as Key>::precedes(
                        entries[g as int].0.id(),
                        entries[h].0.id(),
                    ));
                } else {
                    assert(targets@[k] == t0[k]);
                }
            }
            assert forall|a: int, b: int| 0 <= a < b < targets@.len() implies target_before(
                #[trigger] targets@[a],
                #[trigger] targets@[b],
            ) by {
                assert(targets@[a] == t0[a]);
                if b >= t0.len() {
                    assert(<Pair<String, u32> as Key>::precedes(
                        (t0[a].stream@, t0[a].symbol_id),
                        entries[g as int].0.id(),
                    ));
                } else {
                    assert(targets@[b] == t0[b]);
                }
            }
        }
        g = g + 1;
    }
    proof {
        assert forall|stream: Seq<char>, sym: u32| has_partition(stream) && #[trigger] any_goes_to(
            events@,
            stream,
            sym,
        ) implies has_target(targets@, stream, sym) by {
            let p = choose|p: int| goes_to(events@, p, stream, sym);
            assert(all[p].id() == (stream, sym));
            assert(occurs(all, (stream, sym)));
            assert(groups.map().dom().contains((stream, sym)));
            let h = crate::ordered::key_pos(entries, (stream, sym));
            assert(entries[h].0.id() == (stream, sym));
            assert(entries[h].0.a@ == stream && entries[h].0.b == sym);
        }
    }
    targets
}

proof fn lemma_target_order(
    events: Seq<EventEnvelope>,
    keys: Seq<Pair<String, u32>>,
    k: (Seq<char>, u32),
    members: Seq<usize>,
    order: Seq<usize>,
)
    requires
        keys.len() == events.len(),
        keys.len() <= usize::MAX,
        occurs(keys, k),
        forall|i: int|
            0 <= i < keys.len() ==> (#[trigger] keys[i]).id() == (
                stream_of(events[i].body),
                events[i].symbol.0,
            ),
        members == positions(keys, k),
        forall|i: int| 0 <= i < order.len() ==> members.contains(#[trigger] order[i]),
        forall|i: int, j: int|
            0 <= i < j < order.len() ==> written_before(
                events,
                #[trigger] order[i] as int,
                #[trigger] order[j] as int,
            ),
        forall|i: int| 0 <= i < members.len() ==> listed(order, #[trigger] members[i] as int),
    ensures
        is_write_order(events, k.0, k.1, order),
        any_goes_to(events, k.0, k.1),
{
    lemma_positions(keys, k);
    assert forall|i: int| 0 <= i < order.len() implies goes_to(
        events,
        #[trigger] order[i] as int,
        k.0,
        k.1,
    ) by {
        assert(members.contains(order[i]));
        let m = choose|m: int| 0 <= m < members.len() && members[m] == order[i];
        assert(keys[positions(keys, k)[m] as int].id() == k);
    }
    assert forall|p: int| #[trigger] goes_to(events, p, k.0, k.1) implies listed(order, p) by {
        assert(keys[p].id() == k);
        lemma_position_listed(keys, k, p);
        let m = choose|m: int|
            0 <= m < positions(keys, k).len() && #[trigger] positions(keys, k)[m] == p;
        assert(members[m] == p);
        assert(listed(order, members[m] as int));
    }
    let p = choose|p: int| 0 <= p < keys.len() && (#[trigger] keys[p]).id() == k;
    assert(goes_to(events, p, k.0, k.1));
}

/// Each position of a key is among its positions.
proof fn lemma_position_listed<K: Key>(keys: Seq<K>, k: K::Id, p: int)
    requires
        keys.len() <= usize::MAX,
        0 <= p < keys.len(),
        keys[p].id() == k,
    ensures
        exists|m: int| 0 <= m < positions(keys, k).len() && #[trigger] positions(keys, k)[m] == p,
    decreases keys.len(),
{
    if p == keys.len() - 1 {
        assert(positions(keys, k)[positions(keys, k).len() - 1] == p);
    } else {
        lemma_position_listed(keys.drop_last(), k, p);
        let b = positions(keys.drop_last(), k);
        let m = choose|m: int| 0 <= m < b.len() && #[trigger] b[m] == p;
        assert(positions(keys, k)[m] == p);
    }
}

// ---------------------------------------------------------------------------
// The plan
// ---------------------------------------------------------------------------

/// Whether the event makes a row in a file of the stream.
pub open spec fn makes_row(e: EventEnvelope, stream: Seq<char>) -> bool {
    if stream == "trades"@ {
        e.body.as_trade() is Some
    } else if stream == "positions"@ {
        e.body is WhalePosition
    } else if stream == "macro"@ {
        e.body is MacroPoint
    } else if stream == "options"@ {
        e.body is OptionTrade || e.body is OptionBook || e.body is OptionTicker
    } else {
        false
    }
}

/// How many rows the events make in a file of the stream.
pub open spec fn row_count(events: Seq<EventEnvelope>, stream: Seq<char>) -> nat
    decreases events.len(),
{
    if events.len() == 0 {
        0
    } else {
        row_count(events.drop_last(), stream) + if makes_row(events.last(), stream) {
            1nat
        } else {
            0
        }
    }
}

proof fn lemma_row_count_bound(events: Seq<EventEnvelope>, stream: Seq<char>)
    ensures
        row_count(events, stream) <= events.len(),
    decreases events.len(),
{
    if events.len() > 0 {
        lemma_row_count_bound(events.drop_last(), stream);
    }
}

/// A trades file has as many rows as its count says.
pub proof fn law_trade_row_count(events: Seq<EventEnvelope>)
    ensures
        crate::parquet_trades::trade_rows_of(events).len() == row_count(events, "trades"@),
    decreases events.len(),
{
    if events.len() > 0 {
        law_trade_row_count(events.drop_last());
    }
}

/// An options file has as many rows as its count says.
pub proof fn law_option_row_count(
    events: Seq<EventEnvelope>,
    texts: Seq<(Seq<char>, Seq<char>)>,
)
    ensures
        option_rows_of(events, texts).len() == row_count(events, "options"@),
    decreases events.len(),
{
    reveal_stream_names();
    if events.len() > 0 {
        law_option_row_count(events.drop_last(), texts);
    }
}

/// A positions file has as many rows as its count says.
pub proof fn law_position_row_count(events: Seq<EventEnvelope>)
    ensures
        crate::parquet_positions::position_rows_of(events).len() == row_count(
            events,
            "positions"@,
        ),
    decreases events.len(),
{
    reveal_stream_names();
    if events.len() > 0 {
        law_position_row_count(events.drop_last());
    }
}

/// The names of the streams that own partitions differ.
pub proof fn reveal_stream_names()
    ensures
        "trades"@ != "positions"@,
        "trades"@ != "macro"@,
        "trades"@ != "options"@,
        "positions"@ != "macro"@,
        "positions"@ != "options"@,
        "macro"@ != "options"@,
{
    reveal_strlit("trades");
    reveal_strlit("positions");
    reveal_strlit("macro");
    reveal_strlit("options");
    assert("trades"@.len() == 6);
    assert("positions"@.len() == 9);
    assert("macro"@.len() == 5);
    assert("options"@.len() == 7);
}

fn event_makes_row(e: &EventEnvelope, stream: &str) -> (r: bool)
    ensures
        r == makes_row(*e, stream@),
{
    if same(stream, "trades") {
        e.body.trade_view().is_some()
    } else if same(stream, "positions") {
        matches!(&e.body, MarketEvent::WhalePosition { .. })
    } else if same(stream, "macro") {
        matches!(&e.body, MarketEvent::MacroPoint { .. })
    } else if same(stream, "options") {
        matches!(
            &e.body,
            MarketEvent::OptionTrade { .. } | MarketEvent::OptionBook { .. }
                | MarketEvent::OptionTicker { .. }
        )
    } else {
        false
    }
}

/// How many rows the target's file gets.
fn target_rows(events: &Vec<EventEnvelope>, t: &CompactTarget) -> (n: u64)
    requires
        in_range(t.order@, events@.len()),
    ensures
        n == row_count(selected(events@, t.order@), t.stream@),
        n <= t.order@.len(),
{
    let ghost sel = selected(events@, t.order@);
    let mut n: u64 = 0;
    let mut i: usize = 0;
    let total: usize = t.order.len();
    assert(sel.take(0).len() == 0);
    while i < total
        invariant
            total == t.order@.len(),
            i <= total,
            in_range(t.order@, events@.len()),
            sel == selected(events@, t.order@),
            n == row_count(sel.take(i as int), t.stream@),
            n <= i,
        decreases total - i,
    {
        assert(sel.take(i + 1).drop_last() =~= sel.take(i as int));
        assert(sel.take(i + 1).last() == events@[t.order@[i as int] as int]);
        if event_makes_row(&events[t.order[i]], t.stream.as_str()) {
            n = n + 1;
        }
        i = i + 1;
    }
    assert(sel.take(i as int) =~= sel);
    n
}

/// Whether a target's file is left alone: it was made from the same source,
/// and rewriting is not forced.
pub open spec fn left_alone(
    existing: Option<String>,
    source_hash: Seq<char>,
    options: CompactOptions,
) -> bool {
    existing matches Some(h) && h@ == source_hash && !options.force
}

/// Files written, files left alone and rows written, of one stream.
pub struct Tally {
    pub written: nat,
    pub skipped: nat,
    pub rows: nat,
}

/// What compacting the targets comes to, for one stream.
pub open spec fn tally(
    targets: Seq<CompactTarget>,
    existing: Seq<Option<String>>,
    events: Seq<EventEnvelope>,
    source_hash: Seq<char>,
    options: CompactOptions,
    stream: Seq<char>,
) -> Tally
    decreases targets.len(),
{
    if targets.len() == 0 {
        Tally { written: 0, skipped: 0, rows: 0 }
    } else {
        let b = tally(targets.drop_last(), existing, events, source_hash, options, stream);
        let t = targets.last();
        if t.stream@ != stream {
            b
        } else if left_alone(existing[targets.len() - 1], source_hash, options) {
            Tally { skipped: b.skipped + 1, ..b }
        } else {
            Tally {
                written: b.written + 1,
                rows: b.rows + row_count(selected(events, t.order@), stream),
                ..b
            }
        }
    }
}

/// The statistics are the tallies of the four streams.
pub open spec fn tallied(
    s: CompactStats,
    targets: Seq<CompactTarget>,
    existing: Seq<Option<String>>,
    events: Seq<EventEnvelope>,
    source_hash: Seq<char>,
    options: CompactOptions,
) -> bool {
    let t = tally(targets, existing, events, source_hash, options, "trades"@);
    let p = tally(targets, existing, events, source_hash, options, "positions"@);
    let m = tally(targets, existing, events, source_hash, options, "macro"@);
    let o = tally(targets, existing, events, source_hash, options, "options"@);
    &&& s.trades_files_written == t.written && s.trades_files_skipped == t.skipped && s.trade_rows
        == t.rows
    &&& s.positions_files_written == p.written && s.positions_files_skipped == p.skipped
        && s.position_rows == p.rows
    &&& s.macro_files_written == m.written && s.macro_files_skipped == m.skipped && s.macro_rows
        == m.rows
    &&& s.options_files_written == o.written && s.options_files_skipped == o.skipped
        && s.option_rows == o.rows
}

/// The summed number of events of the targets.
pub open spec fn events_in(targets: Seq<CompactTarget>) -> nat
    decreases targets.len(),
{
    if targets.len() == 0 {
        0
    } else {
        events_in(targets.drop_last()) + targets.last().order@.len()
    }
}

proof fn lemma_events_in(targets: Seq<CompactTarget>, k: int)
    requires
        0 <= k <= targets.len(),
    ensures
        events_in(targets.take(k)) <= events_in(targets),
    decreases targets.len(),
{
    if k < targets.len() {
        assert(targets.drop_last().take(k) =~= targets.take(k));
        lemma_events_in(targets.drop_last(), k);
    } else {
        assert(targets.take(k) =~= targets);
    }
}

proof fn lemma_tally_bounds(
    targets: Seq<CompactTarget>,
    existing: Seq<Option<String>>,
    events: Seq<EventEnvelope>,
    source_hash: Seq<char>,
    options: CompactOptions,
    stream: Seq<char>,
)
    ensures
        ({
            let t = tally(targets, existing, events, source_hash, options, stream);
            t.written + t.skipped <= targets.len() && t.rows <= events_in(targets)
        }),
    decreases targets.len(),
{
    if targets.len() > 0 {
        lemma_tally_bounds(
            targets.drop_last(),
            existing,
            events,
            source_hash,
            options,
            stream,
        );
        lemma_row_count_bound(selected(events, targets.last().order@), stream);
    }
}

/// The trades among the events, with or without addresses.
pub open spec fn trade_count(events: Seq<EventEnvelope>) -> nat
    decreases events.len(),
{
    if events.len() == 0 {
        0
    } else {
        trade_count(events.drop_last()) + if events.last().body.as_trade() is Some {
            1nat
        } else {
            0
        }
    }
}

fn count_trades(events: &Vec<EventEnvelope>) -> (n: u64)
    ensures
        n == trade_count(events@),
{
    let mut n: u64 = 0;
    let mut i: usize = 0;
    let total: usize = events.len();
    assert(events@.take(0).len() == 0);
    while i < total
        invariant
            total == events@.len(),
            i <= total,
            n == trade_count(events@.take(i as int)),
            n <= i,
        decreases total - i,
    {
        assert(events@.take(i + 1).drop_last() =~= events@.take(i as int));
        if events[i].body.trade_view().is_some() {
            n = n + 1;
        }
        i = i + 1;
    }
    assert(events@.take(i as int) =~= events@);
    n
}

/// Whether a plan would write a hollow trades file: there are trades, a
/// trades file is written, and it gets no row.
pub open spec fn hollow(trades: nat, t: Tally) -> bool {
    trades > 0 && t.rows == 0 && t.written > 0
}

/// The refusal of a hollow trades file.
pub open spec fn hollow_text(venue: Venue, date: Seq<char>, trades: nat) -> Seq<char> {
    "LAB-5: "@ + venue_dir_of(venue) + "/"@ + date + ": raw log decoded "@ + dec(trades)
        + " trade(s) but compact wrote 0 trade rows — refusing zero-row parquet on non-empty raw"@
}

impl CompactStats {
    /// Nothing done.
    pub fn none() -> (s: CompactStats)
        ensures
            s.trades_files_written == 0 && s.trades_files_skipped == 0 && s.trade_rows == 0,
            s.positions_files_written == 0 && s.positions_files_skipped == 0 && s.position_rows
                == 0,
            s.macro_files_written == 0 && s.macro_files_skipped == 0 && s.macro_rows == 0,
            s.options_files_written == 0 && s.options_files_skipped == 0 && s.option_rows == 0,
    {
        CompactStats {
            trades_files_written: 0,
            trades_files_skipped: 0,
            trade_rows: 0,
            positions_files_written: 0,
            positions_files_skipped: 0,
            position_rows: 0,
            macro_files_written: 0,
            macro_files_skipped: 0,
            macro_rows: 0,
            options_files_written: 0,
            options_files_skipped: 0,
            option_rows: 0,
        }
    }
}

/// Which targets are written, given the source hash in the footer of each
/// file that is there. A file made from the same source is left alone unless
/// rewriting is forced; writing trades files without a single row although
/// trades were recorded is refused.
pub fn compact_day_opts(
    targets: &Vec<CompactTarget>,
    existing: &Vec<Option<String>>,
    events: &Vec<EventEnvelope>,
    venue: Venue,
    date: &str,
    source_hash: &str,
    options: CompactOptions,
) -> (r: Result<CompactPlan, StorageError>)
    requires
        existing@.len() == targets@.len(),
        events_in(targets@) <= u64::MAX,
        forall|i: int|
            0 <= i < targets@.len() ==> in_range((#[trigger] targets@[i]).order@, events@.len()),
    ensures
        ({
            let t = tally(targets@, existing@, events@, source_hash@, options, "trades"@);
            match r {
                Ok(plan) => !hollow(trade_count(events@), t) && plan.write@.len() == targets@.len()
                    && (forall|i: int|
                    0 <= i < targets@.len() ==> #[trigger] plan.write@[i] == !left_alone(
                        existing@[i],
                        source_hash@,
                        options,
                    )) && tallied(
                    plan.stats,
                    targets@,
                    existing@,
                    events@,
                    source_hash@,
                    options,
                ),
                Err(e) => hollow(trade_count(events@), t) && e.says() == Failure::Refused(
                    hollow_text(venue, date@, trade_count(events@)),
                ),
            }
        }),
{
    let mut stats = CompactStats::none();
    let mut write: Vec<bool> = Vec::new();
    let total: usize = targets.len();
    let mut i: usize = 0;
    assert(targets@.take(0).len() == 0);
    assert(tallied(stats, targets@.take(0), existing@, events@, source_hash@, options));
    while i < total
        invariant
            total == targets@.len(),
            i <= total,
            existing@.len() == targets@.len(),
            events_in(targets@) <= u64::MAX,
            forall|i: int|
                0 <= i < targets@.len() ==> in_range(
                    (#[trigger] targets@[i]).order@,
                    events@.len(),
                ),
            write@.len() == i,
            forall|k: int|
                0 <= k < i ==> #[trigger] write@[k] == !left_alone(
                    existing@[k],
                    source_hash@,
                    options,
                ),
            tallied(
                stats,
                targets@.take(i as int),
                existing@,
                events@,
                source_hash@,
                options,
            ),
        decreases total - i,
    {
        let t = &targets[i];
        let ghost next = targets@.take(i + 1);
        proof {
            assert(next.drop_last() =~= targets@.take(i as int));
            assert(next.last() == *t);
            lemma_events_in(targets@, i + 1);
            lemma_tally_bounds(next, existing@, events@, source_hash@, options, "trades"@);
            lemma_tally_bounds(next, existing@, events@, source_hash@, options, "positions"@);
            lemma_tally_bounds(next, existing@, events@, source_hash@, options, "macro"@);
            lemma_tally_bounds(next, existing@, events@, source_hash@, options, "options"@);
            reveal_stream_names();
        }
        let skip = match &existing[i] {
            Some(h) => same(h.as_str(), source_hash) && !options.force,
            None => false,
        };
        if skip {
            if same(t.stream.as_str(), "trades") {
                stats.trades_files_skipped = stats.trades_files_skipped + 1;
            } else if same(t.stream.as_str(), "positions") {
                stats.positions_files_skipped = stats.positions_files_skipped + 1;
            } else if same(t.stream.as_str(), "macro") {
                stats.macro_files_skipped = stats.macro_files_skipped + 1;
            } else if same(t.stream.as_str(), "options") {
                stats.options_files_skipped = stats.options_files_skipped + 1;
            }
        } else {
            let rows: u64 = target_rows(events, t);
            if same(t.stream.as_str(), "trades") {
                stats.trades_files_written = stats.trades_files_written + 1;
                stats.trade_rows = stats.trade_rows + rows;
            } else if same(t.stream.as_str(), "positions") {
                stats.positions_files_written = stats.positions_files_written + 1;
                stats.position_rows = stats.position_rows + rows;
            } else if same(t.stream.as_str(), "macro") {
                stats.macro_files_written = stats.macro_files_written + 1;
                stats.macro_rows = stats.macro_rows + rows;
            } else if same(t.stream.as_str(), "options") {
                stats.options_files_written = stats.options_files_written + 1;
                stats.option_rows = stats.option_rows + rows;
            }
        }
        write.push(!skip);
        i = i + 1;
    }
    assert(targets@.take(i as int) =~= targets@);
    let trades: u64 = count_trades(events);
    if trades > 0 && stats.trade_rows == 0 && stats.trades_files_written > 0 {
        let mut text = "LAB-5: ".to_owned();
        push_text(&mut text, venue_slug(venue));
        push_text(&mut text, "/");
        push_text(&mut text, date);
        push_text(&mut text, ": raw log decoded ");
        push_dec(&mut text, trades);
        push_text(
            &mut text,
            " trade(s) but compact wrote 0 trade rows — refusing zero-row parquet on non-empty raw",
        );
        return Err(StorageError::Refused(text));
    }
    Ok(CompactPlan { write, stats })
}

/// [`compact_day_opts`] with the usual options.
pub fn compact_day(
    targets: &Vec<CompactTarget>,
    existing: &Vec<Option<String>>,
    events: &Vec<EventEnvelope>,
    venue: Venue,
    date: &str,
    source_hash: &str,
) -> (r: Result<CompactPlan, StorageError>)
    requires
        existing@.len() == targets@.len(),
        events_in(targets@) <= u64::MAX,
        forall|i: int|
            0 <= i < targets@.len() ==> in_range((#[trigger] targets@[i]).order@, events@.len()),
    ensures
        ({
            let o = usual_options();
            let t = tally(targets@, existing@, events@, source_hash@, o, "trades"@);
            match r {
                Ok(plan) => !hollow(trade_count(events@), t) && plan.write@.len() == targets@.len()
                    && (forall|i: int|
                    0 <= i < targets@.len() ==> #[trigger] plan.write@[i] == !left_alone(
                        existing@[i],
                        source_hash@,
                        o,
                    )) && tallied(plan.stats, targets@, existing@, events@, source_hash@, o),
                Err(e) => hollow(trade_count(events@), t) && e.says() == Failure::Refused(
                    hollow_text(venue, date@, trade_count(events@)),
                ),
            }
        }),
{
    compact_day_opts(
        targets,
        existing,
        events,
        venue,
        date,
        source_hash,
        CompactOptions { force: false },
    )
}

// ---------------------------------------------------------------------------
// The audit gate
// ---------------------------------------------------------------------------

/// The codes of findings.
pub open spec fn codes_of(f: Seq<AuditFinding>) -> Seq<Seq<char>> {
    Seq::new(f.len(), |i: int| f[i].code@)
}

/// The refusal of a recording that is not clean.
pub open spec fn unclean_text(venue: Venue, date: Seq<char>, audit: RawLogAudit) -> Seq<char> {
    "audit not clean for "@ + venue_dir_of(venue) + "/"@ + date + ": "@ + join_with(
        codes_of(audit.findings@),
        ", "@,
    )
}

/// Lets only a clean recording through to compaction.
pub fn require_clean(audit: &RawLogAudit, venue: Venue, date: &str) -> (r: Result<(), StorageError>)
    ensures
        match r {
            Ok(_) => audit.clean_at(Real { bits: MIN_COVERAGE }),
            Err(e) => !audit.clean_at(Real { bits: MIN_COVERAGE }) && e.says() == Failure::Refused(
                unclean_text(venue, date@, *audit),
            ),
        },
{
    if audit.is_clean() {
        return Ok(());
    }
    let mut codes: Vec<String> = Vec::new();
    let mut i: usize = 0;
    while i < audit.findings.len()
        invariant
            i <= audit.findings@.len(),
            views(codes@) =~= codes_of(audit.findings@).take(i as int),
        decreases audit.findings@.len() - i,
    {
        let ghost before = codes@;
        codes.push(audit.findings[i].code.clone());
        assert(views(codes@) =~= views(before).push(audit.findings@[i as int].code@));
        i = i + 1;
    }
    assert(views(codes@) =~= codes_of(audit.findings@));
    let mut text = "audit not clean for ".to_owned();
    push_text(&mut text, venue_slug(venue));
    push_text(&mut text, "/");
    push_text(&mut text, date);
    push_text(&mut text, ": ");
    push_text(&mut text, join_texts(&codes, ", ").as_str());
    Err(StorageError::Refused(text))
}

/// Compacts only a recording whose audit is clean: a quarantined recording
/// never reaches the cold store.
pub fn compact_day_verified_opts(
    targets: &Vec<CompactTarget>,
    existing: &Vec<Option<String>>,
    events: &Vec<EventEnvelope>,
    venue: Venue,
    date: &str,
    source_hash: &str,
    audit: &RawLogAudit,
    options: CompactOptions,
) -> (r: Result<CompactPlan, StorageError>)
    requires
        existing@.len() == targets@.len(),
        events_in(targets@) <= u64::MAX,
        forall|i: int|
            0 <= i < targets@.len() ==> in_range((#[trigger] targets@[i]).order@, events@.len()),
    ensures
        ({
            let clean = audit.clean_at(Real { bits: MIN_COVERAGE });
            let t = tally(targets@, existing@, events@, source_hash@, options, "trades"@);
            match r {
                Ok(plan) => clean && !hollow(trade_count(events@), t) && plan.write@.len()
                    == targets@.len() && (forall|i: int|
                    0 <= i < targets@.len() ==> #[trigger] plan.write@[i] == !left_alone(
                        existing@[i],
                        source_hash@,
                        options,
                    )) && tallied(
                    plan.stats,
                    targets@,
                    existing@,
                    events@,
                    source_hash@,
                    options,
                ),
                Err(e) => if clean {
                    hollow(trade_count(events@), t) && e.says() == Failure::Refused(
                        hollow_text(venue, date@, trade_count(events@)),
                    )
                } else {
                    e.says() == Failure::Refused(unclean_text(venue, date@, *audit))
                },
            }
        }),
{
    match require_clean(audit, venue, date) {
        Ok(_) => compact_day_opts(
            targets,
            existing,
            events,
            venue,
            date,
            source_hash,
            options,
        ),
        Err(e) => Err(e),
    }
}

/// [`compact_day_verified_opts`] with the usual options.
pub fn compact_day_verified(
    targets: &Vec<CompactTarget>,
    existing: &Vec<Option<String>>,
    events: &Vec<EventEnvelope>,
    venue: Venue,
    date: &str,
    source_hash: &str,
    audit: &RawLogAudit,
) -> (r: Result<CompactPlan, StorageError>)
    requires
        existing@.len() == targets@.len(),
        events_in(targets@) <= u64::MAX,
        forall|i: int|
            0 <= i < targets@.len() ==> in_range((#[trigger] targets@[i]).order@, events@.len()),
    ensures
        ({
            let clean = audit.clean_at(Real { bits: MIN_COVERAGE });
            let o = usual_options();
            let t = tally(targets@, existing@, events@, source_hash@, o, "trades"@);
            match r {
                Ok(plan) => clean && !hollow(trade_count(events@), t) && plan.write@.len()
                    == targets@.len() && (forall|i: int|
                    0 <= i < targets@.len() ==> #[trigger] plan.write@[i] == !left_alone(
                        existing@[i],
                        source_hash@,
                        o,
                    )) && tallied(plan.stats, targets@, existing@, events@, source_hash@, o),
                Err(e) => if clean {
                    hollow(trade_count(events@), t) && e.says() == Failure::Refused(
                        hollow_text(venue, date@, trade_count(events@)),
                    )
                } else {
                    e.says() == Failure::Refused(unclean_text(venue, date@, *audit))
                },
            }
        }),
{
    compact_day_verified_opts(
        targets,
        existing,
        events,
        venue,
        date,
        source_hash,
        audit,
        CompactOptions { force: false },
    )
}

// ---------------------------------------------------------------------------
// The manifest
// ---------------------------------------------------------------------------

/// What a merged manifest lists: this run's streams, and those of the
/// existing manifest that this run did not see.
pub open spec fn merged_streams(
    fresh: Map<Seq<char>, StreamStats>,
    existing: Map<Seq<char>, StreamStats>,
) -> Map<Seq<char>, StreamStats> {
    existing.union_prefer_right(fresh)
}

/// Merges the streams of an existing manifest of the same venue and day into
/// this run's manifest. On a stream that both have, this run's entry stands.
pub fn merge_manifest(fresh: QualityManifest, existing: Option<QualityManifest>) -> (m:
    QualityManifest)
    requires
        fresh.streams.wf(),
        existing matches Some(e) ==> e.streams.wf(),
    ensures
        m.streams.wf(),
        m.streams.map() == match existing {
            Some(e) => if e.venue@ == fresh.venue@ && e.date@ == fresh.date@ {
                merged_streams(fresh.streams.map(), e.streams.map())
            } else {
                fresh.streams.map()
            },
            None => fresh.streams.map(),
        },
        m.venue == fresh.venue,
        m.date == fresh.date,
        m.schema_ver == fresh.schema_ver,
        m.day_start_ns == fresh.day_start_ns,
        m.day_end_ns == fresh.day_end_ns,
        m.compactor_version == fresh.compactor_version,
        m.created_ts_ns == fresh.created_ts_ns,
{
    let mut m = fresh;
    match existing {
        Some(e) => {
            if same(e.venue.as_str(), m.venue.as_str()) && same(e.date.as_str(), m.date.as_str()) {
                let ghost f0 = m.streams.map();
                let ghost old_entries = e.streams.entries@;
                let ghost e0 = e.streams.map();
                let entries = e.streams.entries;
                for item in it: entries
                    invariant
                        it.seq() == old_entries,
                        crate::ordered::increasing(old_entries),
                        e0 == crate::ordered::contents(old_entries),
                        m.streams.wf(),
                        forall|k: Seq<char>|
                            #![trigger m.streams.map().dom().contains(k)]
                            m.streams.map().dom().contains(k) <==> f0.dom().contains(k)
                                || listed_key(old_entries, it.index(), k),
                        forall|k: Seq<char>|
                            #![trigger m.streams.map()[k]]
                            m.streams.map().dom().contains(k) ==> m.streams.map()[k]
                                == if f0.dom().contains(k) {
                                f0[k]
                            } else {
                                e0[k]
                            },
                        m.venue == fresh.venue,
                        m.date == fresh.date,
                        m.schema_ver == fresh.schema_ver,
                        m.day_start_ns == fresh.day_start_ns,
                        m.day_end_ns == fresh.day_end_ns,
                        m.compactor_version == fresh.compactor_version,
                        m.created_ts_ns == fresh.created_ts_ns,
                {
                    let (key, stats) = item;
                    let ghost n = it.index();
                    let ghost kk = key@;
                    let ghost m0 = m.streams.map();
                    proof {
                        lemma_pos(old_entries, n);
                        assert(old_entries[n].0@ == kk);
                        assert forall|k: Seq<char>| #[trigger]
                            listed_key(old_entries, n + 1, k) <==> listed_key(old_entries, n, k)
                                || k == kk by {
                            if listed_key(old_entries, n + 1, k) {
                                let i = choose|i: int|
                                    0 <= i < n + 1 && (#[trigger] old_entries[i]).0@ == k;
                                if i < n {
                                    assert(old_entries[i].0@ == k);
                                }
                            }
                            if listed_key(old_entries, n, k) {
                                let i = choose|i: int|
                                    0 <= i < n && (#[trigger] old_entries[i]).0@ == k;
                                assert(old_entries[i].0@ == k);
                            }
                        }
                    }
                    match m.streams.find(&key) {
                        Ok(_) => {},
                        Err(i) => {
                            m.streams.put_at(i, key, stats);
                            assert(m.streams.map() == m0.insert(kk, stats));
                        },
                    }
                }
                proof {
                    let want = merged_streams(f0, e0);
                    let n = old_entries.len() as int;
                    assert forall|k: Seq<char>| #[trigger]
                        m.streams.map().dom().contains(k) <==> want.dom().contains(k) by {
                        if listed_key(old_entries, n, k) {
                            let i = choose|i: int|
                                0 <= i < n && (#[trigger] old_entries[i]).0@ == k;
                            lemma_pos(old_entries, i);
                        }
                        if e0.dom().contains(k) {
                            let i = crate::ordered::key_pos(old_entries, k);
                            assert(old_entries[i].0@ == k);
                        }
                    }
                    assert(m.streams.map() =~= want);
                }
            }
        },
        None => {},
    }
    m
}

/// Whether `k` is the key of one of the first `n` entries.
spec fn listed_key(entries: Seq<(String, StreamStats)>, n: int, k: Seq<char>) -> bool {
    exists|i: int| 0 <= i < n && (#[trigger] entries[i]).0@ == k
}

/// Compacting one symbol after another loses no stream: every stream of the
/// existing manifest is still listed, and this run's entries stand.
pub proof fn law_merge_keeps_streams(
    fresh: Map<Seq<char>, StreamStats>,
    existing: Map<Seq<char>, StreamStats>,
    k: Seq<char>,
)
    ensures
        existing.dom().contains(k) ==> merged_streams(fresh, existing).dom().contains(k),
        fresh.dom().contains(k) ==> merged_streams(fresh, existing).dom().contains(k)
            && merged_streams(fresh, existing)[k] == fresh[k],
        existing.dom().contains(k) && !fresh.dom().contains(k) ==> merged_streams(fresh, existing)[k]
            == existing[k],
{
}

/// Compacting again from the same source writes nothing.
pub proof fn law_recompaction_writes_nothing(
    targets: Seq<CompactTarget>,
    existing: Seq<Option<String>>,
    events: Seq<EventEnvelope>,
    source_hash: Seq<char>,
    stream: Seq<char>,
)
    requires
        forall|i: int|
            0 <= i < targets.len() ==> left_alone(
                #[trigger] existing[i],
                source_hash,
                usual_options(),
            ),
    ensures
        tally(targets, existing, events, source_hash, usual_options(), stream).written == 0,
        tally(targets, existing, events, source_hash, usual_options(), stream).rows == 0,
    decreases targets.len(),
{
    if targets.len() > 0 {
        law_recompaction_writes_nothing(
            targets.drop_last(),
            existing,
            events,
            source_hash,
            stream,
        );
        assert(left_alone(existing[targets.len() - 1], source_hash, usual_options()));
    }
}

/// The rows of a partition are in the order of time received, rows of one time
/// in that of their sequence numbers, and rows of one number in that of the
/// log.
pub proof fn law_rows_in_order(
    events: Seq<EventEnvelope>,
    stream: Seq<char>,
    sym: u32,
    order: Seq<usize>,
    i: int,
    j: int,
)
    requires
        is_write_order(events, stream, sym, order),
        0 <= i < j < order.len(),
    ensures
        order[i] != order[j],
        events[order[i] as int].recv_ts_ns <= events[order[j] as int].recv_ts_ns,
        events[order[i] as int].recv_ts_ns == events[order[j] as int].recv_ts_ns
            ==> events[order[i] as int].stream_seq <= events[order[j] as int].stream_seq,
        events[order[i] as int].recv_ts_ns == events[order[j] as int].recv_ts_ns
            && events[order[i] as int].stream_seq == events[order[j] as int].stream_seq ==> order[i]
            < order[j],
{
}

/// A partition has every event of its stream and symbol, and no other.
pub proof fn law_partition_is_complete(
    events: Seq<EventEnvelope>,
    stream: Seq<char>,
    sym: u32,
    order: Seq<usize>,
    p: usize,
)
    requires
        is_write_order(events, stream, sym, order),
    ensures
        order.contains(p) <==> p < events.len() && stream_of(events[p as int].body) == stream
            && events[p as int].symbol.0 == sym,
{
    if order.contains(p) {
        let i = order.index_of(p);
        assert(goes_to(events, order[i] as int, stream, sym));
    }
    if p < events.len() && stream_of(events[p as int].body) == stream
        && events[p as int].symbol.0 == sym {
        assert(goes_to(events, p as int, stream, sym));
        let i = choose|i: int| 0 <= i < order.len() && #[trigger] order[i] == p;
        assert(order[i] == p);
    }
}

/// A row stands for each trade with or without addresses, each whale
/// position, each macro point and each option event, in the file of its kind.
pub proof fn law_rows_counted(events: Seq<EventEnvelope>)
    ensures
        row_count(events, "trades"@) == events.filter(
            |e: EventEnvelope| e.body is Trade || e.body is TradeWithAddr,
        ).len(),
        row_count(events, "positions"@) == events.filter(
            |e: EventEnvelope| e.body is WhalePosition,
        ).len(),
        row_count(events, "macro"@) == events.filter(|e: EventEnvelope| e.body is MacroPoint).len(),
        row_count(events, "options"@) == events.filter(
            |e: EventEnvelope|
                e.body is OptionTrade || e.body is OptionBook || e.body is OptionTicker,
        ).len(),
        trade_count(events) == events.filter(
            |e: EventEnvelope| e.body is Trade || e.body is TradeWithAddr,
        ).len(),
    decreases events.len(),
{
    reveal(Seq::filter);
    reveal_stream_names();
    if events.len() > 0 {
        law_rows_counted(events.drop_last());
    }
}

/// A file is left alone exactly where it names the same source and nothing
/// forces the writing.
pub proof fn law_left_alone(existing: Option<String>, source_hash: Seq<char>, force: bool)
    ensures
        existing is None ==> !left_alone(existing, source_hash, CompactOptions { force }),
        force ==> !left_alone(existing, source_hash, CompactOptions { force }),
        existing is Some && !force ==> (left_alone(existing, source_hash, CompactOptions { force })
            <==> existing->0@ == source_hash),
{
}

/// Of the targets of a stream, those with the same source hash count as
/// skipped unless the writing is forced, and the others as written.
pub proof fn law_written_and_skipped(
    targets: Seq<CompactTarget>,
    existing: Seq<Option<String>>,
    events: Seq<EventEnvelope>,
    source_hash: Seq<char>,
    options: CompactOptions,
    stream: Seq<char>,
)
    ensures
        ({
            let t = tally(targets, existing, events, source_hash, options, stream);
            let at = Seq::new(targets.len(), |i: int| i);
            let same = |i: int|
                targets[i].stream@ == stream && !options.force && existing[i] is Some
                    && existing[i]->0@ == source_hash;
            let other = |i: int|
                targets[i].stream@ == stream && !(!options.force && existing[i] is Some
                    && existing[i]->0@ == source_hash);
            &&& t.skipped == at.filter(same).len()
            &&& t.written == at.filter(other).len()
        }),
{
    lemma_tally(
        targets,
        existing,
        events,
        source_hash,
        options,
        stream,
        targets.len() as int,
    );
    assert(targets.take(targets.len() as int) =~= targets);
}

proof fn lemma_tally(
    targets: Seq<CompactTarget>,
    existing: Seq<Option<String>>,
    events: Seq<EventEnvelope>,
    source_hash: Seq<char>,
    options: CompactOptions,
    stream: Seq<char>,
    n: int,
)
    requires
        0 <= n <= targets.len(),
    ensures
        ({
            let t = tally(targets.take(n), existing, events, source_hash, options, stream);
            let at = Seq::new(n as nat, |i: int| i);
            let same = |i: int|
                targets[i].stream@ == stream && !options.force && existing[i] is Some
                    && existing[i]->0@ == source_hash;
            let other = |i: int|
                targets[i].stream@ == stream && !(!options.force && existing[i] is Some
                    && existing[i]->0@ == source_hash);
            &&& t.skipped == at.filter(same).len()
            &&& t.written == at.filter(other).len()
        }),
    decreases n,
{
    reveal(Seq::filter);
    if n > 0 {
        lemma_tally(targets, existing, events, source_hash, options, stream, n - 1);
        assert(targets.take(n).drop_last() =~= targets.take(n - 1));
        assert(targets.take(n).last() == targets[n - 1]);
        let at = Seq::new(n as nat, |i: int| i);
        assert(at.drop_last() =~= Seq::new((n - 1) as nat, |i: int| i));
        assert(at.last() == n - 1);
    }
}

/// A written target adds its rows to those of its stream; a skipped one, or
/// one of another stream, adds none.
pub proof fn law_rows_of_a_target(
    targets: Seq<CompactTarget>,
    t: CompactTarget,
    existing: Seq<Option<String>>,
    events: Seq<EventEnvelope>,
    source_hash: Seq<char>,
    options: CompactOptions,
    stream: Seq<char>,
)
    ensures
        ({
            let a = tally(targets, existing, events, source_hash, options, stream);
            let b = tally(targets.push(t), existing, events, source_hash, options, stream);
            let e = existing[targets.len() as int];
            if t.stream@ == stream && (options.force || e is None || e->0@ != source_hash) {
                b.rows == a.rows + row_count(selected(events, t.order@), stream)
            } else {
                b.rows == a.rows
            }
        }),
{
    assert(targets.push(t).drop_last() =~= targets);
}

/// A compaction is hollow exactly where the log has trades and files were
/// written, but none of them has a row.
pub proof fn law_hollow(trades: nat, t: Tally)
    ensures
        hollow(trades, t) <==> trades > 0 && t.written > 0 && !(t.rows > 0),
{
}

/// A target is a partition of one stream and symbol that has events, at the
/// path of its day.
pub proof fn law_targets(
    targets: Seq<CompactTarget>,
    events: Seq<EventEnvelope>,
    symbols: Seq<SymbolMeta>,
    root: Seq<char>,
    venue: Venue,
    date: Seq<char>,
    i: int,
)
    requires
        are_targets(targets, events, symbols, root, venue, date),
        0 <= i < targets.len(),
    ensures
        has_partition(targets[i].stream@),
        targets[i].order@.len() > 0,
        targets[i].path@ == partition_path(root, targets[i].stream@, venue, targets[i].symbol@, date),
        targets[i].symbol_id < symbols.len() ==> targets[i].symbol@
            == symbols[targets[i].symbol_id as int].venue_symbol@,
{
    let t = targets[i];
    assert(is_target(t, events, symbols, root, venue, date));
    let p = choose|p: int| goes_to(events, p, t.stream@, t.symbol_id);
    assert(listed(t.order@, p));
}

/// Each event of a stream with partitions goes to a target.
pub proof fn law_event_has_a_target(
    targets: Seq<CompactTarget>,
    events: Seq<EventEnvelope>,
    symbols: Seq<SymbolMeta>,
    root: Seq<char>,
    venue: Venue,
    date: Seq<char>,
    p: int,
)
    requires
        are_targets(targets, events, symbols, root, venue, date),
        0 <= p < events.len(),
        has_partition(stream_of(events[p].body)),
    ensures
        exists|i: int|
            0 <= i < targets.len() && (#[trigger] targets[i]).stream@ == stream_of(events[p].body)
                && targets[i].symbol_id == events[p].symbol.0,
{
    let s = stream_of(events[p].body);
    let k = events[p].symbol.0;
    assert(goes_to(events, p, s, k));
    assert(any_goes_to(events, s, k));
    assert(has_target(targets, s, k));
}

/// The statistics give each stream its own counts.
pub proof fn law_statistics(
    s: CompactStats,
    targets: Seq<CompactTarget>,
    existing: Seq<Option<String>>,
    events: Seq<EventEnvelope>,
    source_hash: Seq<char>,
    options: CompactOptions,
)
    requires
        tallied(s, targets, existing, events, source_hash, options),
    ensures
        ({
            let t = tally(targets, existing, events, source_hash, options, "trades"@);
            s.trades_files_written == t.written && s.trades_files_skipped == t.skipped
                && s.trade_rows == t.rows
        }),
        ({
            let t = tally(targets, existing, events, source_hash, options, "positions"@);
            s.positions_files_written == t.written && s.positions_files_skipped == t.skipped
                && s.position_rows == t.rows
        }),
        ({
            let t = tally(targets, existing, events, source_hash, options, "macro"@);
            s.macro_files_written == t.written && s.macro_files_skipped == t.skipped && s.macro_rows
                == t.rows
        }),
        ({
            let t = tally(targets, existing, events, source_hash, options, "options"@);
            s.options_files_written == t.written && s.options_files_skipped == t.skipped
                && s.option_rows == t.rows
        }),
{
}

} // verus!
