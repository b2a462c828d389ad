//! Quality manifests: per stream and day, how much was recorded and where
//! recording has gaps.
use vstd::prelude::*;
use crate::event::{EventEnvelope, MarketEvent, SnapshotReason, StatusKind, SymbolMeta};
use crate::layout::{stream_of, stream_type_name};
use crate::measure::{merged_duration, union_len};
use crate::number::Real;
use crate::ordered::{lemma_pos, Key, Pair, SortedMap};
use crate::text::{contains, contains_text, dec, push_dec, push_text, same};

verus! {

/// Why a span of time is not covered.
#[derive(Clone, Copy, Debug, PartialEq, Eq, Structural)]
pub enum GapKind {
    /// The connection was down.
    Disconnect,
    /// The recorder fell behind.
    Overrun,
    /// The venue's own sequence has a hole.
    Venue,
}

/// A half-open uncovered interval.
#[derive(Clone, Copy, Debug, PartialEq, Eq, Structural)]
pub struct Gap {
    pub from_ns: i64,
    pub to_ns: i64,
    pub kind: GapKind,
}

/// The quality of one stream.
#[derive(Debug)]
pub struct StreamStats {
    pub events: u64,
    pub first_ts_ns: i64,
    pub last_ts_ns: i64,
    pub gaps: Vec<Gap>,
    /// Share of the day outside the gaps.
    pub coverage: Real,
    /// The venue samples this stream.
    pub sampled: bool,
}

/// The quality of one venue's day.
pub struct QualityManifest {
    pub venue: String,
    pub date: String,
    pub schema_ver: u16,
    pub day_start_ns: i64,
    pub day_end_ns: i64,
    pub streams: SortedMap<String, StreamStats>,
    pub compactor_version: String,
    pub created_ts_ns: i64,
}

impl QualityManifest {
    /// The coverage of a stream (such as `trades:BTCUSDT`), if it is listed.
    pub fn coverage(&self, stream_key: &str) -> (r: Option<Real>)
        requires
            self.streams.wf(),
        ensures
            r == if self.streams.map().dom().contains(stream_key@) {
                Some(self.streams.map()[stream_key@].coverage)
            } else {
                None
            },
    {
        match self.streams.get(&stream_key.to_owned()) {
            Some(s) => Some(s.coverage),
            None => None,
        }
    }

    /// The gaps of a stream; none if it is not listed.
    pub fn gaps(&self, stream_key: &str) -> (r: Vec<Gap>)
        requires
            self.streams.wf(),
        ensures
            r@ == if self.streams.map().dom().contains(stream_key@) {
                self.streams.map()[stream_key@].gaps@
            } else {
                Seq::empty()
            },
    {
        match self.streams.get(&stream_key.to_owned()) {
            Some(s) => copy_gaps(&s.gaps),
            None => Vec::new(),
        }
    }
}

/// A copy of a list of gaps.
pub fn copy_gaps(v: &Vec<Gap>) -> (r: Vec<Gap>)
    ensures
        r@ == v@,
{
    let mut r: Vec<Gap> = Vec::new();
    let mut i: usize = 0;
    while i < v.len()
        invariant
            i <= v@.len(),
            r@ =~= v@.take(i as int),
        decreases v@.len() - i,
    {
        r.push(v[i]);
        i = i + 1;
    }
    assert(v@.take(i as int) =~= v@);
    r
}

// ---------------------------------------------------------------------------
// What a stream recorded
// ---------------------------------------------------------------------------

/// Number of events of a stream and their first and last receive time.
#[derive(Clone, Copy, Debug, PartialEq, Eq, Structural)]
pub struct StreamAcc {
    pub events: u64,
    pub first: i64,
    pub last: i64,
}

/// Whether the event counts for the stream `name` of symbol `sym`. Status
/// reports count for none.
pub open spec fn counts_for(e: EventEnvelope, name: Seq<char>, sym: u32) -> bool {
    !(e.body is Status) && stream_of(e.body) == name && e.symbol.0 == sym
}

/// `a` with one more event at `ts`.
pub open spec fn bumped(a: Option<StreamAcc>, ts: i64) -> StreamAcc {
    match a {
        None => StreamAcc { events: 1, first: ts, last: ts },
        Some(a) => StreamAcc {
            events: (a.events + 1) as u64,
            first: if ts < a.first {
                ts
            } else {
                a.first
            },
            last: if ts > a.last {
                ts
            } else {
                a.last
            },
        },
    }
}

/// What the stream `name` of symbol `sym` recorded; `None` for nothing.
pub open spec fn recorded_of(events: Seq<EventEnvelope>, name: Seq<char>, sym: u32) -> Option<
    StreamAcc,
>
    decreases events.len(),
{
    if events.len() == 0 {
        None
    } else {
        let before = recorded_of(events.drop_last(), name, sym);
        if counts_for(events.last(), name, sym) {
            Some(bumped(before, events.last().recv_ts_ns))
        } else {
            before
        }
    }
}

/// Adds one event at `ts` to the stream `name` of symbol `sym`.
fn bump(streams: &mut SortedMap<Pair<String, u32>, StreamAcc>, name: &str, sym: u32, ts: i64)
    requires
        old(streams).wf(),
        old(streams).map().dom().contains((name@, sym)) ==> old(streams).map()[(name@, sym)].events
            < u64::MAX,
    ensures
        final(streams).wf(),
        final(streams).map() == old(streams).map().insert(
            (name@, sym),
            bumped(
                if old(streams).map().dom().contains((name@, sym)) {
                    Some(old(streams).map()[(name@, sym)])
                } else {
                    None
                },
                ts,
            ),
        ),
{
    let key = Pair { a: name.to_owned(), b: sym };
    assert(key.id() == (name@, sym));
    match streams.find(&key) {
        Ok(i) => {
            let a: StreamAcc = streams.entries[i].1;
            let first: i64 = if ts < a.first {
                ts
            } else {
                a.first
            };
            let last: i64 = if ts > a.last {
                ts
            } else {
                a.last
            };
            streams.replace_at(i, key, StreamAcc { events: a.events + 1, first, last });
        },
        Err(i) => {
            streams.put_at(i, key, StreamAcc { events: 1, first: ts, last: ts });
        },
    }
}

/// `streams` holds what each stream recorded, and nothing else.
pub open spec fn holds_streams(
    streams: SortedMap<Pair<String, u32>, StreamAcc>,
    events: Seq<EventEnvelope>,
) -> bool {
    &&& streams.wf()
    &&& forall|k: (Seq<char>, u32)|
        #![trigger streams.map().dom().contains(k)]
        #![trigger recorded_of(events, k.0, k.1)]
        recorded_of(events, k.0, k.1) == if streams.map().dom().contains(k) {
            Some(streams.map()[k])
        } else {
            None
        }
}

proof fn lemma_recorded_bound(events: Seq<EventEnvelope>, name: Seq<char>, sym: u32)
    requires
        events.len() <= u64::MAX,
    ensures
        recorded_of(events, name, sym) matches Some(a) ==> a.events <= events.len(),
    decreases events.len(),
{
    if events.len() > 0 {
        lemma_recorded_bound(events.drop_last(), name, sym);
    }
}

/// What each stream recorded.
fn stream_table(events: &Vec<EventEnvelope>) -> (streams: SortedMap<Pair<String, u32>, StreamAcc>)
    ensures
        holds_streams(streams, events@),
{
    let mut streams: SortedMap<Pair<String, u32>, StreamAcc> = SortedMap::new();
    let mut i: usize = 0;
    let total: usize = events.len();
    while i < total
        invariant
            i <= total,
            total == events@.len(),
            holds_streams(streams, events@.take(i as int)),
        decreases total - i,
    {
        let e = &events[i];
        let ghost prev = events@.take(i as int);
        let ghost next = events@.take(i + 1);
        let ghost m0 = streams.map();
        assert(next.drop_last() =~= prev);
        assert(next.last() == *e);
        match &e.body {
            MarketEvent::Status { .. } => {
                assert forall|k: (Seq<char>, u32)| #[trigger]
                    recorded_of(next, k.0, k.1) == recorded_of(prev, k.0, k.1) by {}
            },
            body => {
                let name = stream_type_name(body);
                let ghost key = (name@, e.symbol.0);
                proof {
                    lemma_recorded_bound(prev, name@, e.symbol.0);
                    assert(recorded_of(prev, key.0, key.1) == if m0.dom().contains(key) {
                        Some(m0[key])
                    } else {
                        None
                    });
                }
                bump(&mut streams, name, e.symbol.0, e.recv_ts_ns);
                assert forall|k: (Seq<char>, u32)|
                    #![trigger streams.map().dom().contains(k)]
                    #![trigger recorded_of(next, k.0, k.1)]
                    recorded_of(next, k.0, k.1) == if streams.map().dom().contains(k) {
                        Some(streams.map()[k])
                    } else {
                        None
                    } by {
                    assert(counts_for(*e, k.0, k.1) <==> k == key);
                    assert(recorded_of(prev, k.0, k.1) == if m0.dom().contains(k) {
                        Some(m0[k])
                    } else {
                        None
                    });
                }
            },
        }
        i = i + 1;
    }
    assert(events@.take(i as int) =~= events@);
    streams
}

// ---------------------------------------------------------------------------
// Gaps
// ---------------------------------------------------------------------------

/// An open interval, and the gaps closed so far.
pub struct GapTrack {
    pub open: Option<(i64, GapKind)>,
    pub closed: Seq<Gap>,
}

/// What an event does to the gaps of a symbol.
pub enum GapMark {
    Opens(GapKind),
    Closes,
    Nothing,
}

/// Losing the connection opens a gap, regaining it closes it.
pub open spec fn connection_mark(e: EventEnvelope, sym: u32) -> GapMark {
    if e.symbol.0 != sym {
        GapMark::Nothing
    } else {
        match e.body {
            MarketEvent::Status { kind: StatusKind::Disconnected, .. } => GapMark::Opens(
                GapKind::Disconnect,
            ),
            MarketEvent::Status { kind: StatusKind::Connected, .. } => GapMark::Closes,
            _ => GapMark::Nothing,
        }
    }
}

/// A detected hole opens a gap, a resynchronising snapshot closes it. The
/// report's text tells an overrun of the recorder from a hole at the venue.
pub open spec fn sequence_mark(e: EventEnvelope, sym: u32) -> GapMark {
    if e.symbol.0 != sym {
        GapMark::Nothing
    } else {
        match e.body {
            MarketEvent::Status { kind: StatusKind::GapDetected, detail } => GapMark::Opens(
                if contains(detail@, "overrun"@) {
                    GapKind::Overrun
                } else {
                    GapKind::Venue
                },
            ),
            MarketEvent::BookSnapshot { reason: SnapshotReason::GapResync, .. } => GapMark::Closes,
            _ => GapMark::Nothing,
        }
    }
}

/// Opening while open changes nothing; closing ends the open interval.
pub open spec fn marked(t: GapTrack, m: GapMark, ts: i64) -> GapTrack {
    match m {
        GapMark::Opens(kind) => if t.open is Some {
            t
        } else {
            GapTrack { open: Some((ts, kind)), closed: t.closed }
        },
        GapMark::Closes => match t.open {
            Some((from, kind)) => GapTrack {
                open: None,
                closed: t.closed.push(Gap { from_ns: from, to_ns: ts, kind }),
            },
            None => t,
        },
        GapMark::Nothing => t,
    }
}

/// The connection gaps of a symbol.
pub open spec fn connection_track(events: Seq<EventEnvelope>, sym: u32) -> GapTrack
    decreases events.len(),
{
    if events.len() == 0 {
        GapTrack { open: None, closed: Seq::empty() }
    } else {
        marked(
            connection_track(events.drop_last(), sym),
            connection_mark(events.last(), sym),
            events.last().recv_ts_ns,
        )
    }
}

/// The sequence gaps of a symbol.
pub open spec fn sequence_track(events: Seq<EventEnvelope>, sym: u32) -> GapTrack
    decreases events.len(),
{
    if events.len() == 0 {
        GapTrack { open: None, closed: Seq::empty() }
    } else {
        marked(
            sequence_track(events.drop_last(), sym),
            sequence_mark(events.last(), sym),
            events.last().recv_ts_ns,
        )
    }
}

/// The closed gaps, and the open one closed at the day's end.
pub open spec fn closed_at(t: GapTrack, day_end: i64) -> Seq<Gap> {
    match t.open {
        Some((from, kind)) => t.closed.push(Gap { from_ns: from, to_ns: day_end, kind }),
        None => t.closed,
    }
}

/// The gaps of the stream `name` of symbol `sym`: connection gaps lie over
/// every stream, sequence gaps over book deltas only.
pub open spec fn stream_gaps(
    events: Seq<EventEnvelope>,
    name: Seq<char>,
    sym: u32,
    day_end: i64,
) -> Seq<Gap> {
    closed_at(connection_track(events, sym), day_end) + if name == "book_deltas"@ {
        closed_at(sequence_track(events, sym), day_end)
    } else {
        Seq::empty()
    }
}

/// The connection gaps of a symbol.
fn connection_gaps(events: &Vec<EventEnvelope>, sym: u32, day_end: i64) -> (r: Vec<Gap>)
    ensures
        r@ == closed_at(connection_track(events@, sym), day_end),
{
    let mut closed: Vec<Gap> = Vec::new();
    let mut open: Option<i64> = None;
    let mut i: usize = 0;
    while i < events.len()
        invariant
            i <= events@.len(),
            closed@ =~= connection_track(events@.take(i as int), sym).closed,
            connection_track(events@.take(i as int), sym).open == match open {
                Some(from) => Some((from, GapKind::Disconnect)),
                None => None,
            },
        decreases events@.len() - i,
    {
        let e = &events[i];
        assert(events@.take(i + 1).drop_last() =~= events@.take(i as int));
        assert(events@.take(i + 1).last() == *e);
        if e.symbol.0 == sym {
            match &e.body {
                MarketEvent::Status { kind: StatusKind::Disconnected, .. } => {
                    if open.is_none() {
                        open = Some(e.recv_ts_ns);
                    }
                },
                MarketEvent::Status { kind: StatusKind::Connected, .. } => {
                    if let Some(from) = open {
                        closed.push(
                            Gap { from_ns: from, to_ns: e.recv_ts_ns, kind: GapKind::Disconnect },
                        );
                        open = None;
                    }
                },
                _ => {},
            }
        }
        i = i + 1;
    }
    assert(events@.take(i as int) =~= events@);
    if let Some(from) = open {
        closed.push(Gap { from_ns: from, to_ns: day_end, kind: GapKind::Disconnect });
    }
    closed
}

/// The sequence gaps of a symbol.
fn sequence_gaps(events: &Vec<EventEnvelope>, sym: u32, day_end: i64) -> (r: Vec<Gap>)
    ensures
        r@ == closed_at(sequence_track(events@, sym), day_end),
{
    let mut closed: Vec<Gap> = Vec::new();
    let mut open: Option<(i64, GapKind)> = None;
    let mut i: usize = 0;
    while i < events.len()
        invariant
            i <= events@.len(),
            closed@ =~= sequence_track(events@.take(i as int), sym).closed,
            sequence_track(events@.take(i as int), sym).open == open,
        decreases events@.len() - i,
    {
        let e = &events[i];
        assert(events@.take(i + 1).drop_last() =~= events@.take(i as int));
        assert(events@.take(i + 1).last() == *e);
        if e.symbol.0 == sym {
            match &e.body {
                MarketEvent::Status { kind: StatusKind::GapDetected, detail } => {
                    if open.is_none() {
                        let kind = if contains_text(detail.as_str(), "overrun") {
                            GapKind::Overrun
                        } else {
                            GapKind::Venue
                        };
                        open = Some((e.recv_ts_ns, kind));
                    }
                },
                MarketEvent::BookSnapshot { reason: SnapshotReason::GapResync, .. } => {
                    if let Some((from, kind)) = open {
                        closed.push(Gap { from_ns: from, to_ns: e.recv_ts_ns, kind });
                        open = None;
                    }
                },
                _ => {},
            }
        }
        i = i + 1;
    }
    assert(events@.take(i as int) =~= events@);
    if let Some((from, kind)) = open {
        closed.push(Gap { from_ns: from, to_ns: day_end, kind });
    }
    closed
}

/// The intervals of gaps.
pub open spec fn gap_intervals(gaps: Seq<Gap>) -> Seq<(i64, i64)> {
    Seq::new(gaps.len(), |i: int| (gaps[i].from_ns, gaps[i].to_ns))
}

// ---------------------------------------------------------------------------
// The day
// ---------------------------------------------------------------------------

/// What is known of a stream before its coverage is computed.
#[derive(Debug)]
pub struct StreamQuality {
    pub events: u64,
    pub first_ts_ns: i64,
    pub last_ts_ns: i64,
    pub gaps: Vec<Gap>,
    /// Nanoseconds of the day inside gaps.
    pub uncovered_ns: i64,
}

/// What a stream's quality says.
pub struct QualityView {
    pub acc: StreamAcc,
    pub gaps: Seq<Gap>,
    pub uncovered: int,
}

impl StreamQuality {
    pub open spec fn says(self) -> QualityView {
        QualityView {
            acc: StreamAcc {
                events: self.events,
                first: self.first_ts_ns,
                last: self.last_ts_ns,
            },
            gaps: self.gaps@,
            uncovered: self.uncovered_ns as int,
        }
    }
}

/// The quality of the stream `key`, which recorded something.
pub open spec fn quality_of(
    events: Seq<EventEnvelope>,
    key: (Seq<char>, u32),
    day_start: i64,
    day_end: i64,
) -> QualityView {
    let gaps = stream_gaps(events, key.0, key.1, day_end);
    QualityView {
        acc: recorded_of(events, key.0, key.1)->0,
        gaps,
        uncovered: union_len(gap_intervals(gaps), day_start as int, day_end as int),
    }
}

/// The venue's name for a symbol; `sym{id}` when the table does not have it.
pub open spec fn symbol_name_of(symbols: Seq<SymbolMeta>, id: u32) -> Seq<char> {
    if id < symbols.len() {
        symbols[id as int].venue_symbol@
    } else {
        "sym"@ + dec(id as nat)
    }
}

/// The venue's name for a symbol; `sym{id}` when the table does not have it.
pub fn symbol_name(symbols: &Vec<SymbolMeta>, id: u32) -> (s: String)
    ensures
        s@ == symbol_name_of(symbols@, id),
{
    if (id as usize) < symbols.len() {
        symbols[id as usize].venue_symbol.clone()
    } else {
        let mut s = "sym".to_owned();
        push_dec(&mut s, id as u64);
        s
    }
}

/// `{stream}:{symbol}`.
pub open spec fn stream_key(symbols: Seq<SymbolMeta>, key: (Seq<char>, u32)) -> Seq<char> {
    key.0 + ":"@ + symbol_name_of(symbols, key.1)
}

/// Strictly increasing stream keys, by name and then symbol.
pub open spec fn keys_in_order(keys: Seq<(Seq<char>, u32)>) -> bool {
    forall|i: int, j: int|
        0 <= i < j < keys.len() ==> <Pair<String, u32> as Key>::precedes(
            #[trigger] keys[i],
            #[trigger] keys[j],
        )
}

/// `keys` are the streams that recorded something, in order.
pub open spec fn recorded_keys(events: Seq<EventEnvelope>, keys: Seq<(Seq<char>, u32)>) -> bool {
    &&& keys_in_order(keys)
    &&& forall|k: (Seq<char>, u32)| #[trigger]
        keys.contains(k) <==> recorded_of(events, k.0, k.1) is Some
}

/// The qualities of the streams `keys` under their names; of two streams of
/// one name the later stands.
pub open spec fn named_qualities(
    events: Seq<EventEnvelope>,
    symbols: Seq<SymbolMeta>,
    keys: Seq<(Seq<char>, u32)>,
    day_start: i64,
    day_end: i64,
) -> Map<Seq<char>, QualityView>
    decreases keys.len(),
{
    if keys.len() == 0 {
        Map::empty()
    } else {
        named_qualities(events, symbols, keys.drop_last(), day_start, day_end).insert(
            stream_key(symbols, keys.last()),
            quality_of(events, keys.last(), day_start, day_end),
        )
    }
}

/// What a map of qualities says.
pub open spec fn quality_views(m: Map<Seq<char>, StreamQuality>) -> Map<Seq<char>, QualityView> {
    m.map_values(|q: StreamQuality| q.says())
}

/// `streams` are the qualities of the day's streams.
pub open spec fn day_streams(
    streams: SortedMap<String, StreamQuality>,
    events: Seq<EventEnvelope>,
    symbols: Seq<SymbolMeta>,
    day_start: i64,
    day_end: i64,
) -> bool {
    &&& streams.wf()
    &&& exists|keys: Seq<(Seq<char>, u32)>| #[trigger]
        recorded_keys(events, keys) && quality_views(streams.map()) == named_qualities(
            events,
            symbols,
            keys,
            day_start,
            day_end,
        )
}

/// The quality of one stream.
fn stream_quality(
    events: &Vec<EventEnvelope>,
    name: &str,
    sym: u32,
    acc: StreamAcc,
    day_start_ns: i64,
    day_end_ns: i64,
) -> (q: StreamQuality)
    requires
        recorded_of(events@, name@, sym) == Some(acc),
        day_end_ns - day_start_ns <= i64::MAX,
    ensures
        q.says() == quality_of(events@, (name@, sym), day_start_ns, day_end_ns),
{
    let mut gaps = connection_gaps(events, sym, day_end_ns);
    let ghost c = gaps@;
    if same(name, "book_deltas") {
        let mut seq = sequence_gaps(events, sym, day_end_ns);
        gaps.append(&mut seq);
    }
    assert(gaps@ =~= stream_gaps(events@, name@, sym, day_end_ns));
    let mut intervals: Vec<(i64, i64)> = Vec::new();
    let mut i: usize = 0;
    while i < gaps.len()
        invariant
            i <= gaps@.len(),
            intervals@ =~= gap_intervals(gaps@).take(i as int),
        decreases gaps@.len() - i,
    {
        intervals.push((gaps[i].from_ns, gaps[i].to_ns));
        i = i + 1;
    }
    assert(intervals@ =~= gap_intervals(gaps@));
    let uncovered_ns: i64 = merged_duration(&intervals, day_start_ns, day_end_ns);
    StreamQuality {
        events: acc.events,
        first_ts_ns: acc.first,
        last_ts_ns: acc.last,
        gaps,
        uncovered_ns,
    }
}

/// The qualities of the day's streams.
///
/// Losing the connection opens a gap over all of the symbol's streams until
/// it is regained; a detected hole opens one over its book deltas until the
/// next resynchronising snapshot; what is open at the day's end closes there.
pub fn derive_streams(
    events: &Vec<EventEnvelope>,
    symbols: &Vec<SymbolMeta>,
    day_start_ns: i64,
    day_end_ns: i64,
) -> (streams: SortedMap<String, StreamQuality>)
    requires
        day_end_ns - day_start_ns <= i64::MAX,
    ensures
        day_streams(streams, events@, symbols@, day_start_ns, day_end_ns),
{
    let table = stream_table(events);
    let ghost keys = Seq::new(table.entries@.len(), |i: int| table.entries@[i].0.id());
    proof {
        assert forall|k: (Seq<char>, u32)| #[trigger] keys.contains(k) <==> recorded_of(
            events@,
            k.0,
            k.1,
        ) is Some by {
            if keys.contains(k) {
                let i = choose|i: int| 0 <= i < keys.len() && keys[i] == k;
                lemma_pos(table.entries@, i);
                assert(table.map().dom().contains(k));
            }
            if table.map().dom().contains(k) {
                let i = crate::ordered::key_pos(table.entries@, k);
                assert(keys[i] == k);
            }
        }
        assert forall|i: int, j: int| 0 <= i < j < keys.len() implies <Pair<
            String,
            u32,
        > as Key>::precedes(#[trigger] keys[i], #[trigger] keys[j]) by {
            assert(<Pair<String, u32> as Key>::precedes(
                table.entries@[i].0.id(),
                table.entries@[j].0.id(),
            ));
        }
        assert(recorded_keys(events@, keys));
    }
    let mut streams: SortedMap<String, StreamQuality> = SortedMap::new();
    let mut i: usize = 0;
    assert(keys.take(0).len() == 0);
    assert(quality_views(streams.map()) =~= named_qualities(
        events@,
        symbols@,
        keys.take(0),
        day_start_ns,
        day_end_ns,
    ));
    while i < table.entries.len()
        invariant
            i <= table.entries@.len(),
            keys == Seq::new(table.entries@.len(), |i: int| table.entries@[i].0.id()),
            holds_streams(table, events@),
            day_end_ns - day_start_ns <= i64::MAX,
            streams.wf(),
            quality_views(streams.map()) == named_qualities(
                events@,
                symbols@,
                keys.take(i as int),
                day_start_ns,
                day_end_ns,
            ),
        decreases table.entries@.len() - i,
    {
        let entry = &table.entries[i];
        let ghost k = entry.0.id();
        proof {
            lemma_pos(table.entries@, i as int);
            assert(table.map().dom().contains(k));
            assert(recorded_of(events@, k.0, k.1) == Some(entry.1));
        }
        let q = stream_quality(
            events,
            entry.0.a.as_str(),
            entry.0.b,
            entry.1,
            day_start_ns,
            day_end_ns,
        );
        let mut key = entry.0.a.clone();
        push_text(&mut key, ":");
        push_text(&mut key, symbol_name(symbols, entry.0.b).as_str());
        assert(key@ =~= stream_key(symbols@, k));
        let ghost m0 = streams.map();
        streams.set(key, q);
        proof {
            assert(keys.take(i + 1).drop_last() =~= keys.take(i as int));
            assert(keys.take(i + 1).last() == k);
            assert(quality_views(streams.map()) =~= quality_views(m0).insert(key@, q.says()));
        }
        i = i + 1;
    }
    assert(keys.take(i as int) =~= keys);
    streams
}

/// The manifest of a day: the streams' qualities with their coverages, one
/// for each stream in order.
pub fn derive_manifest(
    venue: &str,
    date: &str,
    day_start_ns: i64,
    day_end_ns: i64,
    streams: &SortedMap<String, StreamQuality>,
    coverages: &Vec<Real>,
    schema_ver: u16,
    compactor_version: &str,
    created_ts_ns: i64,
) -> (m: QualityManifest)
    requires
        streams.wf(),
        coverages@.len() == streams.entries@.len(),
    ensures
        m.venue@ == venue@,
        m.date@ == date@,
        m.schema_ver == schema_ver,
        m.day_start_ns == day_start_ns,
        m.day_end_ns == day_end_ns,
        m.compactor_version@ == compactor_version@,
        m.created_ts_ns == created_ts_ns,
        m.streams.wf(),
        m.streams.entries@.len() == streams.entries@.len(),
        forall|i: int|
            0 <= i < streams.entries@.len() ==> is_stats_of(
                #[trigger] m.streams.entries@[i],
                streams.entries@[i],
                coverages@[i],
            ),
{
    let mut entries: Vec<(String, StreamStats)> = Vec::new();
    let mut i: usize = 0;
    while i < streams.entries.len()
        invariant
            i <= streams.entries@.len(),
            coverages@.len() == streams.entries@.len(),
            entries@.len() == i,
            forall|k: int|
                0 <= k < i ==> is_stats_of(
                    #[trigger] entries@[k],
                    streams.entries@[k],
                    coverages@[k],
                ),
        decreases streams.entries@.len() - i,
    {
        let e = &streams.entries[i];
        let stats = StreamStats {
            events: e.1.events,
            first_ts_ns: e.1.first_ts_ns,
            last_ts_ns: e.1.last_ts_ns,
            gaps: copy_gaps(&e.1.gaps),
            coverage: coverages[i],
            sampled: false,
        };
        entries.push((e.0.clone(), stats));
        i = i + 1;
    }
    let out = SortedMap { entries };
    proof {
        assert forall|a: int, b: int| 0 <= a < b < out.entries@.len() implies String::precedes(
            #[trigger] out.entries@[a].0.id(),
            #[trigger] out.entries@[b].0.id(),
        ) by {
            assert(is_stats_of(out.entries@[a], streams.entries@[a], coverages@[a]));
            assert(is_stats_of(out.entries@[b], streams.entries@[b], coverages@[b]));
            assert(String::precedes(streams.entries@[a].0.id(), streams.entries@[b].0.id()));
        }
    }
    QualityManifest {
        venue: venue.to_owned(),
        date: date.to_owned(),
        schema_ver,
        day_start_ns,
        day_end_ns,
        streams: out,
        compactor_version: compactor_version.to_owned(),
        created_ts_ns,
    }
}

/// A stream's entry in the manifest, from its quality and its coverage.
pub open spec fn is_stats_of(
    stats: (String, StreamStats),
    quality: (String, StreamQuality),
    coverage: Real,
) -> bool {
    &&& stats.0@ == quality.0@
    &&& stats.1.events == quality.1.events
    &&& stats.1.first_ts_ns == quality.1.first_ts_ns
    &&& stats.1.last_ts_ns == quality.1.last_ts_ns
    &&& stats.1.gaps@ == quality.1.gaps@
    &&& stats.1.coverage == coverage
    &&& !stats.1.sampled
}

/// The uncovered time of a stream never exceeds the day, so that a coverage
/// computed from it lies in the unit interval.
pub proof fn law_uncovered_within_day(
    events: Seq<EventEnvelope>,
    key: (Seq<char>, u32),
    day_start: i64,
    day_end: i64,
)
    requires
        day_start <= day_end,
    ensures
        0 <= quality_of(events, key, day_start, day_end).uncovered <= day_end - day_start,
{
    let gaps = gap_intervals(stream_gaps(events, key.0, key.1, day_end));
    crate::measure::lemma_count_bounds(
        |x: int| crate::measure::covered(gaps, x),
        day_start as int,
        day_end as int,
    );
}

/// A stream of a symbol that never lost its connection and never detected a
/// hole has no gap.
pub proof fn law_no_marks_no_gaps(
    events: Seq<EventEnvelope>,
    name: Seq<char>,
    sym: u32,
    day_end: i64,
)
    requires
        forall|i: int|
            0 <= i < events.len() ==> !(connection_mark(#[trigger] events[i], sym) is Opens) && !(
            sequence_mark(events[i], sym) is Opens),
    ensures
        stream_gaps(events, name, sym, day_end) == Seq::<Gap>::empty(),
    decreases events.len(),
{
    lemma_tracks_closed(events, sym);
    assert(stream_gaps(events, name, sym, day_end) =~= Seq::<Gap>::empty());
}

proof fn lemma_tracks_closed(events: Seq<EventEnvelope>, sym: u32)
    requires
        forall|i: int|
            0 <= i < events.len() ==> !(connection_mark(#[trigger] events[i], sym) is Opens) && !(
            sequence_mark(events[i], sym) is Opens),
    ensures
        connection_track(events, sym).open is None,
        connection_track(events, sym).closed.len() == 0,
        sequence_track(events, sym).open is None,
        sequence_track(events, sym).closed.len() == 0,
    decreases events.len(),
{
    if events.len() > 0 {
        assert forall|i: int| 0 <= i < events.drop_last().len() implies !(connection_mark(
            #[trigger] events.drop_last()[i],
            sym,
        ) is Opens) && !(sequence_mark(events.drop_last()[i], sym) is Opens) by {
            assert(events.drop_last()[i] == events[i]);
        }
        lemma_tracks_closed(events.drop_last(), sym);
        assert(events[events.len() - 1] == events.last());
    }
}

// ---------------------------------------------------------------------------
// What gaps mean
// ---------------------------------------------------------------------------

/// Marks with their times.
spec fn track_of(ms: Seq<(GapMark, i64)>) -> GapTrack
    decreases ms.len(),
{
    if ms.len() == 0 {
        GapTrack { open: None, closed: Seq::empty() }
    } else {
        marked(track_of(ms.drop_last()), ms.last().0, ms.last().1)
    }
}

/// The mark at `i` opens, and every mark that opens before it was closed before
/// it.
spec fn begins(ms: Seq<(GapMark, i64)>, i: int) -> bool {
    &&& 0 <= i < ms.len()
    &&& ms[i].0 is Opens
    &&& forall|k: int| 0 <= k < i && (#[trigger] ms[k]).0 is Opens ==> closes_between(ms, k, i)
}

/// A mark strictly between `a` and `b` closes.
spec fn closes_between(ms: Seq<(GapMark, i64)>, a: int, b: int) -> bool {
    exists|m: int| a < m < b && (#[trigger] ms[m]).0 is Closes
}

proof fn lemma_closes_front(ms: Seq<(GapMark, i64)>, a: int, b: int)
    requires
        0 <= a,
        b < ms.len(),
    ensures
        closes_between(ms, a, b) == closes_between(ms.drop_last(), a, b),
{
    let f = ms.drop_last();
    if closes_between(ms, a, b) {
        let m = choose|m: int| a < m < b && (#[trigger] ms[m]).0 is Closes;
        assert(f[m].0 is Closes);
    }
    if closes_between(f, a, b) {
        let m = choose|m: int| a < m < b && (#[trigger] f[m]).0 is Closes;
        assert(ms[m].0 is Closes);
    }
}

proof fn lemma_begins_front(ms: Seq<(GapMark, i64)>, i: int)
    requires
        0 <= i < ms.len() - 1,
    ensures
        begins(ms, i) == begins(ms.drop_last(), i),
{
    let f = ms.drop_last();
    assert(f[i] == ms[i]);
    assert forall|k: int| 0 <= k < i implies closes_between(ms, k, i) == #[trigger] closes_between(
        f,
        k,
        i,
    ) by {
        lemma_closes_front(ms, k, i);
    }
    if begins(ms, i) {
        assert forall|k: int| 0 <= k < i && (#[trigger] f[k]).0 is Opens implies closes_between(
            f,
            k,
            i,
        ) by {
            assert(ms[k] == f[k]);
            assert(closes_between(ms, k, i));
        }
    }
    if begins(f, i) {
        assert forall|k: int| 0 <= k < i && (#[trigger] ms[k]).0 is Opens implies closes_between(
            ms,
            k,
            i,
        ) by {
            assert(ms[k] == f[k]);
            assert(closes_between(f, k, i));
        }
    }
}

/// The open interval is that of the mark that began and was not closed.
proof fn lemma_open_from(ms: Seq<(GapMark, i64)>) -> (i: int)
    ensures
        track_of(ms).open matches Some(o) ==> begins(ms, i) && ms[i] == (GapMark::Opens(o.1), o.0)
            && !closes_between(ms, i, ms.len() as int),
        track_of(ms).open is None ==> forall|k: int|
            0 <= k < ms.len() && (#[trigger] ms[k]).0 is Opens ==> closes_between(
                ms,
                k,
                ms.len() as int,
            ),
    decreases ms.len(),
{
    if ms.len() == 0 {
        0
    } else {
        let f = ms.drop_last();
        let n = f.len() as int;
        let i = lemma_open_from(f);
        let t0 = track_of(f);
        let t = track_of(ms);
        assert(ms[n] == ms.last());
        if t0.open is Some {
            lemma_begins_front(ms, i);
            lemma_closes_front(ms, i, n);
            assert(f[i] == ms[i]);
            if t.open is Some {
                if closes_between(ms, i, n + 1) {
                    let m = choose|m: int| i < m < n + 1 && (#[trigger] ms[m]).0 is Closes;
                    assert(m < n);
                    assert(closes_between(ms, i, n));
                }
            } else {
                assert(ms[n].0 is Closes);
                assert forall|k: int| 0 <= k < ms.len() && (#[trigger] ms[k]).0 is Opens implies
                    closes_between(ms, k, n + 1) by {
                    assert(k < n);
                }
            }
            i
        } else {
            assert forall|k: int| 0 <= k < n && (#[trigger] ms[k]).0 is Opens implies
                closes_between(ms, k, n) by {
                assert(f[k] == ms[k]);
                assert(closes_between(f, k, n));
                lemma_closes_front(ms, k, n);
            }
            if ms[n].0 is Opens {
                assert(begins(ms, n));
                assert(!closes_between(ms, n, n + 1));
            } else {
                assert forall|k: int| 0 <= k < ms.len() && (#[trigger] ms[k]).0 is Opens implies
                    closes_between(ms, k, n + 1) by {
                    assert(closes_between(ms, k, n));
                    let m = choose|m: int| k < m < n && (#[trigger] ms[m]).0 is Closes;
                    assert(ms[m].0 is Closes);
                }
            }
            n
        }
    }
}

/// A mark that begins and is not closed is the open interval.
proof fn lemma_open_is(ms: Seq<(GapMark, i64)>, i: int)
    requires
        begins(ms, i),
        !closes_between(ms, i, ms.len() as int),
    ensures
        track_of(ms).open == Some((ms[i].1, ms[i].0->Opens_0)),
{
    let j = lemma_open_from(ms);
    if track_of(ms).open is None {
        assert(ms[i].0 is Opens);
    } else if i < j {
        assert(closes_between(ms, i, j));
        let m = choose|m: int| i < m < j && (#[trigger] ms[m]).0 is Closes;
        assert(closes_between(ms, i, ms.len() as int));
    } else if j < i {
        assert(closes_between(ms, j, i));
        let m = choose|m: int| j < m < i && (#[trigger] ms[m]).0 is Closes;
        assert(closes_between(ms, j, ms.len() as int));
    }
}

proof fn lemma_closed_is(ms: Seq<(GapMark, i64)>, i: int, j: int)
    requires
        begins(ms, i),
        i < j < ms.len(),
        ms[j].0 is Closes,
        !closes_between(ms, i, j),
    ensures
        track_of(ms).closed.contains(
            Gap { from_ns: ms[i].1, to_ns: ms[j].1, kind: ms[i].0->Opens_0 },
        ),
    decreases ms.len(),
{
    let f = ms.drop_last();
    let n = f.len() as int;
    let g = Gap { from_ns: ms[i].1, to_ns: ms[j].1, kind: ms[i].0->Opens_0 };
    let c = track_of(ms).closed;
    lemma_begins_front(ms, i);
    lemma_closes_front(ms, i, j);
    assert(f[i] == ms[i]);
    if j == n {
        lemma_open_is(f, i);
        assert(c[c.len() - 1] == g);
    } else {
        assert(f[j] == ms[j]);
        lemma_closed_is(f, i, j);
        let k = track_of(f).closed.index_of(g);
        assert(c[k] == g);
    }
}

/// Every closed gap runs from a mark that begins to the mark that closes it.
proof fn lemma_closed_from(ms: Seq<(GapMark, i64)>, k: int) -> (p: (int, int))
    requires
        0 <= k < track_of(ms).closed.len(),
    ensures
        begins(ms, p.0),
        p.0 < p.1 < ms.len(),
        ms[p.1].0 is Closes,
        !closes_between(ms, p.0, p.1),
        track_of(ms).closed[k] == (Gap {
            from_ns: ms[p.0].1,
            to_ns: ms[p.1].1,
            kind: ms[p.0].0->Opens_0,
        }),
    decreases ms.len(),
{
    let f = ms.drop_last();
    let n = f.len() as int;
    if k < track_of(f).closed.len() {
        let p = lemma_closed_from(f, k);
        lemma_begins_front(ms, p.0);
        lemma_closes_front(ms, p.0, p.1);
        assert(track_of(ms).closed[k] == track_of(f).closed[k]);
        p
    } else {
        let i = lemma_open_from(f);
        lemma_begins_front(ms, i);
        lemma_closes_front(ms, i, n);
        assert(ms[n] == ms.last());
        (i, n)
    }
}

/// The marks of a symbol's connection.
spec fn connection_marks(events: Seq<EventEnvelope>, sym: u32) -> Seq<(GapMark, i64)> {
    Seq::new(events.len(), |i: int| (connection_mark(events[i], sym), events[i].recv_ts_ns))
}

/// The marks of a symbol's sequence.
spec fn sequence_marks(events: Seq<EventEnvelope>, sym: u32) -> Seq<(GapMark, i64)> {
    Seq::new(events.len(), |i: int| (sequence_mark(events[i], sym), events[i].recv_ts_ns))
}

proof fn lemma_tracks(events: Seq<EventEnvelope>, sym: u32)
    ensures
        connection_track(events, sym) == track_of(connection_marks(events, sym)),
        sequence_track(events, sym) == track_of(sequence_marks(events, sym)),
    decreases events.len(),
{
    if events.len() > 0 {
        let f = events.drop_last();
        lemma_tracks(f, sym);
        assert(connection_marks(events, sym).drop_last() =~= connection_marks(f, sym));
        assert(sequence_marks(events, sym).drop_last() =~= sequence_marks(f, sym));
    }
}

/// The symbol's connection was reported lost.
pub open spec fn lost(e: EventEnvelope, sym: u32) -> bool {
    e.symbol.0 == sym && (e.body matches MarketEvent::Status { kind, .. } && kind
        == StatusKind::Disconnected)
}

/// The symbol's connection was reported regained.
pub open spec fn regained(e: EventEnvelope, sym: u32) -> bool {
    e.symbol.0 == sym && (e.body matches MarketEvent::Status { kind, .. } && kind
        == StatusKind::Connected)
}

/// A hole in the symbol's sequence was reported.
pub open spec fn hole(e: EventEnvelope, sym: u32) -> bool {
    e.symbol.0 == sym && (e.body matches MarketEvent::Status { kind, .. } && kind
        == StatusKind::GapDetected)
}

/// A snapshot brought the symbol's book in step again.
pub open spec fn resynced(e: EventEnvelope, sym: u32) -> bool {
    e.symbol.0 == sym && (e.body matches MarketEvent::BookSnapshot { reason, .. } && reason
        == SnapshotReason::GapResync)
}

/// Event `i` loses the connection while it stands: every earlier loss was made
/// good before it.
pub open spec fn outage_begins(events: Seq<EventEnvelope>, sym: u32, i: int) -> bool {
    &&& 0 <= i < events.len()
    &&& lost(events[i], sym)
    &&& forall|k: int|
        0 <= k < i && lost(#[trigger] events[k], sym) ==> regained_between(events, sym, k, i)
}

/// The connection is regained strictly between two events.
pub open spec fn regained_between(events: Seq<EventEnvelope>, sym: u32, a: int, b: int) -> bool {
    exists|m: int| a < m < b && regained(#[trigger] events[m], sym)
}

/// Event `i` finds a hole while there is none: every earlier hole was mended
/// before it.
pub open spec fn hole_begins(events: Seq<EventEnvelope>, sym: u32, i: int) -> bool {
    &&& 0 <= i < events.len()
    &&& hole(events[i], sym)
    &&& forall|k: int|
        0 <= k < i && hole(#[trigger] events[k], sym) ==> resynced_between(events, sym, k, i)
}

/// The book comes in step again strictly between two events.
pub open spec fn resynced_between(events: Seq<EventEnvelope>, sym: u32, a: int, b: int) -> bool {
    exists|m: int| a < m < b && resynced(#[trigger] events[m], sym)
}

proof fn lemma_outage_marks(events: Seq<EventEnvelope>, sym: u32)
    ensures
        forall|i: int|
            0 <= i < events.len() ==> ((#[trigger] connection_marks(events, sym)[i]).0 is Opens
                <==> lost(events[i], sym)) && (connection_marks(events, sym)[i].0 is Closes
                <==> regained(events[i], sym)),
        forall|i: int|
            0 <= i < events.len() && lost(#[trigger] events[i], sym) ==> connection_marks(
                events,
                sym,
            )[i].0 == GapMark::Opens(GapKind::Disconnect),
        forall|a: int, b: int|
            0 <= a && b <= events.len() ==> #[trigger] closes_between(
                connection_marks(events, sym),
                a,
                b,
            ) == regained_between(events, sym, a, b),
{
    let ms = connection_marks(events, sym);
    assert forall|a: int, b: int| 0 <= a && b <= events.len() implies #[trigger] closes_between(
        ms,
        a,
        b,
    ) == regained_between(events, sym, a, b) by {
        if closes_between(ms, a, b) {
            let m = choose|m: int| a < m < b && (#[trigger] ms[m]).0 is Closes;
            assert(regained(events[m], sym));
        }
        if regained_between(events, sym, a, b) {
            let m = choose|m: int| a < m < b && regained(#[trigger] events[m], sym);
            assert(ms[m].0 is Closes);
        }
    }
}

proof fn lemma_hole_marks(events: Seq<EventEnvelope>, sym: u32)
    ensures
        forall|i: int|
            0 <= i < events.len() ==> ((#[trigger] sequence_marks(events, sym)[i]).0 is Opens
                <==> hole(events[i], sym)) && (sequence_marks(events, sym)[i].0 is Closes
                <==> resynced(events[i], sym)),
        forall|a: int, b: int|
            0 <= a && b <= events.len() ==> #[trigger] closes_between(
                sequence_marks(events, sym),
                a,
                b,
            ) == resynced_between(events, sym, a, b),
{
    let ms = sequence_marks(events, sym);
    assert forall|a: int, b: int| 0 <= a && b <= events.len() implies #[trigger] closes_between(
        ms,
        a,
        b,
    ) == resynced_between(events, sym, a, b) by {
        if closes_between(ms, a, b) {
            let m = choose|m: int| a < m < b && (#[trigger] ms[m]).0 is Closes;
            assert(resynced(events[m], sym));
        }
        if resynced_between(events, sym, a, b) {
            let m = choose|m: int| a < m < b && resynced(#[trigger] events[m], sym);
            assert(ms[m].0 is Closes);
        }
    }
}

/// An outage is a gap of every stream of its symbol: from the event that began
/// it to the one that ended it, or to the end of the day where none did.
pub proof fn law_outage_is_a_gap(
    events: Seq<EventEnvelope>,
    name: Seq<char>,
    sym: u32,
    day_end: i64,
    i: int,
    j: int,
)
    requires
        outage_begins(events, sym, i),
    ensures
        i < j < events.len() && regained(events[j], sym) && !regained_between(events, sym, i, j)
            ==> stream_gaps(events, name, sym, day_end).contains(
            Gap {
                from_ns: events[i].recv_ts_ns,
                to_ns: events[j].recv_ts_ns,
                kind: GapKind::Disconnect,
            },
        ),
        !regained_between(events, sym, i, events.len() as int) ==> stream_gaps(
            events,
            name,
            sym,
            day_end,
        ).contains(
            Gap {
                from_ns: events[i].recv_ts_ns,
                to_ns: day_end,
                kind: GapKind::Disconnect,
            },
        ),
{
    let ms = connection_marks(events, sym);
    let t = connection_track(events, sym);
    let all = stream_gaps(events, name, sym, day_end);
    let own = closed_at(t, day_end);
    lemma_tracks(events, sym);
    lemma_outage_marks(events, sym);
    assert(ms[i].0 is Opens);
    assert(begins(ms, i)) by {
        assert forall|k: int| 0 <= k < i && (#[trigger] ms[k]).0 is Opens implies closes_between(
            ms,
            k,
            i,
        ) by {
            assert(lost(events[k], sym));
        }
    }
    if i < j < events.len() && regained(events[j], sym) && !regained_between(events, sym, i, j) {
        assert(ms[j].0 is Closes);
        assert(!closes_between(ms, i, j));
        lemma_closed_is(ms, i, j);
        let g = Gap { from_ns: ms[i].1, to_ns: ms[j].1, kind: GapKind::Disconnect };
        let k = t.closed.index_of(g);
        assert(own[k] == g);
        assert(all[k] == g);
    }
    if !regained_between(events, sym, i, events.len() as int) {
        assert(!closes_between(ms, i, ms.len() as int));
        lemma_open_is(ms, i);
        let g = Gap { from_ns: ms[i].1, to_ns: day_end, kind: GapKind::Disconnect };
        assert(own[own.len() - 1] == g);
        assert(all[own.len() - 1] == g);
    }
}

/// A hole in the sequence is a gap of the book deltas: from the report that
/// found it to the snapshot that mended it, or to the end of the day where none
/// did. It is the recorder's own where the report speaks of an overrun, and the
/// venue's otherwise.
pub proof fn law_hole_is_a_gap(
    events: Seq<EventEnvelope>,
    sym: u32,
    day_end: i64,
    i: int,
    j: int,
    detail: String,
)
    requires
        hole_begins(events, sym, i),
        events[i].body == (MarketEvent::Status { kind: StatusKind::GapDetected, detail }),
    ensures
        ({
            let kind = if contains(detail@, "overrun"@) {
                GapKind::Overrun
            } else {
                GapKind::Venue
            };
            &&& i < j < events.len() && resynced(events[j], sym) && !resynced_between(
                events,
                sym,
                i,
                j,
            ) ==> stream_gaps(events, "book_deltas"@, sym, day_end).contains(
                Gap { from_ns: events[i].recv_ts_ns, to_ns: events[j].recv_ts_ns, kind },
            )
            &&& !resynced_between(events, sym, i, events.len() as int) ==> stream_gaps(
                events,
                "book_deltas"@,
                sym,
                day_end,
            ).contains(Gap { from_ns: events[i].recv_ts_ns, to_ns: day_end, kind })
        }),
{
    let ms = sequence_marks(events, sym);
    let t = sequence_track(events, sym);
    let all = stream_gaps(events, "book_deltas"@, sym, day_end);
    let first = closed_at(connection_track(events, sym), day_end);
    let own = closed_at(t, day_end);
    assert(all == first + own);
    lemma_tracks(events, sym);
    lemma_hole_marks(events, sym);
    assert(ms[i].0 is Opens);
    assert(begins(ms, i)) by {
        assert forall|k: int| 0 <= k < i && (#[trigger] ms[k]).0 is Opens implies closes_between(
            ms,
            k,
            i,
        ) by {
            assert(hole(events[k], sym));
        }
    }
    let kind = ms[i].0->Opens_0;
    if i < j < events.len() && resynced(events[j], sym) && !resynced_between(events, sym, i, j) {
        assert(ms[j].0 is Closes);
        assert(!closes_between(ms, i, j));
        lemma_closed_is(ms, i, j);
        let g = Gap { from_ns: ms[i].1, to_ns: ms[j].1, kind };
        let k = t.closed.index_of(g);
        assert(own[k] == g);
        assert(all[first.len() + k] == g);
    }
    if !resynced_between(events, sym, i, events.len() as int) {
        assert(!closes_between(ms, i, ms.len() as int));
        lemma_open_is(ms, i);
        let g = Gap { from_ns: ms[i].1, to_ns: day_end, kind };
        assert(own[own.len() - 1] == g);
        assert(all[first.len() + own.len() - 1] == g);
    }
}

/// A stream has no gap without a cause: each is an outage of its symbol, or, of
/// the book deltas only, a hole in its sequence.
pub proof fn law_gaps_have_causes(
    events: Seq<EventEnvelope>,
    name: Seq<char>,
    sym: u32,
    day_end: i64,
    k: int,
)
    requires
        0 <= k < stream_gaps(events, name, sym, day_end).len(),
    ensures
        ({
            let g = stream_gaps(events, name, sym, day_end)[k];
            exists|i: int|
                0 <= i < events.len() && (#[trigger] events[i]).recv_ts_ns == g.from_ns && ((
                outage_begins(events, sym, i) && g.kind == GapKind::Disconnect) || (name
                    == "book_deltas"@ && hole_begins(events, sym, i) && g.kind
                    != GapKind::Disconnect))
        }),
        ({
            let g = stream_gaps(events, name, sym, day_end)[k];
            g.to_ns == day_end || exists|j: int|
                0 <= j < events.len() && (#[trigger] events[j]).recv_ts_ns == g.to_ns && (regained(
                    events[j],
                    sym,
                ) || resynced(events[j], sym))
        }),
{
    let c = connection_track(events, sym);
    let q = sequence_track(events, sym);
    let first = closed_at(c, day_end);
    lemma_tracks(events, sym);
    lemma_outage_marks(events, sym);
    lemma_hole_marks(events, sym);
    if k < first.len() {
        let ms = connection_marks(events, sym);
        let i = if k < c.closed.len() {
            let p = lemma_closed_from(ms, k);
            assert(regained(events[p.1], sym));
            assert(events[p.1].recv_ts_ns == first[k].to_ns);
            p.0
        } else {
            lemma_open_from(ms)
        };
        assert(ms[i].0 is Opens);
        assert(lost(events[i], sym));
        assert(outage_begins(events, sym, i)) by {
            assert forall|m: int| 0 <= m < i && lost(#[trigger] events[m], sym) implies
                regained_between(events, sym, m, i) by {
                assert(ms[m].0 is Opens);
                assert(closes_between(ms, m, i));
            }
        }
        assert(events[i].recv_ts_ns == first[k].from_ns);
    } else {
        let ms = sequence_marks(events, sym);
        let own = closed_at(q, day_end);
        let h = k - first.len();
        let i = if h < q.closed.len() {
            let p = lemma_closed_from(ms, h);
            assert(resynced(events[p.1], sym));
            assert(events[p.1].recv_ts_ns == own[h].to_ns);
            p.0
        } else {
            lemma_open_from(ms)
        };
        assert(ms[i].0 is Opens);
        assert(hole(events[i], sym));
        assert(hole_begins(events, sym, i)) by {
            assert forall|m: int| 0 <= m < i && hole(#[trigger] events[m], sym) implies
                resynced_between(events, sym, m, i) by {
                assert(ms[m].0 is Opens);
                assert(closes_between(ms, m, i));
            }
        }
        assert(events[i].recv_ts_ns == own[h].from_ns);
    }
}

/// What a stream recorded: as many events as there are of its kind and symbol,
/// but for status reports, the earliest and the latest of their times.
pub proof fn law_recorded(events: Seq<EventEnvelope>, name: Seq<char>, sym: u32)
    requires
        events.len() <= u64::MAX,
    ensures
        ({
            let own = events.filter(
                |e: EventEnvelope|
                    !(e.body is Status) && stream_of(e.body) == name && e.symbol.0 == sym,
            );
            &&& own.len() == 0 <==> recorded_of(events, name, sym) is None
            &&& recorded_of(events, name, sym) matches Some(a) ==> {
                &&& a.events == own.len()
                &&& forall|i: int|
                    0 <= i < own.len() ==> a.first <= (#[trigger] own[i]).recv_ts_ns <= a.last
                &&& exists|i: int| 0 <= i < own.len() && (#[trigger] own[i]).recv_ts_ns == a.first
                &&& exists|i: int| 0 <= i < own.len() && (#[trigger] own[i]).recv_ts_ns == a.last
            }
        }),
    decreases events.len(),
{
    reveal(Seq::filter);
    let p = |e: EventEnvelope|
        !(e.body is Status) && stream_of(e.body) == name && e.symbol.0 == sym;
    if events.len() > 0 {
        let f = events.drop_last();
        law_recorded(f, name, sym);
        let own0 = f.filter(p);
        let own = events.filter(p);
        let e = events.last();
        if p(e) {
            assert(own == own0.push(e));
            assert(own[own0.len() as int] == e);
            match recorded_of(f, name, sym) {
                Some(a) => {
                    lemma_recorded_bound(f, name, sym);
                    let x = choose|i: int|
                        0 <= i < own0.len() && (#[trigger] own0[i]).recv_ts_ns == a.first;
                    let y = choose|i: int|
                        0 <= i < own0.len() && (#[trigger] own0[i]).recv_ts_ns == a.last;
                    assert(own[x] == own0[x] && own[y] == own0[y]);
                    let b = recorded_of(events, name, sym)->0;
                    assert forall|i: int| 0 <= i < own.len() implies b.first <= (
                    #[trigger] own[i]).recv_ts_ns <= b.last by {
                        if i < own0.len() {
                            assert(own[i] == own0[i]);
                        }
                    }
                },
                None => {},
            }
        } else {
            assert(own == own0);
        }
    }
}

/// A stream's key is its name and the symbol's name with a colon between; a
/// symbol that the table does not have is named by its number.
pub proof fn law_stream_key(symbols: Seq<SymbolMeta>, name: Seq<char>, id: u32)
    ensures
        id < symbols.len() ==> stream_key(symbols, (name, id)) == name + ":"@
            + symbols[id as int].venue_symbol@,
        id >= symbols.len() ==> stream_key(symbols, (name, id)) == name + ":"@ + ("sym"@ + dec(
            id as nat,
        )),
{
}

/// Every recorded stream is in the manifest under its key, and no other key
/// is.
pub proof fn law_streams_named(
    events: Seq<EventEnvelope>,
    symbols: Seq<SymbolMeta>,
    keys: Seq<(Seq<char>, u32)>,
    day_start: i64,
    day_end: i64,
    s: Seq<char>,
)
    ensures
        named_qualities(events, symbols, keys, day_start, day_end).dom().contains(s)
            <==> exists|i: int|
            0 <= i < keys.len() && stream_key(symbols, #[trigger] keys[i]) == s,
    decreases keys.len(),
{
    if keys.len() > 0 {
        let t = keys.drop_last();
        let n = keys.len() - 1;
        law_streams_named(events, symbols, t, day_start, day_end, s);
        assert(keys[n] == keys.last());
        if exists|i: int| 0 <= i < t.len() && stream_key(symbols, #[trigger] t[i]) == s {
            let i = choose|i: int| 0 <= i < t.len() && stream_key(symbols, #[trigger] t[i]) == s;
            assert(stream_key(symbols, keys[i]) == s);
        }
        if exists|i: int| 0 <= i < keys.len() && stream_key(symbols, #[trigger] keys[i]) == s {
            let i = choose|i: int|
                0 <= i < keys.len() && stream_key(symbols, #[trigger] keys[i]) == s;
            if i < n {
                assert(stream_key(symbols, t[i]) == s);
            }
        }
    }
}

/// A stream of its own key is described by its own events.
pub proof fn law_stream_described(
    events: Seq<EventEnvelope>,
    symbols: Seq<SymbolMeta>,
    keys: Seq<(Seq<char>, u32)>,
    day_start: i64,
    day_end: i64,
    i: int,
)
    requires
        0 <= i < keys.len(),
        forall|k: int|
            i < k < keys.len() ==> stream_key(symbols, #[trigger] keys[k]) != stream_key(
                symbols,
                keys[i],
            ),
    ensures
        named_qualities(events, symbols, keys, day_start, day_end)[stream_key(symbols, keys[i])]
            == quality_of(events, keys[i], day_start, day_end),
    decreases keys.len(),
{
    let t = keys.drop_last();
    let n = keys.len() - 1;
    if i < n {
        assert(t[i] == keys[i]);
        assert forall|k: int| i < k < t.len() implies stream_key(symbols, #[trigger] t[k])
            != stream_key(symbols, t[i]) by {
            assert(t[k] == keys[k]);
        }
        law_stream_described(events, symbols, t, day_start, day_end, i);
        assert(keys[n] == keys.last());
    }
}

/// The statistics of a stream repeat its quality, and are never sampled.
pub proof fn law_stats_of_a_stream(
    stats: (String, StreamStats),
    quality: (String, StreamQuality),
    coverage: Real,
)
    requires
        is_stats_of(stats, quality, coverage),
    ensures
        stats.0@ == quality.0@,
        stats.1.events == quality.1.events,
        stats.1.first_ts_ns == quality.1.first_ts_ns,
        stats.1.last_ts_ns == quality.1.last_ts_ns,
        stats.1.gaps@ == quality.1.gaps@,
        stats.1.coverage == coverage,
        !stats.1.sampled,
{
}

/// Every stream that was recorded on a day is in its manifest.
pub proof fn law_every_stream_is_listed(
    streams: SortedMap<String, StreamQuality>,
    events: Seq<EventEnvelope>,
    symbols: Seq<SymbolMeta>,
    day_start: i64,
    day_end: i64,
    name: Seq<char>,
    sym: u32,
)
    requires
        day_streams(streams, events, symbols, day_start, day_end),
        recorded_of(events, name, sym) is Some,
    ensures
        streams.map().dom().contains(stream_key(symbols, (name, sym))),
{
    let keys = choose|keys: Seq<(Seq<char>, u32)>| #[trigger]
        recorded_keys(events, keys) && quality_views(streams.map()) == named_qualities(
            events,
            symbols,
            keys,
            day_start,
            day_end,
        );
    let s = stream_key(symbols, (name, sym));
    let k = (name, sym);
    assert(recorded_of(events, k.0, k.1) is Some);
    assert(keys.contains(k));
    let i = keys.index_of(k);
    assert(stream_key(symbols, keys[i]) == s);
    law_streams_named(events, symbols, keys, day_start, day_end, s);
    assert(quality_views(streams.map()).dom().contains(s));
}

} // verus!
