//! Integrity audit of raw recordings: one verdict per recording, and one
//! scorecard per day.
//!
//! A recording is audited event by event. The verdict names every finding; a
//! recording is clean when its coverage reaches the bar and no finding blocks.
use vstd::prelude::*;
use crate::event::{
    slug_of, venue_name_of, EventEnvelope, MarketEvent, SnapshotSource, StatusKind, SymbolMeta,
    Venue,
};
use crate::number::Real;
use crate::ordered::{ascending, sort_numbers, sort_order, stably_sorted, Key, Pair, SortedMap};
use crate::text::{
    all_digits, dec, dec_int, is_digit, parse_nat, parse_u64, push_dec, push_dec_int, push_text,
    same, slice_text, split_on, split_text, starts, starts_with, strip_prefix, to_chars, views,
    joined, join_path,
};

verus! {

/// Least coverage of a promotable day, 0.995, as a bit pattern.
pub const MIN_COVERAGE: u64 = 0x3FEF_D70A_3D70_A3D7;

/// Least coverage in zero-cost mode, 0.95, as a bit pattern.
pub const ZERO_COST_MIN_COVERAGE: u64 = 0x3FEE_6666_6666_6666;

/// Stale reports farther apart than this begin a new burst.
pub const STALE_BURST_GAP_NS: i64 = 90_000_000_000;

/// The identity and the thresholds against which a recording is audited.
pub struct AuditConfig {
    pub venue: Venue,
    pub symbol: String,
    pub max_gap_ns: i64,
    /// Streams that must occur, in order.
    pub required_streams: SortedMap<String, ()>,
    /// Use the lowered coverage bar, and expect no `book` stream.
    pub zero_cost_mode: bool,
}

impl AuditConfig {
    pub open spec fn wf(&self) -> bool {
        self.required_streams.wf()
    }

    /// The names of the required streams, in order.
    pub open spec fn required(&self) -> Seq<Seq<char>> {
        Seq::new(
            self.required_streams.entries@.len(),
            |i: int| self.required_streams.entries@[i].0@,
        )
    }

    /// The usual thresholds for one venue and symbol: gaps over two minutes
    /// count, and no stream is required.
    pub fn single(venue: Venue, symbol: &str) -> (c: AuditConfig)
        ensures
            c.wf(),
            c.venue == venue,
            c.symbol@ == symbol@,
            c.max_gap_ns == 120_000_000_000,
            c.required() == Seq::<Seq<char>>::empty(),
            !c.zero_cost_mode,
    {
        let c = AuditConfig {
            venue,
            symbol: symbol.to_owned(),
            max_gap_ns: 120_000_000_000,
            required_streams: SortedMap::new(),
            zero_cost_mode: false,
        };
        assert(c.required() =~= Seq::<Seq<char>>::empty());
        c
    }

    /// Adds a stream to the required ones.
    pub fn require(&mut self, stream: &str)
        requires
            old(self).wf(),
        ensures
            final(self).wf(),
            final(self).required_streams.map() == old(self).required_streams.map().insert(
                stream@,
                (),
            ),
            final(self).venue == old(self).venue,
            final(self).symbol == old(self).symbol,
            final(self).max_gap_ns == old(self).max_gap_ns,
            final(self).zero_cost_mode == old(self).zero_cost_mode,
    {
        self.required_streams.set(stream.to_owned(), ());
    }
}

/// A diagnostic of an audit.
#[derive(Debug)]
pub struct AuditFinding {
    pub code: String,
    pub detail: String,
}

/// What a finding says: its code and its detail.
pub type Note = (Seq<char>, Seq<char>);

/// What the findings say.
pub open spec fn notes(f: Seq<AuditFinding>) -> Seq<Note> {
    Seq::new(f.len(), |i: int| (f[i].code@, f[i].detail@))
}

/// A finding with the given code and detail.
pub fn finding(code: &str, detail: &str) -> (f: AuditFinding)
    ensures
        f.code@ == code@,
        f.detail@ == detail@,
{
    AuditFinding { code: code.to_owned(), detail: detail.to_owned() }
}

/// Adds a finding to a list.
fn note(findings: &mut Vec<AuditFinding>, code: &str, detail: &str)
    ensures
        notes(final(findings)@) == notes(old(findings)@).push((code@, detail@)),
{
    findings.push(finding(code, detail));
    assert(notes(findings@) =~= notes(old(findings)@).push((code@, detail@)));
}

/// A span of receive time.
#[derive(Clone, Copy, Debug, PartialEq, Eq, Structural)]
pub struct TimeRange {
    pub start_ns: i64,
    pub end_ns: i64,
}

// ---------------------------------------------------------------------------
// Discovering recordings
// ---------------------------------------------------------------------------

/// A recording found by its file name.
#[derive(Debug)]
pub struct RawLog {
    pub path: String,
    pub date: String,
    pub venue_str: String,
    pub symbol: String,
}

/// The first position of `c` in `s` at or behind `from`; the length of `s` if
/// there is none.
pub open spec fn index_from(s: Seq<char>, c: char, from: int) -> int
    decreases s.len() - from,
{
    if from >= s.len() || s[from] == c {
        from
    } else {
        index_from(s, c, from + 1)
    }
}

/// The three parts of a recording's file name `{date}_{venue}_{symbol}.log`:
/// the date is eight digits, and the symbol may hold further underscores.
pub open spec fn raw_log_parts(name: Seq<char>) -> Option<(Seq<char>, Seq<char>, Seq<char>)> {
    if name.len() > 4 && name.skip(name.len() - 4) == ".log"@ {
        let stem = name.take(name.len() - 4);
        let a = index_from(stem, '_', 0);
        let b = index_from(stem, '_', a + 1);
        if b < stem.len() && a == 8 && all_digits(stem.take(a)) {
            Some((stem.take(a), stem.subrange(a + 1, b), stem.skip(b + 1)))
        } else {
            None
        }
    } else {
        None
    }
}

/// The first position of `c` in `s[..end]` at or behind `from`, or `end`.
fn position_from(s: &Vec<char>, end: usize, c: char, from: usize) -> (i: usize)
    requires
        from <= end <= s.len(),
    ensures
        i == index_from(s@.take(end as int), c, from as int),
        from <= i <= end,
{
    let ghost t = s@.take(end as int);
    let mut i: usize = from;
    while i < end && s[i] != c
        invariant
            from <= i <= end <= s.len(),
            t == s@.take(end as int),
            index_from(t, c, from as int) == index_from(t, c, i as int),
        ensures
            i == end || s@[i as int] == c,
            from <= i <= end,
            index_from(t, c, from as int) == index_from(t, c, i as int),
        decreases end - i,
    {
        assert(t[i as int] == s@[i as int]);
        i = i + 1;
    }
    assert(i < end ==> t[i as int] == s@[i as int]);
    i
}

/// Whether the first `n` characters are all decimal digits.
fn digits_only(c: &Vec<char>, n: usize) -> (r: bool)
    requires
        n <= c.len(),
    ensures
        r == all_digits(c@.take(n as int)),
{
    let mut i: usize = 0;
    while i < n
        invariant
            i <= n <= c.len(),
            forall|k: int| 0 <= k < i ==> is_digit(#[trigger] c@[k]),
        decreases n - i,
    {
        if c[i] < '0' || c[i] > '9' {
            assert(!is_digit(c@.take(n as int)[i as int]));
            return false;
        }
        i = i + 1;
    }
    assert forall|k: int| 0 <= k < n implies is_digit(#[trigger] c@.take(n as int)[k]) by {
        assert(is_digit(c@[k]));
    }
    true
}

/// The recording of file `name` in directory `dir`, if the name is one.
pub fn parse_raw_log_name(dir: &str, name: &str) -> (r: Option<RawLog>)
    ensures
        match r {
            Some(log) => raw_log_parts(name@) == Some((log.date@, log.venue_str@, log.symbol@))
                && log.path@ == joined(dir@, name@),
            None => raw_log_parts(name@) is None,
        },
{
    let c = to_chars(name);
    let n: usize = c.len();
    proof {
        reveal_strlit(".log");
    }
    if n <= 4 || c[n - 4] != '.' || c[n - 3] != 'l' || c[n - 2] != 'o' || c[n - 1] != 'g' {
        assert(n > 4 && name@.skip(n - 4) == ".log"@ ==> c@[n - 4] == ".log"@[0] && c@[n - 3]
            == ".log"@[1] && c@[n - 2] == ".log"@[2] && c@[n - 1] == ".log"@[3]) by {
            if n > 4 && name@.skip(n - 4) == ".log"@ {
                assert(name@.skip(n - 4)[0] == c@[n - 4]);
                assert(name@.skip(n - 4)[1] == c@[n - 3]);
                assert(name@.skip(n - 4)[2] == c@[n - 2]);
                assert(name@.skip(n - 4)[3] == c@[n - 1]);
            }
        }
        return None;
    }
    assert(name@.skip(n - 4) =~= ".log"@);
    let end: usize = n - 4;
    let ghost stem = name@.take(end as int);
    assert(c@.take(end as int) == stem);
    let a: usize = position_from(&c, end, '_', 0);
    if a >= end {
        proof {
            lemma_index_after(stem, a as int);
        }
        return None;
    }
    let b: usize = position_from(&c, end, '_', a + 1);
    if b >= end || a != 8 {
        return None;
    }
    assert(c@.take(a as int) =~= stem.take(a as int));
    if !digits_only(&c, a) {
        return None;
    }
    assert(c@.subrange(0, a as int) =~= stem.take(a as int));
    assert(c@.subrange(a + 1, b as int) =~= stem.subrange(a + 1, b as int));
    assert(c@.subrange(b + 1, end as int) =~= stem.skip(b + 1));
    Some(
        RawLog {
            path: join_path(dir, name),
            date: slice_text(c.as_slice(), 0, a),
            venue_str: slice_text(c.as_slice(), a + 1, b),
            symbol: slice_text(c.as_slice(), b + 1, end),
        },
    )
}

proof fn lemma_index_after(s: Seq<char>, a: int)
    requires
        a >= s.len(),
    ensures
        index_from(s, '_', a + 1) >= s.len(),
{
}

/// The sort key of a recording: date, venue, symbol.
pub open spec fn log_key(l: RawLog) -> ((Seq<char>, Seq<char>), Seq<char>) {
    ((l.date@, l.venue_str@), l.symbol@)
}

/// Whether `a` is listed before `b`: by date, then venue, then symbol.
pub open spec fn listed_before(a: RawLog, b: RawLog) -> bool {
    <Pair<Pair<String, String>, String> as Key>::precedes(log_key(a), log_key(b))
}

/// What a recording found under a name in `dir` is.
pub open spec fn is_log_of(log: RawLog, dir: Seq<char>, name: Seq<char>) -> bool {
    raw_log_parts(name) == Some((log.date@, log.venue_str@, log.symbol@)) && log.path@ == joined(
        dir,
        name,
    )
}

/// The names that are recordings, in order.
pub open spec fn recording_names(names: Seq<Seq<char>>) -> Seq<Seq<char>>
    decreases names.len(),
{
    if names.len() == 0 {
        Seq::empty()
    } else if raw_log_parts(names.last()) is Some {
        recording_names(names.drop_last()).push(names.last())
    } else {
        recording_names(names.drop_last())
    }
}

/// `logs` are the recordings of the files `found` in `dir`, in the order
/// `order`: by date, venue and symbol, equal ones keeping their order.
pub open spec fn is_listing(
    logs: Seq<RawLog>,
    dir: Seq<char>,
    found: Seq<Seq<char>>,
    order: Seq<usize>,
) -> bool {
    &&& logs.len() == found.len()
    &&& order.len() == found.len()
    &&& forall|i: int|
        0 <= i < logs.len() ==> order[i] < found.len() && is_log_of(
            #[trigger] logs[i],
            dir,
            found[order[i] as int],
        )
    &&& forall|i: int, j: int|
        #![trigger logs[i], logs[j]]
        #![trigger order[i], order[j]]
        0 <= i < j < logs.len() ==> order[i] != order[j] && (listed_before(
            logs[i],
            logs[j],
        ) || (log_key(logs[i]) == log_key(logs[j]) && order[i] < order[j]))
}

/// The recordings among the files `names` of directory `dir`, sorted by date,
/// venue and symbol. Other files are passed over.
pub fn discover_raw_logs(dir: &str, names: &Vec<String>) -> (logs: Vec<RawLog>)
    ensures
        exists|order: Seq<usize>|
            is_listing(logs@, dir@, recording_names(views(names@)), order),
{
    let ghost found = recording_names(views(names@));
    let mut all: Vec<RawLog> = Vec::new();
    let mut keys: Vec<Pair<Pair<String, String>, String>> = Vec::new();
    let mut n: usize = 0;
    assert(views(names@).take(0).len() == 0);
    while n < names.len()
        invariant
            n <= names.len(),
            all@.len() == keys@.len(),
            all@.len() == recording_names(views(names@).take(n as int)).len(),
            forall|i: int|
                0 <= i < all@.len() ==> is_log_of(
                    #[trigger] all@[i],
                    dir@,
                    recording_names(views(names@).take(n as int))[i],
                ),
            forall|i: int|
                0 <= i < all@.len() ==> (#[trigger] keys@[i]).id() == log_key(all@[i]),
        decreases names.len() - n,
    {
        let ghost next = views(names@).take(n + 1);
        assert(next.drop_last() =~= views(names@).take(n as int));
        assert(next.last() == names@[n as int]@);
        match parse_raw_log_name(dir, names[n].as_str()) {
            Some(log) => {
                keys.push(
                    Pair {
                        a: Pair { a: log.date.clone(), b: log.venue_str.clone() },
                        b: log.symbol.clone(),
                    },
                );
                all.push(log);
            },
            None => {},
        }
        n = n + 1;
    }
    assert(views(names@).take(n as int) =~= views(names@));
    let order = sort_order(&keys);
    let mut logs: Vec<RawLog> = Vec::new();
    let mut i: usize = 0;
    while i < order.len()
        invariant
            i <= order.len(),
            stably_sorted(keys@, order@),
            all@.len() == keys@.len(),
            logs@.len() == i,
            forall|k: int| 0 <= k < i ==> same_log(#[trigger] logs@[k], all@[order@[k] as int]),
        decreases order.len() - i,
    {
        let log = &all[order[i]];
        logs.push(
            RawLog {
                path: log.path.clone(),
                date: log.date.clone(),
                venue_str: log.venue_str.clone(),
                symbol: log.symbol.clone(),
            },
        );
        i = i + 1;
    }
    proof {
        let o = order@;
        assert forall|i: int| 0 <= i < o.len() implies o[i] < found.len() && is_log_of(
            #[trigger] logs@[i],
            dir@,
            found[o[i] as int],
        ) by {
            assert(same_log(logs@[i], all@[o[i] as int]));
            assert(is_log_of(all@[o[i] as int], dir@, found[o[i] as int]));
        }
        assert forall|i: int, j: int|
            #![trigger logs@[i], logs@[j]]
            #![trigger o[i], o[j]]
            0 <= i < j < o.len() implies o[i] != o[j] && (listed_before(logs@[i], logs@[j]) || (log_key(logs@[i]) == log_key(logs@[j]) && o[i] < o[j])) by {
            assert(crate::ordered::comes_first(keys@, o[i] as int, o[j] as int));
            assert(same_log(logs@[i], all@[o[i] as int]));
            assert(same_log(logs@[j], all@[o[j] as int]));
            assert(keys@[o[i] as int].id() == log_key(all@[o[i] as int]));
            assert(keys@[o[j] as int].id() == log_key(all@[o[j] as int]));
            <Pair<Pair<String, String>, String> as Key>::order(
                keys@[o[i] as int].id(),
                keys@[o[j] as int].id(),
            );
        }
        assert(o.len() == keys@.len());
        assert(all@.len() == found.len());
        assert(logs@.len() == found.len());
        assert(is_listing(logs@, dir@, found, o));
    }
    logs
}

/// Two recordings with the same texts.
spec fn same_log(a: RawLog, b: RawLog) -> bool {
    a.path@ == b.path@ && log_key(a) == log_key(b)
}

/// Whether the recording passes the optional filters.
pub fn log_selected(
    log: &RawLog,
    venue: &Option<String>,
    symbol: &Option<String>,
    date: &Option<String>,
) -> (r: bool)
    ensures
        r == ((venue matches Some(v) ==> log.venue_str@ == v@) && (symbol matches Some(s)
            ==> log.symbol@ == s@) && (date matches Some(d) ==> log.date@ == d@)),
{
    let v_ok = match venue {
        Some(v) => same(log.venue_str.as_str(), v.as_str()),
        None => true,
    };
    let s_ok = match symbol {
        Some(s) => same(log.symbol.as_str(), s.as_str()),
        None => true,
    };
    let d_ok = match date {
        Some(d) => same(log.date.as_str(), d.as_str()),
        None => true,
    };
    v_ok && s_ok && d_ok
}

// ---------------------------------------------------------------------------
// The verdict of one recording
// ---------------------------------------------------------------------------

/// The verdict of one recording.
pub struct RawLogAudit {
    pub event_count: u64,
    pub first_recv_ts_ns: Option<i64>,
    pub last_recv_ts_ns: Option<i64>,
    pub coverage: Real,
    /// Events per stream.
    pub streams: SortedMap<String, u64>,
    pub gaps: Vec<TimeRange>,
    /// One empty range at the receive time of each stale report.
    pub stale_periods: Vec<TimeRange>,
    /// Stale reports joined into bursts.
    pub stale_bursts: Vec<TimeRange>,
    /// The silence that each stale report measured, in milliseconds.
    pub stale_silences_ms: Vec<u64>,
    /// The longest gap.
    pub worst_gap_ns: i64,
    pub findings: Vec<AuditFinding>,
}

/// What an audit has seen so far.
pub struct AuditState {
    pub events: nat,
    pub first: Option<i64>,
    pub last: Option<i64>,
    pub streams: Map<Seq<char>, u64>,
    pub gaps: Seq<TimeRange>,
    pub stale: Seq<TimeRange>,
    pub silences: Seq<u64>,
    pub worst_gap: i64,
    pub notes: Seq<Note>,
}

/// Findings that leave a recording promotable: their severity is already in
/// the coverage.
pub open spec fn warning_code(code: Seq<char>) -> bool {
    code == "recv_time_reversal"@ || code == "stale_stream"@ || code == "coverage_gap"@
}

/// Whether a finding of that code keeps a recording from promotion.
pub fn is_blocking_finding(code: &str) -> (r: bool)
    ensures
        r == !warning_code(code@),
{
    !(same(code, "recv_time_reversal") || same(code, "stale_stream") || same(code, "coverage_gap"))
}

impl RawLogAudit {
    /// What the audit has seen.
    pub open spec fn state(&self) -> AuditState {
        AuditState {
            events: self.event_count as nat,
            first: self.first_recv_ts_ns,
            last: self.last_recv_ts_ns,
            streams: self.streams.map(),
            gaps: self.gaps@,
            stale: self.stale_periods@,
            silences: self.stale_silences_ms@,
            worst_gap: self.worst_gap_ns,
            notes: notes(self.findings@),
        }
    }

    /// Stream counts are kept in order and none exceeds the number of events.
    pub open spec fn wf(&self) -> bool {
        &&& self.streams.wf()
        &&& forall|k: Seq<char>|
            #![trigger self.streams.map()[k]]
            self.streams.map().dom().contains(k) ==> self.streams.map()[k] <= self.event_count
    }

    /// No finding blocks.
    pub open spec fn unblocked(&self) -> bool {
        forall|i: int|
            0 <= i < self.findings@.len() ==> warning_code((#[trigger] self.findings@[i]).code@)
    }

    /// Clean: there are events, the coverage reaches `bar`, and no finding
    /// blocks.
    pub open spec fn clean_at(&self, bar: Real) -> bool {
        self.event_count > 0 && bar.le(self.coverage) && self.unblocked()
    }

    fn none_blocks(&self) -> (r: bool)
        ensures
            r == self.unblocked(),
    {
        let mut i: usize = 0;
        while i < self.findings.len()
            invariant
                i <= self.findings@.len(),
                forall|k: int| 0 <= k < i ==> warning_code((#[trigger] self.findings@[k]).code@),
            decreases self.findings@.len() - i,
        {
            if is_blocking_finding(self.findings[i].code.as_str()) {
                return false;
            }
            i = i + 1;
        }
        true
    }

    /// Whether the recording is clean. Only a clean recording is compacted.
    pub fn is_clean(&self) -> (r: bool)
        ensures
            r == self.clean_at(Real { bits: MIN_COVERAGE }),
    {
        self.event_count > 0 && Real { bits: MIN_COVERAGE }.at_most(self.coverage)
            && self.none_blocks()
    }

    /// Whether the recording is clean at the lowered coverage bar.
    pub fn is_clean_zero_cost(&self) -> (r: bool)
        ensures
            r == self.clean_at(Real { bits: ZERO_COST_MIN_COVERAGE }),
    {
        self.event_count > 0 && Real { bits: ZERO_COST_MIN_COVERAGE }.at_most(self.coverage)
            && self.none_blocks()
    }

    /// The verdict before anything was read.
    pub fn start() -> (a: RawLogAudit)
        ensures
            a.wf(),
            a.state() == start_state(),
            a.coverage == (Real { bits: 0 }),
            a.stale_bursts@.len() == 0,
    {
        let a = RawLogAudit {
            event_count: 0,
            first_recv_ts_ns: None,
            last_recv_ts_ns: None,
            coverage: Real { bits: 0 },
            streams: SortedMap::new(),
            gaps: Vec::new(),
            stale_periods: Vec::new(),
            stale_bursts: Vec::new(),
            stale_silences_ms: Vec::new(),
            worst_gap_ns: 0,
            findings: Vec::new(),
        };
        assert(a.state().notes =~= Seq::<Note>::empty());
        assert(a.state().gaps =~= Seq::<TimeRange>::empty());
        assert(a.state().stale =~= Seq::<TimeRange>::empty());
        assert(a.state().silences =~= Seq::<u64>::empty());
        a
    }
}

/// Nothing seen.
pub open spec fn start_state() -> AuditState {
    AuditState {
        events: 0,
        first: None,
        last: None,
        streams: Map::empty(),
        gaps: Seq::empty(),
        stale: Seq::empty(),
        silences: Seq::empty(),
        worst_gap: 0,
        notes: Seq::empty(),
    }
}

/// `n` if `on`, and nothing otherwise.
pub open spec fn when(on: bool, n: Note) -> Seq<Note> {
    if on {
        seq![n]
    } else {
        Seq::empty()
    }
}

/// Whether the event's symbol stands in the table under its own id.
pub open spec fn known_symbol(e: EventEnvelope, table: Seq<SymbolMeta>) -> bool {
    e.symbol.0 < table.len() && table[e.symbol.0 as int].symbol_id == e.symbol
}

/// What is wrong with the identity or the provenance of an event.
pub open spec fn event_notes(
    e: EventEnvelope,
    table: Seq<SymbolMeta>,
    venue: Venue,
    symbol: Seq<char>,
) -> Seq<Note> {
    let id = e.symbol.0 as int;
    when(e.venue != venue, ("venue_mismatch"@, "event has "@ + venue_name_of(e.venue))) + (
    if known_symbol(e, table) {
        when(
            table[id].venue != venue || table[id].venue_symbol@ != symbol,
            (
                "symbol_mismatch"@,
                "symbol id "@ + dec(id as nat) + " resolves to "@ + venue_name_of(table[id].venue)
                    + "/"@ + table[id].venue_symbol@,
            ),
        )
    } else {
        seq![("invalid_symbol_table"@, "symbol id "@ + dec(id as nat) + " is not present"@)]
    }) + when(
        e.provenance.stream@.len() == 0 || e.provenance.subscription@.len() == 0,
        ("missing_provenance"@, "stream/subscription is not live-attributable"@),
    ) + when(
        e.body is BookSnapshot && e.provenance.snapshot_source == SnapshotSource::Unknown,
        ("missing_snapshot_source"@, "book snapshot has no source"@),
    )
}

/// Adds what is wrong with the identity or the provenance of an event.
pub fn validate_event(
    event: &EventEnvelope,
    symbols: &Vec<SymbolMeta>,
    config: &AuditConfig,
    findings: &mut Vec<AuditFinding>,
)
    ensures
        notes(final(findings)@) == notes(old(findings)@) + event_notes(
            *event,
            symbols@,
            config.venue,
            config.symbol@,
        ),
{
    let ghost n0 = notes(findings@);
    let ghost want = event_notes(*event, symbols@, config.venue, config.symbol@);
    if event.venue != config.venue {
        let mut text = "event has ".to_owned();
        push_text(&mut text, event.venue.name());
        note(findings, "venue_mismatch", text.as_str());
    }
    let ghost n1 = notes(findings@);
    assert(n1 =~= n0 + when(
        event.venue != config.venue,
        ("venue_mismatch"@, "event has "@ + venue_name_of(event.venue)),
    ));
    let id: u32 = event.symbol.0;
    let mut text = "symbol id ".to_owned();
    push_dec(&mut text, id as u64);
    if (id as usize) < symbols.len() && symbols[id as usize].symbol_id == event.symbol {
        let meta = &symbols[id as usize];
        if meta.venue != config.venue || !same(meta.venue_symbol.as_str(), config.symbol.as_str()) {
            push_text(&mut text, " resolves to ");
            push_text(&mut text, meta.venue.name());
            push_text(&mut text, "/");
            push_text(&mut text, meta.venue_symbol.as_str());
            note(findings, "symbol_mismatch", text.as_str());
        }
    } else {
        push_text(&mut text, " is not present");
        note(findings, "invalid_symbol_table", text.as_str());
    }
    let ghost n2 = notes(findings@);
    if event.provenance.stream.as_str().is_empty()
        || event.provenance.subscription.as_str().is_empty() {
        note(findings, "missing_provenance", "stream/subscription is not live-attributable");
    }
    let ghost n3 = notes(findings@);
    let is_snapshot = match &event.body {
        MarketEvent::BookSnapshot { .. } => true,
        _ => false,
    };
    if is_snapshot && event.provenance.snapshot_source == SnapshotSource::Unknown {
        note(findings, "missing_snapshot_source", "book snapshot has no source");
    }
    assert(notes(findings@) =~= n0 + want);
}

/// The silence, in milliseconds, that a stale report measured.
pub open spec fn silence_of(detail: Seq<char>) -> u64 {
    let head = "no valid event for "@;
    if starts(detail, head) {
        let p = split_on(detail.skip(head.len() as int), ' ');
        if p.len() >= 2 && parse_nat(p[0], u64::MAX as int) is Some {
            let n = parse_nat(p[0], u64::MAX as int)->0;
            if starts(p[1], "ms"@) {
                n as u64
            } else if starts(p[1], "ns"@) {
                (n / 1_000_000) as u64
            } else {
                0
            }
        } else {
            0
        }
    } else {
        0
    }
}

/// The silence that a stale report measured: `no valid event for N ms ..`, or
/// `.. N ns` in older recordings. Anything else is 0.
pub fn parse_stale_silence_ms(detail: &str) -> (ms: u64)
    ensures
        ms == silence_of(detail@),
{
    match strip_prefix(detail, "no valid event for ") {
        Some(rest) => {
            let parts = split_text(rest.as_str(), ' ');
            let ghost p = split_on(rest@, ' ');
            assert(views(parts@).len() == parts@.len());
            if parts.len() < 2 {
                return 0;
            }
            assert(p[0] == parts@[0]@ && p[1] == parts@[1]@);
            match parse_u64(parts[0].as_str()) {
                Some(n) => {
                    if starts_with(parts[1].as_str(), "ms") {
                        n
                    } else if starts_with(parts[1].as_str(), "ns") {
                        n / 1_000_000
                    } else {
                        0
                    }
                },
                None => 0,
            }
        },
        None => 0,
    }
}

/// What a status report adds to the findings.
pub open spec fn status_notes(e: EventEnvelope) -> Seq<Note> {
    match e.body {
        MarketEvent::Status { kind: StatusKind::GapDetected, .. } => seq![
            ("sequence_gap"@, "gap status at "@ + dec_int(e.recv_ts_ns as int)),
        ],
        MarketEvent::Status { kind: StatusKind::BackpressureDrop { dropped }, .. } => seq![
            (
                "backpressure_loss"@,
                dec(dropped as nat) + " dropped frame(s) at "@ + dec_int(e.recv_ts_ns as int),
            ),
        ],
        _ => Seq::empty(),
    }
}

/// The detail of a stale report.
pub open spec fn stale_detail(e: EventEnvelope) -> Option<Seq<char>> {
    match e.body {
        MarketEvent::Status { kind: StatusKind::Stale, detail } => Some(detail@),
        _ => None,
    }
}

/// The count for `k` in `m`.
pub open spec fn count_in(m: Map<Seq<char>, u64>, k: Seq<char>) -> u64 {
    if m.dom().contains(k) {
        m[k]
    } else {
        0
    }
}

/// The audit after one more event.
#[verifier::opaque]
pub open spec fn recorded(
    s: AuditState,
    e: EventEnvelope,
    table: Seq<SymbolMeta>,
    venue: Venue,
    symbol: Seq<char>,
    max_gap: i64,
) -> AuditState {
    let t = e.recv_ts_ns;
    let stream = e.provenance.stream@;
    let reversal = s.last matches Some(p) && t < p;
    let gap = s.last matches Some(p) && t >= p && t - p > max_gap;
    AuditState {
        events: s.events + 1,
        first: if s.first is Some {
            s.first
        } else {
            Some(t)
        },
        last: Some(t),
        streams: s.streams.insert(stream, (count_in(s.streams, stream) + 1) as u64),
        gaps: if gap {
            s.gaps.push(TimeRange { start_ns: s.last->0, end_ns: t })
        } else {
            s.gaps
        },
        stale: if stale_detail(e) is Some {
            s.stale.push(TimeRange { start_ns: t, end_ns: t })
        } else {
            s.stale
        },
        silences: if stale_detail(e) is Some {
            s.silences.push(silence_of(stale_detail(e)->0))
        } else {
            s.silences
        },
        worst_gap: if gap && t - s.last->0 > s.worst_gap {
            (t - s.last->0) as i64
        } else {
            s.worst_gap
        },
        notes: s.notes + event_notes(e, table, venue, symbol) + when(
            reversal,
            (
                "recv_time_reversal"@,
                dec_int(s.last->0 as int) + " then "@ + dec_int(t as int),
            ),
        ) + status_notes(e),
    }
}

impl RawLogAudit {
    /// Audits one more event, against the symbol table as known at it.
    pub fn record(&mut self, event: &EventEnvelope, symbols: &Vec<SymbolMeta>, config: &AuditConfig)
        requires
            old(self).wf(),
            old(self).event_count < u64::MAX,
            old(self).last_recv_ts_ns matches Some(p) ==> event.recv_ts_ns - p <= i64::MAX,
        ensures
            final(self).wf(),
            final(self).state() == recorded(
                old(self).state(),
                *event,
                symbols@,
                config.venue,
                config.symbol@,
                config.max_gap_ns,
            ),
            final(self).event_count == old(self).event_count + 1,
            final(self).last_recv_ts_ns == Some(event.recv_ts_ns),
            final(self).coverage == old(self).coverage,
            final(self).stale_bursts == old(self).stale_bursts,
    {
        reveal(recorded);
        let ghost s0 = self.state();
        let t: i64 = event.recv_ts_ns;
        validate_event(event, symbols, config, &mut self.findings);
        let ghost n1 = notes(self.findings@);
        let ghost stream = event.provenance.stream@;
        let ghost m0 = self.streams.map();
        let key = event.provenance.stream.clone();
        match self.streams.find(&key) {
            Ok(i) => {
                let c: u64 = self.streams.entries[i].1;
                assert(m0[stream] == c);
                self.streams.replace_at(i, key, c + 1);
            },
            Err(i) => {
                self.streams.put_at(i, key, 1);
            },
        }
        assert(self.streams.map() =~= m0.insert(stream, (count_in(m0, stream) + 1) as u64));
        self.event_count = self.event_count + 1;
        assert forall|k: Seq<char>| self.streams.map().dom().contains(k) implies
            #[trigger] self.streams.map()[k] <= self.event_count by {
            if k != stream {
                assert(m0.dom().contains(k));
                assert(m0[k] <= s0.events);
            } else {
                assert(m0.dom().contains(stream) ==> m0[stream] <= s0.events);
            }
        }
        if self.first_recv_ts_ns.is_none() {
            self.first_recv_ts_ns = Some(t);
        }
        match self.last_recv_ts_ns {
            Some(previous) => {
                if t < previous {
                    let mut text = String::new();
                    push_dec_int(&mut text, previous);
                    push_text(&mut text, " then ");
                    push_dec_int(&mut text, t);
                    assert(text@ =~= dec_int(previous as int) + " then "@ + dec_int(t as int));
                    note(&mut self.findings, "recv_time_reversal", text.as_str());
                } else if t - previous > config.max_gap_ns {
                    let duration: i64 = t - previous;
                    if duration > self.worst_gap_ns {
                        self.worst_gap_ns = duration;
                    }
                    self.gaps.push(TimeRange { start_ns: previous, end_ns: t });
                }
            },
            None => {},
        }
        let ghost n2 = notes(self.findings@);
        match &event.body {
            MarketEvent::Status { kind, detail } => {
                match kind {
                    StatusKind::Stale => {
                        self.stale_periods.push(TimeRange { start_ns: t, end_ns: t });
                        self.stale_silences_ms.push(parse_stale_silence_ms(detail.as_str()));
                    },
                    StatusKind::GapDetected => {
                        let mut text = "gap status at ".to_owned();
                        push_dec_int(&mut text, t);
                        note(&mut self.findings, "sequence_gap", text.as_str());
                    },
                    StatusKind::BackpressureDrop { dropped } => {
                        let mut text = String::new();
                        push_dec(&mut text, *dropped);
                        push_text(&mut text, " dropped frame(s) at ");
                        push_dec_int(&mut text, t);
                        assert(text@ =~= dec(*dropped as nat) + " dropped frame(s) at "@ + dec_int(
                            t as int,
                        ));
                        note(&mut self.findings, "backpressure_loss", text.as_str());
                    },
                    _ => {},
                }
            },
            _ => {},
        }
        self.last_recv_ts_ns = Some(t);
        proof {
            let want = recorded(
                s0,
                *event,
                symbols@,
                config.venue,
                config.symbol@,
                config.max_gap_ns,
            );
            assert(self.state().notes =~= want.notes);
            assert(self.state().gaps =~= want.gaps);
            assert(self.state().stale =~= want.stale);
            assert(self.state().silences =~= want.silences);
        }
    }

    /// Notes that reading stopped at a malformed or older frame.
    pub fn record_failure(&mut self, error: &str)
        requires
            old(self).wf(),
        ensures
            final(self).wf(),
            final(self).state() == (AuditState {
                notes: old(self).state().notes.push(("legacy_or_malformed"@, error@)),
                ..old(self).state()
            }),
            final(self).coverage == old(self).coverage,
            final(self).stale_bursts == old(self).stale_bursts,
    {
        note(&mut self.findings, "legacy_or_malformed", error);
    }
}

// ---------------------------------------------------------------------------
// Closing an audit
// ---------------------------------------------------------------------------

/// Ascending times joined into bursts: a time within the burst gap of the
/// last burst's end extends it, any other begins a new one.
pub open spec fn bursts_of(ts: Seq<i64>) -> Seq<TimeRange>
    decreases ts.len(),
{
    if ts.len() == 0 {
        Seq::empty()
    } else {
        let b = bursts_of(ts.drop_last());
        let t = ts.last();
        if b.len() > 0 && t - b.last().end_ns <= STALE_BURST_GAP_NS {
            b.drop_last().push(TimeRange { start_ns: b.last().start_ns, end_ns: t })
        } else {
            b.push(TimeRange { start_ns: t, end_ns: t })
        }
    }
}

/// The start times of ranges.
pub open spec fn starts_of(s: Seq<TimeRange>) -> Seq<i64> {
    Seq::new(s.len(), |i: int| s[i].start_ns)
}

/// `bursts` are the bursts of the given stale reports.
pub open spec fn are_bursts(stale: Seq<TimeRange>, bursts: Seq<TimeRange>) -> bool {
    exists|ts: Seq<i64>|
        #![trigger bursts_of(ts)]
        ascending(ts) && ts.to_multiset() == starts_of(stale).to_multiset() && bursts == bursts_of(
            ts,
        )
}

/// Every burst ends at or behind its start, and bursts lie further apart than
/// the burst gap, in order.
pub proof fn law_bursts_separated(ts: Seq<i64>)
    requires
        ascending(ts),
    ensures
        forall|i: int|
            0 <= i < bursts_of(ts).len() ==> (#[trigger] bursts_of(ts)[i]).start_ns
                <= bursts_of(ts)[i].end_ns,
        forall|i: int|
            0 < i < bursts_of(ts).len() ==> (#[trigger] bursts_of(ts)[i]).start_ns > bursts_of(
                ts,
            )[i - 1].end_ns + STALE_BURST_GAP_NS,
        ts.len() > 0 ==> bursts_of(ts).len() > 0 && bursts_of(ts).last().end_ns == ts.last(),
    decreases ts.len(),
{
    if ts.len() > 0 {
        let before = ts.drop_last();
        law_bursts_separated(before);
        let b = bursts_of(before);
        if before.len() > 0 {
            assert(before.last() <= ts.last());
        }
        let c = bursts_of(ts);
        assert forall|i: int| 0 <= i < c.len() implies (#[trigger] c[i]).start_ns
            <= c[i].end_ns by {
            if i < b.len() {
                assert(b[i].start_ns <= b[i].end_ns);
            }
        }
        assert forall|i: int| 0 < i < c.len() implies (#[trigger] c[i]).start_ns > c[i - 1].end_ns
            + STALE_BURST_GAP_NS by {
            if i < b.len() {
                assert(b[i].start_ns > b[i - 1].end_ns + STALE_BURST_GAP_NS);
            }
        }
    }
}

/// Whether a time lies in a burst.
pub open spec fn in_burst(t: i64, b: TimeRange) -> bool {
    b.start_ns <= t <= b.end_ns
}

proof fn lemma_ascending_front(ts: Seq<i64>)
    requires
        ascending(ts),
        ts.len() > 0,
    ensures
        ascending(ts.drop_last()),
        forall|i: int| 0 <= i < ts.len() ==> (#[trigger] ts[i]) <= ts.last(),
{
    assert forall|i: int, j: int| 0 <= i <= j < ts.drop_last().len() implies ts.drop_last()[i]
        <= ts.drop_last()[j] by {
        assert(ts[i] <= ts[j]);
    }
}

/// The burst of a stale time.
proof fn lemma_time_in_burst(ts: Seq<i64>, i: int) -> (k: int)
    requires
        ascending(ts),
        0 <= i < ts.len(),
    ensures
        0 <= k < bursts_of(ts).len(),
        in_burst(ts[i], bursts_of(ts)[k]),
    decreases ts.len(),
{
    let before = ts.drop_last();
    lemma_ascending_front(ts);
    law_bursts_separated(ts);
    let b = bursts_of(before);
    let c = bursts_of(ts);
    if i < before.len() {
        let k = lemma_time_in_burst(before, i);
        assert(before[i] == ts[i]);
        if k == b.len() - 1 {
            law_bursts_separated(before);
            assert(b[k].end_ns <= c[k].end_ns);
        } else {
            assert(c[k] == b[k]);
        }
        k
    } else {
        assert(c[c.len() - 1].start_ns <= c[c.len() - 1].end_ns);
        c.len() - 1
    }
}

/// The stale times at the ends of a burst.
proof fn lemma_burst_ends(ts: Seq<i64>, k: int) -> (p: (int, int))
    requires
        0 <= k < bursts_of(ts).len(),
    ensures
        0 <= p.0 < ts.len(),
        0 <= p.1 < ts.len(),
        ts[p.0] == bursts_of(ts)[k].start_ns,
        ts[p.1] == bursts_of(ts)[k].end_ns,
    decreases ts.len(),
{
    let b = bursts_of(ts.drop_last());
    let c = bursts_of(ts);
    if k < b.len() {
        let p = lemma_burst_ends(ts.drop_last(), k);
        if c[k] == b[k] {
            p
        } else {
            (p.0, ts.len() - 1)
        }
    } else {
        (ts.len() - 1, ts.len() - 1)
    }
}

/// Neighbours inside a burst lie within the burst gap.
proof fn lemma_burst_neighbours(ts: Seq<i64>, i: int, k: int)
    requires
        ascending(ts),
        0 <= i < ts.len() - 1,
        0 <= k < bursts_of(ts).len(),
        in_burst(ts[i], bursts_of(ts)[k]),
        ts[i + 1] <= bursts_of(ts)[k].end_ns,
    ensures
        ts[i + 1] - ts[i] <= STALE_BURST_GAP_NS,
    decreases ts.len(),
{
    let before = ts.drop_last();
    let t = ts.last();
    lemma_ascending_front(ts);
    law_bursts_separated(before);
    let b = bursts_of(before);
    let c = bursts_of(ts);
    assert(before[i] == ts[i]);
    if i + 1 < before.len() {
        assert(before[i + 1] == ts[i + 1]);
        assert(before[i + 1] <= before.last());
        if k < b.len() {
            if k == b.len() - 1 {
                assert(b[k].end_ns == before.last());
                assert(b[k].start_ns == c[k].start_ns);
                assert(before[i] <= before.last());
            } else {
                assert(c[k] == b[k]);
            }
            lemma_burst_neighbours(before, i, k);
        } else {
            assert(c[k].start_ns == t);
            assert(ts[i + 1] <= t && ts[i] <= ts[i + 1]);
        }
    } else {
        assert(before.last() == ts[i]);
        assert(b[b.len() - 1].end_ns == ts[i]);
        if k >= b.len() {
            assert(c[k].start_ns == t);
        } else if k < b.len() - 1 {
            lemma_bursts_ordered(b, k, b.len() - 1);
            assert(c[k] == b[k]);
            assert(b[b.len() - 1].start_ns <= b[b.len() - 1].end_ns);
        }
    }
}

proof fn lemma_bursts_ordered(b: Seq<TimeRange>, i: int, j: int)
    requires
        0 <= i < j < b.len(),
        forall|k: int| 0 <= k < b.len() ==> (#[trigger] b[k]).start_ns <= b[k].end_ns,
        forall|k: int|
            0 < k < b.len() ==> (#[trigger] b[k]).start_ns > b[k - 1].end_ns + STALE_BURST_GAP_NS,
    ensures
        b[i].end_ns + STALE_BURST_GAP_NS < b[j].start_ns,
    decreases j - i,
{
    if i + 1 < j {
        lemma_bursts_ordered(b, i, j - 1);
        assert(b[j - 1].start_ns <= b[j - 1].end_ns);
    }
    assert(b[j].start_ns > b[j - 1].end_ns + STALE_BURST_GAP_NS);
}

/// Lists with the same members in the same numbers hold the same values.
proof fn lemma_same_members(s: Seq<i64>, t: Seq<i64>, x: i64)
    requires
        s.to_multiset() == t.to_multiset(),
        s.contains(x),
    ensures
        t.contains(x),
{
    broadcast use vstd::seq_lib::group_to_multiset_ensures;

    assert(s.to_multiset().count(x) > 0);
}

/// The bursts of an audit stand in order and apart, each from one stale report
/// to another.
pub proof fn law_bursts_of_reports(stale: Seq<TimeRange>, bursts: Seq<TimeRange>)
    requires
        are_bursts(stale, bursts),
    ensures
        forall|i: int, j: int|
            0 <= i < j < bursts.len() ==> (#[trigger] bursts[i]).end_ns + STALE_BURST_GAP_NS < (
            #[trigger] bursts[j]).start_ns,
        forall|k: int|
            0 <= k < bursts.len() ==> starts_of(stale).contains((#[trigger] bursts[k]).start_ns)
                && starts_of(stale).contains(bursts[k].end_ns) && bursts[k].start_ns
                <= bursts[k].end_ns,
{
    let ts = choose|ts: Seq<i64>|
        #![trigger bursts_of(ts)]
        ascending(ts) && ts.to_multiset() == starts_of(stale).to_multiset() && bursts == bursts_of(
            ts,
        );
    law_bursts_separated(ts);
    assert forall|i: int, j: int| 0 <= i < j < bursts.len() implies (#[trigger] bursts[i]).end_ns
        + STALE_BURST_GAP_NS < (#[trigger] bursts[j]).start_ns by {
        lemma_bursts_ordered(bursts, i, j);
    }
    assert forall|k: int| 0 <= k < bursts.len() implies starts_of(stale).contains(
        (#[trigger] bursts[k]).start_ns,
    ) && starts_of(stale).contains(bursts[k].end_ns) && bursts[k].start_ns <= bursts[k].end_ns by {
        let p = lemma_burst_ends(ts, k);
        assert(ts.contains(ts[p.0]) && ts.contains(ts[p.1]));
        lemma_same_members(ts, starts_of(stale), ts[p.0]);
        lemma_same_members(ts, starts_of(stale), ts[p.1]);
    }
}

/// Each stale report lies in exactly one burst.
pub proof fn law_stale_in_one_burst(stale: Seq<TimeRange>, bursts: Seq<TimeRange>, i: int)
    requires
        are_bursts(stale, bursts),
        0 <= i < stale.len(),
    ensures
        exists|k: int| 0 <= k < bursts.len() && in_burst(stale[i].start_ns, #[trigger] bursts[k]),
        forall|k: int, m: int|
            0 <= k < bursts.len() && 0 <= m < bursts.len() && in_burst(
                stale[i].start_ns,
                #[trigger] bursts[k],
            ) && in_burst(stale[i].start_ns, #[trigger] bursts[m]) ==> k == m,
{
    let ts = choose|ts: Seq<i64>|
        #![trigger bursts_of(ts)]
        ascending(ts) && ts.to_multiset() == starts_of(stale).to_multiset() && bursts == bursts_of(
            ts,
        );
    law_bursts_separated(ts);
    let t = stale[i].start_ns;
    assert(starts_of(stale)[i] == t);
    lemma_same_members(starts_of(stale), ts, t);
    let n = ts.index_of(t);
    let k = lemma_time_in_burst(ts, n);
    assert(in_burst(t, bursts[k]));
    assert forall|k: int, m: int|
        0 <= k < bursts.len() && 0 <= m < bursts.len() && in_burst(t, #[trigger] bursts[k])
            && in_burst(t, #[trigger] bursts[m]) implies k == m by {
        if k < m {
            lemma_bursts_ordered(bursts, k, m);
        } else if m < k {
            lemma_bursts_ordered(bursts, m, k);
        }
    }
}

/// Stale reports that follow on one another inside a burst lie within the burst
/// gap: between two reports of one burst that are further apart there is a
/// third.
pub proof fn law_no_hole_in_a_burst(
    stale: Seq<TimeRange>,
    bursts: Seq<TimeRange>,
    k: int,
    i: int,
    j: int,
)
    requires
        are_bursts(stale, bursts),
        0 <= k < bursts.len(),
        0 <= i < stale.len(),
        0 <= j < stale.len(),
        in_burst(stale[i].start_ns, bursts[k]),
        in_burst(stale[j].start_ns, bursts[k]),
        stale[i].start_ns + STALE_BURST_GAP_NS < stale[j].start_ns,
    ensures
        exists|m: int|
            0 <= m < stale.len() && stale[i].start_ns < (#[trigger] stale[m]).start_ns
                < stale[j].start_ns,
{
    let ts = choose|ts: Seq<i64>|
        #![trigger bursts_of(ts)]
        ascending(ts) && ts.to_multiset() == starts_of(stale).to_multiset() && bursts == bursts_of(
            ts,
        );
    let s = starts_of(stale);
    let (a, b) = (stale[i].start_ns, stale[j].start_ns);
    assert(s[i] == a && s[j] == b);
    lemma_same_members(s, ts, a);
    lemma_same_members(s, ts, b);
    let n = lemma_last_at(ts, a);
    let p = ts.index_of(b);
    if p <= n {
        assert(ts[p] <= ts[n]);
    }
    assert(ts[n + 1] <= ts[p]);
    lemma_burst_neighbours(ts, n, k);
    let c = ts[n + 1];
    assert(ts.contains(c));
    lemma_same_members(ts, s, c);
    let m = s.index_of(c);
    assert(stale[m].start_ns == c);
}

/// The last place of a value in an ascending list.
proof fn lemma_last_at(ts: Seq<i64>, a: i64) -> (n: int)
    requires
        ascending(ts),
        ts.contains(a),
    ensures
        0 <= n < ts.len(),
        ts[n] == a,
        n + 1 < ts.len() ==> ts[n + 1] > a,
    decreases ts.len(),
{
    if ts.last() == a {
        ts.len() - 1
    } else {
        let k = ts.index_of(a);
        assert(ts.drop_last()[k] == a);
        let n = lemma_last_at(ts.drop_last(), a);
        assert(ts[n] == a);
        if n + 1 < ts.len() - 1 {
            assert(ts.drop_last()[n + 1] == ts[n + 1]);
        } else {
            assert(ts[n] <= ts[n + 1]);
        }
        n
    }
}

/// Joins stale reports into bursts, whatever their order.
fn burst_windows(stale: &Vec<TimeRange>) -> (bursts: Vec<TimeRange>)
    ensures
        are_bursts(stale@, bursts@),
{
    let mut starts: Vec<i64> = Vec::new();
    let mut i: usize = 0;
    while i < stale.len()
        invariant
            i <= stale.len(),
            starts@ =~= starts_of(stale@).take(i as int),
        decreases stale.len() - i,
    {
        starts.push(stale[i].start_ns);
        i = i + 1;
    }
    assert(starts@ =~= starts_of(stale@));
    let ts = sort_numbers(&starts);
    let mut bursts: Vec<TimeRange> = Vec::new();
    let mut n: usize = 0;
    assert(bursts@ =~= bursts_of(ts@.take(0)));
    while n < ts.len()
        invariant
            n <= ts.len(),
            ascending(ts@),
            bursts@ == bursts_of(ts@.take(n as int)),
        decreases ts.len() - n,
    {
        let t: i64 = ts[n];
        let ghost b = bursts@;
        assert(ts@.take(n + 1).drop_last() =~= ts@.take(n as int));
        let len: usize = bursts.len();
        if len > 0 && (t as i128) - (bursts[len - 1].end_ns as i128) <= STALE_BURST_GAP_NS as i128 {
            let start_ns: i64 = bursts[len - 1].start_ns;
            bursts.set(len - 1, TimeRange { start_ns, end_ns: t });
            assert(bursts@ =~= b.drop_last().push(TimeRange { start_ns, end_ns: t }));
        } else {
            bursts.push(TimeRange { start_ns: t, end_ns: t });
        }
        n = n + 1;
    }
    assert(ts@.take(n as int) =~= ts@);
    bursts
}

/// Whether the mode expects a recording without the stream.
pub open spec fn may_be_absent(stream: Seq<char>, zero_cost_mode: bool) -> bool {
    zero_cost_mode && stream == "book"@
}

/// The required streams that did not occur although they were expected, in
/// order.
pub open spec fn missing_notes(
    required: Seq<Seq<char>>,
    streams: Map<Seq<char>, u64>,
    zero_cost_mode: bool,
) -> Seq<Note>
    decreases required.len(),
{
    if required.len() == 0 {
        Seq::empty()
    } else {
        missing_notes(required.drop_last(), streams, zero_cost_mode) + when(
            !streams.dom().contains(required.last()) && !may_be_absent(
                required.last(),
                zero_cost_mode,
            ),
            ("missing_stream"@, required.last()),
        )
    }
}

/// What closing adds to the findings.
#[verifier::opaque]
pub open spec fn closing_notes(
    s: AuditState,
    required: Seq<Seq<char>>,
    zero_cost_mode: bool,
) -> Seq<Note> {
    when(s.events == 0, ("empty_log"@, "no readable events"@)) + missing_notes(
        required,
        s.streams,
        zero_cost_mode,
    ) + when(s.gaps.len() > 0, ("coverage_gap"@, dec(s.gaps.len()) + " gap(s)"@)) + when(
        s.stale.len() > 0,
        ("stale_stream"@, dec(s.stale.len()) + " stale status event(s)"@),
    )
}

/// The share of a recording that is covered, as far as whole numbers say it.
#[derive(Clone, Copy, Debug, PartialEq, Eq, Structural)]
pub enum CoverageInput {
    /// Nothing was recorded.
    Nothing,
    /// The recording spans no time, and covers it.
    Whole,
    /// One less the quotient of these two, clamped to the unit interval.
    Ratio { lost_ns: i64, span_ns: i64 },
}

/// The summed length of ranges.
pub open spec fn total_len(s: Seq<TimeRange>) -> int
    decreases s.len(),
{
    if s.len() == 0 {
        0
    } else {
        total_len(s.drop_last()) + (s.last().end_ns - s.last().start_ns)
    }
}

/// `b - a`, held to the range of `i64`.
pub open spec fn span_of(a: i64, b: i64) -> i64 {
    if b - a > i64::MAX {
        i64::MAX
    } else if b - a < i64::MIN {
        i64::MIN
    } else {
        (b - a) as i64
    }
}

/// The numbers that decide the coverage of a recording.
pub open spec fn coverage_input_of(s: AuditState) -> CoverageInput {
    match (s.first, s.last) {
        (Some(first), Some(last)) => if span_of(first, last) == 0 {
            CoverageInput::Whole
        } else {
            CoverageInput::Ratio {
                lost_ns: total_len(s.gaps) as i64,
                span_ns: span_of(first, last),
            }
        },
        _ => CoverageInput::Nothing,
    }
}

/// Every gap is a span of more than nothing, and all together fit in 64 bits.
pub open spec fn gaps_summable(s: Seq<TimeRange>) -> bool {
    (forall|i: int| 0 <= i < s.len() ==> (#[trigger] s[i]).start_ns <= s[i].end_ns) && total_len(s)
        <= i64::MAX
}

proof fn lemma_total_len(s: Seq<TimeRange>, k: int)
    requires
        forall|i: int| 0 <= i < s.len() ==> (#[trigger] s[i]).start_ns <= s[i].end_ns,
        0 <= k <= s.len(),
    ensures
        0 <= total_len(s.take(k)) <= total_len(s),
    decreases s.len(),
{
    if k < s.len() {
        assert(s[s.len() - 1].start_ns <= s[s.len() - 1].end_ns);
        assert(s.drop_last().take(k) =~= s.take(k));
        assert forall|i: int| 0 <= i < s.drop_last().len() implies (
        #[trigger] s.drop_last()[i]).start_ns <= s.drop_last()[i].end_ns by {
            assert(s[i].start_ns <= s[i].end_ns);
        }
        lemma_total_len(s.drop_last(), k);
    } else {
        assert(s.take(k) =~= s);
        if s.len() > 0 {
            assert forall|i: int| 0 <= i < s.drop_last().len() implies (
            #[trigger] s.drop_last()[i]).start_ns <= s.drop_last()[i].end_ns by {
                assert(s[i].start_ns <= s[i].end_ns);
            }
            lemma_total_len(s.drop_last(), k - 1);
            assert(s[s.len() - 1].start_ns <= s[s.len() - 1].end_ns);
        }
    }
}

impl RawLogAudit {
    /// Ends the reading: names what is missing, joins stale reports into
    /// bursts and sums the warnings up.
    pub fn close(&mut self, config: &AuditConfig)
        requires
            old(self).wf(),
            config.wf(),
        ensures
            final(self).wf(),
            final(self).state() == (AuditState {
                notes: old(self).state().notes + closing_notes(
                    old(self).state(),
                    config.required(),
                    config.zero_cost_mode,
                ),
                ..old(self).state()
            }),
            are_bursts(old(self).stale_periods@, final(self).stale_bursts@),
            final(self).coverage == old(self).coverage,
    {
        reveal(closing_notes);
        let ghost s0 = self.state();
        let ghost req = config.required();
        let ghost zero = config.zero_cost_mode;
        if self.event_count == 0 {
            note(&mut self.findings, "empty_log", "no readable events");
        }
        let ghost n1 = notes(self.findings@);
        assert(n1 =~= s0.notes + when(s0.events == 0, ("empty_log"@, "no readable events"@)));
        let mut i: usize = 0;
        assert(req.take(0).len() == 0);
        assert(notes(self.findings@) =~= n1 + missing_notes(req.take(0), s0.streams, zero));
        while i < config.required_streams.entries.len()
            invariant
                i <= config.required_streams.entries@.len(),
                req == config.required(),
                zero == config.zero_cost_mode,
                self.wf(),
                self.streams.map() == s0.streams,
                notes(self.findings@) == n1 + missing_notes(req.take(i as int), s0.streams, zero),
                self.event_count == old(self).event_count,
                self.first_recv_ts_ns == old(self).first_recv_ts_ns,
                self.last_recv_ts_ns == old(self).last_recv_ts_ns,
                self.gaps == old(self).gaps,
                self.stale_periods == old(self).stale_periods,
                self.stale_silences_ms == old(self).stale_silences_ms,
                self.worst_gap_ns == old(self).worst_gap_ns,
                self.coverage == old(self).coverage,
            decreases config.required_streams.entries@.len() - i,
        {
            let stream = &config.required_streams.entries[i].0;
            assert(req.take(i + 1).drop_last() =~= req.take(i as int));
            assert(req.take(i + 1).last() == stream@);
            let expected = config.zero_cost_mode && same(stream.as_str(), "book");
            if !self.streams.contains(stream) && !expected {
                note(&mut self.findings, "missing_stream", stream.as_str());
            }
            assert(notes(self.findings@) =~= n1 + missing_notes(req.take(i + 1), s0.streams, zero));
            i = i + 1;
        }
        assert(req.take(i as int) =~= req);
        let ghost n2 = notes(self.findings@);
        self.stale_bursts = burst_windows(&self.stale_periods);
        if self.gaps.len() > 0 {
            let mut text = String::new();
            push_dec(&mut text, self.gaps.len() as u64);
            push_text(&mut text, " gap(s)");
            assert(text@ =~= dec(s0.gaps.len()) + " gap(s)"@);
            note(&mut self.findings, "coverage_gap", text.as_str());
        }
        let ghost n3 = notes(self.findings@);
        if self.stale_periods.len() > 0 {
            let mut text = String::new();
            push_dec(&mut text, self.stale_periods.len() as u64);
            push_text(&mut text, " stale status event(s)");
            assert(text@ =~= dec(s0.stale.len()) + " stale status event(s)"@);
            note(&mut self.findings, "stale_stream", text.as_str());
        }
        assert(self.state().notes =~= s0.notes + closing_notes(s0, req, zero));
    }

    /// The numbers that decide the coverage.
    pub fn coverage_input(&self) -> (r: CoverageInput)
        requires
            gaps_summable(self.gaps@),
        ensures
            r == coverage_input_of(self.state()),
    {
        match (self.first_recv_ts_ns, self.last_recv_ts_ns) {
            (Some(first), Some(last)) => {
                let wide: i128 = (last as i128) - (first as i128);
                let span: i64 = if wide > i64::MAX as i128 {
                    i64::MAX
                } else if wide < i64::MIN as i128 {
                    i64::MIN
                } else {
                    wide as i64
                };
                if span == 0 {
                    return CoverageInput::Whole;
                }
                let mut lost: i64 = 0;
                let mut i: usize = 0;
                while i < self.gaps.len()
                    invariant
                        i <= self.gaps@.len(),
                        gaps_summable(self.gaps@),
                        lost == total_len(self.gaps@.take(i as int)),
                    decreases self.gaps@.len() - i,
                {
                    proof {
                        lemma_total_len(self.gaps@, i as int);
                        lemma_total_len(self.gaps@, i + 1);
                        assert(self.gaps@.take(i + 1).drop_last() =~= self.gaps@.take(i as int));
                        assert(self.gaps@[i as int].start_ns <= self.gaps@[i as int].end_ns);
                    }
                    let wide_gap: i128 = (self.gaps[i].end_ns as i128) - (
                    self.gaps[i].start_ns as i128);
                    lost = ((lost as i128) + wide_gap) as i64;
                    i = i + 1;
                }
                assert(self.gaps@.take(i as int) =~= self.gaps@);
                CoverageInput::Ratio { lost_ns: lost, span_ns: span }
            },
            _ => CoverageInput::Nothing,
        }
    }

    /// Sets the coverage and names it when it misses the bar. `shown` is the
    /// coverage as text, to four places.
    pub fn settle(&mut self, coverage: Real, shown: &str, zero_cost_mode: bool)
        requires
            old(self).wf(),
        ensures
            final(self).wf(),
            final(self).coverage == coverage,
            final(self).stale_bursts == old(self).stale_bursts,
            final(self).state() == (AuditState {
                notes: old(self).state().notes + when(
                    old(self).event_count > 0 && coverage.lt(bar_of(zero_cost_mode)),
                    (
                        "low_coverage"@,
                        "coverage "@ + shown@ + " < required "@ + bar_text(zero_cost_mode),
                    ),
                ),
                ..old(self).state()
            }),
    {
        let ghost n0 = notes(self.findings@);
        self.coverage = coverage;
        let bar = if zero_cost_mode {
            Real { bits: ZERO_COST_MIN_COVERAGE }
        } else {
            Real { bits: MIN_COVERAGE }
        };
        if self.event_count > 0 && coverage.less(bar) {
            let mut text = "coverage ".to_owned();
            push_text(&mut text, shown);
            push_text(&mut text, " < required ");
            if zero_cost_mode {
                push_text(&mut text, "0.95");
            } else {
                push_text(&mut text, "0.995");
            }
            note(&mut self.findings, "low_coverage", text.as_str());
        }
        assert(notes(self.findings@) =~= n0 + when(
            old(self).event_count > 0 && coverage.lt(bar_of(zero_cost_mode)),
            (
                "low_coverage"@,
                "coverage "@ + shown@ + " < required "@ + bar_text(zero_cost_mode),
            ),
        ));
    }
}

/// The coverage bar of the mode.
pub open spec fn bar_of(zero_cost_mode: bool) -> Real {
    if zero_cost_mode {
        Real { bits: ZERO_COST_MIN_COVERAGE }
    } else {
        Real { bits: MIN_COVERAGE }
    }
}

/// The coverage bar of the mode, as text.
pub open spec fn bar_text(zero_cost_mode: bool) -> Seq<char> {
    if zero_cost_mode {
        "0.95"@
    } else {
        "0.995"@
    }
}

// ---------------------------------------------------------------------------
// A whole recording
// ---------------------------------------------------------------------------

/// What reading a recording gave.
pub enum RawLogContents {
    /// There is no such file.
    Missing { path: String },
    /// The file cannot be opened as a recording.
    Unreadable { error: String },
    /// The events up to the end or the first failure, each with the index of
    /// the symbol table that was known at it.
    Events {
        tables: Vec<Vec<SymbolMeta>>,
        events: Vec<(usize, EventEnvelope)>,
        failure: Option<String>,
    },
}

/// Each event names a table, and no step forward in time overflows.
pub open spec fn readable(tables: Seq<Vec<SymbolMeta>>, events: Seq<(usize, EventEnvelope)>) -> bool {
    &&& forall|i: int| 0 <= i < events.len() ==> (#[trigger] events[i]).0 < tables.len()
    &&& forall|i: int| 0 <= i < events.len() - 1 ==> #[trigger] step_fits(events, i)
}

/// The step in time behind event `i` fits in 64 bits.
pub open spec fn step_fits(events: Seq<(usize, EventEnvelope)>, i: int) -> bool {
    events[i + 1].1.recv_ts_ns - events[i].1.recv_ts_ns <= i64::MAX
}

/// The audit after all `events`.
pub open spec fn recorded_all(
    tables: Seq<Vec<SymbolMeta>>,
    events: Seq<(usize, EventEnvelope)>,
    venue: Venue,
    symbol: Seq<char>,
    max_gap: i64,
) -> AuditState
    decreases events.len(),
{
    if events.len() == 0 {
        start_state()
    } else {
        recorded(
            recorded_all(tables, events.drop_last(), venue, symbol, max_gap),
            events.last().1,
            tables[events.last().0 as int]@,
            venue,
            symbol,
            max_gap,
        )
    }
}

/// The audit of a recording before its coverage is known.
pub open spec fn audited(
    contents: RawLogContents,
    venue: Venue,
    symbol: Seq<char>,
    max_gap: i64,
    required: Seq<Seq<char>>,
    zero_cost_mode: bool,
) -> AuditState {
    match contents {
        RawLogContents::Missing { path } => AuditState {
            notes: seq![("recording_missing"@, path@)],
            ..start_state()
        },
        RawLogContents::Unreadable { error } => AuditState {
            notes: seq![("unreadable_log"@, error@)],
            ..start_state()
        },
        RawLogContents::Events { tables, events, failure } => {
            let read = recorded_all(tables@, events@, venue, symbol, max_gap);
            let failed = AuditState {
                notes: read.notes + (match failure {
                    Some(error) => seq![("legacy_or_malformed"@, error@)],
                    None => Seq::empty(),
                }),
                ..read
            };
            AuditState { notes: failed.notes + closing_notes(failed, required, zero_cost_mode), ..failed }
        },
    }
}

/// Audits the events of a recording, up to its coverage.
fn audit_events(
    tables: &Vec<Vec<SymbolMeta>>,
    events: &Vec<(usize, EventEnvelope)>,
    failure: &Option<String>,
    config: &AuditConfig,
) -> (a: RawLogAudit)
    requires
        config.wf(),
        readable(tables@, events@),
    ensures
        a.wf(),
        a.state() == audited(
            RawLogContents::Events { tables: *tables, events: *events, failure: *failure },
            config.venue,
            config.symbol@,
            config.max_gap_ns,
            config.required(),
            config.zero_cost_mode,
        ),
        are_bursts(a.stale_periods@, a.stale_bursts@),
        a.coverage == (Real { bits: 0 }),
{
    let mut a = RawLogAudit::start();
    let mut i: usize = 0;
    while i < events.len()
        invariant
            i <= events@.len(),
            readable(tables@, events@),
            a.wf(),
            a.event_count == i,
            a.coverage == (Real { bits: 0 }),
            a.state() == recorded_all(
                tables@,
                events@.take(i as int),
                config.venue,
                config.symbol@,
                config.max_gap_ns,
            ),
            a.last_recv_ts_ns == if i == 0 {
                None
            } else {
                Some(events@[i - 1].1.recv_ts_ns)
            },
        decreases events@.len() - i,
    {
        let entry = &events[i];
        assert(events@[i as int].0 < tables@.len());
        if i > 0 {
            assert(step_fits(events@, i - 1));
        }
        a.record(&entry.1, &tables[entry.0], config);
        assert(events@.take(i + 1).drop_last() =~= events@.take(i as int));
        i = i + 1;
    }
    assert(events@.take(i as int) =~= events@);
    let ghost read = a.state();
    match failure {
        Some(error) => {
            a.record_failure(error.as_str());
            assert(a.state().notes =~= read.notes + seq![
                ("legacy_or_malformed"@, error@),
            ]);
        },
        None => {
            assert(a.state().notes =~= read.notes + Seq::<Note>::empty());
        },
    }
    a.close(config);
    a
}

/// Audits a recording, up to its coverage: what is left is to compute the
/// share that [`RawLogAudit::coverage_input`] describes and to
/// [`settle`](RawLogAudit::settle) it. A recording that is missing or cannot
/// be opened has its one finding and is settled as it stands.
pub fn audit_raw_log(contents: &RawLogContents, config: &AuditConfig) -> (a: RawLogAudit)
    requires
        config.wf(),
        contents matches RawLogContents::Events { tables, events, .. } ==> readable(
            tables@,
            events@,
        ),
    ensures
        a.wf(),
        a.state() == audited(
            *contents,
            config.venue,
            config.symbol@,
            config.max_gap_ns,
            config.required(),
            config.zero_cost_mode,
        ),
        are_bursts(a.stale_periods@, a.stale_bursts@),
        a.coverage == (Real { bits: 0 }),
{
    let mut a = RawLogAudit::start();
    match contents {
        RawLogContents::Missing { path } => {
            note(&mut a.findings, "recording_missing", path.as_str());
            assert(a.state().notes =~= seq![("recording_missing"@, path@)]);
            a.stale_bursts = burst_windows(&a.stale_periods);
        },
        RawLogContents::Unreadable { error } => {
            note(&mut a.findings, "unreadable_log", error.as_str());
            assert(a.state().notes =~= seq![("unreadable_log"@, error@)]);
            a.stale_bursts = burst_windows(&a.stale_periods);
        },
        RawLogContents::Events { tables, events, failure } => {
            a = audit_events(tables, events, failure, config);
        },
    }
    a
}

/// Gaps of an audited recording lie forward in time, so that they can be
/// summed.
pub proof fn law_recorded_gaps_forward(
    tables: Seq<Vec<SymbolMeta>>,
    events: Seq<(usize, EventEnvelope)>,
    venue: Venue,
    symbol: Seq<char>,
    max_gap: i64,
)
    ensures
        forall|i: int|
            0 <= i < recorded_all(tables, events, venue, symbol, max_gap).gaps.len() ==> (
            #[trigger] recorded_all(tables, events, venue, symbol, max_gap).gaps[i]).start_ns
                <= recorded_all(tables, events, venue, symbol, max_gap).gaps[i].end_ns,
    decreases events.len(),
{
    reveal(recorded);
    if events.len() > 0 {
        law_recorded_gaps_forward(tables, events.drop_last(), venue, symbol, max_gap);
    }
}

/// Each stale report has the silence that it measured.
pub proof fn law_silence_for_each_report(
    tables: Seq<Vec<SymbolMeta>>,
    events: Seq<(usize, EventEnvelope)>,
    venue: Venue,
    symbol: Seq<char>,
    max_gap: i64,
)
    ensures
        recorded_all(tables, events, venue, symbol, max_gap).silences.len() == recorded_all(
            tables,
            events,
            venue,
            symbol,
            max_gap,
        ).stale.len(),
    decreases events.len(),
{
    reveal(recorded);
    if events.len() > 0 {
        law_silence_for_each_report(tables, events.drop_last(), venue, symbol, max_gap);
    }
}

/// A recording that is missing, cannot be opened, holds no event, breaks off
/// at a bad frame, or lacks a stream that its mode expects is never clean, whatever its
/// coverage.
pub proof fn law_unattributable_is_never_clean(
    contents: RawLogContents,
    config: AuditConfig,
    audit: RawLogAudit,
    bar: Real,
)
    requires
        audit.state() == audited(
            contents,
            config.venue,
            config.symbol@,
            config.max_gap_ns,
            config.required(),
            config.zero_cost_mode,
        ),
        match contents {
            RawLogContents::Events { failure, events, .. } => failure is Some || events@.len() == 0
                || exists|i: int|
                #![trigger config.required()[i]]
                0 <= i < config.required().len() && !audit.streams.map().dom().contains(
                    config.required()[i],
                ) && !may_be_absent(config.required()[i], config.zero_cost_mode),
            _ => true,
        },
    ensures
        !audit.clean_at(bar),
{
    match contents {
        RawLogContents::Events { tables, events, failure } => {
            let read = recorded_all(
                tables@,
                events@,
                config.venue,
                config.symbol@,
                config.max_gap_ns,
            );
            reveal(recorded);
            reveal(closing_notes);
            let n = audit.state().notes;
            assert(audit.findings@.len() == n.len());
            if events@.len() == 0 {
                assert(audit.event_count == 0);
            } else if failure is Some {
                let at = read.notes.len() as int;
                let failed_notes = read.notes + seq![("legacy_or_malformed"@, failure->0@)];
                let failed = AuditState { notes: failed_notes, ..read };
                assert(n == failed_notes + closing_notes(failed, config.required(), config.zero_cost_mode));
                assert(n[at] == failed_notes[at]);
                assert(n[at].0 == "legacy_or_malformed"@);
                assert(audit.findings@[at].code@ == "legacy_or_malformed"@);
                reveal_blocking_codes();
            } else {
                let i = choose|i: int|
                    #![trigger config.required()[i]]
                    0 <= i < config.required().len() && !audit.streams.map().dom().contains(
                        config.required()[i],
                    ) && !may_be_absent(config.required()[i], config.zero_cost_mode);
                let zero = config.zero_cost_mode;
                let missing = missing_notes(config.required(), read.streams, zero);
                lemma_missing_named(config.required(), read.streams, zero, i);
                let j = choose|j: int|
                    0 <= j < missing.len() && (#[trigger] missing[j]).0 == "missing_stream"@;
                let failed_notes = read.notes + Seq::<Note>::empty();
                let failed = AuditState { notes: failed_notes, ..read };
                assert(n == failed_notes + closing_notes(failed, config.required(), config.zero_cost_mode));
                let head = failed_notes + when(
                    read.events == 0,
                    ("empty_log"@, "no readable events"@),
                );
                let at = head.len() + j;
                assert(n[at] == missing[j]);
                assert(audit.findings@[at].code@ == "missing_stream"@);
                reveal_blocking_codes();
            }
        },
        _ => {
            assert(audit.event_count == 0);
        },
    }
}

proof fn lemma_missing_named(
    required: Seq<Seq<char>>,
    streams: Map<Seq<char>, u64>,
    zero: bool,
    i: int,
)
    requires
        0 <= i < required.len(),
        !streams.dom().contains(required[i]),
        !may_be_absent(required[i], zero),
    ensures
        exists|j: int|
            0 <= j < missing_notes(required, streams, zero).len() && (#[trigger] missing_notes(
                required,
                streams,
                zero,
            )[j]).0 == "missing_stream"@,
    decreases required.len(),
{
    let m = missing_notes(required, streams, zero);
    if i == required.len() - 1 {
        assert(m[m.len() - 1].0 == "missing_stream"@);
    } else {
        lemma_missing_named(required.drop_last(), streams, zero, i);
        let b = missing_notes(required.drop_last(), streams, zero);
        let j = choose|j: int| 0 <= j < b.len() && (#[trigger] b[j]).0 == "missing_stream"@;
        assert(m[j] == b[j]);
    }
}

proof fn reveal_blocking_codes()
    ensures
        !warning_code("legacy_or_malformed"@),
        !warning_code("missing_stream"@),
{
    reveal_strlit("legacy_or_malformed");
    reveal_strlit("missing_stream");
    reveal_strlit("recv_time_reversal");
    reveal_strlit("stale_stream");
    reveal_strlit("coverage_gap");
    assert("legacy_or_malformed"@.len() == 19);
    assert("recv_time_reversal"@.len() == 18);
    assert("stale_stream"@.len() == 12);
    assert("coverage_gap"@.len() == 12);
    assert("missing_stream"@.len() == 14);
}

// ---------------------------------------------------------------------------
// Scorecards
// ---------------------------------------------------------------------------

/// The verdict of one day over all its recordings.
pub struct DailyScorecard {
    pub date: String,
    pub recordings: Vec<ScorecardEntry>,
    pub promotable: bool,
    /// Burst counts, one per recording.
    pub recording_bursts: Vec<RecordingBursts>,
}

/// One recording on a scorecard.
pub struct ScorecardEntry {
    pub venue: String,
    pub symbol: String,
    pub clean: bool,
    pub audit: RawLogAudit,
}

/// One recording's number of stale bursts.
#[derive(Debug)]
pub struct RecordingBursts {
    pub venue: String,
    pub symbol: String,
    pub stale_bursts: usize,
}

/// The scorecard entry of a recording.
pub open spec fn is_entry_of(
    entry: ScorecardEntry,
    bursts: RecordingBursts,
    recording: (Venue, String, RawLogAudit),
) -> bool {
    &&& entry.venue@ == slug_of(recording.0)
    &&& entry.symbol@ == recording.1@
    &&& entry.clean == recording.2.clean_at(Real { bits: MIN_COVERAGE })
    &&& entry.audit == recording.2
    &&& bursts.venue@ == slug_of(recording.0)
    &&& bursts.symbol@ == recording.1@
    &&& bursts.stale_bursts == recording.2.stale_bursts@.len()
}

/// The day's scorecard: promotable when there are recordings and every one of
/// them is clean.
pub fn scorecard(date: &str, entries: Vec<(Venue, String, RawLogAudit)>) -> (card: DailyScorecard)
    ensures
        card.date@ == date@,
        card.recordings@.len() == entries@.len(),
        card.recording_bursts@.len() == entries@.len(),
        forall|i: int|
            0 <= i < entries@.len() ==> is_entry_of(
                #[trigger] card.recordings@[i],
                card.recording_bursts@[i],
                entries@[i],
            ),
        card.promotable == (entries@.len() > 0 && forall|i: int|
            0 <= i < entries@.len() ==> (#[trigger] entries@[i]).2.clean_at(
                Real { bits: MIN_COVERAGE },
            )),
{
    let ghost all = entries@;
    let mut recordings: Vec<ScorecardEntry> = Vec::new();
    let mut recording_bursts: Vec<RecordingBursts> = Vec::new();
    let mut promotable = entries.len() > 0;
    for item in it: entries
        invariant
            it.seq() == all,
            recordings@.len() == it.index(),
            recording_bursts@.len() == it.index(),
            forall|i: int|
                0 <= i < it.index() ==> is_entry_of(
                    #[trigger] recordings@[i],
                    recording_bursts@[i],
                    all[i],
                ),
            promotable == (all.len() > 0 && forall|i: int|
                0 <= i < it.index() ==> (#[trigger] all[i]).2.clean_at(
                    Real { bits: MIN_COVERAGE },
                )),
    {
        let (venue, symbol, audit) = item;
        let clean = audit.is_clean();
        recording_bursts.push(
            RecordingBursts {
                venue: venue.slug().to_owned(),
                symbol: symbol.clone(),
                stale_bursts: audit.stale_bursts.len(),
            },
        );
        recordings.push(ScorecardEntry { venue: venue.slug().to_owned(), symbol, clean, audit });
        promotable = promotable && clean;
    }
    DailyScorecard { date: date.to_owned(), recordings, promotable, recording_bursts }
}

/// A day is promotable only when none of its recordings is unclean: one
/// healthy recording never hides another.
pub proof fn law_one_unclean_recording_blocks(
    entries: Seq<(Venue, String, RawLogAudit)>,
    promotable: bool,
    i: int,
)
    requires
        promotable == (entries.len() > 0 && forall|k: int|
            0 <= k < entries.len() ==> (#[trigger] entries[k]).2.clean_at(
                Real { bits: MIN_COVERAGE },
            )),
        0 <= i < entries.len(),
        !entries[i].2.clean_at(Real { bits: MIN_COVERAGE }),
    ensures
        !promotable,
{
}

// ---------------------------------------------------------------------------
// What blocks a recording
// ---------------------------------------------------------------------------

/// Whether the findings have one of that code.
pub open spec fn names_code(ns: Seq<Note>, code: Seq<char>) -> bool {
    exists|k: int| 0 <= k < ns.len() && (#[trigger] ns[k]).0 == code
}

proof fn lemma_names_in_sum(a: Seq<Note>, b: Seq<Note>, code: Seq<char>)
    ensures
        names_code(a + b, code) == (names_code(a, code) || names_code(b, code)),
{
    let c = a + b;
    if names_code(a, code) {
        let k = choose|k: int| 0 <= k < a.len() && (#[trigger] a[k]).0 == code;
        assert(c[k].0 == code);
    }
    if names_code(b, code) {
        let k = choose|k: int| 0 <= k < b.len() && (#[trigger] b[k]).0 == code;
        assert(c[a.len() + k].0 == code);
    }
    if names_code(c, code) {
        let k = choose|k: int| 0 <= k < c.len() && (#[trigger] c[k]).0 == code;
        if k < a.len() {
            assert(a[k].0 == code);
        } else {
            assert(b[k - a.len()].0 == code);
        }
    }
}

/// What an event may be blamed for, under the code of the finding.
pub open spec fn to_blame(
    e: EventEnvelope,
    table: Seq<SymbolMeta>,
    venue: Venue,
    symbol: Seq<char>,
    code: Seq<char>,
) -> bool {
    let known = e.symbol.0 < table.len() && table[e.symbol.0 as int].symbol_id == e.symbol;
    ||| code == "venue_mismatch"@ && e.venue != venue
    ||| code == "invalid_symbol_table"@ && !known
    ||| code == "symbol_mismatch"@ && known && (table[e.symbol.0 as int].venue != venue
        || table[e.symbol.0 as int].venue_symbol@ != symbol)
    ||| code == "missing_provenance"@ && (e.provenance.stream@.len() == 0
        || e.provenance.subscription@.len() == 0)
    ||| code == "missing_snapshot_source"@ && e.body is BookSnapshot
        && e.provenance.snapshot_source == SnapshotSource::Unknown
    ||| code == "sequence_gap"@ && (e.body matches MarketEvent::Status { kind, .. } && kind
        == StatusKind::GapDetected)
    ||| code == "backpressure_loss"@ && (e.body matches MarketEvent::Status { kind, .. } && (kind
        is BackpressureDrop))
}

/// What an event adds to the findings is what it may be blamed for.
proof fn lemma_blame_noted(
    e: EventEnvelope,
    table: Seq<SymbolMeta>,
    venue: Venue,
    symbol: Seq<char>,
    code: Seq<char>,
)
    ensures
        names_code(event_notes(e, table, venue, symbol) + status_notes(e), code) == to_blame(
            e,
            table,
            venue,
            symbol,
            code,
        ),
{
    let id = e.symbol.0 as int;
    let a = when(e.venue != venue, ("venue_mismatch"@, "event has "@ + venue_name_of(e.venue)));
    let b = if known_symbol(e, table) {
        when(
            table[id].venue != venue || table[id].venue_symbol@ != symbol,
            (
                "symbol_mismatch"@,
                "symbol id "@ + dec(id as nat) + " resolves to "@ + venue_name_of(table[id].venue)
                    + "/"@ + table[id].venue_symbol@,
            ),
        )
    } else {
        seq![("invalid_symbol_table"@, "symbol id "@ + dec(id as nat) + " is not present"@)]
    };
    let c = when(
        e.provenance.stream@.len() == 0 || e.provenance.subscription@.len() == 0,
        ("missing_provenance"@, "stream/subscription is not live-attributable"@),
    );
    let d = when(
        e.body is BookSnapshot && e.provenance.snapshot_source == SnapshotSource::Unknown,
        ("missing_snapshot_source"@, "book snapshot has no source"@),
    );
    let f = status_notes(e);
    assert(event_notes(e, table, venue, symbol) == a + b + c + d);
    lemma_names_in_sum(a, b, code);
    lemma_names_in_sum(a + b, c, code);
    lemma_names_in_sum(a + b + c, d, code);
    lemma_names_in_sum(a + b + c + d, f, code);
    lemma_single_named(a, code);
    lemma_single_named(b, code);
    lemma_single_named(c, code);
    lemma_single_named(d, code);
    lemma_single_named(f, code);
}

proof fn lemma_single_named(ns: Seq<Note>, code: Seq<char>)
    requires
        ns.len() <= 1,
    ensures
        names_code(ns, code) == (ns.len() == 1 && ns[0].0 == code),
{
    if ns.len() == 1 && ns[0].0 == code {
        assert(ns[0].0 == code);
    }
}

/// The findings of the events read are those that some event is to blame for,
/// and the reversals.
proof fn lemma_read_blame(
    tables: Seq<Vec<SymbolMeta>>,
    events: Seq<(usize, EventEnvelope)>,
    venue: Venue,
    symbol: Seq<char>,
    max_gap: i64,
    code: Seq<char>,
)
    requires
        code != "recv_time_reversal"@,
    ensures
        names_code(recorded_all(tables, events, venue, symbol, max_gap).notes, code) == (exists|
            i: int,
        |
            0 <= i < events.len() && to_blame(
                (#[trigger] events[i]).1,
                tables[events[i].0 as int]@,
                venue,
                symbol,
                code,
            )),
    decreases events.len(),
{
    reveal(recorded);
    if events.len() > 0 {
        let f = events.drop_last();
        let last = events.last();
        let s = recorded_all(tables, f, venue, symbol, max_gap);
        let table = tables[last.0 as int]@;
        lemma_read_blame(tables, f, venue, symbol, max_gap, code);
        lemma_blame_noted(last.1, table, venue, symbol, code);
        let a = event_notes(last.1, table, venue, symbol);
        let b = when(
            s.last matches Some(p) && last.1.recv_ts_ns < p,
            (
                "recv_time_reversal"@,
                dec_int(s.last->0 as int) + " then "@ + dec_int(last.1.recv_ts_ns as int),
            ),
        );
        let c = status_notes(last.1);
        lemma_names_in_sum(s.notes, a, code);
        lemma_names_in_sum(s.notes + a, b, code);
        lemma_names_in_sum(s.notes + a + b, c, code);
        lemma_names_in_sum(a, c, code);
        lemma_single_named(b, code);
        assert(recorded_all(tables, events, venue, symbol, max_gap).notes == s.notes + a + b + c);
        if exists|i: int|
            0 <= i < f.len() && to_blame(
                (#[trigger] f[i]).1,
                tables[f[i].0 as int]@,
                venue,
                symbol,
                code,
            ) {
            let i = choose|i: int|
                0 <= i < f.len() && to_blame(
                    (#[trigger] f[i]).1,
                    tables[f[i].0 as int]@,
                    venue,
                    symbol,
                    code,
                );
            assert(events[i] == f[i]);
        }
        if exists|i: int|
            0 <= i < events.len() && to_blame(
                (#[trigger] events[i]).1,
                tables[events[i].0 as int]@,
                venue,
                symbol,
                code,
            ) {
            let i = choose|i: int|
                0 <= i < events.len() && to_blame(
                    (#[trigger] events[i]).1,
                    tables[events[i].0 as int]@,
                    venue,
                    symbol,
                    code,
                );
            if i < f.len() {
                assert(f[i] == events[i]);
            }
        }
        if to_blame(last.1, table, venue, symbol, code) {
            assert(events[events.len() - 1] == last);
        }
    }
}

proof fn lemma_codes_differ()
    ensures
        !warning_code("venue_mismatch"@),
        !warning_code("invalid_symbol_table"@),
        !warning_code("symbol_mismatch"@),
        !warning_code("missing_provenance"@),
        !warning_code("missing_snapshot_source"@),
        !warning_code("sequence_gap"@),
        !warning_code("backpressure_loss"@),
        !warning_code("missing_stream"@),
        !warning_code("empty_log"@),
        !warning_code("low_coverage"@),
        !warning_code("legacy_or_malformed"@),
        !warning_code("recording_missing"@),
        !warning_code("unreadable_log"@),
        warning_code("recv_time_reversal"@),
        warning_code("stale_stream"@),
        warning_code("coverage_gap"@),
{
    reveal_strlit("venue_mismatch");
    reveal_strlit("invalid_symbol_table");
    reveal_strlit("symbol_mismatch");
    reveal_strlit("missing_provenance");
    reveal_strlit("missing_snapshot_source");
    reveal_strlit("sequence_gap");
    reveal_strlit("backpressure_loss");
    reveal_strlit("missing_stream");
    reveal_strlit("empty_log");
    reveal_strlit("low_coverage");
    reveal_strlit("legacy_or_malformed");
    reveal_strlit("recording_missing");
    reveal_strlit("unreadable_log");
    reveal_strlit("recv_time_reversal");
    reveal_strlit("stale_stream");
    reveal_strlit("coverage_gap");
    assert("recv_time_reversal"@.len() == 18 && "recv_time_reversal"@[0] == 'r'
        && "recv_time_reversal"@[2] == 'c' && "recv_time_reversal"@[3] == 'v');
    assert("stale_stream"@.len() == 12 && "stale_stream"@[0] == 's' && "stale_stream"@[1] == 't');
    assert("coverage_gap"@.len() == 12 && "coverage_gap"@[0] == 'c');
    assert("venue_mismatch"@.len() == 14);
    assert("invalid_symbol_table"@.len() == 20);
    assert("symbol_mismatch"@.len() == 15);
    assert("missing_provenance"@.len() == 18 && "missing_provenance"@[0] == 'm');
    assert("missing_snapshot_source"@.len() == 23);
    assert("sequence_gap"@.len() == 12 && "sequence_gap"@[0] == 's' && "sequence_gap"@[1] == 'e');
    assert("backpressure_loss"@.len() == 17);
    assert("missing_stream"@.len() == 14);
    assert("empty_log"@.len() == 9);
    assert("low_coverage"@.len() == 12 && "low_coverage"@[0] == 'l');
    assert("legacy_or_malformed"@.len() == 19);
    assert("recording_missing"@.len() == 17);
    assert("unreadable_log"@.len() == 14);
}

/// The codes of which an event can be to blame keep a recording from
/// promotion.
proof fn lemma_blame_blocks(
    e: EventEnvelope,
    table: Seq<SymbolMeta>,
    venue: Venue,
    symbol: Seq<char>,
    code: Seq<char>,
)
    requires
        to_blame(e, table, venue, symbol, code),
    ensures
        !warning_code(code),
        code != "recv_time_reversal"@,
{
    lemma_codes_differ();
}

/// A recording with an event that is of another venue or symbol, that its own
/// table does not know, that lacks its provenance or its source, or that reports
/// a hole in the sequence or dropped frames, has a finding of that code, and is
/// clean at no bar.
pub proof fn law_blame_blocks_a_recording(
    tables: Vec<Vec<SymbolMeta>>,
    events: Vec<(usize, EventEnvelope)>,
    failure: Option<String>,
    config: AuditConfig,
    audit: RawLogAudit,
    bar: Real,
    i: int,
    code: Seq<char>,
)
    requires
        audit.state() == audited(
            RawLogContents::Events { tables, events, failure },
            config.venue,
            config.symbol@,
            config.max_gap_ns,
            config.required(),
            config.zero_cost_mode,
        ),
        0 <= i < events@.len(),
        to_blame(
            events@[i].1,
            tables@[events@[i].0 as int]@,
            config.venue,
            config.symbol@,
            code,
        ),
    ensures
        names_code(notes(audit.findings@), code),
        !audit.clean_at(bar),
{
    let (v, y, m) = (config.venue, config.symbol@, config.max_gap_ns);
    lemma_blame_blocks(events@[i].1, tables@[events@[i].0 as int]@, v, y, code);
    lemma_read_blame(tables@, events@, v, y, m, code);
    let read = recorded_all(tables@, events@, v, y, m);
    let mid = match failure {
        Some(error) => seq![("legacy_or_malformed"@, error@)],
        None => Seq::empty(),
    };
    let failed = AuditState { notes: read.notes + mid, ..read };
    let end = closing_notes(failed, config.required(), config.zero_cost_mode);
    lemma_names_in_sum(read.notes, mid, code);
    lemma_names_in_sum(read.notes + mid, end, code);
    let ns = notes(audit.findings@);
    assert(ns == read.notes + mid + end);
    let k = choose|k: int| 0 <= k < ns.len() && (#[trigger] ns[k]).0 == code;
    assert(audit.findings@[k].code@ == code);
}

/// A hole in the sequence is always found, and so are dropped frames.
pub proof fn law_reported_loss_blocks(
    tables: Vec<Vec<SymbolMeta>>,
    events: Vec<(usize, EventEnvelope)>,
    failure: Option<String>,
    config: AuditConfig,
    audit: RawLogAudit,
    bar: Real,
    i: int,
)
    requires
        audit.state() == audited(
            RawLogContents::Events { tables, events, failure },
            config.venue,
            config.symbol@,
            config.max_gap_ns,
            config.required(),
            config.zero_cost_mode,
        ),
        0 <= i < events@.len(),
    ensures
        (events@[i].1.body matches MarketEvent::Status { kind: StatusKind::GapDetected, .. })
            ==> names_code(notes(audit.findings@), "sequence_gap"@) && !audit.clean_at(bar),
        (events@[i].1.body matches MarketEvent::Status {
            kind: StatusKind::BackpressureDrop { .. },
            ..
        }) ==> names_code(notes(audit.findings@), "backpressure_loss"@) && !audit.clean_at(bar),
{
    let (a, b) = ("sequence_gap"@, "backpressure_loss"@);
    let table = tables@[events@[i].0 as int]@;
    if to_blame(events@[i].1, table, config.venue, config.symbol@, a) {
        law_blame_blocks_a_recording(tables, events, failure, config, audit, bar, i, a);
    }
    if to_blame(events@[i].1, table, config.venue, config.symbol@, b) {
        law_blame_blocks_a_recording(tables, events, failure, config, audit, bar, i, b);
    }
}

proof fn lemma_missing_codes(
    required: Seq<Seq<char>>,
    streams: Map<Seq<char>, u64>,
    zero: bool,
    code: Seq<char>,
)
    ensures
        names_code(missing_notes(required, streams, zero), code) == (code == "missing_stream"@
            && exists|i: int|
            0 <= i < required.len() && !streams.dom().contains(#[trigger] required[i]) && !(zero
                && required[i] == "book"@)),
    decreases required.len(),
{
    if required.len() > 0 {
        let f = required.drop_last();
        lemma_missing_codes(f, streams, zero, code);
        let n = required.len() - 1;
        let b = when(
            !streams.dom().contains(required.last()) && !may_be_absent(required.last(), zero),
            ("missing_stream"@, required.last()),
        );
        lemma_names_in_sum(missing_notes(f, streams, zero), b, code);
        lemma_single_named(b, code);
        if exists|i: int|
            0 <= i < f.len() && !streams.dom().contains(#[trigger] f[i]) && !(zero && f[i]
                == "book"@) {
            let i = choose|i: int|
                0 <= i < f.len() && !streams.dom().contains(#[trigger] f[i]) && !(zero && f[i]
                    == "book"@);
            assert(required[i] == f[i]);
        }
        if exists|i: int|
            0 <= i < required.len() && !streams.dom().contains(#[trigger] required[i]) && !(zero
                && required[i] == "book"@) {
            let i = choose|i: int|
                0 <= i < required.len() && !streams.dom().contains(#[trigger] required[i]) && !(zero
                    && required[i] == "book"@);
            if i < n {
                assert(f[i] == required[i]);
            }
        }
        assert(required[n] == required.last());
    }
}

/// The findings of a recording, by code: those that an event is to blame for; a
/// frame that could not be read; no event at all; a required stream that never
/// came, but for the book where the mode expects none; and, as warnings,
/// reversals, gaps and stale reports. There are no others.
pub proof fn law_findings_have_causes(
    tables: Vec<Vec<SymbolMeta>>,
    events: Vec<(usize, EventEnvelope)>,
    failure: Option<String>,
    config: AuditConfig,
    audit: RawLogAudit,
    code: Seq<char>,
)
    requires
        audit.state() == audited(
            RawLogContents::Events { tables, events, failure },
            config.venue,
            config.symbol@,
            config.max_gap_ns,
            config.required(),
            config.zero_cost_mode,
        ),
        code != "recv_time_reversal"@,
    ensures
        names_code(notes(audit.findings@), code) <==> {
            ||| exists|i: int|
                0 <= i < events@.len() && to_blame(
                    (#[trigger] events@[i]).1,
                    tables@[events@[i].0 as int]@,
                    config.venue,
                    config.symbol@,
                    code,
                )
            ||| code == "legacy_or_malformed"@ && failure is Some
            ||| code == "empty_log"@ && events@.len() == 0
            ||| code == "missing_stream"@ && exists|i: int|
                0 <= i < config.required().len() && !audit.streams.map().dom().contains(
                    #[trigger] config.required()[i],
                ) && !(config.zero_cost_mode && config.required()[i] == "book"@)
            ||| code == "coverage_gap"@ && audit.gaps@.len() > 0
            ||| code == "stale_stream"@ && audit.stale_periods@.len() > 0
        },
{
    reveal(closing_notes);
    let (v, y, m) = (config.venue, config.symbol@, config.max_gap_ns);
    lemma_read_blame(tables@, events@, v, y, m, code);
    lemma_recorded_count(tables@, events@, v, y, m);
    let read = recorded_all(tables@, events@, v, y, m);
    let mid = match failure {
        Some(error) => seq![("legacy_or_malformed"@, error@)],
        None => Seq::empty(),
    };
    let failed = AuditState { notes: read.notes + mid, ..read };
    let (req, zero) = (config.required(), config.zero_cost_mode);
    let a = when(failed.events == 0, ("empty_log"@, "no readable events"@));
    let b = missing_notes(req, failed.streams, zero);
    let c = when(failed.gaps.len() > 0, ("coverage_gap"@, dec(failed.gaps.len()) + " gap(s)"@));
    let d = when(
        failed.stale.len() > 0,
        ("stale_stream"@, dec(failed.stale.len()) + " stale status event(s)"@),
    );
    let end = closing_notes(failed, req, zero);
    assert(end == a + b + c + d);
    lemma_names_in_sum(read.notes, mid, code);
    lemma_names_in_sum(read.notes + mid, end, code);
    lemma_names_in_sum(a, b, code);
    lemma_names_in_sum(a + b, c, code);
    lemma_names_in_sum(a + b + c, d, code);
    lemma_single_named(mid, code);
    lemma_single_named(a, code);
    lemma_single_named(c, code);
    lemma_single_named(d, code);
    lemma_missing_codes(req, failed.streams, zero, code);
    assert(notes(audit.findings@) == read.notes + mid + end);
    assert(audit.streams.map() == failed.streams);
    assert(audit.gaps@ == failed.gaps);
    assert(audit.stale_periods@ == failed.stale);
}

/// What an audit counts: every event, and the first and the last time.
proof fn lemma_recorded_count(
    tables: Seq<Vec<SymbolMeta>>,
    events: Seq<(usize, EventEnvelope)>,
    venue: Venue,
    symbol: Seq<char>,
    max_gap: i64,
)
    ensures
        recorded_all(tables, events, venue, symbol, max_gap).events == events.len(),
        recorded_all(tables, events, venue, symbol, max_gap).first == if events.len() == 0 {
            None
        } else {
            Some(events[0].1.recv_ts_ns)
        },
        recorded_all(tables, events, venue, symbol, max_gap).last == if events.len() == 0 {
            None
        } else {
            Some(events.last().1.recv_ts_ns)
        },
    decreases events.len(),
{
    reveal(recorded);
    if events.len() > 0 {
        lemma_recorded_count(tables, events.drop_last(), venue, symbol, max_gap);
    }
}

/// An audit counts every event that was read, and runs from the time of the
/// first to that of the last.
pub proof fn law_audit_counts(
    tables: Vec<Vec<SymbolMeta>>,
    events: Vec<(usize, EventEnvelope)>,
    failure: Option<String>,
    config: AuditConfig,
    audit: RawLogAudit,
)
    requires
        audit.state() == audited(
            RawLogContents::Events { tables, events, failure },
            config.venue,
            config.symbol@,
            config.max_gap_ns,
            config.required(),
            config.zero_cost_mode,
        ),
    ensures
        audit.event_count == events@.len(),
        events@.len() > 0 ==> audit.first_recv_ts_ns == Some(events@[0].1.recv_ts_ns)
            && audit.last_recv_ts_ns == Some(events@.last().1.recv_ts_ns),
{
    lemma_recorded_count(tables@, events@, config.venue, config.symbol@, config.max_gap_ns);
}

/// A silence longer than allowed between two events in a row is a gap, and
/// every gap is such a silence; a step back in time is a finding.
pub proof fn law_silence_is_a_gap(
    tables: Seq<Vec<SymbolMeta>>,
    events: Seq<(usize, EventEnvelope)>,
    venue: Venue,
    symbol: Seq<char>,
    max_gap: i64,
    i: int,
)
    requires
        0 <= i < events.len() - 1,
        max_gap >= 0,
        forall|k: int|
            0 <= k < events.len() - 1 ==> (#[trigger] events[k + 1]).1.recv_ts_ns
                - events[k].1.recv_ts_ns <= i64::MAX,
    ensures
        ({
            let s = recorded_all(tables, events, venue, symbol, max_gap);
            let (a, b) = (events[i].1.recv_ts_ns, events[i + 1].1.recv_ts_ns);
            &&& b - a > max_gap ==> s.gaps.contains(TimeRange { start_ns: a, end_ns: b })
            &&& b - a > max_gap ==> s.worst_gap >= b - a
            &&& b < a ==> names_code(s.notes, "recv_time_reversal"@)
        }),
    decreases events.len(),
{
    reveal(recorded);
    let f = events.drop_last();
    let n = events.len() - 1;
    let s0 = recorded_all(tables, f, venue, symbol, max_gap);
    let s = recorded_all(tables, events, venue, symbol, max_gap);
    lemma_recorded_count(tables, f, venue, symbol, max_gap);
    let (a, b) = (events[i].1.recv_ts_ns, events[i + 1].1.recv_ts_ns);
    let g = TimeRange { start_ns: a, end_ns: b };
    let code = "recv_time_reversal"@;
    let e = events.last().1;
    let table = tables[events.last().0 as int]@;
    let x = event_notes(e, table, venue, symbol);
    let y = when(
        s0.last matches Some(p) && e.recv_ts_ns < p,
        (code, dec_int(s0.last->0 as int) + " then "@ + dec_int(e.recv_ts_ns as int)),
    );
    let z = status_notes(e);
    assert(s.notes == s0.notes + x + y + z);
    lemma_names_in_sum(s0.notes, x, code);
    lemma_names_in_sum(s0.notes + x, y, code);
    lemma_names_in_sum(s0.notes + x + y, z, code);
    lemma_single_named(y, code);
    if i + 1 < n {
        assert(f[i] == events[i] && f[i + 1] == events[i + 1]);
        assert forall|k: int| 0 <= k < f.len() - 1 implies (#[trigger] f[k + 1]).1.recv_ts_ns
            - f[k].1.recv_ts_ns <= i64::MAX by {
            assert(events[k + 1] == f[k + 1] && events[k] == f[k]);
        }
        assert(events[(n - 1) + 1].1.recv_ts_ns - events[n - 1].1.recv_ts_ns <= i64::MAX);
        assert(f.last() == events[n - 1]);
        law_silence_is_a_gap(tables, f, venue, symbol, max_gap, i);
        if b - a > max_gap {
            let k = s0.gaps.index_of(g);
            assert(s.gaps[k] == g);
        }
    } else {
        assert(f.last() == events[i]);
        if b - a > max_gap {
            assert(s.gaps[s.gaps.len() - 1] == g);
        }
    }
}

/// Every gap of an audit is a silence between two events in a row that is longer
/// than allowed.
pub proof fn law_gap_is_a_silence(
    tables: Seq<Vec<SymbolMeta>>,
    events: Seq<(usize, EventEnvelope)>,
    venue: Venue,
    symbol: Seq<char>,
    max_gap: i64,
    k: int,
) -> (i: int)
    requires
        0 <= k < recorded_all(tables, events, venue, symbol, max_gap).gaps.len(),
    ensures
        0 <= i < events.len() - 1,
        recorded_all(tables, events, venue, symbol, max_gap).gaps[k].start_ns
            == events[i].1.recv_ts_ns,
        recorded_all(tables, events, venue, symbol, max_gap).gaps[k].end_ns == events[i
            + 1].1.recv_ts_ns,
        events[i + 1].1.recv_ts_ns - events[i].1.recv_ts_ns > max_gap,
        events[i + 1].1.recv_ts_ns >= events[i].1.recv_ts_ns,
    decreases events.len(),
{
    reveal(recorded);
    let f = events.drop_last();
    let s0 = recorded_all(tables, f, venue, symbol, max_gap);
    let s = recorded_all(tables, events, venue, symbol, max_gap);
    lemma_recorded_count(tables, f, venue, symbol, max_gap);
    if k < s0.gaps.len() {
        let i = law_gap_is_a_silence(tables, f, venue, symbol, max_gap, k);
        assert(s.gaps[k] == s0.gaps[k]);
        assert(f[i] == events[i] && f[i + 1] == events[i + 1]);
        i
    } else {
        assert(f.last() == events[events.len() - 2]);
        events.len() - 2
    }
}

/// Each stale report leaves its time, and nothing else does.
pub proof fn law_stale_reports_kept(
    tables: Seq<Vec<SymbolMeta>>,
    events: Seq<(usize, EventEnvelope)>,
    venue: Venue,
    symbol: Seq<char>,
    max_gap: i64,
)
    ensures
        ({
            let s = recorded_all(tables, events, venue, symbol, max_gap);
            let own = events.filter(
                |e: (usize, EventEnvelope)|
                    e.1.body matches MarketEvent::Status { kind, .. } && kind == StatusKind::Stale,
            );
            &&& s.stale.len() == own.len()
            &&& forall|k: int|
                0 <= k < own.len() ==> (#[trigger] s.stale[k]).start_ns == own[k].1.recv_ts_ns
                    && s.stale[k].end_ns == own[k].1.recv_ts_ns
        }),
    decreases events.len(),
{
    reveal(recorded);
    reveal(Seq::filter);
    if events.len() > 0 {
        law_stale_reports_kept(tables, events.drop_last(), venue, symbol, max_gap);
        let p = |e: (usize, EventEnvelope)|
            e.1.body matches MarketEvent::Status { kind, .. } && kind == StatusKind::Stale;
        let own = events.filter(p);
        let own0 = events.drop_last().filter(p);
        if p(events.last()) {
            assert(own == own0.push(events.last()));
        } else {
            assert(own == own0);
        }
    }
}

/// Events are counted by the stream that they came on.
pub proof fn law_streams_counted(
    tables: Seq<Vec<SymbolMeta>>,
    events: Seq<(usize, EventEnvelope)>,
    venue: Venue,
    symbol: Seq<char>,
    max_gap: i64,
    stream: Seq<char>,
)
    requires
        events.len() <= u64::MAX,
    ensures
        ({
            let s = recorded_all(tables, events, venue, symbol, max_gap);
            let own = events.filter(|e: (usize, EventEnvelope)| e.1.provenance.stream@ == stream);
            &&& s.streams.dom().contains(stream) <==> own.len() > 0
            &&& own.len() > 0 ==> s.streams[stream] == own.len()
            &&& own.len() <= events.len()
        }),
    decreases events.len(),
{
    reveal(recorded);
    reveal(Seq::filter);
    if events.len() > 0 {
        law_streams_counted(tables, events.drop_last(), venue, symbol, max_gap, stream);
    }
}

/// A recording is clean exactly if it has an event, its coverage is not below
/// the bar, and it has no finding but reversals, gaps and stale reports. The
/// usual bar lies above the lowered one.
pub proof fn law_clean(audit: RawLogAudit, bar: Real)
    ensures
        audit.clean_at(bar) <==> {
            &&& audit.event_count > 0
            &&& bar.le(audit.coverage)
            &&& forall|i: int|
                0 <= i < audit.findings@.len() ==> (#[trigger] audit.findings@[i]).code@
                    == "recv_time_reversal"@ || audit.findings@[i].code@ == "stale_stream"@
                    || audit.findings@[i].code@ == "coverage_gap"@
        },
        (Real { bits: ZERO_COST_MIN_COVERAGE }).lt(Real { bits: MIN_COVERAGE }),
{
}

/// The coverage of a recording: nothing without events, all of it where it
/// spans no time, and else one less the part of its span that lies in gaps.
pub proof fn law_coverage_numbers(s: AuditState, first: i64, last: i64)
    requires
        s.first == Some(first),
        s.last == Some(last),
        i64::MIN <= last - first <= i64::MAX,
        0 <= total_len(s.gaps) <= i64::MAX,
    ensures
        first == last ==> coverage_input_of(s) == CoverageInput::Whole,
        first != last ==> (coverage_input_of(s) matches CoverageInput::Ratio {
            lost_ns,
            span_ns,
        } && span_ns == last - first && lost_ns == total_len(s.gaps)),
{
}

proof fn lemma_index(s: Seq<char>, c: char, from: int, at: int)
    requires
        0 <= from <= at <= s.len(),
        at < s.len() ==> s[at] == c,
        forall|k: int| from <= k < at ==> #[trigger] s[k] != c,
    ensures
        index_from(s, c, from) == at,
    decreases at - from,
{
    if from < at {
        lemma_index(s, c, from + 1, at);
    }
}

/// A recording's file is named by its date in eight digits, its venue and its
/// symbol; the symbol may hold further underscores.
pub proof fn law_log_name(date: Seq<char>, venue: Seq<char>, symbol: Seq<char>)
    requires
        date.len() == 8,
        all_digits(date),
        forall|k: int| 0 <= k < venue.len() ==> #[trigger] venue[k] != '_',
    ensures
        raw_log_parts(date + seq!['_'] + venue + seq!['_'] + symbol + ".log"@) == Some(
            (date, venue, symbol),
        ),
{
    reveal_strlit(".log");
    let stem = date + seq!['_'] + venue + seq!['_'] + symbol;
    let name = stem + ".log"@;
    assert(name.skip(name.len() - 4) =~= ".log"@);
    assert(name.take(name.len() - 4) =~= stem);
    assert forall|k: int| 0 <= k < 8 implies #[trigger] stem[k] != '_' by {
        assert(stem[k] == date[k]);
        assert(crate::text::is_digit(date[k]));
    }
    assert(stem[8] == '_');
    lemma_index(stem, '_', 0, 8);
    let b = 9 + venue.len() as int;
    assert forall|k: int| 9 <= k < b implies #[trigger] stem[k] != '_' by {
        assert(stem[k] == venue[k - 9]);
    }
    assert(stem[b] == '_');
    lemma_index(stem, '_', 9, b);
    assert(stem.take(8) =~= date);
    assert(stem.subrange(9, b) =~= venue);
    assert(stem.skip(b + 1) =~= symbol);
}

/// A file that does not end in `.log` is no recording.
pub proof fn law_other_files(name: Seq<char>)
    ensures
        !crate::text::ends(name, ".log"@) ==> raw_log_parts(name) is None,
{
    reveal_strlit(".log");
}

/// The recordings of a directory are the files that are named as such, in
/// order.
pub proof fn law_recording_names(names: Seq<Seq<char>>)
    ensures
        recording_names(names) == names.filter(|n: Seq<char>| raw_log_parts(n) is Some),
    decreases names.len(),
{
    reveal(Seq::filter);
    if names.len() > 0 {
        law_recording_names(names.drop_last());
    }
}

/// Recordings are listed by date, then by venue, then by symbol, each with its
/// path.
pub proof fn law_listing(
    logs: Seq<RawLog>,
    dir: Seq<char>,
    found: Seq<Seq<char>>,
    order: Seq<usize>,
    i: int,
    j: int,
)
    requires
        is_listing(logs, dir, found, order),
        0 <= i < j < logs.len(),
    ensures
        logs.len() == found.len(),
        logs[i].path@ == joined(dir, found[order[i] as int]),
        order[i] != order[j],
        !crate::text::before(logs[j].date@, logs[i].date@),
        logs[i].date@ == logs[j].date@ ==> !crate::text::before(
            logs[j].venue_str@,
            logs[i].venue_str@,
        ),
        logs[i].date@ == logs[j].date@ && logs[i].venue_str@ == logs[j].venue_str@
            ==> !crate::text::before(logs[j].symbol@, logs[i].symbol@),
{
    assert(is_log_of(logs[i], dir, found[order[i] as int]));
    crate::text::lemma_before_total(logs[i].date@, logs[j].date@);
    crate::text::lemma_before_total(logs[i].venue_str@, logs[j].venue_str@);
    crate::text::lemma_before_total(logs[i].symbol@, logs[j].symbol@);
}

/// The coverage asked for is ninety-nine and a half per cent, and ninety-five
/// at no cost.
pub proof fn law_coverage_bars()
    ensures
        bar_of(false).bits == 0x3FEF_D70A_3D70_A3D7,
        bar_of(true).bits == 0x3FEE_6666_6666_6666,
        bar_of(true).lt(bar_of(false)),
        bar_text(false) == "0.995"@,
        bar_text(true) == "0.95"@,
{
}

/// A scorecard's entry repeats its recording, is clean where the audit is, and
/// counts its bursts.
pub proof fn law_scorecard_entry(
    entry: ScorecardEntry,
    bursts: RecordingBursts,
    recording: (Venue, String, RawLogAudit),
)
    requires
        is_entry_of(entry, bursts, recording),
    ensures
        entry.venue@ == slug_of(recording.0),
        entry.symbol@ == recording.1@,
        entry.clean <==> recording.2.clean_at(Real { bits: 0x3FEF_D70A_3D70_A3D7 }),
        bursts.venue@ == entry.venue@,
        bursts.symbol@ == entry.symbol@,
        bursts.stale_bursts == recording.2.stale_bursts@.len(),
{
}

/// A required stream is reported as missing exactly where it was not recorded
/// and may not be absent.
pub proof fn law_missing_streams(
    required: Seq<Seq<char>>,
    streams: Map<Seq<char>, u64>,
    zero_cost_mode: bool,
    s: Seq<char>,
)
    ensures
        missing_notes(required, streams, zero_cost_mode).contains(("missing_stream"@, s)) <==> {
            &&& required.contains(s)
            &&& !streams.dom().contains(s)
            &&& !may_be_absent(s, zero_cost_mode)
        },
    decreases required.len(),
{
    if required.len() > 0 {
        let t = required.drop_last();
        let r = required.last();
        law_missing_streams(t, streams, zero_cost_mode, s);
        let before = missing_notes(t, streams, zero_cost_mode);
        let all = missing_notes(required, streams, zero_cost_mode);
        let x = ("missing_stream"@, s);
        assert(required[required.len() - 1] == r);
        if t.contains(s) {
            let i = t.index_of(s);
            assert(required[i] == s);
        }
        if required.contains(s) && s != r {
            let i = required.index_of(s);
            assert(t[i] == s);
        }
        if before.contains(x) {
            let i = before.index_of(x);
            assert(all[i] == x);
        }
        if !streams.dom().contains(r) && !may_be_absent(r, zero_cost_mode) {
            assert(all[before.len() as int] == ("missing_stream"@, r));
        }
        if all.contains(x) && !before.contains(x) {
            let i = all.index_of(x);
            if i < before.len() {
                assert(before[i] == x);
            }
            assert(i == before.len());
        }
    }
}

/// The length of all gaps is the sum of their lengths.
pub proof fn law_total_len(a: Seq<TimeRange>, b: Seq<TimeRange>)
    ensures
        total_len(a + b) == total_len(a) + total_len(b),
        a.len() == 1 ==> total_len(a) == a[0].end_ns - a[0].start_ns,
        a.len() == 0 ==> total_len(a) == 0,
    decreases b.len(),
{
    if a.len() == 1 {
        assert(a.drop_last().len() == 0);
        assert(total_len(a.drop_last()) == 0);
    }
    if b.len() == 0 {
        assert(a + b =~= a);
    } else {
        law_total_len(a, b.drop_last());
        assert((a + b).drop_last() =~= a + b.drop_last());
    }
}

/// The span between two times is their difference, and the nearest number
/// where that does not fit.
pub proof fn law_span(a: i64, b: i64)
    ensures
        i64::MIN <= b - a <= i64::MAX ==> span_of(a, b) == b - a,
        b - a > i64::MAX ==> span_of(a, b) == i64::MAX,
        b - a < i64::MIN ==> span_of(a, b) == i64::MIN,
{
}

proof fn lemma_whole(a: Seq<char>, sep: char)
    requires
        forall|k: int| 0 <= k < a.len() ==> #[trigger] a[k] != sep,
    ensures
        split_on(a, sep) == seq![a],
    decreases a.len(),
{
    if a.len() > 0 {
        let t = a.drop_last();
        assert(forall|k: int| 0 <= k < t.len() ==> t[k] == a[k]);
        lemma_whole(t, sep);
        assert(a[a.len() - 1] == a.last());
        assert(t.push(a.last()) =~= a);
        assert(split_on(a, sep) =~= seq![a]);
    } else {
        assert(a =~= Seq::<char>::empty());
    }
}

proof fn lemma_first_part(a: Seq<char>, sep: char, b: Seq<char>)
    requires
        forall|k: int| 0 <= k < a.len() ==> #[trigger] a[k] != sep,
    ensures
        split_on(a + seq![sep] + b, sep) == seq![a] + split_on(b, sep),
    decreases b.len(),
{
    let s = a + seq![sep] + b;
    if b.len() == 0 {
        assert(s.drop_last() =~= a);
        lemma_whole(a, sep);
        assert(split_on(s, sep) =~= seq![a] + split_on(b, sep));
    } else {
        let t = b.drop_last();
        lemma_first_part(a, sep, t);
        assert(s.drop_last() =~= a + seq![sep] + t);
        assert(s.last() == b.last());
        crate::text::lemma_split_nonempty(t, sep);
        let q = split_on(t, sep);
        let w = seq![a] + q;
        assert(w.last() == q.last());
        assert(split_on(s, sep) =~= seq![a] + split_on(b, sep));
    }
}

proof fn lemma_part_starts(p: Seq<char>, b: Seq<char>, sep: char)
    requires
        forall|k: int| 0 <= k < p.len() ==> #[trigger] p[k] != sep,
    ensures
        split_on(p + b, sep).len() > 0,
        starts(split_on(p + b, sep)[0], p),
    decreases b.len(),
{
    if b.len() == 0 {
        assert(p + b =~= p);
        lemma_whole(p, sep);
        assert(p.take(p.len() as int) =~= p);
    } else {
        let t = b.drop_last();
        lemma_part_starts(p, t, sep);
        assert((p + b).drop_last() =~= p + t);
        let q = split_on(p + t, sep);
        let first = q[0];
        let grown = first.push(b.last());
        assert(grown.take(p.len() as int) =~= first.take(p.len() as int));
    }
}

/// A report of silence gives its milliseconds; one in nanoseconds is turned
/// into whole milliseconds.
pub proof fn law_silence_text(n: nat, rest: Seq<char>)
    requires
        n <= u64::MAX,
    ensures
        silence_of("no valid event for "@ + dec(n) + seq![' '] + ("ms"@ + rest)) == n,
        silence_of("no valid event for "@ + dec(n) + seq![' '] + ("ns"@ + rest)) == n / 1_000_000,
{
    reveal_strlit("ms");
    reveal_strlit("ns");
    crate::text::law_dec_round_trip(n);
    lemma_silence(n, "ms"@ + rest);
    lemma_silence(n, "ns"@ + rest);
    lemma_part_starts("ms"@, rest, ' ');
    lemma_part_starts("ns"@, rest, ' ');
    let p = split_on("ns"@ + rest, ' ')[0];
    assert(p.take(2) == "ns"@);
    assert(p.take(2)[0] == 'n');
    assert("ms"@[0] == 'm');
    assert(!starts(p, "ms"@));
}

proof fn lemma_silence(n: nat, b: Seq<char>)
    requires
        n <= u64::MAX,
    ensures
        ({
            let head = "no valid event for "@;
            let detail = head + dec(n) + seq![' '] + b;
            let p = split_on(detail.skip(head.len() as int), ' ');
            &&& starts(detail, head)
            &&& p.len() >= 2
            &&& p[0] == dec(n)
            &&& p[1] == split_on(b, ' ')[0]
            &&& parse_nat(p[0], u64::MAX as int) == Some(n)
        }),
{
    let head = "no valid event for "@;
    let detail = head + dec(n) + seq![' '] + b;
    crate::text::law_dec_round_trip(n);
    assert(detail.take(head.len() as int) =~= head);
    assert(detail.skip(head.len() as int) =~= dec(n) + seq![' '] + b);
    assert forall|k: int| 0 <= k < dec(n).len() implies #[trigger] dec(n)[k] != ' ' by {
        assert(crate::text::is_digit(dec(n)[k]));
    }
    lemma_first_part(dec(n), ' ', b);
    crate::text::lemma_split_nonempty(b, ' ');
    assert(crate::text::is_digit(dec(n)[0]));
}

/// A recording with an event of another venue, of a symbol that its table
/// does not have or has for another, or without its origin is never clean,
/// and says so.
pub proof fn law_foreign_event_blocks(
    tables: Vec<Vec<SymbolMeta>>,
    events: Vec<(usize, EventEnvelope)>,
    failure: Option<String>,
    config: AuditConfig,
    audit: RawLogAudit,
    bar: Real,
    i: int,
)
    requires
        audit.state() == audited(
            RawLogContents::Events { tables, events, failure },
            config.venue,
            config.symbol@,
            config.max_gap_ns,
            config.required(),
            config.zero_cost_mode,
        ),
        0 <= i < events@.len(),
    ensures
        ({
            let e = events@[i].1;
            let table = tables@[events@[i].0 as int]@;
            let id = e.symbol.0 as int;
            let known = id < table.len() && table[id].symbol_id == e.symbol;
            &&& e.venue != config.venue ==> names_code(notes(audit.findings@), "venue_mismatch"@)
                && !audit.clean_at(bar)
            &&& !known ==> names_code(notes(audit.findings@), "invalid_symbol_table"@)
                && !audit.clean_at(bar)
            &&& known && (table[id].venue != config.venue || table[id].venue_symbol@
                != config.symbol@) ==> names_code(notes(audit.findings@), "symbol_mismatch"@)
                && !audit.clean_at(bar)
            &&& e.provenance.stream@.len() == 0 || e.provenance.subscription@.len() == 0
                ==> names_code(notes(audit.findings@), "missing_provenance"@) && !audit.clean_at(
                bar,
            )
            &&& e.body is BookSnapshot && e.provenance.snapshot_source == SnapshotSource::Unknown
                ==> names_code(notes(audit.findings@), "missing_snapshot_source"@)
                && !audit.clean_at(bar)
        }),
{
    let e = events@[i].1;
    let table = tables@[events@[i].0 as int]@;
    let (a, b, c) = ("venue_mismatch"@, "invalid_symbol_table"@, "symbol_mismatch"@);
    let (d, f) = ("missing_provenance"@, "missing_snapshot_source"@);
    if to_blame(e, table, config.venue, config.symbol@, a) {
        law_blame_blocks_a_recording(tables, events, failure, config, audit, bar, i, a);
    }
    if to_blame(e, table, config.venue, config.symbol@, b) {
        law_blame_blocks_a_recording(tables, events, failure, config, audit, bar, i, b);
    }
    if to_blame(e, table, config.venue, config.symbol@, c) {
        law_blame_blocks_a_recording(tables, events, failure, config, audit, bar, i, c);
    }
    if to_blame(e, table, config.venue, config.symbol@, d) {
        law_blame_blocks_a_recording(tables, events, failure, config, audit, bar, i, d);
    }
    if to_blame(e, table, config.venue, config.symbol@, f) {
        law_blame_blocks_a_recording(tables, events, failure, config, audit, bar, i, f);
    }
}

/// An event is reported as going back in time exactly where it was received
/// before the one ahead of it. It still becomes the last one received.
pub proof fn law_reversal_noted(
    s: AuditState,
    e: EventEnvelope,
    table: Seq<SymbolMeta>,
    venue: Venue,
    symbol: Seq<char>,
    max_gap: i64,
)
    ensures
        ({
            let next = recorded(s, e, table, venue, symbol, max_gap);
            let code = "recv_time_reversal"@;
            &&& names_code(next.notes, code) <==> names_code(s.notes, code) || (s.last is Some
                && e.recv_ts_ns < s.last->0)
            &&& next.last == Some(e.recv_ts_ns)
            &&& s.first is Some ==> next.first == s.first
            &&& s.first is None ==> next.first == Some(e.recv_ts_ns)
        }),
{
    reveal(recorded);
    let code = "recv_time_reversal"@;
    lemma_codes_differ();
    let reversal = s.last matches Some(p) && e.recv_ts_ns < p;
    let a = event_notes(e, table, venue, symbol);
    let r = when(
        reversal,
        (code, dec_int(s.last->0 as int) + " then "@ + dec_int(e.recv_ts_ns as int)),
    );
    let f = status_notes(e);
    lemma_names_in_sum(s.notes, a, code);
    lemma_names_in_sum(s.notes + a, r, code);
    lemma_names_in_sum(s.notes + a + r, f, code);
    lemma_names_in_sum(a, f, code);
    lemma_single_named(r, code);
    lemma_blame_noted(e, table, venue, symbol, code);
    assert(!to_blame(e, table, venue, symbol, code));
}

} // verus!
