//! Cross-venue checks: gaps classified by what other venues recorded, and
//! whole-day comparison of each venue's trades with its cohort.
//!
//! Prices are averaged and compared outside this module; it decides which
//! trades are averaged, and what follows from the outcomes.
use vstd::prelude::*;
use crate::calendar::{div_floor, DAY_NS};
use crate::event::{EventEnvelope, MarketEvent, Venue, slug_of};
use crate::fnv::{content_hash_hex, fnv, FNV1A_OFFSET};
use crate::layout::{glued, venue_dir_of, venue_slug};
use crate::manifest::{gap_intervals, Gap, GapKind, QualityManifest};
use crate::measure::{merged_duration, union_len};
use crate::number::Real;
use crate::ordered::{ascending, sort_numbers, sort_order, stably_sorted, Pair, SortedMap, Key};
use crate::text::{dec, hex, join_path, joined, push_dec, push_text};

verus! {

/// The version of the findings' layout.
pub const FINDINGS_SCHEMA_VER: u16 = 2;

/// What a gap is, going by the other venues.
#[derive(Clone, Copy, Debug, PartialEq, Eq, Structural)]
pub enum Classification {
    CorroboratedVenueSide,
    MarketWide,
    IsolatedUnknown,
}

/// What one other venue says of a gap.
#[derive(Debug)]
pub struct CohortMember {
    pub venue: String,
    pub symbol: String,
    pub corroborates: bool,
    pub trade_count: u64,
    /// The average price in the gap, if there is one.
    pub vwp: Option<Real>,
}

/// One classified gap.
#[derive(Debug)]
pub struct Finding {
    pub venue: String,
    pub symbol: String,
    pub gap_index: usize,
    pub from_ns: i64,
    pub to_ns: i64,
    pub kind: String,
    pub classification: Classification,
    pub cohort: Vec<CohortMember>,
    pub evidence: String,
}

/// One window in which a venue's trades depart from its cohort's.
#[derive(Debug)]
pub struct VeracityFinding {
    pub venue: String,
    pub symbol: String,
    pub window_from_ns: i64,
    pub window_to_ns: i64,
    /// `price_divergence` or `trade_drought`.
    pub kind: String,
    pub trade_count: u64,
    pub vwp: Option<Real>,
    pub cohort_vwp: Option<Real>,
    pub cohort_median_trades: u64,
    pub cohort_size: usize,
    pub evidence: String,
}

/// Everything that a run found.
#[derive(Debug)]
pub struct Findings {
    pub schema_ver: u16,
    pub date: String,
    pub detector_version: String,
    pub config_hash: String,
    pub findings: Vec<Finding>,
    pub veracity: Vec<VeracityFinding>,
}

/// Tunables of the checks.
pub struct CrossVenueConfig {
    pub min_cohort: usize,
    pub min_corroborators: usize,
    pub min_trades: u64,
    pub cohort_gap_overlap: Real,
    pub max_price_band_pct: Real,
    pub veracity_window_min: u64,
    pub veracity_min_trades: u64,
    pub veracity_trade_ratio: Real,
    pub symbol_cohorts: Vec<SymbolCohort>,
}

/// One underlying, and its ticker at each venue.
pub struct SymbolCohort {
    pub underlying: String,
    /// Venue name to ticker.
    pub members: SortedMap<String, String>,
}

/// Venues that a cohort must have.
pub fn default_min_cohort() -> (n: usize)
    ensures
        n == 2,
{
    2
}

/// Venues that must corroborate a gap.
pub fn default_min_corroborators() -> (n: usize)
    ensures
        n == 1,
{
    1
}

/// Trades that a corroborating venue must have in a gap.
pub fn default_min_trades() -> (n: u64)
    ensures
        n == 1,
{
    1
}

/// Share of a gap beyond which another venue counts as gapped too: 0.5.
pub fn default_cohort_gap_overlap() -> (x: Real)
    ensures
        x.bits == 0x3FE0_0000_0000_0000u64,
{
    Real { bits: 0x3FE0_0000_0000_0000 }
}

/// The price band, in percent: 5.
pub fn default_max_price_band_pct() -> (x: Real)
    ensures
        x.bits == 0x4014_0000_0000_0000u64,
{
    Real { bits: 0x4014_0000_0000_0000 }
}

/// Minutes of a comparison window.
pub fn default_veracity_window_min() -> (n: u64)
    ensures
        n == 60,
{
    60
}

/// Trades in a window from which a venue counts as liquid.
pub fn default_veracity_min_trades() -> (n: u64)
    ensures
        n == 50,
{
    50
}

/// Share of the cohort's median trades below which a venue counts as dry: 0.5.
pub fn default_veracity_trade_ratio() -> (x: Real)
    ensures
        x.bits == 0x3FE0_0000_0000_0000u64,
{
    Real { bits: 0x3FE0_0000_0000_0000 }
}

impl CrossVenueConfig {
    /// The usual tunables, without cohorts.
    pub fn defaults() -> (c: CrossVenueConfig)
        ensures
            c.min_cohort == 2,
            c.min_corroborators == 1,
            c.min_trades == 1,
            c.cohort_gap_overlap.bits == 0x3FE0_0000_0000_0000u64,
            c.max_price_band_pct.bits == 0x4014_0000_0000_0000u64,
            c.veracity_window_min == 60,
            c.veracity_min_trades == 50,
            c.veracity_trade_ratio.bits == 0x3FE0_0000_0000_0000u64,
            c.symbol_cohorts@.len() == 0,
    {
        CrossVenueConfig {
            min_cohort: default_min_cohort(),
            min_corroborators: default_min_corroborators(),
            min_trades: default_min_trades(),
            cohort_gap_overlap: default_cohort_gap_overlap(),
            max_price_band_pct: default_max_price_band_pct(),
            veracity_window_min: default_veracity_window_min(),
            veracity_min_trades: default_veracity_min_trades(),
            veracity_trade_ratio: default_veracity_trade_ratio(),
            symbol_cohorts: Vec::new(),
        }
    }
}

/// `{root}/cross_venue/date={d}/findings.json`.
pub fn findings_file(root: &str, date: &str) -> (s: String)
    ensures
        s@ == joined(joined(joined(root@, "cross_venue"@), "date="@ + date@), "findings.json"@),
{
    let a = join_path(root, "cross_venue");
    let b = join_path(a.as_str(), glued("date=", date).as_str());
    join_path(b.as_str(), "findings.json")
}

/// The version line of a program: its name, its version and the build that
/// made it.
pub open spec fn version_line(app: Seq<char>, version: Seq<char>, build: Option<Seq<char>>) -> Seq<
    char,
> {
    app + " "@ + version + " ("@ + (match build {
        Some(b) => b,
        None => "dev"@,
    }) + ")"@
}

/// `{app} {version} ({build})`; a local build is called `dev`.
pub fn app_version(app: &str, version: &str, build: Option<&str>) -> (s: String)
    ensures
        s@ == version_line(
            app@,
            version@,
            match build {
                Some(b) => Some(b@),
                None => None,
            },
        ),
{
    let mut s = app.to_owned();
    push_text(&mut s, " ");
    push_text(&mut s, version);
    push_text(&mut s, " (");
    match build {
        Some(b) => {
            push_text(&mut s, b);
        },
        None => {
            push_text(&mut s, "dev");
        },
    }
    push_text(&mut s, ")");
    s
}

/// The version line of the cross-venue program.
pub fn version_string(version: &str, build: Option<&str>) -> (s: String)
    ensures
        s@ == version_line(
            "mp-cross-venue"@,
            version@,
            match build {
                Some(b) => Some(b@),
                None => None,
            },
        ),
{
    app_version("mp-cross-venue", version, build)
}

/// The hash of a configuration text: sixteen hexadecimal digits.
pub fn config_hash(text: &str) -> (s: String)
    ensures
        s@ == hex(fnv(FNV1A_OFFSET, vstd::utf8::encode_utf8(text@)) as nat, 16),
{
    content_hash_hex(text.as_bytes())
}

// ---------------------------------------------------------------------------
// Gaps
// ---------------------------------------------------------------------------

/// How much of `from..to` the gaps cover, and how long it is (at least 1): the
/// quotient is the share that is covered.
pub fn gap_overlap(gaps: &Vec<Gap>, from: i64, to: i64) -> (r: (i64, i64))
    requires
        to - from <= i64::MAX,
        i64::MIN <= to - from,
    ensures
        r.0 == union_len(gap_intervals(gaps@), from as int, to as int),
        r.1 == if to - from > 1 {
            to - from
        } else {
            1
        },
        0 <= r.0 <= r.1,
{
    let mut intervals: Vec<(i64, i64)> = Vec::new();
    let mut i: usize = 0;
    while i < gaps.len()
        invariant
            i <= gaps@.len(),
            intervals@ =~= gap_intervals(gaps@).take(i as int),
        decreases gaps@.len() - i,
    {
        intervals.push((gaps[i].from_ns, gaps[i].to_ns));
        i = i + 1;
    }
    assert(intervals@ =~= gap_intervals(gaps@));
    let covered: i64 = merged_duration(&intervals, from, to);
    let span: i64 = if to - from > 1 {
        to - from
    } else {
        1
    };
    (covered, span)
}

/// The positions of the events received in `from..to`, in order.
pub open spec fn positions_in(events: Seq<EventEnvelope>, from: int, to: int) -> Seq<usize>
    decreases events.len(),
{
    if events.len() == 0 {
        Seq::empty()
    } else {
        let before = positions_in(events.drop_last(), from, to);
        if from <= events.last().recv_ts_ns < to {
            before.push((events.len() - 1) as usize)
        } else {
            before
        }
    }
}

/// The positions of the events received in `from..to`.
pub fn window_positions(events: &Vec<EventEnvelope>, from: i64, to: i64) -> (r: Vec<usize>)
    ensures
        r@ == positions_in(events@, from as int, to as int),
{
    let mut r: Vec<usize> = Vec::new();
    let mut i: usize = 0;
    assert(r@ =~= positions_in(events@.take(0), from as int, to as int));
    while i < events.len()
        invariant
            i <= events@.len(),
            r@ == positions_in(events@.take(i as int), from as int, to as int),
        decreases events@.len() - i,
    {
        assert(events@.take(i + 1).drop_last() =~= events@.take(i as int));
        let t: i64 = events[i].recv_ts_ns;
        if from <= t && t < to {
            r.push(i);
        }
        i = i + 1;
    }
    assert(events@.take(i as int) =~= events@);
    r
}

/// The stretch just before a gap, as long as the gap.
pub fn window_before(from: i64, to: i64) -> (r: (i64, i64))
    requires
        i64::MIN <= to - from <= i64::MAX,
        from - (to - from) >= i64::MIN,
        from > i64::MIN,
    ensures
        r.1 == from,
        r.0 == from - if to - from > 1 {
            to - from
        } else {
            1
        },
{
    let len: i64 = if to - from > 1 {
        to - from
    } else {
        1
    };
    (from - len, from)
}

/// What is known of one venue of the cohort during a gap of another.
#[derive(Debug)]
pub struct MemberFacts {
    pub venue: Venue,
    pub symbol: String,
    /// There is a manifest of the day.
    pub recorded: bool,
    /// Share of the gap in which this venue was gapped too.
    pub overlap: Real,
    /// Trades during the gap.
    pub trade_count: u64,
    /// Average price during the gap; NaN without trades.
    pub vwp_win: Real,
    /// Average price in the stretch before it; NaN without trades.
    pub vwp_pre: Real,
    /// The two averages lie within the price band of each other.
    pub within_band: bool,
}

/// Whether the venue was gapped too.
pub open spec fn gapped_too(f: MemberFacts, cfg: CrossVenueConfig) -> bool {
    cfg.cohort_gap_overlap.lt(f.overlap)
}

/// Whether the venue shows that the market went on: it was not gapped, traded
/// enough, and at a price near the one before.
pub open spec fn corroborating(f: MemberFacts, cfg: CrossVenueConfig) -> bool {
    &&& !gapped_too(f, cfg)
    &&& f.trade_count >= cfg.min_trades
    &&& f.vwp_win.finite()
    &&& f.vwp_pre.finite()
    &&& !f.vwp_pre.zero()
    &&& f.within_band
}

/// `m` is the report on the venue of `f`.
pub open spec fn is_member_of(m: CohortMember, f: MemberFacts, cfg: CrossVenueConfig) -> bool {
    &&& m.venue@ == venue_dir_of(f.venue)
    &&& m.symbol@ == f.symbol@
    &&& m.corroborates == corroborating(f, cfg)
    &&& m.trade_count == f.trade_count
    &&& m.vwp == if f.vwp_win.finite() {
        Some(f.vwp_win)
    } else {
        None
    }
}

/// The venues that are asked: the others that recorded the day, in order.
pub open spec fn asked(facts: Seq<MemberFacts>, venue: Venue) -> Seq<MemberFacts>
    decreases facts.len(),
{
    if facts.len() == 0 {
        Seq::empty()
    } else {
        let before = asked(facts.drop_last(), venue);
        if facts.last().venue != venue && facts.last().recorded {
            before.push(facts.last())
        } else {
            before
        }
    }
}

/// Every other venue recorded the day, and was gapped too.
pub open spec fn all_gapped(
    facts: Seq<MemberFacts>,
    venue: Venue,
    cfg: CrossVenueConfig,
) -> bool {
    forall|i: int|
        0 <= i < facts.len() && (#[trigger] facts[i]).venue != venue ==> facts[i].recorded
            && gapped_too(facts[i], cfg)
}

/// How many of the venues corroborate.
pub open spec fn corroborators(facts: Seq<MemberFacts>, cfg: CrossVenueConfig) -> nat
    decreases facts.len(),
{
    if facts.len() == 0 {
        0
    } else {
        corroborators(facts.drop_last(), cfg) + if corroborating(facts.last(), cfg) {
            1nat
        } else {
            0
        }
    }
}

/// What the gap is: unknown with too small a cohort, market-wide when every
/// other venue was gapped too, the venue's own when enough others show that
/// the market went on, and unknown otherwise.
pub open spec fn class_of(
    facts: Seq<MemberFacts>,
    venue: Venue,
    cfg: CrossVenueConfig,
) -> Classification {
    let members = asked(facts, venue);
    if members.len() < cfg.min_cohort {
        Classification::IsolatedUnknown
    } else if all_gapped(facts, venue, cfg) {
        Classification::MarketWide
    } else if corroborators(members, cfg) >= cfg.min_corroborators {
        Classification::CorroboratedVenueSide
    } else {
        Classification::IsolatedUnknown
    }
}

/// The evidence text of a classification.
pub open spec fn evidence_of(c: Classification, corrs: nat, members: nat) -> Seq<char> {
    (match c {
        Classification::CorroboratedVenueSide => "corroborated"@,
        Classification::MarketWide => "market_wide"@,
        Classification::IsolatedUnknown => "isolated"@,
    }) + " ("@ + dec(corrs) + "/"@ + dec(members) + " cohort venues corroborate)"@
}

fn evidence(kind: &str, corrs: u64, members: u64) -> (s: String)
    ensures
        s@ == kind@ + " ("@ + dec(corrs as nat) + "/"@ + dec(members as nat)
            + " cohort venues corroborate)"@,
{
    let mut s = kind.to_owned();
    push_text(&mut s, " (");
    push_dec(&mut s, corrs);
    push_text(&mut s, "/");
    push_dec(&mut s, members);
    push_text(&mut s, " cohort venues corroborate)");
    s
}

/// Classifies a gap of `venue` by what the venues of its cohort recorded.
pub fn classify_gap(venue: Venue, facts: &Vec<MemberFacts>, cfg: &CrossVenueConfig) -> (r: (
    Classification,
    Vec<CohortMember>,
    String,
))
    ensures
        r.0 == class_of(facts@, venue, *cfg),
        r.1@.len() == asked(facts@, venue).len(),
        forall|i: int|
            0 <= i < r.1@.len() ==> is_member_of(
                #[trigger] r.1@[i],
                asked(facts@, venue)[i],
                *cfg,
            ),
        r.2@ == evidence_of(
            class_of(facts@, venue, *cfg),
            corroborators(asked(facts@, venue), *cfg),
            asked(facts@, venue).len(),
        ),
{
    let mut members: Vec<CohortMember> = Vec::new();
    let mut gapped = true;
    let mut corrs: u64 = 0;
    let total: usize = facts.len();
    let mut i: usize = 0;
    assert(facts@.take(0).len() == 0);
    while i < total
        invariant
            total == facts@.len(),
            i <= total,
            gapped == all_gapped(facts@.take(i as int), venue, *cfg),
            members@.len() == asked(facts@.take(i as int), venue).len(),
            members@.len() <= i,
            corrs == corroborators(asked(facts@.take(i as int), venue), *cfg),
            corrs <= members@.len(),
            forall|k: int|
                0 <= k < members@.len() ==> is_member_of(
                    #[trigger] members@[k],
                    asked(facts@.take(i as int), venue)[k],
                    *cfg,
                ),
        decreases total - i,
    {
        let f = &facts[i];
        let ghost prev = facts@.take(i as int);
        let ghost next = facts@.take(i + 1);
        assert(next.drop_last() =~= prev);
        assert(next.last() == *f);
        let ghost gapped0 = gapped;
        if f.venue != venue {
            let itself = cfg.cohort_gap_overlap.less(f.overlap);
            if !f.recorded || !itself {
                gapped = false;
            }
            if f.recorded {
                let corroborates = !itself && f.trade_count >= cfg.min_trades
                    && f.vwp_win.is_finite() && f.vwp_pre.is_finite() && !f.vwp_pre.is_zero()
                    && f.within_band;
                if corroborates {
                    corrs = corrs + 1;
                }
                let vwp = if f.vwp_win.is_finite() {
                    Some(f.vwp_win)
                } else {
                    None
                };
                let m = CohortMember {
                    venue: venue_slug(f.venue).to_owned(),
                    symbol: f.symbol.clone(),
                    corroborates,
                    trade_count: f.trade_count,
                    vwp,
                };
                assert(is_member_of(m, *f, *cfg));
                members.push(m);
                assert(asked(next, venue).drop_last() =~= asked(prev, venue));
            }
        }
        proof {
            assert(all_gapped(next, venue, *cfg) == (gapped0 && (f.venue != venue ==> f.recorded
                && gapped_too(*f, *cfg)))) by {
                assert(next[i as int] == *f);
                if all_gapped(next, venue, *cfg) {
                    assert forall|k: int| 0 <= k < prev.len() && (#[trigger] prev[k]).venue
                        != venue implies prev[k].recorded && gapped_too(prev[k], *cfg) by {
                        assert(next[k] == prev[k]);
                    }
                }
                if gapped0 && (f.venue != venue ==> f.recorded && gapped_too(*f, *cfg)) {
                    assert forall|k: int| 0 <= k < next.len() && (#[trigger] next[k]).venue
                        != venue implies next[k].recorded && gapped_too(next[k], *cfg) by {
                        if k < prev.len() {
                            assert(next[k] == prev[k]);
                        }
                    }
                }
            }
        }
        i = i + 1;
    }
    assert(facts@.take(i as int) =~= facts@);
    let n: u64 = members.len() as u64;
    if members.len() < cfg.min_cohort {
        return (Classification::IsolatedUnknown, members, evidence("isolated", corrs, n));
    }
    if gapped {
        return (Classification::MarketWide, members, evidence("market_wide", corrs, n));
    }
    if corrs >= cfg.min_corroborators as u64 {
        return (
            Classification::CorroboratedVenueSide,
            members,
            evidence("corroborated", corrs, n),
        );
    }
    (Classification::IsolatedUnknown, members, evidence("isolated", corrs, n))
}

/// A gap is never called the venue's own without enough corroborating venues,
/// and never market-wide while another venue of the cohort was not gapped.
pub proof fn law_classification_is_earned(
    facts: Seq<MemberFacts>,
    venue: Venue,
    cfg: CrossVenueConfig,
    i: int,
)
    ensures
        class_of(facts, venue, cfg) == Classification::CorroboratedVenueSide ==> corroborators(
            asked(facts, venue),
            cfg,
        ) >= cfg.min_corroborators && asked(facts, venue).len() >= cfg.min_cohort,
        0 <= i < facts.len() && facts[i].venue != venue && (!facts[i].recorded || !gapped_too(
            facts[i],
            cfg,
        )) ==> class_of(facts, venue, cfg) != Classification::MarketWide,
{
}

/// The name of a gap's kind, in lower case.
pub open spec fn kind_text(k: GapKind) -> Seq<char> {
    match k {
        GapKind::Disconnect => "disconnect"@,
        GapKind::Overrun => "overrun"@,
        GapKind::Venue => "venue"@,
    }
}

fn kind_name(k: GapKind) -> (s: &'static str)
    ensures
        s@ == kind_text(k),
{
    match k {
        GapKind::Disconnect => "disconnect",
        GapKind::Overrun => "overrun",
        GapKind::Venue => "venue",
    }
}

/// One gap of a cohort to be classified.
#[derive(Debug)]
pub struct GapCase {
    pub venue: Venue,
    pub symbol: String,
    pub gap_index: usize,
    pub gap: Gap,
}

/// What a case names.
pub struct CaseView {
    pub venue: Venue,
    pub symbol: Seq<char>,
    pub gap_index: int,
    pub gap: Gap,
}

impl GapCase {
    pub open spec fn says(self) -> CaseView {
        CaseView {
            venue: self.venue,
            symbol: self.symbol@,
            gap_index: self.gap_index as int,
            gap: self.gap,
        }
    }
}

/// What a list of cases names.
pub open spec fn case_views(v: Seq<GapCase>) -> Seq<CaseView> {
    Seq::new(v.len(), |i: int| v[i].says())
}

/// The cases of one member: the gaps of its trades, numbered.
pub open spec fn gap_cases(venue: Venue, symbol: Seq<char>, gaps: Seq<Gap>) -> Seq<CaseView> {
    Seq::new(gaps.len(), |i: int| CaseView { venue, symbol, gap_index: i, gap: gaps[i] })
}

/// The venue of that name.
pub open spec fn venue_named(slug: Seq<char>) -> Option<Venue> {
    if exists|v: Venue| slug_of(v) == slug {
        Some(choose|v: Venue| slug_of(v) == slug)
    } else {
        None
    }
}

/// The gaps that a member's manifest lists for its trades.
pub open spec fn listed_gaps(manifest: Option<QualityManifest>, symbol: Seq<char>) -> Seq<Gap> {
    match manifest {
        Some(m) => if m.streams.map().dom().contains("trades:"@ + symbol) {
            m.streams.map()["trades:"@ + symbol].gaps@
        } else {
            Seq::empty()
        },
        None => Seq::empty(),
    }
}

/// The cases of a cohort's members, in order. Members of unknown venues, and
/// members without a manifest of the day, have none.
pub open spec fn cohort_cases(
    members: Seq<(String, String)>,
    manifests: Seq<Option<QualityManifest>>,
) -> Seq<CaseView>
    decreases members.len(),
{
    if members.len() == 0 {
        Seq::empty()
    } else {
        let m = members.last();
        cohort_cases(members.drop_last(), manifests) + match venue_named(m.0@) {
            Some(v) => gap_cases(v, m.1@, listed_gaps(manifests[members.len() - 1], m.1@)),
            None => Seq::empty(),
        }
    }
}

/// The gaps of a cohort to be classified; `manifests` holds the day's
/// manifest of each member, where there is one.
pub fn gaps_to_classify(cohort: &SymbolCohort, manifests: &Vec<Option<QualityManifest>>) -> (r: Vec<
    GapCase,
>)
    requires
        manifests@.len() == cohort.members.entries@.len(),
        forall|i: int|
            0 <= i < manifests@.len() ==> ((#[trigger] manifests@[i]) matches Some(m)
                ==> m.streams.wf()),
    ensures
        case_views(r@) == cohort_cases(cohort.members.entries@, manifests@),
{
    let mut r: Vec<GapCase> = Vec::new();
    let ghost all = cohort.members.entries@;
    let mut i: usize = 0;
    assert(case_views(r@) =~= cohort_cases(all.take(0), manifests@));
    while i < cohort.members.entries.len()
        invariant
            all == cohort.members.entries@,
            i <= all.len(),
            manifests@.len() == all.len(),
            forall|i: int|
                0 <= i < manifests@.len() ==> ((#[trigger] manifests@[i]) matches Some(m)
                    ==> m.streams.wf()),
            case_views(r@) == cohort_cases(all.take(i as int), manifests@),
        decreases all.len() - i,
    {
        let member = &cohort.members.entries[i];
        let ghost r0 = case_views(r@);
        assert(all.take(i + 1).drop_last() =~= all.take(i as int));
        assert(all.take(i + 1).last() == *member);
        let mut gaps: Vec<Gap> = Vec::new();
        assert(gaps@ =~= Seq::<Gap>::empty());
        if let Some(m) = &manifests[i] {
            assert(manifests@[i as int] == Some(*m));
            gaps = m.gaps(glued("trades:", member.1.as_str()).as_str());
        }
        assert(gaps@ == listed_gaps(manifests@[i as int], member.1@));
        match Venue::from_slug(member.0.as_str()) {
            Some(venue) => {
                proof {
                    assert(slug_of(venue) == member.0@);
                    let c = choose|v: Venue| slug_of(v) == member.0@;
                    assert(slug_of(c) == member.0@);
                    crate::event::law_slugs_distinct(venue, c);
                    assert(venue_named(member.0@) == Some(venue));
                }
                let ghost want = gap_cases(venue, member.1@, gaps@);
                let mut g: usize = 0;
                assert(case_views(r@) =~= r0 + want.take(0));
                while g < gaps.len()
                    invariant
                        g <= gaps@.len(),
                        want == gap_cases(venue, member.1@, gaps@),
                        case_views(r@) == r0 + want.take(g as int),
                    decreases gaps@.len() - g,
                {
                    let case = GapCase {
                        venue,
                        symbol: member.1.clone(),
                        gap_index: g,
                        gap: gaps[g],
                    };
                    let ghost before = r@;
                    r.push(case);
                    assert(case_views(r@) =~= case_views(before).push(want[g as int]));
                    assert(want.take(g + 1) =~= want.take(g as int).push(want[g as int]));
                    assert(case_views(r@) =~= r0 + want.take(g + 1));
                    g = g + 1;
                }
                assert(want.take(g as int) =~= want);
            },
            None => {
                assert(venue_named(member.0@) is None);
                assert(case_views(r@) =~= r0 + Seq::<CaseView>::empty());
            },
        }
        i = i + 1;
    }
    assert(all.take(i as int) =~= all);
    r
}

/// The finding of a classified case.
pub open spec fn is_finding_of(
    f: Finding,
    case: CaseView,
    facts: Seq<MemberFacts>,
    cfg: CrossVenueConfig,
) -> bool {
    let members = asked(facts, case.venue);
    &&& f.venue@ == venue_dir_of(case.venue)
    &&& f.symbol@ == case.symbol
    &&& f.gap_index == case.gap_index
    &&& f.from_ns == case.gap.from_ns
    &&& f.to_ns == case.gap.to_ns
    &&& f.kind@ == kind_text(case.gap.kind)
    &&& f.classification == class_of(facts, case.venue, cfg)
    &&& f.cohort@.len() == members.len()
    &&& forall|i: int|
        0 <= i < members.len() ==> is_member_of(#[trigger] f.cohort@[i], members[i], cfg)
    &&& f.evidence@ == evidence_of(
        class_of(facts, case.venue, cfg),
        corroborators(members, cfg),
        members.len(),
    )
}

/// The findings of the cases; `facts` holds, for each case, what is known of
/// the venues of its cohort.
pub fn detect(
    cases: &Vec<GapCase>,
    facts: &Vec<Vec<MemberFacts>>,
    cfg: &CrossVenueConfig,
) -> (r: Vec<Finding>)
    requires
        facts@.len() == cases@.len(),
    ensures
        r@.len() == cases@.len(),
        forall|i: int|
            0 <= i < r@.len() ==> is_finding_of(
                #[trigger] r@[i],
                cases@[i].says(),
                facts@[i]@,
                *cfg,
            ),
{
    let mut r: Vec<Finding> = Vec::new();
    let mut i: usize = 0;
    while i < cases.len()
        invariant
            i <= cases@.len(),
            facts@.len() == cases@.len(),
            r@.len() == i,
            forall|k: int|
                0 <= k < i ==> is_finding_of(
                    #[trigger] r@[k],
                    cases@[k].says(),
                    facts@[k]@,
                    *cfg,
                ),
        decreases cases@.len() - i,
    {
        let case = &cases[i];
        let (classification, cohort, text) = classify_gap(case.venue, &facts[i], cfg);
        let f = Finding {
            venue: venue_slug(case.venue).to_owned(),
            symbol: case.symbol.clone(),
            gap_index: case.gap_index,
            from_ns: case.gap.from_ns,
            to_ns: case.gap.to_ns,
            kind: kind_name(case.gap.kind).to_owned(),
            classification,
            cohort,
            evidence: text,
        };
        assert(is_finding_of(f, case.says(), facts@[i as int]@, *cfg));
        r.push(f);
        i = i + 1;
    }
    r
}

// ---------------------------------------------------------------------------
// Veracity
// ---------------------------------------------------------------------------

/// The trades of one member of a cohort.
pub struct VeracityStream {
    pub venue: Venue,
    pub symbol: String,
    pub trades: Vec<EventEnvelope>,
}

/// One comparison window: for each stream, which of its trades lie in it.
#[derive(Debug)]
pub struct VeracityWindow {
    pub from_ns: i64,
    pub to_ns: i64,
    pub rows: Vec<Vec<usize>>,
}

/// The window's length in nanoseconds; 0 when it does not fit in 64 bits.
pub open spec fn window_ns(minutes: u64) -> int {
    if minutes * 60_000_000_000 <= i64::MAX {
        minutes * 60_000_000_000
    } else {
        0
    }
}

/// The window's length in nanoseconds; 0 when it does not fit.
pub fn veracity_window_ns(minutes: u64) -> (n: i64)
    ensures
        n == window_ns(minutes),
{
    if minutes <= 153_722_867 {
        (minutes * 60_000_000_000) as i64
    } else {
        0
    }
}

/// The positions of the plain trades received in `from..to`, in order.
pub open spec fn trades_in(events: Seq<EventEnvelope>, from: int, to: int) -> Seq<usize>
    decreases events.len(),
{
    if events.len() == 0 {
        Seq::empty()
    } else {
        let before = trades_in(events.drop_last(), from, to);
        if from <= events.last().recv_ts_ns < to && events.last().body is Trade {
            before.push((events.len() - 1) as usize)
        } else {
            before
        }
    }
}

fn trade_positions(events: &Vec<EventEnvelope>, from: i64, to: i64) -> (r: Vec<usize>)
    ensures
        r@ == trades_in(events@, from as int, to as int),
{
    let mut r: Vec<usize> = Vec::new();
    let mut i: usize = 0;
    assert(r@ =~= trades_in(events@.take(0), from as int, to as int));
    while i < events.len()
        invariant
            i <= events@.len(),
            r@ == trades_in(events@.take(i as int), from as int, to as int),
        decreases events@.len() - i,
    {
        assert(events@.take(i + 1).drop_last() =~= events@.take(i as int));
        let t: i64 = events[i].recv_ts_ns;
        if from <= t && t < to && matches!(&events[i].body, MarketEvent::Trade { .. }) {
            r.push(i);
        }
        i = i + 1;
    }
    assert(events@.take(i as int) =~= events@);
    r
}

/// The earliest first trade of the streams.
pub open spec fn earliest(streams: Seq<VeracityStream>) -> int
    decreases streams.len(),
{
    if streams.len() == 0 {
        0
    } else {
        let t = streams.last().trades@[0].recv_ts_ns as int;
        if streams.len() == 1 || t < earliest(streams.drop_last()) {
            t
        } else {
            earliest(streams.drop_last())
        }
    }
}

/// The latest last trade of the streams.
pub open spec fn latest(streams: Seq<VeracityStream>) -> int
    decreases streams.len(),
{
    if streams.len() == 0 {
        0
    } else {
        let t = streams.last().trades@.last().recv_ts_ns as int;
        if streams.len() == 1 || t > latest(streams.drop_last()) {
            t
        } else {
            latest(streams.drop_last())
        }
    }
}

/// The start of the UTC day of the earliest trade.
pub open spec fn first_window(streams: Seq<VeracityStream>) -> int {
    earliest(streams) / DAY_NS as int * DAY_NS as int
}

/// `w` is window number `k` of width `win`.
pub open spec fn is_window(
    w: VeracityWindow,
    streams: Seq<VeracityStream>,
    k: int,
    win: int,
) -> bool {
    &&& w.from_ns == first_window(streams) + k * win
    &&& w.to_ns == w.from_ns + win
    &&& w.rows@.len() == streams.len()
    &&& forall|i: int|
        0 <= i < streams.len() ==> (#[trigger] w.rows@[i])@ == trades_in(
            streams[i].trades@,
            w.from_ns as int,
            w.to_ns as int,
        )
}

/// `windows` are the windows of width `win` from the start of the first UTC
/// day up to the one that holds the last trade.
pub open spec fn are_windows(
    windows: Seq<VeracityWindow>,
    streams: Seq<VeracityStream>,
    win: int,
) -> bool {
    &&& forall|k: int|
        0 <= k < windows.len() ==> is_window(#[trigger] windows[k], streams, k, win)
    &&& first_window(streams) + windows.len() * win > latest(streams)
    &&& windows.len() > 0 ==> first_window(streams) + (windows.len() - 1) * win <= latest(streams)
}

/// Every stream has a trade, and the day boundaries fit in 64 bits.
pub open spec fn streams_ready(streams: Seq<VeracityStream>, win: int) -> bool {
    &&& forall|i: int| 0 <= i < streams.len() ==> (#[trigger] streams[i]).trades@.len() > 0
    &&& earliest(streams) >= i64::MIN + DAY_NS
    &&& latest(streams) + win <= i64::MAX
}

/// The comparison windows of the day.
pub fn veracity_windows(streams: &Vec<VeracityStream>, win_ns: i64) -> (windows: Vec<
    VeracityWindow,
>)
    requires
        win_ns > 0,
        streams_ready(streams@, win_ns as int),
    ensures
        are_windows(windows@, streams@, win_ns as int),
{
    let mut first: i64 = 0;
    let mut last: i64 = 0;
    let mut i: usize = 0;
    while i < streams.len()
        invariant
            i <= streams@.len(),
            forall|i: int|
                0 <= i < streams@.len() ==> (#[trigger] streams@[i]).trades@.len() > 0,
            first == earliest(streams@.take(i as int)),
            last == latest(streams@.take(i as int)),
        decreases streams@.len() - i,
    {
        assert(streams@.take(i + 1).drop_last() =~= streams@.take(i as int));
        assert(streams@[i as int].trades@.len() > 0);
        let n: usize = streams[i].trades.len();
        let a: i64 = streams[i].trades[0].recv_ts_ns;
        let b: i64 = streams[i].trades[n - 1].recv_ts_ns;
        if i == 0 || a < first {
            first = a;
        }
        if i == 0 || b > last {
            last = b;
        }
        i = i + 1;
    }
    assert(streams@.take(i as int) =~= streams@);
    let day: i64 = div_floor(first, DAY_NS);
    assert(i64::MIN <= day * DAY_NS <= i64::MAX) by (nonlinear_arith)
        requires
            day == first as int / 86_400_000_000_000int,
            DAY_NS == 86_400_000_000_000i64,
            first >= i64::MIN + 86_400_000_000_000int,
            first <= i64::MAX,
    ;
    let day_start: i64 = day * DAY_NS;
    assert(day_start == first_window(streams@));
    let mut windows: Vec<VeracityWindow> = Vec::new();
    let mut ws: i64 = day_start;
    while ws <= last
        invariant
            win_ns > 0,
            streams_ready(streams@, win_ns as int),
            last == latest(streams@),
            ws == first_window(streams@) + windows@.len() * win_ns,
            forall|k: int|
                0 <= k < windows@.len() ==> is_window(
                    #[trigger] windows@[k],
                    streams@,
                    k,
                    win_ns as int,
                ),
            windows@.len() > 0 ==> first_window(streams@) + (windows@.len() - 1) * win_ns <= last,
        decreases
            if ws <= last {
                last - ws + 1
            } else {
                0
            },
    {
        let we: i64 = ws + win_ns;
        let mut rows: Vec<Vec<usize>> = Vec::new();
        let mut j: usize = 0;
        while j < streams.len()
            invariant
                j <= streams@.len(),
                rows@.len() == j,
                forall|i: int|
                    0 <= i < j ==> (#[trigger] rows@[i])@ == trades_in(
                        streams@[i].trades@,
                        ws as int,
                        we as int,
                    ),
            decreases streams@.len() - j,
        {
            rows.push(trade_positions(&streams[j].trades, ws, we));
            j = j + 1;
        }
        let ghost n = windows@.len() as int;
        let w = VeracityWindow { from_ns: ws, to_ns: we, rows };
        assert(is_window(w, streams@, n, win_ns as int));
        windows.push(w);
        assert((n + 1) * win_ns == n * win_ns + win_ns) by (nonlinear_arith);
        ws = we;
    }
    windows
}

/// What is computed for a window: each stream's average price (NaN without
/// one), the median of the liquid streams' averages, and how each stream
/// compares.
#[derive(Debug)]
pub struct WindowFacts {
    pub vwps: Vec<Real>,
    pub median_vwp: Real,
    /// The stream's average lies outside the price band round the median.
    pub off_band: Vec<bool>,
    /// The stream's trades fall below the ratio of the cohort's median.
    pub below_ratio: Vec<bool>,
    pub price_evidence: Vec<String>,
    pub drought_evidence: Vec<String>,
}

/// There is one entry for each of `n` streams.
pub open spec fn facts_for(f: WindowFacts, n: nat) -> bool {
    &&& f.vwps@.len() == n
    &&& f.off_band@.len() == n
    &&& f.below_ratio@.len() == n
    &&& f.price_evidence@.len() == n
    &&& f.drought_evidence@.len() == n
}

/// Whether a stream with that many trades and that average is a reference.
pub open spec fn is_liquid(trades: int, vwp: Real, min_trades: u64) -> bool {
    trades >= min_trades && vwp.finite() && !vwp.zero()
}

/// The trade counts of the liquid ones among the first `n` streams.
pub open spec fn liquid_counts(
    rows: Seq<Vec<usize>>,
    vwps: Seq<Real>,
    min_trades: u64,
    n: int,
) -> Seq<i64>
    decreases n,
{
    if n <= 0 {
        Seq::empty()
    } else {
        let before = liquid_counts(rows, vwps, min_trades, n - 1);
        if is_liquid(rows[n - 1]@.len() as int, vwps[n - 1], min_trades) {
            before.push(rows[n - 1]@.len() as i64)
        } else {
            before
        }
    }
}

/// The median of ascending counts, halves rounded up.
pub open spec fn median_count(s: Seq<i64>) -> int {
    let n = s.len() as int;
    if n == 0 {
        0
    } else if n % 2 == 1 {
        s[n / 2] as int
    } else {
        (s[n / 2 - 1] + s[n / 2] + 1) / 2
    }
}

/// `m` is the median of the counts, whatever their order.
pub open spec fn is_median(counts: Seq<i64>, m: int) -> bool {
    exists|s: Seq<i64>|
        #![trigger median_count(s)]
        ascending(s) && s.to_multiset() == counts.to_multiset() && s.len() == counts.len()
            && m == median_count(s)
}

/// The liquid streams' trade counts in a window.
pub open spec fn window_liquid(w: VeracityWindow, f: WindowFacts, min_trades: u64) -> Seq<i64> {
    liquid_counts(w.rows@, f.vwps@, min_trades, w.rows@.len() as int)
}

fn liquid_of(w: &VeracityWindow, vwps: &Vec<Real>, min_trades: u64) -> (r: Vec<i64>)
    requires
        vwps@.len() == w.rows@.len(),
        forall|i: int| 0 <= i < w.rows@.len() ==> (#[trigger] w.rows@[i])@.len() <= i64::MAX,
    ensures
        r@ == liquid_counts(w.rows@, vwps@, min_trades, w.rows@.len() as int),
        forall|i: int| 0 <= i < r@.len() ==> r@[i] >= 0,
{
    let mut r: Vec<i64> = Vec::new();
    let mut i: usize = 0;
    while i < w.rows.len()
        invariant
            i <= w.rows@.len(),
            vwps@.len() == w.rows@.len(),
            forall|i: int| 0 <= i < w.rows@.len() ==> (#[trigger] w.rows@[i])@.len() <= i64::MAX,
            r@ =~= liquid_counts(w.rows@, vwps@, min_trades, i as int),
            forall|i: int| 0 <= i < r@.len() ==> r@[i] >= 0,
        decreases w.rows@.len() - i,
    {
        let n: usize = w.rows[i].len();
        assert(w.rows@[i as int]@.len() <= i64::MAX);
        if n as u64 >= min_trades && vwps[i].is_finite() && !vwps[i].is_zero() {
            r.push(n as i64);
        }
        i = i + 1;
    }
    r
}

/// The positions of the streams that serve as reference in a window, in order.
pub fn liquid_streams(w: &VeracityWindow, vwps: &Vec<Real>, min_trades: u64) -> (r: Vec<usize>)
    requires
        vwps@.len() == w.rows@.len(),
    ensures
        forall|i: int|
            0 <= i < r@.len() ==> (#[trigger] r@[i]) < w.rows@.len() && is_liquid(
                w.rows@[r@[i] as int]@.len() as int,
                vwps@[r@[i] as int],
                min_trades,
            ),
        forall|i: int, j: int| 0 <= i < j < r@.len() ==> r@[i] < r@[j],
        forall|p: int|
            0 <= p < w.rows@.len() && is_liquid(
                (#[trigger] w.rows@[p])@.len() as int,
                vwps@[p],
                min_trades,
            ) ==> crate::ordered::listed(r@, p),
{
    let mut r: Vec<usize> = Vec::new();
    let mut i: usize = 0;
    while i < w.rows.len()
        invariant
            i <= w.rows@.len(),
            vwps@.len() == w.rows@.len(),
            forall|k: int|
                0 <= k < r@.len() ==> (#[trigger] r@[k]) < i && is_liquid(
                    w.rows@[r@[k] as int]@.len() as int,
                    vwps@[r@[k] as int],
                    min_trades,
                ),
            forall|a: int, b: int| 0 <= a < b < r@.len() ==> r@[a] < r@[b],
            forall|p: int|
                0 <= p < i && is_liquid(
                    (#[trigger] w.rows@[p])@.len() as int,
                    vwps@[p],
                    min_trades,
                ) ==> crate::ordered::listed(r@, p),
        decreases w.rows@.len() - i,
    {
        let ghost r0 = r@;
        if w.rows[i].len() as u64 >= min_trades && vwps[i].is_finite() && !vwps[i].is_zero() {
            r.push(i);
            assert(r@[r0.len() as int] == i);
        }
        proof {
            assert forall|p: int| 0 <= p < i + 1 && is_liquid(
                (#[trigger] w.rows@[p])@.len() as int,
                vwps@[p],
                min_trades,
            ) implies crate::ordered::listed(r@, p) by {
                if p < i {
                    assert(crate::ordered::listed(r0, p));
                    let k = choose|k: int| 0 <= k < r0.len() && #[trigger] r0[k] == p;
                    assert(r@[k] == p);
                }
            }
        }
        i = i + 1;
    }
    r
}

/// The middle of the values in order: one value, or two to be averaged.
/// `None` without values. The values are numbers.
pub fn middle(values: &Vec<Real>) -> (r: Option<(Real, Option<Real>)>)
    requires
        forall|i: int| 0 <= i < values@.len() ==> !(#[trigger] values@[i]).nan(),
    ensures
        match r {
            None => values@.len() == 0,
            Some((a, b)) => values@.len() > 0 && exists|s: Seq<Real>|
                #![trigger s.to_multiset()]
                {
                    &&& s.to_multiset() == values@.to_multiset()
                    &&& s.len() == values@.len()
                    &&& forall|i: int, j: int| 0 <= i <= j < s.len() ==> s[i].rank() <= s[j].rank()
                    &&& if s.len() % 2 == 1 {
                        a == s[s.len() as int / 2] && b is None
                    } else {
                        a == s[s.len() as int / 2 - 1] && b == Some(s[s.len() as int / 2])
                    }
                },
        },
{
    broadcast use vstd::seq_lib::group_to_multiset_ensures;

    if values.len() == 0 {
        return None;
    }
    let mut s: Vec<Real> = Vec::new();
    let mut n: usize = 0;
    assert(values@.take(0) =~= s@);
    while n < values.len()
        invariant
            n <= values@.len(),
            s@.len() == n,
            forall|i: int| 0 <= i < values@.len() ==> !(#[trigger] values@[i]).nan(),
            forall|i: int| 0 <= i < n ==> !(#[trigger] s@[i]).nan(),
            forall|i: int, j: int| 0 <= i <= j < n ==> s@[i].rank() <= s@[j].rank(),
            s@.to_multiset() == values@.take(n as int).to_multiset(),
        decreases values@.len() - n,
    {
        let x: Real = values[n];
        assert(!values@[n as int].nan());
        let mut at: usize = n;
        while at > 0 && x.less(s[at - 1])
            invariant
                at <= n,
                s@.len() == n,
                !x.nan(),
                forall|i: int| 0 <= i < n ==> !(#[trigger] s@[i]).nan(),
                forall|i: int| at <= i < n ==> x.rank() < s@[i].rank(),
            ensures
                at > 0 ==> s@[at - 1].rank() <= x.rank(),
            decreases at,
        {
            at = at - 1;
        }
        let ghost before = s@;
        s.insert(at, x);
        proof {
            vstd::seq_lib::to_multiset_insert(before, at as int, x);
            assert(values@.take(n + 1) =~= values@.take(n as int).push(x));
            vstd::seq_lib::to_multiset_insert(values@.take(n as int), n as int, x);
            assert(values@.take(n as int).insert(n as int, x) =~= values@.take(n as int).push(x));
            assert forall|i: int, j: int| 0 <= i <= j < s@.len() implies s@[i].rank()
                <= s@[j].rank() by {
                let i0 = if i < at {
                    i
                } else {
                    i - 1
                };
                let j0 = if j < at {
                    j
                } else {
                    j - 1
                };
                if i != at && j != at {
                    assert(before[i0].rank() <= before[j0].rank());
                } else if i < at {
                    assert(before[i].rank() <= before[at - 1].rank());
                }
            }
            assert forall|i: int| 0 <= i < n + 1 implies !(#[trigger] s@[i]).nan() by {
                if i < at {
                    assert(s@[i] == before[i]);
                } else if i > at {
                    assert(s@[i] == before[i - 1]);
                }
            }
        }
        n = n + 1;
    }
    assert(values@.take(n as int) =~= values@);
    let h: usize = s.len() / 2;
    if s.len() % 2 == 1 {
        Some((s[h], None))
    } else {
        Some((s[h - 1], Some(s[h])))
    }
}

/// The median number of trades of the liquid streams of a window; `None` when
/// they are fewer than the least cohort, and the window is not judged.
pub fn median_trades(
    w: &VeracityWindow,
    vwps: &Vec<Real>,
    min_trades: u64,
    min_cohort: usize,
) -> (r: Option<u64>)
    requires
        vwps@.len() == w.rows@.len(),
        forall|i: int| 0 <= i < w.rows@.len() ==> (#[trigger] w.rows@[i])@.len() <= i64::MAX,
    ensures
        ({
            let liquid = liquid_counts(w.rows@, vwps@, min_trades, w.rows@.len() as int);
            match r {
                Some(m) => liquid.len() >= min_cohort && is_median(liquid, m as int),
                None => liquid.len() < min_cohort,
            }
        }),
{
    let counts = liquid_of(w, vwps, min_trades);
    if counts.len() < min_cohort {
        return None;
    }
    let s = sort_numbers(&counts);
    proof {
        assert forall|i: int| 0 <= i < s@.len() implies s@[i] >= 0 by {
            broadcast use vstd::seq_lib::group_to_multiset_ensures;

            assert(s@.to_multiset().count(s@[i]) > 0);
            assert(counts@.to_multiset().count(s@[i]) > 0);
            assert(counts@.contains(s@[i]));
        }
        assert(is_median(counts@, median_count(s@)));
    }
    let n: usize = s.len();
    if n == 0 {
        Some(0)
    } else if n % 2 == 1 {
        Some(s[n / 2] as u64)
    } else {
        Some((s[n / 2 - 1] as u64 + s[n / 2] as u64 + 1) / 2)
    }
}

/// Whether the price of stream `i` departs from the cohort's in a window.
pub open spec fn price_hit(
    w: VeracityWindow,
    f: WindowFacts,
    cfg: CrossVenueConfig,
    i: int,
) -> bool {
    &&& window_liquid(w, f, cfg.veracity_min_trades).len() >= cfg.min_cohort
    &&& w.rows@[i]@.len() >= cfg.veracity_min_trades
    &&& f.vwps@[i].finite()
    &&& f.off_band@[i]
}

/// Whether stream `i` trades far less than its cohort in a window, `m` being
/// the median of the liquid streams' trades.
pub open spec fn drought_hit(
    w: VeracityWindow,
    f: WindowFacts,
    cfg: CrossVenueConfig,
    m: int,
    i: int,
) -> bool {
    &&& window_liquid(w, f, cfg.veracity_min_trades).len() >= cfg.min_cohort
    &&& w.rows@[i]@.len() > 0
    &&& m >= cfg.veracity_min_trades
    &&& f.below_ratio@[i]
}

/// A departure: the stream, and whether it is a drought.
pub type Hit = (int, bool);

/// The departures of the first `n` streams in a window, in order.
pub open spec fn hits(
    w: VeracityWindow,
    f: WindowFacts,
    cfg: CrossVenueConfig,
    m: int,
    n: int,
) -> Seq<Hit>
    decreases n,
{
    if n <= 0 {
        Seq::empty()
    } else {
        hits(w, f, cfg, m, n - 1) + (if price_hit(w, f, cfg, n - 1) {
            seq![(n - 1, false)]
        } else {
            Seq::empty()
        }) + (if drought_hit(w, f, cfg, m, n - 1) {
            seq![(n - 1, true)]
        } else {
            Seq::empty()
        })
    }
}

/// `v` is the finding of a departure.
pub open spec fn is_veracity_of(
    v: VeracityFinding,
    streams: Seq<VeracityStream>,
    w: VeracityWindow,
    f: WindowFacts,
    cfg: CrossVenueConfig,
    m: int,
    hit: Hit,
) -> bool {
    let i = hit.0;
    &&& v.venue@ == slug_of(streams[i].venue)
    &&& v.symbol@ == streams[i].symbol@
    &&& v.window_from_ns == w.from_ns
    &&& v.window_to_ns == w.to_ns
    &&& v.kind@ == if hit.1 {
        "trade_drought"@
    } else {
        "price_divergence"@
    }
    &&& v.trade_count == w.rows@[i]@.len()
    &&& v.vwp == if f.vwps@[i].finite() {
        Some(f.vwps@[i])
    } else {
        None
    }
    &&& v.cohort_vwp == Some(f.median_vwp)
    &&& v.cohort_median_trades == m
    &&& v.cohort_size == window_liquid(w, f, cfg.veracity_min_trades).len()
    &&& v.evidence@ == if hit.1 {
        f.drought_evidence@[i]@
    } else {
        f.price_evidence@[i]@
    }
}

/// `found` are the findings of a window.
pub open spec fn window_found(
    found: Seq<VeracityFinding>,
    streams: Seq<VeracityStream>,
    w: VeracityWindow,
    f: WindowFacts,
    cfg: CrossVenueConfig,
) -> bool {
    exists|m: int| #[trigger]
        window_found_with(found, streams, w, f, cfg, m)
}

/// `found` are the findings of a window whose liquid streams have the median
/// `m` of trades.
pub open spec fn window_found_with(
    found: Seq<VeracityFinding>,
    streams: Seq<VeracityStream>,
    w: VeracityWindow,
    f: WindowFacts,
    cfg: CrossVenueConfig,
    m: int,
) -> bool {
    let all = hits(w, f, cfg, m, streams.len() as int);
    &&& is_median(window_liquid(w, f, cfg.veracity_min_trades), m)
    &&& found.len() == all.len()
    &&& forall|i: int|
        0 <= i < found.len() ==> is_veracity_of(
            #[trigger] found[i],
            streams,
            w,
            f,
            cfg,
            m,
            all[i],
        )
}

fn veracity_finding(
    stream: &VeracityStream,
    w: &VeracityWindow,
    f: &WindowFacts,
    i: usize,
    drought: bool,
    m: u64,
    liquid: usize,
) -> (v: VeracityFinding)
    requires
        i < w.rows@.len(),
        facts_for(*f, w.rows@.len()),
    ensures
        v.venue@ == slug_of(stream.venue),
        v.symbol@ == stream.symbol@,
        v.window_from_ns == w.from_ns,
        v.window_to_ns == w.to_ns,
        v.kind@ == if drought {
            "trade_drought"@
        } else {
            "price_divergence"@
        },
        v.trade_count == w.rows@[i as int]@.len(),
        v.vwp == if f.vwps@[i as int].finite() {
            Some(f.vwps@[i as int])
        } else {
            None
        },
        v.cohort_vwp == Some(f.median_vwp),
        v.cohort_median_trades == m,
        v.cohort_size == liquid,
        v.evidence@ == if drought {
            f.drought_evidence@[i as int]@
        } else {
            f.price_evidence@[i as int]@
        },
{
    let vwp = if f.vwps[i].is_finite() {
        Some(f.vwps[i])
    } else {
        None
    };
    let (kind, text) = if drought {
        ("trade_drought".to_owned(), f.drought_evidence[i].clone())
    } else {
        ("price_divergence".to_owned(), f.price_evidence[i].clone())
    };
    VeracityFinding {
        venue: stream.venue.slug().to_owned(),
        symbol: stream.symbol.clone(),
        window_from_ns: w.from_ns,
        window_to_ns: w.to_ns,
        kind,
        trade_count: w.rows[i].len() as u64,
        vwp,
        cohort_vwp: Some(f.median_vwp),
        cohort_median_trades: m,
        cohort_size: liquid,
        evidence: text,
    }
}

/// The findings of one window: for each stream, its price outside the band,
/// then its trades below the ratio. Only a window with enough liquid streams
/// is judged.
pub fn window_findings(
    streams: &Vec<VeracityStream>,
    w: &VeracityWindow,
    f: &WindowFacts,
    cfg: &CrossVenueConfig,
) -> (found: Vec<VeracityFinding>)
    requires
        w.rows@.len() == streams@.len(),
        facts_for(*f, streams@.len()),
        forall|i: int| 0 <= i < w.rows@.len() ==> (#[trigger] w.rows@[i])@.len() <= i64::MAX,
    ensures
        window_found(found@, streams@, *w, *f, *cfg),
{
    let mut found: Vec<VeracityFinding> = Vec::new();
    let counts = liquid_of(w, &f.vwps, cfg.veracity_min_trades);
    let liquid: usize = counts.len();
    match median_trades(w, &f.vwps, cfg.veracity_min_trades, cfg.min_cohort) {
        None => {
            proof {
                lemma_no_hits(*w, *f, *cfg, streams@.len() as int);
                lemma_median_exists(counts@);
                let m = choose|m: int| is_median(counts@, m);
                assert(window_found_with(found@, streams@, *w, *f, *cfg, m));
            }
        },
        Some(m) => {
            let mut i: usize = 0;
            while i < streams.len()
                invariant
                    i <= streams@.len(),
                    w.rows@.len() == streams@.len(),
                    facts_for(*f, streams@.len()),
                    liquid == window_liquid(*w, *f, cfg.veracity_min_trades).len(),
                    liquid >= cfg.min_cohort,
                    found@.len() == hits(*w, *f, *cfg, m as int, i as int).len(),
                    forall|k: int|
                        0 <= k < found@.len() ==> is_veracity_of(
                            #[trigger] found@[k],
                            streams@,
                            *w,
                            *f,
                            *cfg,
                            m as int,
                            hits(*w, *f, *cfg, m as int, i as int)[k],
                        ),
                decreases streams@.len() - i,
            {
                let n: u64 = w.rows[i].len() as u64;
                let ghost h0 = hits(*w, *f, *cfg, m as int, i as int);
                let ghost h1 = hits(*w, *f, *cfg, m as int, i + 1);
                if n >= cfg.veracity_min_trades && f.vwps[i].is_finite() && f.off_band[i] {
                    let v = veracity_finding(&streams[i], w, f, i, false, m, liquid);
                    found.push(v);
                }
                if n > 0 && m >= cfg.veracity_min_trades && f.below_ratio[i] {
                    let v = veracity_finding(&streams[i], w, f, i, true, m, liquid);
                    found.push(v);
                }
                proof {
                    assert forall|k: int| 0 <= k < found@.len() implies is_veracity_of(
                        #[trigger] found@[k],
                        streams@,
                        *w,
                        *f,
                        *cfg,
                        m as int,
                        h1[k],
                    ) by {
                        if k < h0.len() {
                            assert(h1[k] == h0[k]);
                        }
                    }
                }
                i = i + 1;
            }
            assert(window_found_with(found@, streams@, *w, *f, *cfg, m as int));
        },
    }
    found
}

proof fn lemma_no_hits(w: VeracityWindow, f: WindowFacts, cfg: CrossVenueConfig, n: int)
    requires
        window_liquid(w, f, cfg.veracity_min_trades).len() < cfg.min_cohort,
    ensures
        forall|m: int| #[trigger] hits(w, f, cfg, m, n) == Seq::<Hit>::empty(),
    decreases n,
{
    if n > 0 {
        lemma_no_hits(w, f, cfg, n - 1);
        assert forall|m: int| #[trigger] hits(w, f, cfg, m, n) == Seq::<Hit>::empty() by {
            assert(hits(w, f, cfg, m, n - 1) == Seq::<Hit>::empty());
            assert(hits(w, f, cfg, m, n) =~= Seq::<Hit>::empty());
        }
    }
}

proof fn lemma_median_exists(counts: Seq<i64>)
    ensures
        exists|m: int| is_median(counts, m),
{
    let leq = |a: i64, b: i64| a <= b;
    let s = counts.sort_by(leq);
    counts.lemma_sort_by_ensures(leq);
    assert(ascending(s)) by {
        assert forall|i: int, j: int| 0 <= i <= j < s.len() implies s[i] <= s[j] by {
            if i < j {
                assert(leq(s[i], s[j]));
            }
        }
    }
    assert(s.len() == counts.len()) by {
        broadcast use vstd::seq_lib::group_to_multiset_ensures;

        assert(s.to_multiset().len() == s.len());
        assert(counts.to_multiset().len() == counts.len());
    }
    assert(is_median(counts, median_count(s)));
}

/// The order of findings: by venue, then window, then kind.
pub open spec fn finding_key(v: VeracityFinding) -> ((Seq<char>, i64), Seq<char>) {
    ((v.venue@, v.window_from_ns), v.kind@)
}

/// Two findings that say the same.
pub open spec fn same_finding(a: VeracityFinding, b: VeracityFinding) -> bool {
    &&& a.venue@ == b.venue@
    &&& a.symbol@ == b.symbol@
    &&& a.window_from_ns == b.window_from_ns
    &&& a.window_to_ns == b.window_to_ns
    &&& a.kind@ == b.kind@
    &&& a.trade_count == b.trade_count
    &&& a.vwp == b.vwp
    &&& a.cohort_vwp == b.cohort_vwp
    &&& a.cohort_median_trades == b.cohort_median_trades
    &&& a.cohort_size == b.cohort_size
    &&& a.evidence@ == b.evidence@
}

/// `sorted` are the findings `all` in the order `order`.
pub open spec fn is_sorted_finding_list(
    all: Seq<VeracityFinding>,
    sorted: Seq<VeracityFinding>,
    order: Seq<usize>,
) -> bool {
    &&& sorted.len() == all.len()
    &&& order.len() == all.len()
    &&& forall|i: int|
        0 <= i < sorted.len() ==> (#[trigger] order[i]) < all.len() && same_finding(
            sorted[i],
            all[order[i] as int],
        )
    &&& forall|p: int| 0 <= p < all.len() ==> #[trigger] crate::ordered::listed(order, p)
    &&& forall|i: int, j: int|
        #![trigger order[i], order[j]]
        0 <= i < j < sorted.len() ==> <Pair<Pair<String, i64>, String> as Key>::precedes(
            finding_key(sorted[i]),
            finding_key(sorted[j]),
        ) || (finding_key(sorted[i]) == finding_key(sorted[j]) && order[i] < order[j])
}

/// The findings sorted by venue, window and kind, equal ones keeping their
/// order.
pub fn sort_findings(all: &Vec<VeracityFinding>) -> (sorted: Vec<VeracityFinding>)
    ensures
        exists|order: Seq<usize>| is_sorted_finding_list(all@, sorted@, order),
{
    let mut keys: Vec<Pair<Pair<String, i64>, String>> = Vec::new();
    let mut i: usize = 0;
    while i < all.len()
        invariant
            i <= all@.len(),
            keys@.len() == i,
            forall|k: int| 0 <= k < i ==> (#[trigger] keys@[k]).id() == finding_key(all@[k]),
        decreases all@.len() - i,
    {
        keys.push(
            Pair {
                a: Pair { a: all[i].venue.clone(), b: all[i].window_from_ns },
                b: all[i].kind.clone(),
            },
        );
        i = i + 1;
    }
    let order = sort_order(&keys);
    let mut sorted: Vec<VeracityFinding> = Vec::new();
    let mut j: usize = 0;
    while j < order.len()
        invariant
            j <= order@.len(),
            keys@.len() == all@.len(),
            stably_sorted(keys@, order@),
            sorted@.len() == j,
            forall|k: int| 0 <= k < j ==> same_finding(#[trigger] sorted@[k], all@[order@[k] as int]),
        decreases order@.len() - j,
    {
        let v = &all[order[j]];
        let copy = VeracityFinding {
            venue: v.venue.clone(),
            symbol: v.symbol.clone(),
            window_from_ns: v.window_from_ns,
            window_to_ns: v.window_to_ns,
            kind: v.kind.clone(),
            trade_count: v.trade_count,
            vwp: v.vwp,
            cohort_vwp: v.cohort_vwp,
            cohort_median_trades: v.cohort_median_trades,
            cohort_size: v.cohort_size,
            evidence: v.evidence.clone(),
        };
        sorted.push(copy);
        j = j + 1;
    }
    proof {
        let o = order@;
        assert forall|i: int| 0 <= i < sorted@.len() implies (#[trigger] o[i]) < all@.len()
            && same_finding(sorted@[i], all@[o[i] as int]) by {
            assert(same_finding(sorted@[i], all@[o[i] as int]));
        }
        assert forall|i: int, j: int|
            #![trigger o[i], o[j]]
            0 <= i < j < sorted@.len() implies <Pair<Pair<String, i64>, String> as Key>::precedes(
            finding_key(sorted@[i]),
            finding_key(sorted@[j]),
        ) || (finding_key(sorted@[i]) == finding_key(sorted@[j]) && o[i] < o[j]) by {
            assert(crate::ordered::comes_first(keys@, o[i] as int, o[j] as int));
            assert(same_finding(sorted@[i], all@[o[i] as int]));
            assert(same_finding(sorted@[j], all@[o[j] as int]));
            assert(keys@[o[i] as int].id() == finding_key(all@[o[i] as int]));
            assert(keys@[o[j] as int].id() == finding_key(all@[o[j] as int]));
        }
        assert(is_sorted_finding_list(all@, sorted@, o));
    }
    sorted
}

/// The findings of the first windows, one list behind the other.
pub open spec fn found_in_windows(
    all: Seq<VeracityFinding>,
    streams: Seq<VeracityStream>,
    windows: Seq<VeracityWindow>,
    facts: Seq<WindowFacts>,
    cfg: CrossVenueConfig,
) -> bool
    decreases windows.len(),
{
    if windows.len() == 0 {
        all.len() == 0
    } else {
        exists|cut: int|
            #![trigger all.take(cut)]
            {
                &&& 0 <= cut <= all.len()
                &&& found_in_windows(
                    all.take(cut),
                    streams,
                    windows.drop_last(),
                    facts,
                    cfg,
                )
                &&& window_found(
                    all.skip(cut),
                    streams,
                    windows.last(),
                    facts[windows.len() - 1],
                    cfg,
                )
            }
    }
}

/// The findings of the whole day, sorted by venue, window and kind. Without a
/// cohort of enough streams there are none.
pub fn detect_veracity(
    streams: &Vec<VeracityStream>,
    windows: &Vec<VeracityWindow>,
    facts: &Vec<WindowFacts>,
    cfg: &CrossVenueConfig,
) -> (found: Vec<VeracityFinding>)
    requires
        facts@.len() == windows@.len(),
        forall|k: int|
            0 <= k < windows@.len() ==> (#[trigger] windows@[k]).rows@.len() == streams@.len()
                && facts_for(facts@[k], streams@.len()) && forall|i: int|
                0 <= i < windows@[k].rows@.len() ==> (#[trigger] windows@[k].rows@[i])@.len()
                    <= i64::MAX,
    ensures
        if streams@.len() < cfg.min_cohort {
            found@.len() == 0
        } else {
            exists|all: Seq<VeracityFinding>, order: Seq<usize>|
                #[trigger] is_sorted_finding_list(all, found@, order) && found_in_windows(
                    all,
                    streams@,
                    windows@,
                    facts@,
                    *cfg,
                )
        },
{
    if streams.len() < cfg.min_cohort {
        return Vec::new();
    }
    let mut all: Vec<VeracityFinding> = Vec::new();
    let mut k: usize = 0;
    assert(windows@.take(0).len() == 0);
    while k < windows.len()
        invariant
            k <= windows@.len(),
            facts@.len() == windows@.len(),
            forall|k: int|
                0 <= k < windows@.len() ==> (#[trigger] windows@[k]).rows@.len() == streams@.len()
                    && facts_for(facts@[k], streams@.len()) && forall|i: int|
                    0 <= i < windows@[k].rows@.len() ==> (#[trigger] windows@[k].rows@[i])@.len()
                        <= i64::MAX,
            found_in_windows(all@, streams@, windows@.take(k as int), facts@, *cfg),
        decreases windows@.len() - k,
    {
        assert(windows@[k as int].rows@.len() == streams@.len());
        let mut part = window_findings(streams, &windows[k], &facts[k], cfg);
        let ghost a0 = all@;
        let ghost p0 = part@;
        all.append(&mut part);
        proof {
            assert(windows@.take(k + 1).drop_last() =~= windows@.take(k as int));
            assert(all@.take(a0.len() as int) =~= a0);
            assert(all@.skip(a0.len() as int) =~= p0);
            assert(found_in_windows(all@, streams@, windows@.take(k + 1), facts@, *cfg));
        }
        k = k + 1;
    }
    assert(windows@.take(k as int) =~= windows@);
    let sorted = sort_findings(&all);
    proof {
        let order = choose|order: Seq<usize>| is_sorted_finding_list(all@, sorted@, order);
        assert(is_sorted_finding_list(all@, sorted@, order) && found_in_windows(
            all@,
            streams@,
            windows@,
            facts@,
            *cfg,
        ));
    }
    sorted
}

/// The venues that are asked, told apart from the list they come from.
proof fn lemma_asked_filter(facts: Seq<MemberFacts>, venue: Venue)
    ensures
        asked(facts, venue) == facts.filter(|f: MemberFacts| f.venue != venue && f.recorded),
    decreases facts.len(),
{
    reveal(Seq::filter);
    let p = |f: MemberFacts| f.venue != venue && f.recorded;
    if facts.len() > 0 {
        lemma_asked_filter(facts.drop_last(), venue);
    }
}

proof fn lemma_corroborators_filter(facts: Seq<MemberFacts>, cfg: CrossVenueConfig)
    ensures
        corroborators(facts, cfg) == facts.filter(
            |f: MemberFacts|
                !cfg.cohort_gap_overlap.lt(f.overlap) && f.trade_count >= cfg.min_trades
                    && f.vwp_win.finite() && f.vwp_pre.finite() && !f.vwp_pre.zero()
                    && f.within_band,
        ).len(),
    decreases facts.len(),
{
    reveal(Seq::filter);
    if facts.len() > 0 {
        lemma_corroborators_filter(facts.drop_last(), cfg);
    }
}

/// What a gap is called, of every cohort. With fewer other venues that recorded
/// the day than asked for, it is unknown. Else it is market-wide exactly if each
/// other venue recorded the day and was itself gapped for more than the given
/// part of the gap. Else it is the venue's own exactly if enough of the others
/// traded on: not gapped, with trades enough, at prices that are numbers and in
/// the band; and unknown otherwise.
pub proof fn law_classification(facts: Seq<MemberFacts>, venue: Venue, cfg: CrossVenueConfig)
    ensures
        ({
            let others = facts.filter(|f: MemberFacts| f.venue != venue && f.recorded);
            let going = others.filter(
                |f: MemberFacts|
                    !cfg.cohort_gap_overlap.lt(f.overlap) && f.trade_count >= cfg.min_trades
                        && f.vwp_win.finite() && f.vwp_pre.finite() && !f.vwp_pre.zero()
                        && f.within_band,
            );
            let wide = forall|i: int|
                0 <= i < facts.len() && (#[trigger] facts[i]).venue != venue ==> facts[i].recorded
                    && cfg.cohort_gap_overlap.lt(facts[i].overlap);
            let class = class_of(facts, venue, cfg);
            &&& others.len() < cfg.min_cohort ==> class == Classification::IsolatedUnknown
            &&& others.len() >= cfg.min_cohort ==> (wide <==> class == Classification::MarketWide)
            &&& others.len() >= cfg.min_cohort && !wide ==> (going.len() >= cfg.min_corroborators
                <==> class == Classification::CorroboratedVenueSide)
            &&& class == Classification::IsolatedUnknown || class == Classification::MarketWide
                || class == Classification::CorroboratedVenueSide
        }),
{
    lemma_asked_filter(facts, venue);
    lemma_corroborators_filter(asked(facts, venue), cfg);
    assert(all_gapped(facts, venue, cfg) == (forall|i: int|
        0 <= i < facts.len() && (#[trigger] facts[i]).venue != venue ==> facts[i].recorded
            && cfg.cohort_gap_overlap.lt(facts[i].overlap)));
}

/// The positions of a span are those of the events received in it, from its
/// start and before its end.
pub proof fn law_positions_in(events: Seq<EventEnvelope>, from: int, to: int, k: int)
    requires
        0 <= k < events.len() <= usize::MAX,
    ensures
        positions_in(events, from, to).contains(k as usize) <==> from <= events[k].recv_ts_ns < to,
{
    lemma_positions_exact(events, from, to, k);
}

proof fn lemma_pushed(before: Seq<usize>, x: usize, k: usize)
    ensures
        before.push(x).contains(k) <==> before.contains(k) || k == x,
{
    let all = before.push(x);
    assert(all[before.len() as int] == x);
    if before.contains(k) {
        let i = before.index_of(k);
        assert(all[i] == k);
    }
    if all.contains(k) {
        let i = all.index_of(k);
        if i < before.len() {
            assert(before[i] == k);
        }
    }
}

proof fn lemma_positions_exact(events: Seq<EventEnvelope>, from: int, to: int, k: int)
    requires
        0 <= k <= usize::MAX,
        events.len() <= usize::MAX,
    ensures
        positions_in(events, from, to).contains(k as usize) <==> k < events.len() && from
            <= events[k].recv_ts_ns < to,
    decreases events.len(),
{
    if events.len() > 0 {
        let t = events.drop_last();
        lemma_positions_exact(t, from, to, k);
        lemma_pushed(positions_in(t, from, to), (events.len() - 1) as usize, k as usize);
        assert(k < t.len() ==> t[k] == events[k]);
    }
}

/// The trades of a window are the plain trade events received in it, from its
/// start and before its end.
pub proof fn law_trades_in(events: Seq<EventEnvelope>, from: int, to: int, k: int)
    requires
        0 <= k < events.len() <= usize::MAX,
    ensures
        trades_in(events, from, to).contains(k as usize) <==> events[k].body is Trade && from
            <= events[k].recv_ts_ns < to,
{
    lemma_trades_exact(events, from, to, k);
}

proof fn lemma_trades_exact(events: Seq<EventEnvelope>, from: int, to: int, k: int)
    requires
        0 <= k <= usize::MAX,
        events.len() <= usize::MAX,
    ensures
        trades_in(events, from, to).contains(k as usize) <==> k < events.len()
            && events[k].body is Trade && from <= events[k].recv_ts_ns < to,
    decreases events.len(),
{
    if events.len() > 0 {
        let t = events.drop_last();
        lemma_trades_exact(t, from, to, k);
        lemma_pushed(trades_in(t, from, to), (events.len() - 1) as usize, k as usize);
        assert(k < t.len() ==> t[k] == events[k]);
    }
}

/// No stream starts before the earliest time or ends after the latest, and
/// each of the two is the start or end of a stream.
pub proof fn law_span_of_streams(streams: Seq<VeracityStream>)
    ensures
        forall|i: int|
            0 <= i < streams.len() ==> earliest(streams) <= (
            #[trigger] streams[i]).trades@[0].recv_ts_ns,
        forall|i: int|
            0 <= i < streams.len() ==> latest(streams) >= (
            #[trigger] streams[i]).trades@.last().recv_ts_ns,
        streams.len() > 0 ==> exists|i: int|
            0 <= i < streams.len() && earliest(streams) == (
            #[trigger] streams[i]).trades@[0].recv_ts_ns,
        streams.len() > 0 ==> exists|i: int|
            0 <= i < streams.len() && latest(streams) == (
            #[trigger] streams[i]).trades@.last().recv_ts_ns,
    decreases streams.len(),
{
    if streams.len() > 0 {
        let t = streams.drop_last();
        let n = streams.len() - 1;
        assert(forall|i: int| 0 <= i < n ==> t[i] == streams[i]);
        assert(streams[n] == streams.last());
        law_span_of_streams(t);
        if n > 0 {
            let i = choose|i: int|
                0 <= i < t.len() && earliest(t) == (#[trigger] t[i]).trades@[0].recv_ts_ns;
            assert(streams[i] == t[i]);
            let j = choose|j: int|
                0 <= j < t.len() && latest(t) == (#[trigger] t[j]).trades@.last().recv_ts_ns;
            assert(streams[j] == t[j]);
        }
    }
}

/// The first window starts at the midnight of the earliest trade.
pub proof fn law_windows_start_at_midnight(streams: Seq<VeracityStream>)
    ensures
        first_window(streams) % 86_400_000_000_000 == 0,
        first_window(streams) <= earliest(streams) < first_window(streams) + 86_400_000_000_000,
{
}

/// Windows follow each other without a gap, each as long as asked.
pub proof fn law_windows_tile(
    windows: Seq<VeracityWindow>,
    streams: Seq<VeracityStream>,
    win: int,
    k: int,
)
    requires
        are_windows(windows, streams, win),
        0 <= k < windows.len(),
    ensures
        windows[0].from_ns == first_window(streams),
        windows[k].to_ns - windows[k].from_ns == win,
        k > 0 ==> windows[k].from_ns == windows[k - 1].to_ns,
        k == windows.len() - 1 ==> windows[k].from_ns <= latest(streams) < windows[k].to_ns,
{
    assert(is_window(windows[0], streams, 0, win));
    assert(is_window(windows[k], streams, k, win));
    if k > 0 {
        assert(is_window(windows[k - 1], streams, k - 1, win));
        assert((k - 1) * win + win == k * win) by (nonlinear_arith);
    }
    assert(k * win + win == (k + 1) * win) by (nonlinear_arith);
    assert(0 * win == 0) by (nonlinear_arith);
}

/// The length of a window is its minutes, where their nanoseconds fit.
pub proof fn law_minutes(minutes: u64)
    ensures
        minutes <= 153_722_867 ==> window_ns(minutes) == minutes * 60 * 1_000_000_000,
        minutes > 153_722_867 ==> window_ns(minutes) == 0,
{
}

/// The liquid streams of a window are those with enough trades and a price
/// that is finite and not zero, each with its count.
pub proof fn law_liquid_streams(rows: Seq<Vec<usize>>, vwps: Seq<Real>, min_trades: u64, n: int)
    requires
        n >= 0,
    ensures
        ({
            let kept = Seq::new(n as nat, |i: int| i).filter(
                |i: int|
                    rows[i]@.len() >= min_trades && vwps[i].finite() && vwps[i].bits != 0
                        && vwps[i].bits != 0x8000_0000_0000_0000,
            );
            let counts = liquid_counts(rows, vwps, min_trades, n);
            &&& counts.len() == kept.len()
            &&& forall|i: int|
                0 <= i < kept.len() ==> #[trigger] counts[i] == rows[kept[i]]@.len() as i64
        }),
    decreases n,
{
    reveal(Seq::filter);
    if n > 0 {
        law_liquid_streams(rows, vwps, min_trades, n - 1);
        let all = Seq::new(n as nat, |i: int| i);
        assert(all.drop_last() =~= Seq::new((n - 1) as nat, |i: int| i));
        assert(all.last() == n - 1);
    }
}

/// The median of an ordered list is half of its two middle items, which are
/// one item in a list of odd length; a half is rounded up.
pub proof fn law_median(s: Seq<i64>)
    ensures
        s.len() == 0 ==> median_count(s) == 0,
        s.len() > 0 ==> 0 <= 2 * median_count(s) - (s[(s.len() - 1) / 2] + s[s.len() as int / 2])
            <= 1,
{
}

/// A stream is reported for its price exactly where enough streams are liquid
/// and it trades enough at a finite price out of the band; for a drought
/// exactly where enough are liquid, it trades at all, the median reaches the
/// least count and it is below its share.
pub proof fn law_reported(
    w: VeracityWindow,
    f: WindowFacts,
    cfg: CrossVenueConfig,
    m: int,
    n: int,
    i: int,
)
    requires
        0 <= i,
        0 <= n,
    ensures
        hits(w, f, cfg, m, n).contains((i, false)) <==> i < n && {
            &&& window_liquid(w, f, cfg.veracity_min_trades).len() >= cfg.min_cohort
            &&& w.rows@[i]@.len() >= cfg.veracity_min_trades
            &&& f.vwps@[i].finite()
            &&& f.off_band@[i]
        },
        hits(w, f, cfg, m, n).contains((i, true)) <==> i < n && {
            &&& window_liquid(w, f, cfg.veracity_min_trades).len() >= cfg.min_cohort
            &&& w.rows@[i]@.len() > 0
            &&& m >= cfg.veracity_min_trades
            &&& f.below_ratio@[i]
        },
    decreases n,
{
    if n > 0 {
        law_reported(w, f, cfg, m, n - 1, i);
        let a = hits(w, f, cfg, m, n - 1);
        let b: Seq<Hit> = if price_hit(w, f, cfg, n - 1) {
            seq![(n - 1, false)]
        } else {
            Seq::empty()
        };
        let c: Seq<Hit> = if drought_hit(w, f, cfg, m, n - 1) {
            seq![(n - 1, true)]
        } else {
            Seq::empty()
        };
        assert(hits(w, f, cfg, m, n) == a + b + c);
        lemma_joined(a, b, c, (i, false));
        lemma_joined(a, b, c, (i, true));
        assert(b.len() > 0 ==> b[0] == (n - 1, false));
        assert(c.len() > 0 ==> c[0] == (n - 1, true));
    }
}

proof fn lemma_joined(a: Seq<Hit>, b: Seq<Hit>, c: Seq<Hit>, x: Hit)
    ensures
        (a + b + c).contains(x) <==> a.contains(x) || b.contains(x) || c.contains(x),
{
    let all = a + b + c;
    if a.contains(x) {
        let i = a.index_of(x);
        assert(all[i] == x);
    }
    if b.contains(x) {
        let i = b.index_of(x);
        assert(all[a.len() + i] == x);
    }
    if c.contains(x) {
        let i = c.index_of(x);
        assert(all[a.len() + b.len() + i] == x);
    }
    if all.contains(x) {
        let i = all.index_of(x);
        if i < a.len() {
            assert(a[i] == x);
        } else if i < a.len() + b.len() {
            assert(b[i - a.len()] == x);
        } else {
            assert(c[i - a.len() - b.len()] == x);
        }
    }
}

/// A member corroborates exactly where it was not gapped itself and traded
/// enough, at finite prices of which the one before is not zero, in the band.
pub proof fn law_member(m: CohortMember, f: MemberFacts, cfg: CrossVenueConfig)
    requires
        is_member_of(m, f, cfg),
    ensures
        m.corroborates <==> {
            &&& !cfg.cohort_gap_overlap.lt(f.overlap)
            &&& f.trade_count >= cfg.min_trades
            &&& f.vwp_win.finite()
            &&& f.vwp_pre.finite()
            &&& f.vwp_pre.bits != 0
            &&& f.vwp_pre.bits != 0x8000_0000_0000_0000
            &&& f.within_band
        },
        m.trade_count == f.trade_count,
        f.vwp_win.finite() ==> m.vwp == Some(f.vwp_win),
        !f.vwp_win.finite() ==> m.vwp is None,
{
}

/// A manifest's gaps are those of the trade stream of the symbol; without a
/// manifest or such a stream there are none.
pub proof fn law_listed_gaps(m: QualityManifest, symbol: Seq<char>)
    ensures
        listed_gaps(None, symbol).len() == 0,
        m.streams.map().dom().contains("trades:"@ + symbol) ==> listed_gaps(Some(m), symbol)
            == m.streams.map()["trades:"@ + symbol].gaps@,
        !m.streams.map().dom().contains("trades:"@ + symbol) ==> listed_gaps(
            Some(m),
            symbol,
        ).len() == 0,
{
}

/// Every gap of a member of a known venue is a case, under its place in the
/// list.
pub proof fn law_gap_is_a_case(
    members: Seq<(String, String)>,
    manifests: Seq<Option<QualityManifest>>,
    i: int,
    v: Venue,
    g: int,
)
    requires
        0 <= i < members.len(),
        slug_of(v) == members[i].0@,
        0 <= g < listed_gaps(manifests[i], members[i].1@).len(),
    ensures
        cohort_cases(members, manifests).contains(
            (CaseView {
                venue: v,
                symbol: members[i].1@,
                gap_index: g,
                gap: listed_gaps(manifests[i], members[i].1@)[g],
            }),
        ),
    decreases members.len(),
{
    let n = members.len() - 1;
    let before = cohort_cases(members.drop_last(), manifests);
    let all = cohort_cases(members, manifests);
    let gaps = listed_gaps(manifests[i], members[i].1@);
    let x = CaseView { venue: v, symbol: members[i].1@, gap_index: g, gap: gaps[g] };
    if i == n {
        let u = choose|u: Venue| slug_of(u) == members[i].0@;
        crate::event::law_slugs_distinct(u, v);
        let tail = gap_cases(v, members[i].1@, gaps);
        assert(all == before + tail);
        assert(tail[g] == x);
        assert(all[before.len() + g] == x);
    } else {
        assert(members.drop_last()[i] == members[i]);
        law_gap_is_a_case(members.drop_last(), manifests, i, v, g);
        let y = before.index_of(x);
        assert(all[y] == x);
    }
}

/// A case is a gap that a member lists under its venue and symbol.
pub proof fn law_case_is_a_gap(
    members: Seq<(String, String)>,
    manifests: Seq<Option<QualityManifest>>,
    c: int,
)
    requires
        0 <= c < cohort_cases(members, manifests).len(),
    ensures
        exists|i: int|
            0 <= i < members.len() && {
                let x = cohort_cases(members, manifests)[c];
                let gaps = listed_gaps(manifests[i], (#[trigger] members[i]).1@);
                &&& slug_of(x.venue) == members[i].0@
                &&& x.symbol == members[i].1@
                &&& 0 <= x.gap_index < gaps.len()
                &&& x.gap == gaps[x.gap_index]
            },
    decreases members.len(),
{
    if members.len() > 0 {
        let n = members.len() - 1;
        let t = members.drop_last();
        let before = cohort_cases(t, manifests);
        let all = cohort_cases(members, manifests);
        if c < before.len() {
            law_case_is_a_gap(t, manifests, c);
            let i = choose|i: int|
                0 <= i < t.len() && {
                    let x = before[c];
                    let gaps = listed_gaps(manifests[i], (#[trigger] t[i]).1@);
                    &&& slug_of(x.venue) == t[i].0@
                    &&& x.symbol == t[i].1@
                    &&& 0 <= x.gap_index < gaps.len()
                    &&& x.gap == gaps[x.gap_index]
                };
            assert(members[i] == t[i]);
            assert(all[c] == before[c]);
        } else {
            assert(members[n] == members.last());
            let gaps = listed_gaps(manifests[n], members[n].1@);
            assert(venue_named(members[n].0@) is Some);
            let v = venue_named(members[n].0@)->0;
            let tail = gap_cases(v, members[n].1@, gaps);
            assert(all == before + tail);
            assert(all[c] == tail[c - before.len()]);
        }
    }
}

/// A finding names its gap and repeats its bounds and kind.
pub proof fn law_finding_is_of_its_gap(
    f: Finding,
    case: CaseView,
    facts: Seq<MemberFacts>,
    cfg: CrossVenueConfig,
)
    requires
        is_finding_of(f, case, facts, cfg),
    ensures
        f.venue@ == venue_dir_of(case.venue),
        f.symbol@ == case.symbol,
        f.gap_index == case.gap_index,
        f.from_ns == case.gap.from_ns,
        f.to_ns == case.gap.to_ns,
        case.gap.kind == GapKind::Disconnect ==> f.kind@ == "disconnect"@,
        case.gap.kind == GapKind::Overrun ==> f.kind@ == "overrun"@,
        case.gap.kind == GapKind::Venue ==> f.kind@ == "venue"@,
        f.cohort@.len() == facts.filter(
            |x: MemberFacts| x.venue != case.venue && x.recorded,
        ).len(),
{
    lemma_asked_filter(facts, case.venue);
}

/// A veracity finding repeats its stream, its window and its counts.
pub proof fn law_veracity_finding(
    v: VeracityFinding,
    streams: Seq<VeracityStream>,
    w: VeracityWindow,
    f: WindowFacts,
    cfg: CrossVenueConfig,
    m: int,
    i: int,
    drought: bool,
)
    requires
        is_veracity_of(v, streams, w, f, cfg, m, (i, drought)),
    ensures
        v.venue@ == slug_of(streams[i].venue),
        v.symbol@ == streams[i].symbol@,
        v.window_from_ns == w.from_ns,
        v.window_to_ns == w.to_ns,
        drought ==> v.kind@ == "trade_drought"@ && v.evidence@ == f.drought_evidence@[i]@,
        !drought ==> v.kind@ == "price_divergence"@ && v.evidence@ == f.price_evidence@[i]@,
        v.trade_count == w.rows@[i]@.len(),
        f.vwps@[i].finite() ==> v.vwp == Some(f.vwps@[i]),
        !f.vwps@[i].finite() ==> v.vwp is None,
        v.cohort_vwp == Some(f.median_vwp),
        v.cohort_median_trades == m,
{
}

/// Findings are listed by venue, then by the start of their window, then by
/// their kind, and none is lost.
pub proof fn law_findings_in_order(
    all: Seq<VeracityFinding>,
    sorted: Seq<VeracityFinding>,
    order: Seq<usize>,
    i: int,
    j: int,
)
    requires
        is_sorted_finding_list(all, sorted, order),
        0 <= i < j < sorted.len(),
    ensures
        sorted.len() == all.len(),
        same_finding(sorted[i], all[order[i] as int]),
        order[i] != order[j],
        !crate::text::before(sorted[j].venue@, sorted[i].venue@),
        sorted[i].venue@ == sorted[j].venue@ ==> sorted[i].window_from_ns
            <= sorted[j].window_from_ns,
        sorted[i].venue@ == sorted[j].venue@ && sorted[i].window_from_ns
            == sorted[j].window_from_ns ==> !crate::text::before(sorted[j].kind@, sorted[i].kind@),
{
    let p = order[i] as int;
    let q = order[j] as int;
    crate::text::lemma_before_total(sorted[i].venue@, sorted[j].venue@);
    crate::text::lemma_before_total(sorted[i].kind@, sorted[j].kind@);
    assert(same_finding(sorted[i], all[p]));
    assert(same_finding(sorted[j], all[q]));
    if p == q {
        assert(finding_key(sorted[i]) == finding_key(sorted[j]));
    }
}

/// The median of the counts is that of their ordered list.
pub proof fn law_median_of_counts(counts: Seq<i64>, m: int)
    requires
        is_median(counts, m),
        counts.len() > 0,
    ensures
        exists|s: Seq<i64>|
            #![trigger s.to_multiset()]
            s.len() == counts.len() && s.to_multiset() == counts.to_multiset() && (forall|
                i: int,
                j: int,
            |
                0 <= i <= j < s.len() ==> s[i] <= s[j]) && 0 <= 2 * m - (s[(s.len() - 1) / 2]
                + s[s.len() as int / 2]) <= 1,
{
    let s = choose|s: Seq<i64>|
        #![trigger median_count(s)]
        crate::ordered::ascending(s) && s.to_multiset() == counts.to_multiset() && s.len()
            == counts.len() && m == median_count(s);
    law_median(s);
    assert(s.to_multiset() == counts.to_multiset());
}

/// The findings of a window are as many as its hits, in the order of the
/// streams, a price before a drought.
pub proof fn law_window_findings(
    found: Seq<VeracityFinding>,
    streams: Seq<VeracityStream>,
    w: VeracityWindow,
    f: WindowFacts,
    cfg: CrossVenueConfig,
    m: int,
)
    requires
        window_found_with(found, streams, w, f, cfg, m),
    ensures
        found.len() == hits(w, f, cfg, m, streams.len() as int).len(),
        is_median(window_liquid(w, f, cfg.veracity_min_trades), m),
        forall|i: int|
            0 <= i < found.len() ==> is_veracity_of(
                #[trigger] found[i],
                streams,
                w,
                f,
                cfg,
                m,
                hits(w, f, cfg, m, streams.len() as int)[i],
            ),
{
}

} // verus!
