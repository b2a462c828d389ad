//! Determinism: the daily artifact, and the comparison of replays.
use vstd::prelude::*;
use crate::engine::{default_config, SimConfig};
use crate::fills::FillModel;
use crate::layout::glued;
use crate::number::Real;
use crate::decision_log::DecisionLog;
use crate::text::{copy_strings, dec, join_path, joined, push_dec, push_text, same, views};

verus! {

/// One day's determinism verdict as stored. The promotion gate reads the date
/// and whether it passed; the rest is evidence.
#[derive(Debug)]
pub struct DeterminismArtifact {
    pub date: String,
    /// Two fresh replays agree, and agree with the live log where there is
    /// one.
    pub passed: bool,
    /// Two fresh replays agree.
    pub self_consistent: bool,
    /// There was a live log to compare with.
    pub live_present: bool,
    /// The replay agrees with the live log.
    pub live_matches: Option<bool>,
    pub strategy: Option<String>,
    pub seed: Option<u64>,
    pub event_count: Option<u64>,
    pub replayed_lines: Option<u64>,
    pub replayed_hash: Option<u64>,
    pub reason: Option<String>,
    pub ts_ns: Option<i64>,
}

impl Default for DeterminismArtifact {
    fn default() -> (a: Self)
        ensures
            a.date@.len() == 0,
            !a.passed,
            !a.self_consistent,
            !a.live_present,
            a.live_matches is None,
            a.strategy is None,
            a.seed is None,
            a.event_count is None,
            a.replayed_lines is None,
            a.replayed_hash is None,
            a.reason is None,
            a.ts_ns is None,
    {
        DeterminismArtifact {
            date: String::new(),
            passed: false,
            self_consistent: false,
            live_present: false,
            live_matches: None,
            strategy: None,
            seed: None,
            event_count: None,
            replayed_lines: None,
            replayed_hash: None,
            reason: None,
            ts_ns: None,
        }
    }
}

/// `{score_dir}/{date}.determinism.json`.
pub fn determinism_file(score_dir: &str, date: &str) -> (s: String)
    ensures
        s@ == joined(score_dir@, date@ + ".determinism.json"@),
{
    join_path(score_dir, glued(date, ".determinism.json").as_str())
}

// ---------------------------------------------------------------------------
// Comparison of decision logs
// ---------------------------------------------------------------------------

/// How many lines two logs have in common from the start.
pub open spec fn common(a: Seq<Seq<char>>, b: Seq<Seq<char>>) -> int
    decreases a.len(),
{
    if a.len() == 0 || b.len() == 0 || a[0] != b[0] {
        0
    } else {
        1 + common(a.skip(1), b.skip(1))
    }
}

/// The first line in which two logs differ.
pub open spec fn divergence(a: Seq<Seq<char>>, b: Seq<Seq<char>>) -> Option<int> {
    if a == b {
        None
    } else {
        Some(common(a, b))
    }
}

proof fn lemma_common(a: Seq<Seq<char>>, b: Seq<Seq<char>>, n: int)
    requires
        0 <= n <= a.len(),
        n <= b.len(),
        forall|i: int| 0 <= i < n ==> a[i] == b[i],
        n == a.len() || n == b.len() || a[n] != b[n],
    ensures
        common(a, b) == n,
    decreases a.len(),
{
    if n > 0 {
        assert(a[0] == b[0]);
        let a1 = a.skip(1);
        let b1 = b.skip(1);
        assert forall|i: int| 0 <= i < n - 1 implies a1[i] == b1[i] by {
            assert(a[i + 1] == b[i + 1]);
        }
        lemma_common(a1, b1, n - 1);
    }
}

/// The first line in which `a` and `b` differ, if they do.
pub fn first_divergence(a: &Vec<String>, b: &Vec<String>) -> (r: Option<usize>)
    ensures
        match r {
            Some(i) => divergence(views(a@), views(b@)) == Some(i as int),
            None => divergence(views(a@), views(b@)) is None,
        },
{
    let n: usize = if a.len() < b.len() {
        a.len()
    } else {
        b.len()
    };
    let mut i: usize = 0;
    while i < n
        invariant
            i <= n,
            n <= a@.len(),
            n <= b@.len(),
            forall|k: int| 0 <= k < i ==> views(a@)[k] == views(b@)[k],
        decreases n - i,
    {
        if !same(a[i].as_str(), b[i].as_str()) {
            proof {
                lemma_common(views(a@), views(b@), i as int);
                assert(views(a@)[i as int] != views(b@)[i as int]);
            }
            return Some(i);
        }
        i = i + 1;
    }
    if a.len() != b.len() {
        proof {
            lemma_common(views(a@), views(b@), n as int);
        }
        Some(n)
    } else {
        assert(views(a@) =~= views(b@));
        None
    }
}

/// Divergence does not depend on which log is named first, and there is none
/// exactly between equal logs. Up to it, the logs agree.
pub proof fn law_divergence(a: Seq<Seq<char>>, b: Seq<Seq<char>>)
    ensures
        divergence(a, b) == divergence(b, a),
        divergence(a, b) is None <==> a == b,
        divergence(a, b) matches Some(i) ==> {
            &&& 0 <= i <= a.len()
            &&& i <= b.len()
            &&& a.take(i) == b.take(i)
            &&& i == a.len() || i == b.len() || a[i] != b[i]
        },
    decreases a.len(),
{
    let n = common(a, b);
    if a.len() > 0 && b.len() > 0 && a[0] == b[0] {
        law_divergence(a.skip(1), b.skip(1));
        lemma_common_symmetric(a.skip(1), b.skip(1));
        if a.skip(1) == b.skip(1) {
            assert(a =~= seq![a[0]] + a.skip(1));
            assert(b =~= seq![b[0]] + b.skip(1));
        } else {
            let i = n - 1;
            assert forall|k: int| 0 <= k < n implies a[k] == b[k] by {
                if k > 0 {
                    assert(a.skip(1).take(i)[k - 1] == b.skip(1).take(i)[k - 1]);
                }
            }
            assert(a.take(n) =~= b.take(n));
            assert(a != b);
        }
    } else {
        assert(a.take(0) =~= b.take(0));
        if a.len() == 0 && b.len() == 0 {
            assert(a =~= b);
        }
    }
}

proof fn lemma_common_symmetric(a: Seq<Seq<char>>, b: Seq<Seq<char>>)
    ensures
        common(a, b) == common(b, a),
    decreases a.len(),
{
    if a.len() > 0 && b.len() > 0 && a[0] == b[0] {
        lemma_common_symmetric(a.skip(1), b.skip(1));
    }
}

// ---------------------------------------------------------------------------
// Replays
// ---------------------------------------------------------------------------

/// The seed of the check where no other is configured.
pub const DEFAULT_SEED: u64 = 0xC0FFEE;

/// What the replay runs.
#[derive(Debug)]
pub struct DeterminismConfig {
    pub strategy: String,
    pub seed: u64,
}

impl DeterminismConfig {
    /// The funding strategy, under the default seed.
    pub fn defaults() -> (c: Self)
        ensures
            c.strategy@ == "carry-v1"@,
            c.seed == DEFAULT_SEED,
    {
        DeterminismConfig { strategy: "carry-v1".to_owned(), seed: DEFAULT_SEED }
    }
}

/// A strategy that the check can replay.
#[derive(Clone, Copy, Debug, PartialEq, Eq, Structural)]
pub enum ReplayStrategy {
    /// Watches the events and never trades.
    Watcher,
    /// Trades funding over the day's symbols.
    Carry,
}

/// Which strategy a configuration names.
pub fn strategy_for(cfg: &DeterminismConfig) -> (r: Result<ReplayStrategy, String>)
    ensures
        match r {
            Ok(ReplayStrategy::Watcher) => cfg.strategy@ == "null"@,
            Ok(ReplayStrategy::Carry) => cfg.strategy@ == "carry-v1"@,
            Err(e) => cfg.strategy@ != "null"@ && cfg.strategy@ != "carry-v1"@ && e@
                == "unknown determinism strategy '"@ + cfg.strategy@ + "' (carry-v1|null)"@,
        },
        cfg.strategy@ == "null"@ ==> r == Ok::<ReplayStrategy, String>(ReplayStrategy::Watcher),
{
    if same(cfg.strategy.as_str(), "null") {
        Ok(ReplayStrategy::Watcher)
    } else if same(cfg.strategy.as_str(), "carry-v1") {
        Ok(ReplayStrategy::Carry)
    } else {
        let mut e = "unknown determinism strategy '".to_owned();
        push_text(&mut e, cfg.strategy.as_str());
        push_text(&mut e, "' (carry-v1|null)");
        Err(e)
    }
}

/// The configuration of a replay: bars of a millisecond, fills at the bar,
/// no latency, and whole coverage.
pub fn check_sim_config() -> (c: SimConfig)
    ensures
        c == (SimConfig {
            min_coverage: Real { bits: 0x3FF0_0000_0000_0000 },
            bar_tf_ns: 1_000_000,
            latency_ns: 0,
            fill_model: FillModel::L0BarFill,
            ..default_config()
        }),
{
    SimConfig {
        min_coverage: Real { bits: 0x3FF0_0000_0000_0000 },
        bar_tf_ns: 1_000_000,
        latency_ns: 0,
        fill_model: FillModel::L0BarFill,
        ..SimConfig::default()
    }
}

/// One replay in short, as the artifact and a live session record it.
#[derive(Debug)]
pub struct ReplaySummary {
    pub date: String,
    pub strategy: String,
    pub seed: u64,
    pub event_count: usize,
    pub lines: usize,
    pub intents: u64,
    pub fills: u64,
    pub hash: u64,
}

/// One replay with its decision lines.
#[derive(Debug)]
pub struct DayReplay {
    pub summary: ReplaySummary,
    pub lines: Vec<String>,
}

/// `r` is the replay of `events` events that ended with `log`.
pub open spec fn is_replay(
    r: DayReplay,
    date: Seq<char>,
    cfg: DeterminismConfig,
    events: usize,
    log: DecisionLog,
) -> bool {
    &&& views(r.lines@) == log.says().lines
    &&& r.summary.date@ == date
    &&& r.summary.strategy@ == cfg.strategy@
    &&& r.summary.seed == cfg.seed
    &&& r.summary.event_count == events
    &&& r.summary.lines == r.lines@.len()
    &&& r.summary.intents == log.intents
    &&& r.summary.fills == log.fills
    &&& r.summary.hash == log.hash
}

/// The replay of `events` events that ended with `log`.
pub fn replay(date: &str, cfg: &DeterminismConfig, events: usize, log: &DecisionLog) -> (r:
    DayReplay)
    ensures
        is_replay(r, date@, *cfg, events, *log),
{
    let lines = copy_strings(log.lines());
    DayReplay {
        summary: ReplaySummary {
            date: date.to_owned(),
            strategy: cfg.strategy.as_str().to_owned(),
            seed: cfg.seed,
            event_count: events,
            lines: lines.len(),
            intents: log.intent_count(),
            fills: log.fill_count(),
            hash: log.hash(),
        },
        lines,
    }
}

/// What the check found.
#[derive(Debug)]
pub struct DeterminismVerdict {
    pub date: String,
    pub strategy: String,
    pub seed: u64,
    pub event_count: usize,
    /// Two fresh replays agree line for line.
    pub self_consistent: bool,
    pub replayed_hash: u64,
    pub replayed_lines: usize,
    /// There was a live log to compare with.
    pub live_present: bool,
    /// The replay agrees with the live log.
    pub live_matches: Option<bool>,
    /// The first line of a comparison that failed.
    pub divergence_line: Option<usize>,
    pub passed: bool,
    pub reason: String,
}

/// Whether a live session recorded the same decisions: by hash and by every
/// count.
pub open spec fn live_agrees(live: ReplaySummary, a: ReplaySummary) -> bool {
    &&& live.hash == a.hash
    &&& live.lines == a.lines
    &&& live.intents == a.intents
    &&& live.fills == a.fills
    &&& live.event_count == a.event_count
}

/// Why the check came out as it did.
pub open spec fn verdict_reason(
    diverged: Option<int>,
    a: ReplaySummary,
    live: Option<ReplaySummary>,
) -> Seq<char> {
    match diverged {
        Some(i) => "run 1 and run 2 diverged at decision "@ + dec(i as nat)
            + " — the decision path is not deterministic (PD-3 breach? wall clock / unseeded RNG / map-order iteration)"@,
        None => match live {
            None => "two runs byte-identical; no live decision log for the day to compare (hash "@
                + dec(a.hash as nat) + ")"@,
            Some(l) => if live_agrees(l, a) {
                "two runs byte-identical; replay matches the live decision log (hash "@ + dec(
                    a.hash as nat,
                ) + ")"@
            } else {
                "replay (hash "@ + dec(a.hash as nat)
                    + ") does not match the live decision log (hash "@ + dec(l.hash as nat)
                    + ") — online ≠ offline, G3 broken"@
            },
        },
    }
}

/// `v` is the verdict on two replays `a` and `b` of a day.
pub open spec fn is_verdict(
    v: DeterminismVerdict,
    a: DayReplay,
    b: DayReplay,
    live: Option<ReplaySummary>,
) -> bool {
    let d = divergence(views(a.lines@), views(b.lines@));
    let agrees = live matches Some(l) && live_agrees(l, a.summary);
    &&& v.date@ == a.summary.date@
    &&& v.strategy@ == a.summary.strategy@
    &&& v.seed == a.summary.seed
    &&& v.event_count == a.summary.event_count
    &&& v.replayed_hash == a.summary.hash
    &&& v.replayed_lines == a.summary.lines
    &&& v.live_present == live is Some
    &&& v.self_consistent == d is None
    &&& v.live_matches == if d is Some || live is None {
        None
    } else {
        Some(agrees)
    }
    &&& v.divergence_line == match d {
        Some(i) => Some(i as usize),
        None => if live is Some && !agrees {
            Some(0usize)
        } else {
            None
        },
    }
    &&& v.passed == (d is None && (live is None || agrees))
    &&& v.reason@ == verdict_reason(d, a.summary, live)
}

fn agrees_with_live(live: &ReplaySummary, a: &ReplaySummary) -> (r: bool)
    ensures
        r == live_agrees(*live, *a),
{
    live.hash == a.hash && live.lines == a.lines && live.intents == a.intents && live.fills
        == a.fills && live.event_count == a.event_count
}

/// The check of a day: two fresh replays must agree line for line, and with
/// the live log where there is one.
pub fn check_day(a: &DayReplay, b: &DayReplay, live: Option<&ReplaySummary>) -> (v:
    DeterminismVerdict)
    ensures
        is_verdict(
            v,
            *a,
            *b,
            match live {
                Some(l) => Some(*l),
                None => None,
            },
        ),
{
    let d = first_divergence(&a.lines, &b.lines);
    let mut reason = String::new();
    let mut live_matches: Option<bool> = None;
    let mut divergence_line: Option<usize> = None;
    let mut passed = true;
    match d {
        Some(i) => {
            push_text(&mut reason, "run 1 and run 2 diverged at decision ");
            push_dec(&mut reason, i as u64);
            push_text(
                &mut reason,
                " — the decision path is not deterministic (PD-3 breach? wall clock / unseeded RNG / map-order iteration)",
            );
            divergence_line = Some(i);
            passed = false;
        },
        None => match live {
            None => {
                push_text(
                    &mut reason,
                    "two runs byte-identical; no live decision log for the day to compare (hash ",
                );
                push_dec(&mut reason, a.summary.hash);
                push_text(&mut reason, ")");
            },
            Some(l) => {
                let agrees = agrees_with_live(l, &a.summary);
                live_matches = Some(agrees);
                passed = agrees;
                if agrees {
                    push_text(
                        &mut reason,
                        "two runs byte-identical; replay matches the live decision log (hash ",
                    );
                    push_dec(&mut reason, a.summary.hash);
                    push_text(&mut reason, ")");
                } else {
                    divergence_line = Some(0);
                    push_text(&mut reason, "replay (hash ");
                    push_dec(&mut reason, a.summary.hash);
                    push_text(&mut reason, ") does not match the live decision log (hash ");
                    push_dec(&mut reason, l.hash);
                    push_text(&mut reason, ") — online ≠ offline, G3 broken");
                }
            },
        },
    }
    proof {
        law_divergence(views(a.lines@), views(b.lines@));
        let l = match live {
            Some(l) => Some(*l),
            None => None,
        };
        assert(reason@ =~= verdict_reason(
            divergence(views(a.lines@), views(b.lines@)),
            a.summary,
            l,
        ));
    }
    DeterminismVerdict {
        date: a.summary.date.as_str().to_owned(),
        strategy: a.summary.strategy.as_str().to_owned(),
        seed: a.summary.seed,
        event_count: a.summary.event_count,
        self_consistent: d.is_none(),
        replayed_hash: a.summary.hash,
        replayed_lines: a.summary.lines,
        live_present: live.is_some(),
        live_matches,
        divergence_line,
        passed,
        reason,
    }
}

/// A day passes exactly when its two replays have the same lines and a live
/// log, where there is one, agrees with them.
pub proof fn law_passed_means_identical(
    v: DeterminismVerdict,
    a: DayReplay,
    b: DayReplay,
    live: Option<ReplaySummary>,
)
    requires
        is_verdict(v, a, b, live),
    ensures
        v.passed <==> views(a.lines@) == views(b.lines@) && (live matches Some(l) ==> live_agrees(
            l,
            a.summary,
        )),
        v.passed ==> v.divergence_line is None,
        !v.passed ==> v.divergence_line is Some,
{
    law_divergence(views(a.lines@), views(b.lines@));
}

/// A replay compared with itself, with its own summary as the live log,
/// passes.
pub proof fn law_replay_agrees_with_itself(v: DeterminismVerdict, a: DayReplay)
    requires
        is_verdict(v, a, a, Some(a.summary)),
    ensures
        v.passed,
        v.live_matches == Some(true),
{
}

/// The stored form of a verdict.
pub fn artifact(v: &DeterminismVerdict, ts_ns: i64) -> (r: DeterminismArtifact)
    ensures
        r.date@ == v.date@,
        r.passed == v.passed,
        r.self_consistent == v.self_consistent,
        r.live_present == v.live_present,
        r.live_matches == v.live_matches,
        r.strategy is Some && r.strategy->0@ == v.strategy@,
        r.seed == Some(v.seed),
        r.event_count == Some(v.event_count as u64),
        r.replayed_lines == Some(v.replayed_lines as u64),
        r.replayed_hash == Some(v.replayed_hash),
        r.reason is Some && r.reason->0@ == v.reason@,
        r.ts_ns == Some(ts_ns),
{
    DeterminismArtifact {
        date: v.date.as_str().to_owned(),
        passed: v.passed,
        self_consistent: v.self_consistent,
        live_present: v.live_present,
        live_matches: v.live_matches,
        strategy: Some(v.strategy.as_str().to_owned()),
        seed: Some(v.seed),
        event_count: Some(v.event_count as u64),
        replayed_lines: Some(v.replayed_lines as u64),
        replayed_hash: Some(v.replayed_hash),
        reason: Some(v.reason.as_str().to_owned()),
        ts_ns: Some(ts_ns),
    }
}

/// A live log agrees with a replay exactly where hash, lines, intents, fills
/// and events are all the same.
pub proof fn law_live_agrees(live: ReplaySummary, a: ReplaySummary)
    ensures
        live.hash != a.hash ==> !live_agrees(live, a),
        live.lines != a.lines ==> !live_agrees(live, a),
        live.intents != a.intents ==> !live_agrees(live, a),
        live.fills != a.fills ==> !live_agrees(live, a),
        live.event_count != a.event_count ==> !live_agrees(live, a),
        live.hash == a.hash && live.lines == a.lines && live.intents == a.intents && live.fills
            == a.fills && live.event_count == a.event_count ==> live_agrees(live, a),
{
}

/// A verdict repeats the first replay, and compares with the live log only
/// where the two replays are the same and there is one.
pub proof fn law_verdict(
    v: DeterminismVerdict,
    a: DayReplay,
    b: DayReplay,
    live: Option<ReplaySummary>,
)
    requires
        is_verdict(v, a, b, live),
    ensures
        v.date@ == a.summary.date@,
        v.strategy@ == a.summary.strategy@,
        v.seed == a.summary.seed,
        v.event_count == a.summary.event_count,
        v.replayed_hash == a.summary.hash,
        v.replayed_lines == a.summary.lines,
        v.live_present <==> live is Some,
        v.self_consistent <==> views(a.lines@) == views(b.lines@),
        views(a.lines@) != views(b.lines@) ==> v.live_matches is None && !v.passed,
        live is None ==> v.live_matches is None,
        views(a.lines@) == views(b.lines@) && live is Some ==> v.live_matches is Some && (
        v.live_matches->0 <==> live->0.hash == a.summary.hash && live->0.lines == a.summary.lines
            && live->0.intents == a.summary.intents && live->0.fills == a.summary.fills
            && live->0.event_count == a.summary.event_count) && v.passed == v.live_matches->0,
        views(a.lines@) == views(b.lines@) && live is None ==> v.passed,
        views(a.lines@) == views(b.lines@) && !v.passed ==> v.divergence_line == Some(0usize),
{
    law_divergence(views(a.lines@), views(b.lines@));
}

/// A replay's summary names its day, its strategy and its seed, and counts its
/// own log.
pub proof fn law_replay_summary(
    r: DayReplay,
    date: Seq<char>,
    cfg: DeterminismConfig,
    events: usize,
    log: DecisionLog,
)
    requires
        is_replay(r, date, cfg, events, log),
    ensures
        views(r.lines@) == log.says().lines,
        r.summary.date@ == date,
        r.summary.strategy@ == cfg.strategy@,
        r.summary.seed == cfg.seed,
        r.summary.event_count == events,
        r.summary.lines == log.says().lines.len(),
        r.summary.intents == log.intents,
        r.summary.fills == log.fills,
        r.summary.hash == log.hash,
{
    assert(views(r.lines@).len() == r.lines@.len());
}

} // verus!
