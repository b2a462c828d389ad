//! What the programs make of their arguments.
//!
//! Fractions are read by the caller, who hands in what each text denotes;
//! everything else about the arguments is decided here.
use vstd::prelude::*;
use crate::calendar::{
    date_text, format_iso_date, iso_day, iso_fields, lemma_day_in_range, lemma_iso_year, parse_iso_date,
    year_in_range,
};
use crate::event::{slug_of, SymbolId, SymbolMeta, Venue};
use crate::harness::WalkForwardParams;
use crate::number::Real;
use crate::text::{
    dec, join_path, joined, parse_i64, parse_int, parse_nat, parse_u64_max, push_dec, push_text,
    same, slice_text, split_on, split_text, to_chars, trim_text, trimmed, views,
};

verus! {

// ---------------------------------------------------------------------------
// Flags
// ---------------------------------------------------------------------------

/// The first place of `name`, or the number of arguments.
pub open spec fn place_of(args: Seq<Seq<char>>, name: Seq<char>) -> int
    decreases args.len(),
{
    if args.len() == 0 || args[0] == name {
        0
    } else {
        1 + place_of(args.skip(1), name)
    }
}

/// The argument behind the first `name`, if there is one.
pub open spec fn flag_of(args: Seq<Seq<char>>, name: Seq<char>) -> Option<Seq<char>> {
    let i = place_of(args, name);
    if i + 1 < args.len() {
        Some(args[i + 1])
    } else {
        None
    }
}

proof fn lemma_place(args: Seq<Seq<char>>, name: Seq<char>, i: int)
    requires
        0 <= i <= args.len(),
        forall|k: int| 0 <= k < i ==> args[k] != name,
        i < args.len() ==> args[i] == name,
    ensures
        place_of(args, name) == i,
    decreases args.len(),
{
    if i > 0 {
        assert(args[0] != name);
        let rest = args.skip(1);
        assert forall|k: int| 0 <= k < i - 1 implies rest[k] != name by {
            assert(args[k + 1] != name);
        }
        lemma_place(rest, name, i - 1);
    }
}

/// What an optional text says.
pub open spec fn text_of(o: Option<String>) -> Option<Seq<char>> {
    match o {
        Some(s) => Some(s@),
        None => None,
    }
}

/// The argument behind the first `name`, if there is one.
pub fn flag(args: &Vec<String>, name: &str) -> (r: Option<String>)
    ensures
        text_of(r) == flag_of(views(args@), name@),
{
    let mut i: usize = 0;
    while i < args.len()
        invariant
            i <= args@.len(),
            forall|k: int| 0 <= k < i ==> views(args@)[k] != name@,
        decreases args@.len() - i,
    {
        if same(args[i].as_str(), name) {
            proof {
                lemma_place(views(args@), name@, i as int);
            }
            if i < args.len() - 1 {
                return Some(args[i + 1].as_str().to_owned());
            }
            return None;
        }
        i = i + 1;
    }
    proof {
        lemma_place(views(args@), name@, i as int);
    }
    None
}

/// Whether `name` is among the arguments.
pub fn has_flag(args: &Vec<String>, name: &str) -> (r: bool)
    ensures
        r == views(args@).contains(name@),
{
    let mut i: usize = 0;
    while i < args.len()
        invariant
            i <= args@.len(),
            forall|k: int| 0 <= k < i ==> views(args@)[k] != name@,
        decreases args@.len() - i,
    {
        if same(args[i].as_str(), name) {
            assert(views(args@)[i as int] == name@);
            return true;
        }
        i = i + 1;
    }
    false
}

/// The argument behind `name`, or why there is none.
pub open spec fn need_of(args: Seq<Seq<char>>, name: Seq<char>) -> Result<Seq<char>, Seq<char>> {
    match flag_of(args, name) {
        Some(v) => Ok(v),
        None => Err("missing "@ + name),
    }
}

/// What an outcome says.
pub open spec fn outcome(r: Result<String, String>) -> Result<Seq<char>, Seq<char>> {
    match r {
        Ok(s) => Ok(s@),
        Err(e) => Err(e@),
    }
}

/// The argument behind `name`; it is an error where there is none.
pub fn need(args: &Vec<String>, name: &str) -> (r: Result<String, String>)
    ensures
        outcome(r) == need_of(views(args@), name@),
{
    match flag(args, name) {
        Some(v) => Ok(v),
        None => {
            let mut e = "missing ".to_owned();
            push_text(&mut e, name);
            Err(e)
        },
    }
}

/// The argument behind `name`, or another.
pub fn flag_or(args: &Vec<String>, name: &str, default: &str) -> (s: String)
    ensures
        s@ == match flag_of(views(args@), name@) {
            Some(v) => v,
            None => default@,
        },
{
    match flag(args, name) {
        Some(v) => v,
        None => default.to_owned(),
    }
}

/// Every argument that stands behind a `name`.
pub open spec fn behind_each(args: Seq<Seq<char>>, name: Seq<char>) -> Seq<Seq<char>>
    decreases args.len(),
{
    if args.len() < 2 {
        Seq::empty()
    } else {
        let before = behind_each(args.drop_last(), name);
        if args[args.len() - 2] == name {
            before.push(args.last())
        } else {
            before
        }
    }
}

/// Every argument that stands behind a `name`, which may itself be one.
pub fn flags(args: &Vec<String>, name: &str) -> (r: Vec<String>)
    ensures
        views(r@) == behind_each(views(args@), name@),
{
    let mut r: Vec<String> = Vec::new();
    let ghost all = views(args@);
    if args.len() < 2 {
        assert(views(r@) =~= Seq::<Seq<char>>::empty());
        return r;
    }
    let mut i: usize = 1;
    assert(views(r@) =~= behind_each(all.take(1), name@));
    while i < args.len()
        invariant
            1 <= i <= args@.len(),
            all == views(args@),
            views(r@) == behind_each(all.take(i as int), name@),
        decreases args@.len() - i,
    {
        let ghost next = all.take(i + 1);
        assert(next.drop_last() =~= all.take(i as int));
        assert(next[next.len() - 2] == args@[i - 1]@);
        assert(next.last() == args@[i as int]@);
        if same(args[i - 1].as_str(), name) {
            let ghost before = r@;
            r.push(args[i].as_str().to_owned());
            assert(views(r@) =~= views(before).push(args@[i as int]@));
        }
        i = i + 1;
    }
    assert(all.take(i as int) =~= all);
    r
}

/// The values of `name`, read from the left: what stands behind one `name` is
/// its value, and is not itself read as a name.
pub open spec fn values_of(args: Seq<Seq<char>>, name: Seq<char>) -> Seq<Seq<char>>
    decreases args.len(),
{
    if args.len() < 2 {
        Seq::empty()
    } else if args[0] == name {
        seq![args[1]] + values_of(args.skip(2), name)
    } else {
        values_of(args.skip(1), name)
    }
}

/// The values of `name`, read from the left.
pub fn all_flags(args: &Vec<String>, name: &str) -> (r: Vec<String>)
    ensures
        views(r@) == values_of(views(args@), name@),
{
    let mut r: Vec<String> = Vec::new();
    let ghost all = views(args@);
    let total: usize = args.len();
    let mut i: usize = 0;
    assert(all.skip(0) =~= all);
    assert(views(r@) + values_of(all, name@) =~= values_of(all, name@));
    while i < total
        invariant
            i <= total,
            total == args@.len(),
            all == views(args@),
            values_of(all, name@) == views(r@) + values_of(all.skip(i as int), name@),
        decreases total - i,
    {
        let ghost rest = all.skip(i as int);
        assert(rest[0] == args@[i as int]@);
        assert(rest.skip(1) =~= all.skip(i + 1));
        if same(args[i].as_str(), name) && i < total - 1 {
            assert(rest[1] == args@[i + 1]@);
            assert(rest.skip(2) =~= all.skip(i + 2));
            let ghost before = r@;
            r.push(args[i + 1].as_str().to_owned());
            assert(views(r@) =~= views(before).push(rest[1]));
            assert(views(before) + (seq![rest[1]] + values_of(rest.skip(2), name@)) =~= views(r@)
                + values_of(rest.skip(2), name@));
            i = i + 2;
        } else {
            i = i + 1;
            if i == total {
                assert(values_of(rest, name@) =~= Seq::<Seq<char>>::empty());
                assert(values_of(all.skip(i as int), name@) =~= Seq::<Seq<char>>::empty());
            }
        }
    }
    assert(values_of(all.skip(i as int), name@) =~= Seq::<Seq<char>>::empty());
    assert(views(r@) + Seq::<Seq<char>>::empty() =~= views(r@));
    r
}

// ---------------------------------------------------------------------------
// Numbers
// ---------------------------------------------------------------------------

/// Why the argument behind `name` is not what it should be.
pub open spec fn bad(name: Seq<char>) -> Seq<char> {
    "bad "@ + name
}

fn bad_flag(name: &str) -> (e: String)
    ensures
        e@ == bad(name@),
{
    let mut e = "bad ".to_owned();
    push_text(&mut e, name);
    e
}

/// The number behind `name`, or a default.
pub open spec fn count_of(
    args: Seq<Seq<char>>,
    name: Seq<char>,
    default: u64,
    max: u64,
) -> Result<u64, Seq<char>> {
    match flag_of(args, name) {
        None => Ok(default),
        Some(t) => match parse_nat(t, max as int) {
            Some(n) => Ok(n as u64),
            None => Err(bad(name)),
        },
    }
}

/// The signed number behind `name`, or a default.
pub open spec fn nanos_of(args: Seq<Seq<char>>, name: Seq<char>, default: i64) -> Result<
    i64,
    Seq<char>,
> {
    match flag_of(args, name) {
        None => Ok(default),
        Some(t) => match parse_int(t, i64::MIN as int, i64::MAX as int) {
            Some(n) => Ok(n as i64),
            None => Err(bad(name)),
        },
    }
}

/// The number behind `name`, which must be there.
pub open spec fn needed_count(args: Seq<Seq<char>>, name: Seq<char>) -> Result<u64, Seq<char>> {
    match flag_of(args, name) {
        None => Err("missing "@ + name),
        Some(_) => count_of(args, name, 0, u64::MAX),
    }
}

/// The signed number behind `name`, which must be there.
pub open spec fn needed_nanos(args: Seq<Seq<char>>, name: Seq<char>) -> Result<i64, Seq<char>> {
    match flag_of(args, name) {
        None => Err("missing "@ + name),
        Some(_) => nanos_of(args, name, 0),
    }
}

/// What the outcome of a reading says.
pub open spec fn reading<T>(r: Result<T, String>) -> Result<T, Seq<char>> {
    match r {
        Ok(v) => Ok(v),
        Err(e) => Err(e@),
    }
}

/// The number behind `name`, or a default.
pub fn count_flag(args: &Vec<String>, name: &str, default: u64, max: u64) -> (r: Result<
    u64,
    String,
>)
    ensures
        reading(r) == count_of(views(args@), name@, default, max),
{
    match flag(args, name) {
        None => Ok(default),
        Some(t) => match parse_u64_max(t.as_str(), max) {
            Some(n) => Ok(n),
            None => Err(bad_flag(name)),
        },
    }
}

/// The signed number behind `name`, or a default.
pub fn nanos_flag(args: &Vec<String>, name: &str, default: i64) -> (r: Result<i64, String>)
    ensures
        reading(r) == nanos_of(views(args@), name@, default),
{
    match flag(args, name) {
        None => Ok(default),
        Some(t) => match parse_i64(t.as_str()) {
            Some(n) => Ok(n),
            None => Err(bad_flag(name)),
        },
    }
}

fn need_count(args: &Vec<String>, name: &str) -> (r: Result<u64, String>)
    ensures
        reading(r) == needed_count(views(args@), name@),
{
    match need(args, name) {
        Err(e) => Err(e),
        Ok(_) => count_flag(args, name, 0, u64::MAX),
    }
}

fn need_nanos(args: &Vec<String>, name: &str) -> (r: Result<i64, String>)
    ensures
        reading(r) == needed_nanos(views(args@), name@),
{
    match need(args, name) {
        Err(e) => Err(e),
        Ok(_) => nanos_flag(args, name, 0),
    }
}

/// The fraction behind `name`: `denoted` is what its text denotes, if it is
/// one.
pub open spec fn fraction_of(
    args: Seq<Seq<char>>,
    name: Seq<char>,
    denoted: Option<Real>,
) -> Result<Option<Real>, Seq<char>> {
    match flag_of(args, name) {
        None => Ok(None),
        Some(_) => match denoted {
            Some(x) => Ok(Some(x)),
            None => Err(bad(name)),
        },
    }
}

/// The fraction behind `name`, if the flag is there.
pub fn fraction_flag(args: &Vec<String>, name: &str, denoted: Option<Real>) -> (r: Result<
    Option<Real>,
    String,
>)
    ensures
        reading(r) == fraction_of(views(args@), name@, denoted),
{
    match flag(args, name) {
        None => Ok(None),
        Some(_) => match denoted {
            Some(x) => Ok(Some(x)),
            None => Err(bad_flag(name)),
        },
    }
}

// ---------------------------------------------------------------------------
// The backtester's commands
// ---------------------------------------------------------------------------

/// A strategy with its seed.
#[derive(Debug)]
pub struct Seeded {
    pub strategy: String,
    pub seed: u64,
}

/// What a run is made with.
pub open spec fn seeded_of(args: Seq<Seq<char>>) -> Result<(Seq<char>, u64), Seq<char>> {
    match need_of(args, "--strategy"@) {
        Err(e) => Err(e),
        Ok(s) => match needed_count(args, "--seed"@) {
            Err(e) => Err(e),
            Ok(n) => Ok((s, n)),
        },
    }
}

/// The strategy of a run and its seed.
pub fn seeded(args: &Vec<String>) -> (r: Result<Seeded, String>)
    ensures
        match r {
            Ok(s) => seeded_of(views(args@)) == Ok::<(Seq<char>, u64), Seq<char>>(
                (s.strategy@, s.seed),
            ),
            Err(e) => seeded_of(views(args@)) == Err::<(Seq<char>, u64), Seq<char>>(e@),
        },
{
    match need(args, "--strategy") {
        Err(e) => Err(e),
        Ok(strategy) => match need_count(args, "--seed") {
            Err(e) => Err(e),
            Ok(seed) => Ok(Seeded { strategy, seed }),
        },
    }
}

/// Where a run is recorded.
#[derive(Debug)]
pub struct RunTarget {
    pub run_id: String,
    pub runs_dir: String,
    pub git_sha: String,
}

/// Where a run is recorded: its name, its directory and the revision.
pub open spec fn target_of(args: Seq<Seq<char>>) -> Result<
    (Seq<char>, Seq<char>, Seq<char>),
    Seq<char>,
> {
    match (need_of(args, "--run-id"@), need_of(args, "--runs-dir"@)) {
        (Err(e), _) => Err(e),
        (_, Err(e)) => Err(e),
        (Ok(id), Ok(dir)) => Ok(
            (
                id,
                dir,
                match flag_of(args, "--git-sha"@) {
                    Some(s) => s,
                    None => "unknown"@,
                },
            ),
        ),
    }
}

/// Where a run is recorded.
pub fn run_target(args: &Vec<String>) -> (r: Result<RunTarget, String>)
    ensures
        match r {
            Ok(t) => target_of(views(args@)) == Ok::<
                (Seq<char>, Seq<char>, Seq<char>),
                Seq<char>,
            >((t.run_id@, t.runs_dir@, t.git_sha@)),
            Err(e) => target_of(views(args@)) == Err::<
                (Seq<char>, Seq<char>, Seq<char>),
                Seq<char>,
            >(e@),
        },
{
    match need(args, "--run-id") {
        Err(e) => Err(e),
        Ok(run_id) => match need(args, "--runs-dir") {
            Err(e) => Err(e),
            Ok(runs_dir) => Ok(
                RunTarget { run_id, runs_dir, git_sha: flag_or(args, "--git-sha", "unknown") },
            ),
        },
    }
}

/// The settings of a backtest.
#[derive(Clone, Copy, Debug, PartialEq, Eq, Structural)]
pub struct BacktestSettings {
    pub coverage: Real,
    pub carry_entry: Option<Real>,
    pub carry_exit: Option<Real>,
    pub bar_tf_ns: i64,
}

/// What the texts behind the fraction flags denote.
#[derive(Clone, Copy, Debug, PartialEq, Eq, Structural)]
pub struct Fractions {
    pub coverage: Option<Real>,
    pub carry_entry: Option<Real>,
    pub carry_exit: Option<Real>,
}

/// The bits of 1.
pub const ONE_BITS: u64 = 0x3FF0_0000_0000_0000;

/// The bar of a run, unless another is asked for: one millisecond.
pub const DEFAULT_BAR_NS: i64 = 1_000_000;

/// The settings of a backtest, or the first of them that is bad.
pub open spec fn settings_of(args: Seq<Seq<char>>, f: Fractions) -> Result<
    BacktestSettings,
    Seq<char>,
> {
    match fraction_of(args, "--coverage"@, f.coverage) {
        Err(e) => Err(e),
        Ok(coverage) => match fraction_of(args, "--carry-entry"@, f.carry_entry) {
            Err(e) => Err(e),
            Ok(carry_entry) => match fraction_of(args, "--carry-exit"@, f.carry_exit) {
                Err(e) => Err(e),
                Ok(carry_exit) => match nanos_of(args, "--bar-tf-ns"@, DEFAULT_BAR_NS) {
                    Err(e) => Err(e),
                    Ok(bar_tf_ns) => Ok(
                        BacktestSettings {
                            coverage: match coverage {
                                Some(c) => c,
                                None => Real { bits: ONE_BITS },
                            },
                            carry_entry,
                            carry_exit,
                            bar_tf_ns,
                        },
                    ),
                },
            },
        },
    }
}

/// The settings of a backtest.
pub fn backtest_settings(args: &Vec<String>, f: Fractions) -> (r: Result<BacktestSettings, String>)
    ensures
        reading(r) == settings_of(views(args@), f),
{
    let coverage = match fraction_flag(args, "--coverage", f.coverage) {
        Err(e) => {
            return Err(e);
        },
        Ok(Some(c)) => c,
        Ok(None) => Real { bits: ONE_BITS },
    };
    match fraction_flag(args, "--carry-entry", f.carry_entry) {
        Err(e) => Err(e),
        Ok(carry_entry) => match fraction_flag(args, "--carry-exit", f.carry_exit) {
            Err(e) => Err(e),
            Ok(carry_exit) => match nanos_flag(args, "--bar-tf-ns", DEFAULT_BAR_NS) {
                Err(e) => Err(e),
                Ok(bar_tf_ns) => Ok(
                    BacktestSettings { coverage, carry_entry, carry_exit, bar_tf_ns },
                ),
            },
        },
    }
}

/// The configuration text of a backtest. Fractions are given as text.
pub fn backtest_config_text(
    s: &Seeded,
    coverage: &str,
    carry_entry: &str,
    carry_exit: &str,
) -> (t: String)
    ensures
        t@ == "strategy="@ + s.strategy@ + ";seed="@ + dec(s.seed as nat)
            + ";cfg=default;coverage="@ + coverage@ + ";carry_entry="@ + carry_entry@
            + ";carry_exit="@ + carry_exit@,
{
    let mut t = "strategy=".to_owned();
    push_text(&mut t, s.strategy.as_str());
    push_text(&mut t, ";seed=");
    push_dec(&mut t, s.seed);
    push_text(&mut t, ";cfg=default;coverage=");
    push_text(&mut t, coverage);
    push_text(&mut t, ";carry_entry=");
    push_text(&mut t, carry_entry);
    push_text(&mut t, ";carry_exit=");
    push_text(&mut t, carry_exit);
    t
}

/// The strategy that a paper session runs: one that asks for nothing under
/// `--zero-intents`.
pub fn effective_strategy(args: &Vec<String>, strategy: &str) -> (s: String)
    ensures
        s@ == if views(args@).contains("--zero-intents"@) {
            "null"@
        } else {
            strategy@
        },
{
    if has_flag(args, "--zero-intents") {
        "null".to_owned()
    } else {
        strategy.to_owned()
    }
}

/// The configuration text of a paper session.
pub fn paper_config_text(s: &Seeded, chunk: u64, zero_intents: bool) -> (t: String)
    ensures
        t@ == "paper;strategy="@ + s.strategy@ + ";seed="@ + dec(s.seed as nat) + ";chunk="@ + dec(
            chunk as nat,
        ) + if zero_intents {
            ";zero_intents=true"@
        } else {
            Seq::empty()
        },
{
    let mut t = "paper;strategy=".to_owned();
    push_text(&mut t, s.strategy.as_str());
    push_text(&mut t, ";seed=");
    push_dec(&mut t, s.seed);
    push_text(&mut t, ";chunk=");
    push_dec(&mut t, chunk);
    if zero_intents {
        push_text(&mut t, ";zero_intents=true");
    } else {
        assert(t@ + Seq::<char>::empty() =~= t@);
    }
    t
}

/// How a growing log is followed.
#[derive(Clone, Copy, Debug, PartialEq, Eq, Structural)]
pub struct TailSettings {
    pub poll_ms: u64,
    pub max_idle_polls: u32,
    pub max_polls: u32,
}

/// How a growing log is followed, or the first setting that is bad.
pub open spec fn tail_of(args: Seq<Seq<char>>) -> Result<TailSettings, Seq<char>> {
    match count_of(args, "--poll-ms"@, 5_000, u64::MAX) {
        Err(e) => Err(e),
        Ok(poll_ms) => match count_of(args, "--max-idle-polls"@, 12, u32::MAX as u64) {
            Err(e) => Err(e),
            Ok(idle) => match count_of(args, "--max-polls"@, u32::MAX as u64, u32::MAX as u64) {
                Err(e) => Err(e),
                Ok(polls) => Ok(
                    TailSettings {
                        poll_ms,
                        max_idle_polls: idle as u32,
                        max_polls: polls as u32,
                    },
                ),
            },
        },
    }
}

/// How a growing log is followed.
pub fn tail_settings(args: &Vec<String>) -> (r: Result<TailSettings, String>)
    ensures
        reading(r) == tail_of(views(args@)),
{
    match count_flag(args, "--poll-ms", 5_000, u64::MAX) {
        Err(e) => Err(e),
        Ok(poll_ms) => match count_flag(args, "--max-idle-polls", 12, u32::MAX as u64) {
            Err(e) => Err(e),
            Ok(idle) => match count_flag(args, "--max-polls", u32::MAX as u64, u32::MAX as u64) {
                Err(e) => Err(e),
                Ok(polls) => Ok(
                    TailSettings {
                        poll_ms,
                        max_idle_polls: idle as u32,
                        max_polls: polls as u32,
                    },
                ),
            },
        },
    }
}

/// The configuration text of a session that follows a log.
pub fn tail_config_text(s: &Seeded, t: TailSettings) -> (r: String)
    ensures
        r@ == "paper-tail;strategy="@ + s.strategy@ + ";seed="@ + dec(s.seed as nat)
            + ";poll_ms="@ + dec(t.poll_ms as nat) + ";idle="@ + dec(t.max_idle_polls as nat),
{
    let mut r = "paper-tail;strategy=".to_owned();
    push_text(&mut r, s.strategy.as_str());
    push_text(&mut r, ";seed=");
    push_dec(&mut r, s.seed);
    push_text(&mut r, ";poll_ms=");
    push_dec(&mut r, t.poll_ms);
    push_text(&mut r, ";idle=");
    push_dec(&mut r, t.max_idle_polls as u64);
    r
}

/// What follows a poll of the log: the polls without news so far, and whether
/// the session ends. It ends after enough polls without news in a row.
pub fn after_poll(idle: u32, grew: bool, max_idle_polls: u32) -> (r: (u32, bool))
    requires
        idle < u32::MAX,
    ensures
        grew ==> r == (0u32, false),
        !grew ==> r == ((idle + 1) as u32, idle + 1 >= max_idle_polls),
{
    if grew {
        (0, false)
    } else {
        (idle + 1, idle + 1 >= max_idle_polls)
    }
}

/// The settings of a walk-forward.
#[derive(Clone, Copy, Debug, PartialEq, Eq, Structural)]
pub struct WalkSettings {
    pub params: WalkForwardParams,
    pub min_trades: u64,
}

/// The settings of a walk-forward, or the first of them that is bad.
pub open spec fn walk_of(args: Seq<Seq<char>>) -> Result<WalkSettings, Seq<char>> {
    match needed_nanos(args, "--train-ns"@) {
        Err(e) => Err(e),
        Ok(train_ns) => match needed_nanos(args, "--test-ns"@) {
            Err(e) => Err(e),
            Ok(test_ns) => match needed_nanos(args, "--step-ns"@) {
                Err(e) => Err(e),
                Ok(step_ns) => match nanos_of(args, "--embargo-ns"@, 0) {
                    Err(e) => Err(e),
                    Ok(embargo_ns) => match count_of(args, "--min-trades"@, 10, u64::MAX) {
                        Err(e) => Err(e),
                        Ok(min_trades) => Ok(
                            WalkSettings {
                                params: WalkForwardParams {
                                    train_ns,
                                    test_ns,
                                    step_ns,
                                    embargo_ns,
                                },
                                min_trades,
                            },
                        ),
                    },
                },
            },
        },
    }
}

/// The settings of a walk-forward.
pub fn walk_settings(args: &Vec<String>) -> (r: Result<WalkSettings, String>)
    ensures
        reading(r) == walk_of(views(args@)),
{
    match need_nanos(args, "--train-ns") {
        Err(e) => Err(e),
        Ok(train_ns) => match need_nanos(args, "--test-ns") {
            Err(e) => Err(e),
            Ok(test_ns) => match need_nanos(args, "--step-ns") {
                Err(e) => Err(e),
                Ok(step_ns) => match nanos_flag(args, "--embargo-ns", 0) {
                    Err(e) => Err(e),
                    Ok(embargo_ns) => match count_flag(args, "--min-trades", 10, u64::MAX) {
                        Err(e) => Err(e),
                        Ok(min_trades) => Ok(
                            WalkSettings {
                                params: WalkForwardParams {
                                    train_ns,
                                    test_ns,
                                    step_ns,
                                    embargo_ns,
                                },
                                min_trades,
                            },
                        ),
                    },
                },
            },
        },
    }
}

/// The settings of a resampling.
#[derive(Clone, Copy, Debug, PartialEq, Eq, Structural)]
pub struct ResampleSettings {
    pub resamples: u32,
    pub block_ns: i64,
}

/// The settings of a resampling, or the first of them that is bad.
pub open spec fn resample_of(args: Seq<Seq<char>>) -> Result<ResampleSettings, Seq<char>> {
    match count_of(args, "--resamples"@, 1000, u32::MAX as u64) {
        Err(e) => Err(e),
        Ok(n) => match nanos_of(args, "--block-ns"@, 86_400_000_000_000) {
            Err(e) => Err(e),
            Ok(block_ns) => Ok(ResampleSettings { resamples: n as u32, block_ns }),
        },
    }
}

/// The settings of a resampling.
pub fn resample_settings(args: &Vec<String>) -> (r: Result<ResampleSettings, String>)
    ensures
        reading(r) == resample_of(views(args@)),
{
    match count_flag(args, "--resamples", 1000, u32::MAX as u64) {
        Err(e) => Err(e),
        Ok(n) => match nanos_flag(args, "--block-ns", 86_400_000_000_000) {
            Err(e) => Err(e),
            Ok(block_ns) => Ok(ResampleSettings { resamples: n as u32, block_ns }),
        },
    }
}

/// A command of the backtester.
#[derive(Clone, Copy, Debug, PartialEq, Eq, Structural)]
pub enum SimCommand {
    Backtest,
    Paper,
    PaperTail,
    WalkForward,
    Plateau,
    MonteCarlo,
    ReplayLive,
}

/// The command of that name, if any.
pub open spec fn command_of(name: Seq<char>) -> Option<SimCommand> {
    if name == "backtest"@ {
        Some(SimCommand::Backtest)
    } else if name == "paper"@ {
        Some(SimCommand::Paper)
    } else if name == "paper-tail"@ {
        Some(SimCommand::PaperTail)
    } else if name == "wf"@ {
        Some(SimCommand::WalkForward)
    } else if name == "plateau"@ {
        Some(SimCommand::Plateau)
    } else if name == "mc"@ {
        Some(SimCommand::MonteCarlo)
    } else if name == "replay-live"@ {
        Some(SimCommand::ReplayLive)
    } else {
        None
    }
}

/// The command that the first argument names.
pub fn sim_command(args: &Vec<String>) -> (r: Result<SimCommand, String>)
    ensures
        match r {
            Ok(c) => args@.len() > 0 && command_of(args@[0]@) == Some(c),
            Err(e) => if args@.len() == 0 {
                e@ == "usage: sim backtest|wf|plateau|mc|replay-live|paper|paper-tail …"@
            } else {
                command_of(args@[0]@) is None && e@ == "unknown command: "@ + args@[0]@
            },
        },
{
    if args.len() == 0 {
        return Err("usage: sim backtest|wf|plateau|mc|replay-live|paper|paper-tail …".to_owned());
    }
    let name = args[0].as_str();
    if same(name, "backtest") {
        Ok(SimCommand::Backtest)
    } else if same(name, "paper") {
        Ok(SimCommand::Paper)
    } else if same(name, "paper-tail") {
        Ok(SimCommand::PaperTail)
    } else if same(name, "wf") {
        Ok(SimCommand::WalkForward)
    } else if same(name, "plateau") {
        Ok(SimCommand::Plateau)
    } else if same(name, "mc") {
        Ok(SimCommand::MonteCarlo)
    } else if same(name, "replay-live") {
        Ok(SimCommand::ReplayLive)
    } else {
        let mut e = "unknown command: ".to_owned();
        push_text(&mut e, name);
        Err(e)
    }
}

// ---------------------------------------------------------------------------
// Plateau points
// ---------------------------------------------------------------------------

/// What a text before and behind its first `sep` says.
pub open spec fn cut_at(s: Seq<char>, sep: char) -> Option<(Seq<char>, Seq<char>)>
    decreases s.len(),
{
    if s.len() == 0 {
        None
    } else if s[0] == sep {
        Some((Seq::empty(), s.skip(1)))
    } else {
        match cut_at(s.skip(1), sep) {
            Some((a, b)) => Some((seq![s[0]] + a, b)),
            None => None,
        }
    }
}

proof fn lemma_cut(s: Seq<char>, sep: char, i: int)
    requires
        0 <= i <= s.len(),
        forall|k: int| 0 <= k < i ==> s[k] != sep,
        i < s.len() ==> s[i] == sep,
    ensures
        i == s.len() ==> cut_at(s, sep) is None,
        i < s.len() ==> cut_at(s, sep) == Some((s.take(i), s.skip(i + 1))),
    decreases s.len(),
{
    if s.len() > 0 && i > 0 {
        assert(s[0] != sep);
        let rest = s.skip(1);
        assert forall|k: int| 0 <= k < i - 1 implies rest[k] != sep by {
            assert(s[k + 1] != sep);
        }
        lemma_cut(rest, sep, i - 1);
        if i < s.len() {
            assert(seq![s[0]] + rest.take(i - 1) =~= s.take(i));
            assert(rest.skip(i) =~= s.skip(i + 1));
        }
    } else if s.len() > 0 {
        assert(s.take(0) =~= Seq::<char>::empty());
    }
}

/// The parts of a text before and behind its first `sep`.
pub fn split_once(s: &str, sep: char) -> (r: Option<(String, String)>)
    ensures
        match r {
            Some((a, b)) => cut_at(s@, sep) == Some((a@, b@)),
            None => cut_at(s@, sep) is None,
        },
{
    let c = to_chars(s);
    let mut i: usize = 0;
    while i < c.len()
        invariant
            i <= c@.len(),
            c@ == s@,
            forall|k: int| 0 <= k < i ==> c@[k] != sep,
        decreases c@.len() - i,
    {
        if c[i] == sep {
            proof {
                lemma_cut(s@, sep, i as int);
                assert(s@.subrange(0, i as int) =~= s@.take(i as int));
                assert(s@.subrange(i + 1, s@.len() as int) =~= s@.skip(i + 1));
            }
            let a = slice_text(c.as_slice(), 0, i);
            let b = slice_text(c.as_slice(), i + 1, c.len());
            return Some((a, b));
        }
        i = i + 1;
    }
    proof {
        lemma_cut(s@, sep, i as int);
    }
    None
}

/// The points of a plateau: for each `--point`, in order, what its two
/// fractions denote; or why the first that is bad is bad. `denoted` holds what
/// the texts of each point denote.
pub open spec fn points_of(
    args: Seq<Seq<char>>,
    denoted: Seq<(Option<Real>, Option<Real>)>,
    n: int,
) -> Result<Seq<(Real, Real)>, Seq<char>>
    decreases n,
{
    if n <= 0 {
        Ok(Seq::empty())
    } else {
        match points_of(args, denoted, n - 1) {
            Err(e) => Err(e),
            Ok(points) => if args[n - 1] != "--point"@ {
                Ok(points)
            } else if n >= args.len() {
                Err("--point needs <delta:expectancy>"@)
            } else if cut_at(args[n], ':') is None {
                Err("point must be <delta:expectancy>"@)
            } else {
                match denoted[points.len() as int] {
                    (None, _) => Err("bad delta"@),
                    (_, None) => Err("bad expectancy"@),
                    (Some(d), Some(e)) => Ok(points.push((d, e))),
                }
            },
        }
    }
}

/// The texts of the points, as far as they can be told apart: for each
/// `--point` with two texts behind it, those.
pub open spec fn point_texts_of(args: Seq<Seq<char>>, n: int) -> Seq<(Seq<char>, Seq<char>)>
    decreases n,
{
    if n <= 0 {
        Seq::empty()
    } else {
        let before = point_texts_of(args, n - 1);
        if args[n - 1] == "--point"@ && n < args.len() && cut_at(args[n], ':') is Some {
            before.push(cut_at(args[n], ':')->0)
        } else {
            before
        }
    }
}

/// The texts of pairs.
pub open spec fn pair_views(v: Seq<(String, String)>) -> Seq<(Seq<char>, Seq<char>)> {
    Seq::new(v.len(), |i: int| (v[i].0@, v[i].1@))
}

/// The texts of the points.
pub fn point_texts(args: &Vec<String>) -> (r: Vec<(String, String)>)
    ensures
        pair_views(r@) == point_texts_of(views(args@), args@.len() as int),
{
    let mut r: Vec<(String, String)> = Vec::new();
    let total: usize = args.len();
    let mut i: usize = 0;
    assert(pair_views(r@) =~= point_texts_of(views(args@), 0));
    while i < total
        invariant
            i <= total,
            total == args@.len(),
            pair_views(r@) == point_texts_of(views(args@), i as int),
        decreases total - i,
    {
        if same(args[i].as_str(), "--point") && i < total - 1 {
            if let Some(p) = split_once(args[i + 1].as_str(), ':') {
                let ghost before = r@;
                let ghost pv = (p.0@, p.1@);
                r.push(p);
                assert(pair_views(r@) =~= pair_views(before).push(pv));
            }
        }
        i = i + 1;
    }
    r
}

/// What a reading of points says.
pub open spec fn points_read(r: Result<Vec<(Real, Real)>, String>) -> Result<
    Seq<(Real, Real)>,
    Seq<char>,
> {
    match r {
        Ok(v) => Ok(v@),
        Err(e) => Err(e@),
    }
}

/// The points of a plateau. `denoted` holds, for each of [`point_texts`], what
/// the two texts denote.
pub fn plateau_points(args: &Vec<String>, denoted: &Vec<(Option<Real>, Option<Real>)>) -> (r:
    Result<Vec<(Real, Real)>, String>)
    requires
        denoted@.len() == point_texts_of(views(args@), args@.len() as int).len(),
    ensures
        points_read(r) == points_of(views(args@), denoted@, args@.len() as int),
{
    let ghost all = views(args@);
    let total: usize = args.len();
    let mut points: Vec<(Real, Real)> = Vec::new();
    let mut i: usize = 0;
    assert(points@ =~= Seq::<(Real, Real)>::empty());
    while i < total
        invariant
            i <= total,
            total == args@.len(),
            all == views(args@),
            denoted@.len() == point_texts_of(all, total as int).len(),
            points@.len() == point_texts_of(all, i as int).len(),
            points_of(all, denoted@, i as int) == Ok::<Seq<(Real, Real)>, Seq<char>>(points@),
        decreases total - i,
    {
        assert(all[i as int] == args@[i as int]@);
        if same(args[i].as_str(), "--point") {
            if i >= total - 1 {
                let e = "--point needs <delta:expectancy>".to_owned();
                proof {
                    lemma_points_stop(all, denoted@, i + 1, total as int);
                }
                return Err(e);
            }
            assert(all[i + 1] == args@[i + 1]@);
            if split_once(args[i + 1].as_str(), ':').is_none() {
                let e = "point must be <delta:expectancy>".to_owned();
                proof {
                    lemma_points_stop(all, denoted@, i + 1, total as int);
                }
                return Err(e);
            }
            proof {
                lemma_texts_grow(all, i + 1, total as int);
            }
            match denoted[points.len()] {
                (None, _) => {
                    let e = "bad delta".to_owned();
                    proof {
                        lemma_points_stop(all, denoted@, i + 1, total as int);
                    }
                    return Err(e);
                },
                (Some(_), None) => {
                    let e = "bad expectancy".to_owned();
                    proof {
                        lemma_points_stop(all, denoted@, i + 1, total as int);
                    }
                    return Err(e);
                },
                (Some(d), Some(x)) => {
                    points.push((d, x));
                },
            }
        }
        i = i + 1;
    }
    Ok(points)
}

proof fn lemma_points_stop(
    args: Seq<Seq<char>>,
    denoted: Seq<(Option<Real>, Option<Real>)>,
    i: int,
    n: int,
)
    requires
        0 <= i <= n,
        points_of(args, denoted, i) is Err,
    ensures
        points_of(args, denoted, n) == points_of(args, denoted, i),
    decreases n - i,
{
    if i < n {
        lemma_points_stop(args, denoted, i, n - 1);
    }
}

proof fn lemma_texts_grow(args: Seq<Seq<char>>, i: int, n: int)
    requires
        0 <= i <= n,
    ensures
        point_texts_of(args, i).len() <= point_texts_of(args, n).len(),
    decreases n - i,
{
    if i < n {
        lemma_texts_grow(args, i, n - 1);
    }
}

// ---------------------------------------------------------------------------
// Dates
// ---------------------------------------------------------------------------

/// The first and the last date that are asked for, or why they are unclear.
pub open spec fn range_of(args: Seq<Seq<char>>) -> Result<(Seq<char>, Seq<char>), Seq<char>> {
    match (flag_of(args, "--date"@), flag_of(args, "--start-date"@), flag_of(args, "--end-date"@)) {
        (Some(d), None, None) => Ok((d, d)),
        (None, Some(s), Some(e)) => Ok((s, e)),
        (None, Some(_), None) => Err("--start-date needs --end-date"@),
        (None, None, Some(_)) => Err("--end-date needs --start-date"@),
        (Some(_), _, _) => Err("use either --date OR --start-date/--end-date, not both"@),
        (None, None, None) => Err("--date (single) or --start-date/--end-date (range) required"@),
    }
}

/// The dates of the days from `from` on, `n` of them.
pub open spec fn dates_from(from: int, n: int) -> Seq<Seq<char>> {
    Seq::new(n as nat, |i: int| date_text(from + i))
}

/// The dates that are asked for, or why not.
pub open spec fn dates_of(args: Seq<Seq<char>>) -> Result<Seq<Seq<char>>, Seq<char>> {
    match range_of(args) {
        Err(e) => Err(e),
        Ok((start, end)) => match (iso_day(start), iso_day(end)) {
            (None, _) => Err("bad start-date '"@ + start + "' (YYYY-MM-DD)"@),
            (_, None) => Err("bad end-date '"@ + end + "' (YYYY-MM-DD)"@),
            (Some(a), Some(b)) => if a > b {
                Err("start-date "@ + start + " is after end-date "@ + end)
            } else {
                Ok(dates_from(a, b - a + 1))
            },
        },
    }
}

fn quoted(before: &str, name: &str, behind: &str) -> (s: String)
    ensures
        s@ == before@ + name@ + behind@,
{
    let mut s = before.to_owned();
    push_text(&mut s, name);
    push_text(&mut s, behind);
    s
}

/// What a reading of texts says.
pub open spec fn texts_read(r: Result<Vec<String>, String>) -> Result<Seq<Seq<char>>, Seq<char>> {
    match r {
        Ok(v) => Ok(views(v@)),
        Err(e) => Err(e@),
    }
}

/// The dates that are asked for, the last included: one day by `--date`, or a
/// range by `--start-date` and `--end-date`.
pub fn date_range(args: &Vec<String>) -> (r: Result<Vec<String>, String>)
    ensures
        texts_read(r) == dates_of(views(args@)),
{
    let single = flag(args, "--date");
    let first = flag(args, "--start-date");
    let last = flag(args, "--end-date");
    let (start, end) = match (single, first, last) {
        (Some(d), None, None) => {
            let again = d.as_str().to_owned();
            (d, again)
        },
        (None, Some(s), Some(e)) => (s, e),
        (None, Some(_), None) => {
            return Err("--start-date needs --end-date".to_owned());
        },
        (None, None, Some(_)) => {
            return Err("--end-date needs --start-date".to_owned());
        },
        (Some(_), _, _) => {
            return Err("use either --date OR --start-date/--end-date, not both".to_owned());
        },
        (None, None, None) => {
            return Err("--date (single) or --start-date/--end-date (range) required".to_owned());
        },
    };
    let start_day: i64 = match parse_iso_date(start.as_str()) {
        Some(d) => d,
        None => {
            return Err(quoted("bad start-date '", start.as_str(), "' (YYYY-MM-DD)"));
        },
    };
    let end_day: i64 = match parse_iso_date(end.as_str()) {
        Some(d) => d,
        None => {
            return Err(quoted("bad end-date '", end.as_str(), "' (YYYY-MM-DD)"));
        },
    };
    if start_day > end_day {
        let mut e = quoted("start-date ", start.as_str(), " is after end-date ");
        push_text(&mut e, end.as_str());
        return Err(e);
    }
    proof {
        lemma_iso_year(start@);
        lemma_iso_year(end@);
        let f = iso_fields(start@)->0;
        let g = iso_fields(end@)->0;
        lemma_day_in_range(f.0, f.1, f.2);
        lemma_day_in_range(g.0, g.1, g.2);
    }
    let mut dates: Vec<String> = Vec::new();
    let mut day: i64 = start_day;
    assert(views(dates@) =~= dates_from(start_day as int, 0));
    while day <= end_day
        invariant
            start_day <= day <= end_day + 1,
            crate::calendar::day_in_range(start_day as int),
            crate::calendar::day_in_range(end_day as int),
            views(dates@) == dates_from(start_day as int, day - start_day),
        decreases end_day + 1 - day,
    {
        let ghost before = dates@;
        dates.push(format_iso_date(day));
        assert(views(dates@) =~= views(before).push(date_text(day as int)));
        assert(views(dates@) =~= dates_from(start_day as int, day - start_day + 1));
        day = day + 1;
    }
    Ok(dates)
}

/// A range of dates names each day from the first to the last once, in order.
pub proof fn law_range_is_whole(args: Seq<Seq<char>>, i: int)
    requires
        dates_of(args) is Ok,
        0 <= i < dates_of(args)->Ok_0.len(),
    ensures
        range_of(args) is Ok,
        ({
            let (start, end) = range_of(args)->Ok_0;
            &&& iso_day(start) is Some
            &&& iso_day(end) is Some
            &&& dates_of(args)->Ok_0.len() == iso_day(end)->0 - iso_day(start)->0 + 1
            &&& dates_of(args)->Ok_0[i] == date_text(iso_day(start)->0 + i)
        }),
{
}

// ---------------------------------------------------------------------------
// The determinism check
// ---------------------------------------------------------------------------

/// The text without dashes.
pub open spec fn undashed(s: Seq<char>) -> Seq<char>
    decreases s.len(),
{
    if s.len() == 0 {
        Seq::empty()
    } else if s.last() == '-' {
        undashed(s.drop_last())
    } else {
        undashed(s.drop_last()).push(s.last())
    }
}

fn without_dashes(c: &Vec<char>) -> (r: Vec<char>)
    ensures
        r@ == undashed(c@),
{
    let mut r: Vec<char> = Vec::new();
    let mut i: usize = 0;
    assert(r@ =~= undashed(c@.take(0)));
    while i < c.len()
        invariant
            i <= c@.len(),
            r@ == undashed(c@.take(i as int)),
        decreases c@.len() - i,
    {
        assert(c@.take(i + 1).drop_last() =~= c@.take(i as int));
        assert(c@.take(i + 1).last() == c@[i as int]);
        if c[i] != '-' {
            r.push(c[i]);
        }
        i = i + 1;
    }
    assert(c@.take(i as int) =~= c@);
    r
}

/// What the check is asked.
#[derive(Debug)]
pub struct CheckRequest {
    /// The day as `YYYY-MM-DD`.
    pub date: String,
    pub data_dir: String,
    /// The venue and the symbol of each recording.
    pub required: Vec<(String, String)>,
    /// The logs of the recordings.
    pub logs: Vec<String>,
}

/// The day with dashes.
pub open spec fn dashed_of(d: Seq<char>) -> Seq<char> {
    d.subrange(0, 4) + "-"@ + d.subrange(4, 6) + "-"@ + d.subrange(6, 8)
}

/// The log of a recording.
pub open spec fn required_log(
    data_dir: Seq<char>,
    date: Seq<char>,
    venue: Seq<char>,
    symbol: Seq<char>,
) -> Seq<char> {
    joined(joined(data_dir, "raw"@), date + "_"@ + venue + "_"@ + symbol + ".log"@)
}

/// The pairs that are required, or why one is not a pair.
pub open spec fn pairs_of(items: Seq<Seq<char>>) -> Result<
    Seq<(Seq<char>, Seq<char>)>,
    Seq<char>,
>
    decreases items.len(),
{
    if items.len() == 0 {
        Ok(Seq::empty())
    } else {
        match pairs_of(items.drop_last()) {
            Err(e) => Err(e),
            Ok(before) => match cut_at(items.last(), ':') {
                Some(p) => Ok(before.push(p)),
                None => Err(
                    "invalid --required "@ + items.last() + "; expected venue:symbol"@,
                ),
            },
        }
    }
}

/// What the check is asked, or why it cannot tell. The day is eight
/// characters of ASCII once its dashes are gone.
pub open spec fn request_of(args: Seq<Seq<char>>) -> Result<
    (Seq<char>, Seq<char>, Seq<(Seq<char>, Seq<char>)>),
    Seq<char>,
> {
    match flag_of(args, "--date"@) {
        None => Err(
            "usage: mp-determinism --date YYYY-MM-DD --required venue:symbol ... [--write]"@,
        ),
        Some(raw) => {
            let date = undashed(raw);
            let items = behind_each(args, "--required"@);
            if date.len() != 8 || !all_ascii(date) {
                Err("--date must be YYYY-MM-DD or YYYYMMDD"@)
            } else if items.len() == 0 {
                Err("requires one or more --required venue:symbol entries"@)
            } else {
                match pairs_of(items) {
                    Err(e) => Err(e),
                    Ok(pairs) => Ok(
                        (
                            date,
                            match flag_of(args, "--data-dir"@) {
                                Some(d) => d,
                                None => "data"@,
                            },
                            pairs,
                        ),
                    ),
                }
            }
        },
    }
}

/// Whether every character is ASCII.
pub open spec fn all_ascii(s: Seq<char>) -> bool {
    forall|i: int| 0 <= i < s.len() ==> 128u32 > (#[trigger] s[i]) as u32
}

fn is_all_ascii(c: &Vec<char>) -> (r: bool)
    ensures
        r == all_ascii(c@),
{
    let mut i: usize = 0;
    while i < c.len()
        invariant
            i <= c@.len(),
            forall|k: int| 0 <= k < i ==> 128u32 > (#[trigger] c@[k]) as u32,
        decreases c@.len() - i,
    {
        if c[i] as u32 >= 128 {
            assert(!(128u32 > c@[i as int] as u32));
            return false;
        }
        i = i + 1;
    }
    true
}

/// `q` is the request that was read.
pub open spec fn is_request(
    q: CheckRequest,
    date: Seq<char>,
    data_dir: Seq<char>,
    pairs: Seq<(Seq<char>, Seq<char>)>,
) -> bool {
    &&& q.date@ == dashed_of(date)
    &&& q.data_dir@ == data_dir
    &&& pair_views(q.required@) == pairs
    &&& q.logs@.len() == pairs.len()
    &&& forall|i: int|
        0 <= i < pairs.len() ==> (#[trigger] q.logs@[i])@ == required_log(
            data_dir,
            date,
            pairs[i].0,
            pairs[i].1,
        )
}

proof fn lemma_pairs_stop(items: Seq<Seq<char>>, i: int)
    requires
        0 <= i <= items.len(),
        pairs_of(items.take(i)) is Err,
    ensures
        pairs_of(items) == pairs_of(items.take(i)),
    decreases items.len() - i,
{
    if i < items.len() {
        assert(items.take(i + 1).drop_last() =~= items.take(i));
        lemma_pairs_stop(items, i + 1);
    } else {
        assert(items.take(i) =~= items);
    }
}

/// What the check is asked: the day, and the recordings that it replays.
pub fn check_request(args: &Vec<String>) -> (r: Result<CheckRequest, String>)
    ensures
        match r {
            Ok(q) => request_of(views(args@)) matches Ok(w) && is_request(q, w.0, w.1, w.2),
            Err(e) => request_of(views(args@)) matches Err(w) && e@ == w,
        },
{
    let raw = match flag(args, "--date") {
        Some(d) => d,
        None => {
            return Err(
                "usage: mp-determinism --date YYYY-MM-DD --required venue:symbol ... [--write]".to_owned(),
            );
        },
    };
    let chars = to_chars(raw.as_str());
    let c = without_dashes(&chars);
    if c.len() != 8 || !is_all_ascii(&c) {
        return Err("--date must be YYYY-MM-DD or YYYYMMDD".to_owned());
    }
    let items = flags(args, "--required");
    let ghost texts = views(items@);
    if items.len() == 0 {
        return Err("requires one or more --required venue:symbol entries".to_owned());
    }
    let data_dir = flag_or(args, "--data-dir", "data");
    let date = slice_text(c.as_slice(), 0, 8);
    assert(date@ =~= c@);
    let mut dashed = slice_text(c.as_slice(), 0, 4);
    push_text(&mut dashed, "-");
    push_text(&mut dashed, slice_text(c.as_slice(), 4, 6).as_str());
    push_text(&mut dashed, "-");
    push_text(&mut dashed, slice_text(c.as_slice(), 6, 8).as_str());
    let raw_dir = join_path(data_dir.as_str(), "raw");
    let mut required: Vec<(String, String)> = Vec::new();
    let mut logs: Vec<String> = Vec::new();
    let mut i: usize = 0;
    assert(pair_views(required@) =~= Seq::<(Seq<char>, Seq<char>)>::empty());
    assert(texts.take(0) =~= Seq::<Seq<char>>::empty());
    let ghost asked = request_of(views(args@));
    assert(asked == match pairs_of(texts) {
        Err(e) => Err(e),
        Ok(pairs) => Ok((c@, data_dir@, pairs)),
    });
    while i < items.len()
        invariant
            i <= items@.len(),
            texts == views(items@),
            asked == request_of(views(args@)),
            asked == match pairs_of(texts) {
                Err(e) => Err(e),
                Ok(pairs) => Ok((c@, data_dir@, pairs)),
            },
            date@ == c@,
            raw_dir@ == joined(data_dir@, "raw"@),
            pairs_of(texts.take(i as int)) == Ok::<Seq<(Seq<char>, Seq<char>)>, Seq<char>>(
                pair_views(required@),
            ),
            required@.len() == i,
            logs@.len() == i,
            forall|k: int|
                0 <= k < i ==> (#[trigger] logs@[k])@ == required_log(
                    data_dir@,
                    c@,
                    required@[k].0@,
                    required@[k].1@,
                ),
        decreases items@.len() - i,
    {
        assert(texts.take(i + 1).drop_last() =~= texts.take(i as int));
        assert(texts.take(i + 1).last() == items@[i as int]@);
        match split_once(items[i].as_str(), ':') {
            None => {
                proof {
                    lemma_pairs_stop(texts, i + 1);
                }
                return Err(
                    quoted("invalid --required ", items[i].as_str(), "; expected venue:symbol"),
                );
            },
            Some((v, s)) => {
                let mut name = date.as_str().to_owned();
                push_text(&mut name, "_");
                push_text(&mut name, v.as_str());
                push_text(&mut name, "_");
                push_text(&mut name, s.as_str());
                push_text(&mut name, ".log");
                let ghost l0 = logs@;
                let ghost r0 = required@;
                let ghost p = (v@, s@);
                logs.push(join_path(raw_dir.as_str(), name.as_str()));
                required.push((v, s));
                proof {
                    assert(pair_views(required@) =~= pair_views(r0).push(p));
                    assert forall|k: int| 0 <= k < i + 1 implies (#[trigger] logs@[k])@
                        == required_log(data_dir@, c@, required@[k].0@, required@[k].1@) by {
                        if k < i {
                            assert(logs@[k] == l0[k]);
                            assert(required@[k] == r0[k]);
                        }
                    }
                }
            },
        }
        i = i + 1;
    }
    assert(texts.take(i as int) =~= texts);
    let q = CheckRequest { date: dashed, data_dir, required, logs };
    proof {
        let pairs = pair_views(q.required@);
        assert(is_request(q, c@, q.data_dir@, pairs));
    }
    Ok(q)
}

/// Whether a symbol is among those required.
pub open spec fn is_required(m: SymbolMeta, pairs: Seq<(Seq<char>, Seq<char>)>) -> bool {
    pairs.contains((slug_of(m.venue), m.venue_symbol@))
}

/// The venues of the required symbols, each once.
pub open spec fn required_venues(
    metas: Seq<SymbolMeta>,
    pairs: Seq<(Seq<char>, Seq<char>)>,
) -> Seq<Venue>
    decreases metas.len(),
{
    if metas.len() == 0 {
        Seq::empty()
    } else {
        let before = required_venues(metas.drop_last(), pairs);
        if is_required(metas.last(), pairs) && !before.contains(metas.last().venue) {
            before.push(metas.last().venue)
        } else {
            before
        }
    }
}

/// The required symbols, each once.
pub open spec fn required_symbols(
    metas: Seq<SymbolMeta>,
    pairs: Seq<(Seq<char>, Seq<char>)>,
) -> Seq<SymbolId>
    decreases metas.len(),
{
    if metas.len() == 0 {
        Seq::empty()
    } else {
        let before = required_symbols(metas.drop_last(), pairs);
        if is_required(metas.last(), pairs) && !before.contains(metas.last().symbol_id) {
            before.push(metas.last().symbol_id)
        } else {
            before
        }
    }
}

fn in_pairs(m: &SymbolMeta, pairs: &Vec<(String, String)>) -> (r: bool)
    ensures
        r == is_required(*m, pair_views(pairs@)),
{
    let mut i: usize = 0;
    while i < pairs.len()
        invariant
            i <= pairs@.len(),
            forall|k: int|
                0 <= k < i ==> pair_views(pairs@)[k] != (slug_of(m.venue), m.venue_symbol@),
        decreases pairs@.len() - i,
    {
        if same(m.venue.slug(), pairs[i].0.as_str()) && same(
            m.venue_symbol.as_str(),
            pairs[i].1.as_str(),
        ) {
            assert(pair_views(pairs@)[i as int] == (slug_of(m.venue), m.venue_symbol@));
            return true;
        }
        i = i + 1;
    }
    false
}

fn knows_venue(v: &Vec<Venue>, x: Venue) -> (r: bool)
    ensures
        r == v@.contains(x),
{
    let mut i: usize = 0;
    while i < v.len()
        invariant
            i <= v@.len(),
            forall|k: int| 0 <= k < i ==> v@[k] != x,
        decreases v@.len() - i,
    {
        if v[i] == x {
            return true;
        }
        i = i + 1;
    }
    false
}

fn knows_symbol(v: &Vec<SymbolId>, x: SymbolId) -> (r: bool)
    ensures
        r == v@.contains(x),
{
    let mut i: usize = 0;
    while i < v.len()
        invariant
            i <= v@.len(),
            forall|k: int| 0 <= k < i ==> v@[k] != x,
        decreases v@.len() - i,
    {
        if v[i] == x {
            return true;
        }
        i = i + 1;
    }
    false
}

/// The venues and symbols of the required recordings; it is an error where
/// the symbol table names none of them.
pub fn required_universe(metas: &Vec<SymbolMeta>, pairs: &Vec<(String, String)>) -> (r: Result<
    (Vec<Venue>, Vec<SymbolId>),
    String,
>)
    ensures
        match r {
            Ok((v, s)) => v@ == required_venues(metas@, pair_views(pairs@)) && s@
                == required_symbols(metas@, pair_views(pairs@)) && v@.len() > 0 && s@.len() > 0,
            Err(e) => (required_venues(metas@, pair_views(pairs@)).len() == 0 || required_symbols(
                metas@,
                pair_views(pairs@),
            ).len() == 0) && e@
                == "required recordings produced no resolvable symbols in the shared table (corrupt logs?)"@,
        },
{
    let ghost p = pair_views(pairs@);
    let mut venues: Vec<Venue> = Vec::new();
    let mut symbols: Vec<SymbolId> = Vec::new();
    let mut i: usize = 0;
    assert(venues@ =~= required_venues(metas@.take(0), p));
    assert(symbols@ =~= required_symbols(metas@.take(0), p));
    while i < metas.len()
        invariant
            i <= metas@.len(),
            p == pair_views(pairs@),
            venues@ == required_venues(metas@.take(i as int), p),
            symbols@ == required_symbols(metas@.take(i as int), p),
        decreases metas@.len() - i,
    {
        let m = &metas[i];
        assert(metas@.take(i + 1).drop_last() =~= metas@.take(i as int));
        assert(metas@.take(i + 1).last() == *m);
        if in_pairs(m, pairs) {
            if !knows_venue(&venues, m.venue) {
                venues.push(m.venue);
            }
            if !knows_symbol(&symbols, m.symbol_id) {
                symbols.push(m.symbol_id);
            }
        }
        i = i + 1;
    }
    assert(metas@.take(i as int) =~= metas@);
    if venues.len() == 0 || symbols.len() == 0 {
        Err(
            "required recordings produced no resolvable symbols in the shared table (corrupt logs?)".to_owned(),
        )
    } else {
        Ok((venues, symbols))
    }
}

// ---------------------------------------------------------------------------
// Size buckets and rules of the order-flow study
// ---------------------------------------------------------------------------

/// The bits of the largest finite number.
pub const MAX_BITS: u64 = 0x7FEF_FFFF_FFFF_FFFF;

/// A bucket of trade sizes, from `min` up to but not with `max`.
#[derive(Debug)]
pub struct SizeBucket {
    pub name: String,
    pub min: Real,
    pub max: Real,
}

/// What a bucket says.
pub struct BucketSays {
    pub name: Seq<char>,
    pub min: Real,
    pub max: Real,
}

/// The fields of one bucket: those between colons, without the white space
/// around them all.
pub open spec fn bucket_fields(part: Seq<char>) -> Seq<Seq<char>> {
    split_on(trimmed(part), ':')
}

/// One bucket: `denoted` is what its bounds denote.
pub open spec fn bucket_of_part(part: Seq<char>, denoted: (Option<Real>, Option<Real>)) -> Result<
    BucketSays,
    Seq<char>,
> {
    let f = bucket_fields(part);
    if f.len() != 3 {
        Err("bad bucket def '"@ + part + "' (want name:min:max)"@)
    } else if f[2] != "inf"@ && denoted.1 is None {
        Err("bad max in '"@ + part + "'"@)
    } else if denoted.0 is None {
        Err("bad min in '"@ + part + "'"@)
    } else {
        Ok(
            BucketSays {
                name: f[0],
                min: denoted.0->0,
                max: if f[2] == "inf"@ {
                    Real { bits: MAX_BITS }
                } else {
                    denoted.1->0
                },
            },
        )
    }
}

/// The buckets of the parts, or why the first that is bad is bad.
pub open spec fn buckets_of(
    parts: Seq<Seq<char>>,
    denoted: Seq<(Option<Real>, Option<Real>)>,
) -> Result<Seq<BucketSays>, Seq<char>>
    decreases parts.len(),
{
    if parts.len() == 0 {
        Ok(Seq::empty())
    } else {
        match buckets_of(parts.drop_last(), denoted) {
            Err(e) => Err(e),
            Ok(before) => match bucket_of_part(parts.last(), denoted[parts.len() - 1]) {
                Err(e) => Err(e),
                Ok(b) => Ok(before.push(b)),
            },
        }
    }
}

/// What buckets say.
pub open spec fn bucket_says(v: Seq<SizeBucket>) -> Seq<BucketSays> {
    Seq::new(v.len(), |i: int| BucketSays { name: v[i].name@, min: v[i].min, max: v[i].max })
}

/// What a reading of buckets says.
pub open spec fn buckets_read(r: Result<Vec<SizeBucket>, String>) -> Result<
    Seq<BucketSays>,
    Seq<char>,
> {
    match r {
        Ok(v) => Ok(bucket_says(v@)),
        Err(e) => Err(e@),
    }
}

fn parse_bucket(part: &str, denoted: (Option<Real>, Option<Real>)) -> (r: Result<
    SizeBucket,
    String,
>)
    ensures
        match r {
            Ok(b) => bucket_of_part(part@, denoted) == Ok::<BucketSays, Seq<char>>(
                BucketSays { name: b.name@, min: b.min, max: b.max },
            ),
            Err(e) => bucket_of_part(part@, denoted) == Err::<BucketSays, Seq<char>>(e@),
        },
{
    let f = split_text(trim_text(part).as_str(), ':');
    assert(views(f@) == bucket_fields(part@));
    assert(views(f@).len() == f@.len());
    if f.len() != 3 {
        return Err(quoted("bad bucket def '", part, "' (want name:min:max)"));
    }
    assert(views(f@)[2] == f@[2]@);
    assert(views(f@)[0] == f@[0]@);
    let max: Real = if same(f[2].as_str(), "inf") {
        Real { bits: MAX_BITS }
    } else {
        match denoted.1 {
            Some(x) => x,
            None => {
                return Err(quoted("bad max in '", part, "'"));
            },
        }
    };
    match denoted.0 {
        Some(min) => Ok(SizeBucket { name: f[0].as_str().to_owned(), min, max }),
        None => Err(quoted("bad min in '", part, "'")),
    }
}

proof fn lemma_buckets_stop(
    parts: Seq<Seq<char>>,
    denoted: Seq<(Option<Real>, Option<Real>)>,
    i: int,
)
    requires
        0 <= i <= parts.len(),
        buckets_of(parts.take(i), denoted) is Err,
    ensures
        buckets_of(parts, denoted) == buckets_of(parts.take(i), denoted),
    decreases parts.len() - i,
{
    if i < parts.len() {
        assert(parts.take(i + 1).drop_last() =~= parts.take(i));
        lemma_buckets_stop(parts, denoted, i + 1);
    } else {
        assert(parts.take(i) =~= parts);
    }
}

/// The buckets that a text defines: `name:min:max` between commas. `denoted`
/// holds what the bounds of each part denote; `inf` stands for no bound above.
pub fn parse_buckets(s: &str, denoted: &Vec<(Option<Real>, Option<Real>)>) -> (r: Result<
    Vec<SizeBucket>,
    String,
>)
    requires
        denoted@.len() == split_on(s@, ',').len(),
    ensures
        buckets_read(r) == buckets_of(split_on(s@, ','), denoted@),
{
    let parts = split_text(s, ',');
    let ghost texts = views(parts@);
    let mut out: Vec<SizeBucket> = Vec::new();
    let mut i: usize = 0;
    assert(bucket_says(out@) =~= Seq::<BucketSays>::empty());
    assert(texts.take(0) =~= Seq::<Seq<char>>::empty());
    while i < parts.len()
        invariant
            i <= parts@.len(),
            texts == views(parts@),
            texts == split_on(s@, ','),
            denoted@.len() == parts@.len(),
            buckets_of(texts.take(i as int), denoted@) == Ok::<Seq<BucketSays>, Seq<char>>(
                bucket_says(out@),
            ),
        decreases parts@.len() - i,
    {
        assert(texts.take(i + 1).drop_last() =~= texts.take(i as int));
        assert(texts.take(i + 1).last() == parts@[i as int]@);
        match parse_bucket(parts[i].as_str(), denoted[i]) {
            Err(e) => {
                proof {
                    lemma_buckets_stop(texts, denoted@, i + 1);
                }
                return Err(e);
            },
            Ok(b) => {
                let ghost before = out@;
                let ghost says = BucketSays { name: b.name@, min: b.min, max: b.max };
                out.push(b);
                assert(bucket_says(out@) =~= bucket_says(before).push(says));
            },
        }
        i = i + 1;
    }
    assert(texts.take(i as int) =~= texts);
    Ok(out)
}

/// Whether a size is in a bucket.
pub open spec fn in_bucket(b: SizeBucket, n: Real) -> bool {
    b.min.le(n) && n.lt(b.max)
}

/// The first bucket that a size is in, if any.
pub fn bucket_at(buckets: &Vec<SizeBucket>, n: Real) -> (r: Option<usize>)
    ensures
        match r {
            Some(i) => i < buckets@.len() && in_bucket(buckets@[i as int], n) && forall|k: int|
                0 <= k < i ==> !in_bucket(#[trigger] buckets@[k], n),
            None => forall|k: int|
                0 <= k < buckets@.len() ==> !in_bucket(#[trigger] buckets@[k], n),
        },
{
    let mut i: usize = 0;
    while i < buckets.len()
        invariant
            i <= buckets@.len(),
            forall|k: int| 0 <= k < i ==> !in_bucket(#[trigger] buckets@[k], n),
        decreases buckets@.len() - i,
    {
        if buckets[i].min.at_most(n) && n.less(buckets[i].max) {
            return Some(i);
        }
        i = i + 1;
    }
    None
}

/// A comparison with a threshold.
#[derive(Clone, Copy, Debug, PartialEq, Eq, Structural)]
pub enum RuleOp {
    Gt,
    Ge,
    Lt,
    Le,
}

/// A rule: it fires when a feature compares with a threshold as it says.
#[derive(Debug)]
pub struct RuleDef {
    pub id: String,
    pub feature: String,
    pub op: RuleOp,
    pub threshold: Real,
}

/// What a rule says.
pub struct RuleSays {
    pub id: Seq<char>,
    pub feature: Seq<char>,
    pub op: RuleOp,
    pub threshold: Real,
}

/// The comparison of that name.
pub open spec fn op_of(s: Seq<char>) -> Option<RuleOp> {
    if s == "gt"@ {
        Some(RuleOp::Gt)
    } else if s == "ge"@ {
        Some(RuleOp::Ge)
    } else if s == "lt"@ {
        Some(RuleOp::Lt)
    } else if s == "le"@ {
        Some(RuleOp::Le)
    } else {
        None
    }
}

/// One rule: `denoted` is what its threshold denotes.
pub open spec fn rule_of(spec_text: Seq<char>, denoted: Option<Real>) -> Result<
    RuleSays,
    Seq<char>,
> {
    let f = split_on(spec_text, ':');
    if f.len() != 4 {
        Err("bad rule '"@ + spec_text + "' (want rule_id:feature:op:threshold)"@)
    } else if op_of(f[2]) is None {
        Err("bad op '"@ + f[2] + "'"@)
    } else if denoted is None {
        Err("bad threshold in '"@ + spec_text + "'"@)
    } else {
        Ok(RuleSays { id: f[0], feature: f[1], op: op_of(f[2])->0, threshold: denoted->0 })
    }
}

/// The rules, or why the first that is bad is bad.
pub open spec fn rules_of(specs: Seq<Seq<char>>, denoted: Seq<Option<Real>>) -> Result<
    Seq<RuleSays>,
    Seq<char>,
>
    decreases specs.len(),
{
    if specs.len() == 0 {
        Ok(Seq::empty())
    } else {
        match rules_of(specs.drop_last(), denoted) {
            Err(e) => Err(e),
            Ok(before) => match rule_of(specs.last(), denoted[specs.len() - 1]) {
                Err(e) => Err(e),
                Ok(r) => Ok(before.push(r)),
            },
        }
    }
}

/// What rules say.
pub open spec fn rule_says(v: Seq<RuleDef>) -> Seq<RuleSays> {
    Seq::new(
        v.len(),
        |i: int|
            RuleSays {
                id: v[i].id@,
                feature: v[i].feature@,
                op: v[i].op,
                threshold: v[i].threshold,
            },
    )
}

/// What a reading of rules says.
pub open spec fn rules_read(r: Result<Vec<RuleDef>, String>) -> Result<Seq<RuleSays>, Seq<char>> {
    match r {
        Ok(v) => Ok(rule_says(v@)),
        Err(e) => Err(e@),
    }
}

fn parse_op(s: &str) -> (r: Option<RuleOp>)
    ensures
        r == op_of(s@),
{
    if same(s, "gt") {
        Some(RuleOp::Gt)
    } else if same(s, "ge") {
        Some(RuleOp::Ge)
    } else if same(s, "lt") {
        Some(RuleOp::Lt)
    } else if same(s, "le") {
        Some(RuleOp::Le)
    } else {
        None
    }
}

fn parse_rule(spec_text: &str, denoted: Option<Real>) -> (r: Result<RuleDef, String>)
    ensures
        match r {
            Ok(d) => rule_of(spec_text@, denoted) == Ok::<RuleSays, Seq<char>>(
                RuleSays { id: d.id@, feature: d.feature@, op: d.op, threshold: d.threshold },
            ),
            Err(e) => rule_of(spec_text@, denoted) == Err::<RuleSays, Seq<char>>(e@),
        },
{
    let f = split_text(spec_text, ':');
    assert(views(f@).len() == f@.len());
    if f.len() != 4 {
        return Err(quoted("bad rule '", spec_text, "' (want rule_id:feature:op:threshold)"));
    }
    assert(views(f@)[0] == f@[0]@);
    assert(views(f@)[1] == f@[1]@);
    assert(views(f@)[2] == f@[2]@);
    match parse_op(f[2].as_str()) {
        None => Err(quoted("bad op '", f[2].as_str(), "'")),
        Some(op) => match denoted {
            None => Err(quoted("bad threshold in '", spec_text, "'")),
            Some(threshold) => Ok(
                RuleDef {
                    id: f[0].as_str().to_owned(),
                    feature: f[1].as_str().to_owned(),
                    op,
                    threshold,
                },
            ),
        },
    }
}

proof fn lemma_rules_stop(specs: Seq<Seq<char>>, denoted: Seq<Option<Real>>, i: int)
    requires
        0 <= i <= specs.len(),
        rules_of(specs.take(i), denoted) is Err,
    ensures
        rules_of(specs, denoted) == rules_of(specs.take(i), denoted),
    decreases specs.len() - i,
{
    if i < specs.len() {
        assert(specs.take(i + 1).drop_last() =~= specs.take(i));
        lemma_rules_stop(specs, denoted, i + 1);
    } else {
        assert(specs.take(i) =~= specs);
    }
}

/// The rules that the texts define: `rule_id:feature:op:threshold`. `denoted`
/// holds what each threshold denotes. There must be at least one.
pub fn parse_rules(specs: &Vec<String>, denoted: &Vec<Option<Real>>) -> (r: Result<
    Vec<RuleDef>,
    String,
>)
    requires
        denoted@.len() == specs@.len(),
    ensures
        specs@.len() == 0 ==> r is Err && r->Err_0@ == "need at least one --rule"@,
        specs@.len() > 0 ==> rules_read(r) == rules_of(views(specs@), denoted@),
{
    if specs.len() == 0 {
        return Err("need at least one --rule".to_owned());
    }
    let ghost texts = views(specs@);
    let mut out: Vec<RuleDef> = Vec::new();
    let mut i: usize = 0;
    assert(rule_says(out@) =~= Seq::<RuleSays>::empty());
    assert(texts.take(0) =~= Seq::<Seq<char>>::empty());
    while i < specs.len()
        invariant
            i <= specs@.len(),
            texts == views(specs@),
            denoted@.len() == specs@.len(),
            rules_of(texts.take(i as int), denoted@) == Ok::<Seq<RuleSays>, Seq<char>>(
                rule_says(out@),
            ),
        decreases specs@.len() - i,
    {
        assert(texts.take(i + 1).drop_last() =~= texts.take(i as int));
        assert(texts.take(i + 1).last() == specs@[i as int]@);
        match parse_rule(specs[i].as_str(), denoted[i]) {
            Err(e) => {
                proof {
                    lemma_rules_stop(texts, denoted@, i + 1);
                }
                return Err(e);
            },
            Ok(d) => {
                let ghost before = out@;
                let ghost says = RuleSays {
                    id: d.id@,
                    feature: d.feature@,
                    op: d.op,
                    threshold: d.threshold,
                };
                out.push(d);
                assert(rule_says(out@) =~= rule_says(before).push(says));
            },
        }
        i = i + 1;
    }
    assert(texts.take(i as int) =~= texts);
    Ok(out)
}

/// The interval of a query in nanoseconds: as many seconds as the flag says,
/// or the default where it says no number. None where that does not fit.
pub fn query_interval(args: &Vec<String>, default_secs: i64) -> (r: Option<i64>)
    ensures
        ({
            let secs = match flag_of(views(args@), "--interval-secs"@) {
                Some(t) => match parse_int(t, i64::MIN as int, i64::MAX as int) {
                    Some(n) => n,
                    None => default_secs as int,
                },
                None => default_secs as int,
            };
            r == if i64::MIN <= secs * 1_000_000_000 <= i64::MAX {
                Some((secs * 1_000_000_000) as i64)
            } else {
                None
            }
        }),
{
    let secs: i64 = match flag(args, "--interval-secs") {
        Some(t) => match parse_i64(t.as_str()) {
            Some(n) => n,
            None => default_secs,
        },
        None => default_secs,
    };
    secs.checked_mul(1_000_000_000)
}

/// A value that stands behind a name is found under it.
pub proof fn law_flag_finds_value(
    before: Seq<Seq<char>>,
    name: Seq<char>,
    value: Seq<char>,
    rest: Seq<Seq<char>>,
)
    requires
        !before.contains(name),
    ensures
        flag_of(before + seq![name, value] + rest, name) == Some(value),
{
    let args = before + seq![name, value] + rest;
    let n = before.len() as int;
    assert forall|k: int| 0 <= k < n implies args[k] != name by {
        assert(args[k] == before[k]);
    }
    assert(args[n] == name);
    lemma_place(args, name, n);
    assert(args[n + 1] == value);
}

/// The rule that an id stands for: the last one that has it.
pub fn rule_at(rules: &Vec<RuleDef>, id: &str) -> (r: Option<usize>)
    ensures
        match r {
            Some(i) => i < rules@.len() && rules@[i as int].id@ == id@ && forall|k: int|
                i < k < rules@.len() ==> (#[trigger] rules@[k]).id@ != id@,
            None => forall|k: int| 0 <= k < rules@.len() ==> (#[trigger] rules@[k]).id@ != id@,
        },
{
    let mut n: usize = rules.len();
    while n > 0
        invariant
            n <= rules@.len(),
            forall|k: int| n <= k < rules@.len() ==> (#[trigger] rules@[k]).id@ != id@,
        decreases n,
    {
        n = n - 1;
        if same(rules[n].id.as_str(), id) {
            return Some(n);
        }
    }
    None
}

/// A name that is not among the arguments, or stands last, has no value.
pub proof fn law_flag_without_value(args: Seq<Seq<char>>, name: Seq<char>)
    ensures
        !args.contains(name) ==> flag_of(args, name) is None,
        args.len() > 0 && args.last() == name && !args.drop_last().contains(name) ==> flag_of(
            args,
            name,
        ) is None,
{
    let n = args.len() as int;
    if !args.contains(name) {
        assert forall|k: int| 0 <= k < n implies args[k] != name by {
            assert(args.contains(args[k]));
        }
        lemma_place(args, name, n);
    }
    if n > 0 && args.last() == name && !args.drop_last().contains(name) {
        assert forall|k: int| 0 <= k < n - 1 implies args[k] != name by {
            assert(args.drop_last()[k] == args[k]);
            assert(args.drop_last().contains(args[k]));
        }
        lemma_place(args, name, n - 1);
    }
}

/// A needed value is the flag's, and its lack an error; a count or a time
/// falls back on its default only where the flag is not given, and a bad one
/// is an error.
pub proof fn law_values_and_defaults(
    args: Seq<Seq<char>>,
    name: Seq<char>,
    count: u64,
    max: u64,
    nanos: i64,
)
    ensures
        flag_of(args, name) is None ==> {
            &&& need_of(args, name) is Err
            &&& needed_count(args, name) is Err
            &&& needed_nanos(args, name) is Err
            &&& count_of(args, name, count, max) == Ok::<u64, Seq<char>>(count)
            &&& nanos_of(args, name, nanos) == Ok::<i64, Seq<char>>(nanos)
        },
        flag_of(args, name) matches Some(t) ==> {
            &&& need_of(args, name) == Ok::<Seq<char>, Seq<char>>(t)
            &&& parse_nat(t, max as int) is None ==> count_of(args, name, count, max) is Err
            &&& parse_nat(t, max as int) is Some ==> count_of(args, name, count, max) == Ok::<
                u64,
                Seq<char>,
            >(parse_nat(t, max as int)->0 as u64)
            &&& parse_int(t, i64::MIN as int, i64::MAX as int) is None ==> nanos_of(
                args,
                name,
                nanos,
            ) is Err
            &&& parse_int(t, i64::MIN as int, i64::MAX as int) is Some ==> nanos_of(
                args,
                name,
                nanos,
            ) == Ok::<i64, Seq<char>>(
                parse_int(t, i64::MIN as int, i64::MAX as int)->0 as i64,
            )
        },
{
}

/// A text is cut at its first separator.
pub proof fn law_cut_at_the_first(a: Seq<char>, sep: char, b: Seq<char>)
    requires
        forall|i: int| 0 <= i < a.len() ==> #[trigger] a[i] != sep,
    ensures
        cut_at(a + seq![sep] + b, sep) == Some((a, b)),
        cut_at(a, sep) is None,
    decreases a.len(),
{
    let s = a + seq![sep] + b;
    if a.len() == 0 {
        assert(s.skip(1) =~= b);
        assert(s[0] == sep);
        assert(a =~= Seq::<char>::empty());
    } else {
        let t = a.skip(1);
        assert(forall|i: int| 0 <= i < t.len() ==> t[i] == a[i + 1]);
        law_cut_at_the_first(t, sep, b);
        assert(s.skip(1) =~= t + seq![sep] + b);
        assert(s[0] == a[0]);
        assert(seq![a[0]] + t =~= a);
    }
}

/// A size is in a bucket from its lower bound on and below its upper bound; no
/// size is in two buckets of which one ends where the other starts or before.
pub proof fn law_buckets_are_half_open(b: SizeBucket, c: SizeBucket, n: Real)
    ensures
        n.lt(b.min) ==> !in_bucket(b, n),
        b.max.le(n) ==> !in_bucket(b, n),
        n.nan() ==> !in_bucket(b, n),
        n == b.min && n.lt(b.max) ==> in_bucket(b, n),
        b.max.le(c.min) ==> !(in_bucket(b, n) && in_bucket(c, n)),
{
    crate::number::law_order(b.min, n, b.max);
}

/// The comparisons have the names `gt`, `ge`, `lt` and `le`, and no others.
pub proof fn law_comparisons(s: Seq<char>)
    ensures
        op_of(s) == Some(RuleOp::Gt) <==> s == "gt"@,
        op_of(s) == Some(RuleOp::Ge) <==> s == "ge"@,
        op_of(s) == Some(RuleOp::Lt) <==> s == "lt"@,
        op_of(s) == Some(RuleOp::Le) <==> s == "le"@,
{
    reveal_strlit("gt");
    reveal_strlit("ge");
    reveal_strlit("lt");
    reveal_strlit("le");
    assert("gt"@[0] != "lt"@[0] && "gt"@[1] != "ge"@[1] && "lt"@[1] != "le"@[1]);
    assert("ge"@[0] != "le"@[0] && "gt"@[0] != "le"@[0] && "ge"@[0] != "lt"@[0]);
}

/// A rule is four parts with colons between: its id, its feature, a known
/// comparison and a threshold that is a number.
pub proof fn law_rule(spec_text: Seq<char>, denoted: Option<Real>)
    ensures
        ({
            let f = split_on(spec_text, ':');
            &&& rule_of(spec_text, denoted) is Ok <==> f.len() == 4 && op_of(f[2]) is Some
                && denoted is Some
            &&& rule_of(spec_text, denoted) matches Ok(r) ==> r.id == f[0] && r.feature == f[1]
                && Some(r.op) == op_of(f[2]) && Some(r.threshold) == denoted
        }),
{
}

/// A bucket is three parts with colons between: its name, a lower bound and an
/// upper bound, which may be infinite and is then the largest number.
pub proof fn law_bucket(part: Seq<char>, denoted: (Option<Real>, Option<Real>))
    ensures
        ({
            let f = split_on(trimmed(part), ':');
            &&& bucket_of_part(part, denoted) is Ok <==> f.len() == 3 && denoted.0 is Some && (f[2]
                == "inf"@ || denoted.1 is Some)
            &&& bucket_of_part(part, denoted) matches Ok(b) ==> b.name == f[0] && Some(b.min)
                == denoted.0 && (f[2] == "inf"@ ==> b.max.bits == 0x7FEF_FFFF_FFFF_FFFF) && (f[2]
                != "inf"@ ==> Some(b.max) == denoted.1)
        }),
{
}

/// A range of dates is one date, or a first and a last; anything else is an
/// error.
pub proof fn law_date_flags(args: Seq<Seq<char>>)
    ensures
        ({
            let d = flag_of(args, "--date"@);
            let s = flag_of(args, "--start-date"@);
            let e = flag_of(args, "--end-date"@);
            &&& range_of(args) is Ok <==> (d is Some && s is None && e is None) || (d is None
                && s is Some && e is Some)
            &&& d is Some && s is None && e is None ==> range_of(args) == Ok::<
                (Seq<char>, Seq<char>),
                Seq<char>,
            >((d->0, d->0))
            &&& d is None && s is Some && e is Some ==> range_of(args) == Ok::<
                (Seq<char>, Seq<char>),
                Seq<char>,
            >((s->0, e->0))
        }),
{
}

/// The dates of a range are refused exactly where one is no date or the last
/// comes before the first.
pub proof fn law_dates(args: Seq<Seq<char>>)
    ensures
        dates_of(args) is Ok <==> range_of(args) is Ok && {
            let (start, end) = range_of(args)->Ok_0;
            iso_day(start) is Some && iso_day(end) is Some && iso_day(start)->0 <= iso_day(end)->0
        },
        dates_of(args) is Ok ==> dates_of(args)->Ok_0.len() >= 1,
{
}

/// A recording is required where a pair names its venue and its symbol. The
/// venues and the symbols of the required ones are listed once each, and no
/// others are.
pub proof fn law_required(metas: Seq<SymbolMeta>, pairs: Seq<(Seq<char>, Seq<char>)>)
    ensures
        required_venues(metas, pairs).no_duplicates(),
        required_symbols(metas, pairs).no_duplicates(),
        forall|v: Venue| #[trigger]
            required_venues(metas, pairs).contains(v) <==> exists|i: int|
                0 <= i < metas.len() && (#[trigger] metas[i]).venue == v && pairs.contains(
                    (slug_of(metas[i].venue), metas[i].venue_symbol@),
                ),
        forall|s: SymbolId| #[trigger]
            required_symbols(metas, pairs).contains(s) <==> exists|i: int|
                0 <= i < metas.len() && (#[trigger] metas[i]).symbol_id == s && pairs.contains(
                    (slug_of(metas[i].venue), metas[i].venue_symbol@),
                ),
    decreases metas.len(),
{
    if metas.len() > 0 {
        let t = metas.drop_last();
        let n = metas.len() - 1;
        law_required(t, pairs);
        let m = metas.last();
        assert(metas[n] == m);
        assert(forall|i: int| 0 <= i < n ==> t[i] == metas[i]);
        let (v0, v1) = (required_venues(t, pairs), required_venues(metas, pairs));
        let (s0, s1) = (required_symbols(t, pairs), required_symbols(metas, pairs));
        assert forall|v: Venue| #[trigger] v1.contains(v) <==> exists|i: int|
            0 <= i < metas.len() && (#[trigger] metas[i]).venue == v && pairs.contains(
                (slug_of(metas[i].venue), metas[i].venue_symbol@),
            ) by {
            if v0.contains(v) {
                let x = v0.index_of(v);
                assert(v1[x] == v);
                let i = choose|i: int|
                    0 <= i < t.len() && (#[trigger] t[i]).venue == v && pairs.contains(
                        (slug_of(t[i].venue), t[i].venue_symbol@),
                    );
                assert(metas[i].venue == v);
            }
            if is_required(m, pairs) && !v0.contains(m.venue) {
                assert(v1[v0.len() as int] == m.venue);
            }
            if v1.contains(v) && !v0.contains(v) {
                let x = v1.index_of(v);
                if x < v0.len() {
                    assert(v0[x] == v);
                }
            }
            if exists|i: int|
                0 <= i < metas.len() && (#[trigger] metas[i]).venue == v && pairs.contains(
                    (slug_of(metas[i].venue), metas[i].venue_symbol@),
                ) {
                let i = choose|i: int|
                    0 <= i < metas.len() && (#[trigger] metas[i]).venue == v && pairs.contains(
                        (slug_of(metas[i].venue), metas[i].venue_symbol@),
                    );
                if i < n {
                    assert(t[i].venue == v);
                }
            }
        }
        assert forall|s: SymbolId| #[trigger] s1.contains(s) <==> exists|i: int|
            0 <= i < metas.len() && (#[trigger] metas[i]).symbol_id == s && pairs.contains(
                (slug_of(metas[i].venue), metas[i].venue_symbol@),
            ) by {
            if s0.contains(s) {
                let x = s0.index_of(s);
                assert(s1[x] == s);
                let i = choose|i: int|
                    0 <= i < t.len() && (#[trigger] t[i]).symbol_id == s && pairs.contains(
                        (slug_of(t[i].venue), t[i].venue_symbol@),
                    );
                assert(metas[i].symbol_id == s);
            }
            if is_required(m, pairs) && !s0.contains(m.symbol_id) {
                assert(s1[s0.len() as int] == m.symbol_id);
            }
            if s1.contains(s) && !s0.contains(s) {
                let x = s1.index_of(s);
                if x < s0.len() {
                    assert(s0[x] == s);
                }
            }
            if exists|i: int|
                0 <= i < metas.len() && (#[trigger] metas[i]).symbol_id == s && pairs.contains(
                    (slug_of(metas[i].venue), metas[i].venue_symbol@),
                ) {
                let i = choose|i: int|
                    0 <= i < metas.len() && (#[trigger] metas[i]).symbol_id == s && pairs.contains(
                        (slug_of(metas[i].venue), metas[i].venue_symbol@),
                    );
                if i < n {
                    assert(t[i].symbol_id == s);
                }
            }
        }
        assert forall|i: int, j: int|
            0 <= i < v1.len() && 0 <= j < v1.len() && i != j implies v1[i] != v1[j] by {
            if i < v0.len() {
                assert(v0.contains(v0[i]));
            }
            if j < v0.len() {
                assert(v0.contains(v0[j]));
            }
        }
        assert forall|i: int, j: int|
            0 <= i < s1.len() && 0 <= j < s1.len() && i != j implies s1[i] != s1[j] by {
            if i < s0.len() {
                assert(s0.contains(s0[i]));
            }
            if j < s0.len() {
                assert(s0.contains(s0[j]));
            }
        }
    }
}

/// A value stands behind each place of a repeated flag.
pub proof fn law_behind_each(args: Seq<Seq<char>>, name: Seq<char>)
    ensures
        ({
            let at = Seq::new(args.len(), |i: int| i).filter(
                |i: int| 0 < i && args[i - 1] == name,
            );
            &&& behind_each(args, name).len() == at.len()
            &&& forall|k: int|
                0 <= k < at.len() ==> #[trigger] behind_each(args, name)[k] == args[at[k]]
        }),
{
    lemma_behind(args, name, args.len() as int);
    assert(args.take(args.len() as int) =~= args);
}

proof fn lemma_behind(args: Seq<Seq<char>>, name: Seq<char>, n: int)
    requires
        0 <= n <= args.len(),
    ensures
        ({
            let at = Seq::new(n as nat, |i: int| i).filter(|i: int| 0 < i && args[i - 1] == name);
            let got = behind_each(args.take(n), name);
            &&& got.len() == at.len()
            &&& forall|k: int| 0 <= k < at.len() ==> #[trigger] got[k] == args[at[k]]
        }),
    decreases n,
{
    reveal(Seq::filter);
    if n > 0 {
        lemma_behind(args, name, n - 1);
        let all = Seq::new(n as nat, |i: int| i);
        assert(all.drop_last() =~= Seq::new((n - 1) as nat, |i: int| i));
        assert(all.last() == n - 1);
        assert(args.take(n).drop_last() =~= args.take(n - 1));
        assert(args.take(n).last() == args[n - 1]);
        if n >= 2 {
            assert(args.take(n)[n - 2] == args[n - 2]);
        }
    }
}

/// A walk-forward takes its three spans from their flags, and without the
/// others has no embargo and asks for ten trades.
pub proof fn law_walk_settings(args: Seq<Seq<char>>)
    ensures
        walk_of(args) matches Ok(w) ==> {
            &&& needed_nanos(args, "--train-ns"@) == Ok::<i64, Seq<char>>(w.params.train_ns)
            &&& needed_nanos(args, "--test-ns"@) == Ok::<i64, Seq<char>>(w.params.test_ns)
            &&& needed_nanos(args, "--step-ns"@) == Ok::<i64, Seq<char>>(w.params.step_ns)
            &&& flag_of(args, "--embargo-ns"@) is None ==> w.params.embargo_ns == 0
            &&& flag_of(args, "--min-trades"@) is None ==> w.min_trades == 10
        },
        flag_of(args, "--train-ns"@) is None || flag_of(args, "--test-ns"@) is None || flag_of(
            args,
            "--step-ns"@,
        ) is None ==> walk_of(args) is Err,
{
}

/// A tail polls every five seconds, ends after twelve polls without news, and
/// a resampling makes a thousand samples of blocks of a day, unless the flags
/// say otherwise.
pub proof fn law_usual_settings(args: Seq<Seq<char>>)
    ensures
        tail_of(args) matches Ok(t) ==> {
            &&& flag_of(args, "--poll-ms"@) is None ==> t.poll_ms == 5 * 1_000
            &&& flag_of(args, "--max-idle-polls"@) is None ==> t.max_idle_polls == 12
            &&& flag_of(args, "--max-polls"@) is None ==> t.max_polls == u32::MAX
        },
        resample_of(args) matches Ok(r) ==> {
            &&& flag_of(args, "--resamples"@) is None ==> r.resamples == 1_000
            &&& flag_of(args, "--block-ns"@) is None ==> r.block_ns == 24 * 60 * 60 * 1_000_000_000
        },
{
}

/// The commands have their names, and nothing else is a command.
pub proof fn law_commands(name: Seq<char>)
    ensures
        command_of(name) is None <==> name != "backtest"@ && name != "paper"@ && name
            != "paper-tail"@ && name != "wf"@ && name != "plateau"@ && name != "mc"@ && name
            != "replay-live"@,
        command_of("backtest"@) == Some(SimCommand::Backtest),
        command_of("paper"@) == Some(SimCommand::Paper),
        command_of("paper-tail"@) == Some(SimCommand::PaperTail),
        command_of("wf"@) == Some(SimCommand::WalkForward),
        command_of("plateau"@) == Some(SimCommand::Plateau),
        command_of("mc"@) == Some(SimCommand::MonteCarlo),
        command_of("replay-live"@) == Some(SimCommand::ReplayLive),
{
    reveal_strlit("backtest");
    reveal_strlit("paper");
    reveal_strlit("paper-tail");
    reveal_strlit("wf");
    reveal_strlit("plateau");
    reveal_strlit("mc");
    reveal_strlit("replay-live");
    assert("backtest"@.len() == 8 && "paper"@.len() == 5 && "paper-tail"@.len() == 10);
    assert("plateau"@.len() == 7 && "replay-live"@.len() == 11);
    assert("wf"@.len() == 2 && "mc"@.len() == 2 && "wf"@[0] != "mc"@[0]);
}

/// A date without its dashes is its other characters in order.
pub proof fn law_undashed(s: Seq<char>)
    ensures
        undashed(s) == s.filter(|c: char| c != '-'),
    decreases s.len(),
{
    reveal(Seq::filter);
    if s.len() > 0 {
        law_undashed(s.drop_last());
    }
}

/// A fraction is none where its flag is not given, the number that it denotes
/// where it is, and an error where it denotes none.
pub proof fn law_fraction(args: Seq<Seq<char>>, name: Seq<char>, denoted: Option<Real>)
    ensures
        flag_of(args, name) is None ==> fraction_of(args, name, denoted) == Ok::<
            Option<Real>,
            Seq<char>,
        >(None),
        flag_of(args, name) is Some && denoted is Some ==> fraction_of(args, name, denoted) == Ok::<
            Option<Real>,
            Seq<char>,
        >(denoted),
        flag_of(args, name) is Some && denoted is None ==> fraction_of(args, name, denoted) is Err,
{
}

/// A backtest covers everything unless a coverage is given, and has bars of a
/// millisecond unless their length is.
pub proof fn law_backtest_settings(args: Seq<Seq<char>>, f: Fractions)
    ensures
        settings_of(args, f) matches Ok(s) ==> {
            &&& flag_of(args, "--coverage"@) is None ==> s.coverage.bits == 0x3FF0_0000_0000_0000
            &&& flag_of(args, "--coverage"@) is Some ==> Some(s.coverage) == f.coverage
            &&& flag_of(args, "--carry-entry"@) is Some ==> s.carry_entry == f.carry_entry
            &&& flag_of(args, "--carry-entry"@) is None ==> s.carry_entry is None
            &&& flag_of(args, "--carry-exit"@) is Some ==> s.carry_exit == f.carry_exit
            &&& flag_of(args, "--carry-exit"@) is None ==> s.carry_exit is None
            &&& flag_of(args, "--bar-tf-ns"@) is None ==> s.bar_tf_ns == 1_000_000
        },
{
}

/// Required recordings are given as a venue and a symbol with a colon between;
/// one that is not is an error.
pub proof fn law_pairs(items: Seq<Seq<char>>)
    ensures
        pairs_of(items) is Ok <==> forall|i: int|
            0 <= i < items.len() ==> cut_at(#[trigger] items[i], ':') is Some,
        pairs_of(items) matches Ok(p) ==> p.len() == items.len() && forall|i: int|
            0 <= i < items.len() ==> cut_at(items[i], ':') == Some(#[trigger] p[i]),
    decreases items.len(),
{
    if items.len() > 0 {
        let t = items.drop_last();
        let n = items.len() - 1;
        law_pairs(t);
        assert(forall|i: int| 0 <= i < n ==> t[i] == items[i]);
        assert(items[n] == items.last());
        if forall|i: int| 0 <= i < items.len() ==> cut_at(#[trigger] items[i], ':') is Some {
            assert forall|i: int| 0 <= i < t.len() implies cut_at(#[trigger] t[i], ':') is Some by {
                assert(cut_at(items[i], ':') is Some);
            }
        }
        if pairs_of(items) is Ok {
            assert forall|i: int| 0 <= i < items.len() implies cut_at(
                #[trigger] items[i],
                ':',
            ) is Some by {
                if i < n {
                    assert(cut_at(t[i], ':') is Some);
                }
            }
        }
    }
}

/// A check needs a date of eight characters and at least one recording; its
/// data stands under `data` unless a directory is given.
pub proof fn law_check_request(args: Seq<Seq<char>>)
    ensures
        flag_of(args, "--date"@) is None ==> request_of(args) is Err,
        behind_each(args, "--required"@).len() == 0 ==> request_of(args) is Err,
        request_of(args) matches Ok((date, dir, pairs)) ==> {
            &&& date == flag_of(args, "--date"@)->0.filter(|c: char| c != '-')
            &&& date.len() == 8
            &&& flag_of(args, "--data-dir"@) is None ==> dir == "data"@
            &&& flag_of(args, "--data-dir"@) is Some ==> dir == flag_of(args, "--data-dir"@)->0
            &&& pairs_of(behind_each(args, "--required"@)) == Ok::<
                Seq<(Seq<char>, Seq<char>)>,
                Seq<char>,
            >(pairs)
            &&& pairs.len() > 0
        },
{
    if flag_of(args, "--date"@) is Some {
        law_undashed(flag_of(args, "--date"@)->0);
    }
    law_pairs(behind_each(args, "--required"@));
}

/// The values of a repeated flag are read from the left, each value once: a
/// value is never taken for a name.
pub proof fn law_values(name: Seq<char>, value: Seq<char>, rest: Seq<Seq<char>>, other: Seq<char>)
    requires
        other != name,
    ensures
        values_of(seq![name, value] + rest, name) == seq![value] + values_of(rest, name),
        rest.len() > 0 ==> values_of(seq![other] + rest, name) == values_of(rest, name),
        values_of(seq![other], name).len() == 0,
        values_of(seq![name], name).len() == 0,
{
    let a = seq![name, value] + rest;
    assert(a.skip(2) =~= rest);
    assert(a[0] == name && a[1] == value);
    let b = seq![other] + rest;
    assert(b.skip(1) =~= rest);
    assert(b[0] == other);
}

/// Rules are read one by one; the first that is bad decides.
pub proof fn law_rules(specs: Seq<Seq<char>>, denoted: Seq<Option<Real>>)
    ensures
        rules_of(specs, denoted) is Ok <==> forall|i: int|
            0 <= i < specs.len() ==> rule_of(#[trigger] specs[i], denoted[i]) is Ok,
        rules_of(specs, denoted) matches Ok(r) ==> r.len() == specs.len() && forall|i: int|
            0 <= i < specs.len() ==> rule_of(specs[i], denoted[i]) == Ok::<RuleSays, Seq<char>>(
                #[trigger] r[i],
            ),
    decreases specs.len(),
{
    if specs.len() > 0 {
        let t = specs.drop_last();
        let n = specs.len() - 1;
        law_rules(t, denoted);
        assert(forall|i: int| 0 <= i < n ==> t[i] == specs[i]);
        assert(specs[n] == specs.last());
        if forall|i: int| 0 <= i < specs.len() ==> rule_of(#[trigger] specs[i], denoted[i]) is Ok {
            assert forall|i: int| 0 <= i < t.len() implies rule_of(
                #[trigger] t[i],
                denoted[i],
            ) is Ok by {
                assert(rule_of(specs[i], denoted[i]) is Ok);
            }
        }
        if rules_of(specs, denoted) is Ok {
            assert forall|i: int| 0 <= i < specs.len() implies rule_of(
                #[trigger] specs[i],
                denoted[i],
            ) is Ok by {
                if i < n {
                    assert(rule_of(t[i], denoted[i]) is Ok);
                }
            }
        }
    }
}

/// Buckets are read one by one; the first that is bad decides.
pub proof fn law_bucket_list(parts: Seq<Seq<char>>, denoted: Seq<(Option<Real>, Option<Real>)>)
    ensures
        buckets_of(parts, denoted) is Ok <==> forall|i: int|
            0 <= i < parts.len() ==> bucket_of_part(#[trigger] parts[i], denoted[i]) is Ok,
        buckets_of(parts, denoted) matches Ok(r) ==> r.len() == parts.len() && forall|i: int|
            0 <= i < parts.len() ==> bucket_of_part(parts[i], denoted[i]) == Ok::<
                BucketSays,
                Seq<char>,
            >(#[trigger] r[i]),
    decreases parts.len(),
{
    if parts.len() > 0 {
        let t = parts.drop_last();
        let n = parts.len() - 1;
        law_bucket_list(t, denoted);
        assert(forall|i: int| 0 <= i < n ==> t[i] == parts[i]);
        assert(parts[n] == parts.last());
        if forall|i: int|
            0 <= i < parts.len() ==> bucket_of_part(#[trigger] parts[i], denoted[i]) is Ok {
            assert forall|i: int| 0 <= i < t.len() implies bucket_of_part(
                #[trigger] t[i],
                denoted[i],
            ) is Ok by {
                assert(bucket_of_part(parts[i], denoted[i]) is Ok);
            }
        }
        if buckets_of(parts, denoted) is Ok {
            assert forall|i: int| 0 <= i < parts.len() implies bucket_of_part(
                #[trigger] parts[i],
                denoted[i],
            ) is Ok by {
                if i < n {
                    assert(bucket_of_part(t[i], denoted[i]) is Ok);
                }
            }
        }
    }
}

} // verus!
