//! The promotion gate: enough consecutive clean days, with a window among
//! them that is free of stale bursts and proven deterministic.
use vstd::prelude::*;
use crate::audit::{DailyScorecard, RecordingBursts};
use crate::calendar::{adjacent, dates_are_adjacent};
use crate::determinism::DeterminismArtifact;
use crate::text::{before, push_text, same, text_before, views};

verus! {

/// Consecutive clean days that promotion asks for.
pub const REQUIRED_CONSECUTIVE_CLEAN_DAYS: usize = 7;

/// Consecutive clean days that promotion asks for in zero-cost mode, where
/// the longer streak makes up for the lower bar per day.
pub const ZERO_COST_REQUIRED_CONSECUTIVE_CLEAN_DAYS: usize = 14;

/// Least coverage in zero-cost mode, 0.95, as a bit pattern.
pub const ZERO_COST_MIN_COVERAGE: u64 = 0x3FEE_6666_6666_6666;

/// The outcome of the promotion check.
#[derive(Debug)]
pub struct PromotionVerdict {
    /// Clean days on consecutive dates up to the last scorecard.
    pub consecutive_clean: usize,
    /// Days asked for.
    pub required: usize,
    pub promoted: bool,
    /// Without promotion, the first day that broke a streak.
    pub first_failure: Option<String>,
    /// The first day of the qualifying window.
    pub window_start: Option<String>,
    /// The last day of the qualifying window.
    pub window_end: Option<String>,
    /// Without promotion, the days of the longest clean streak that carried
    /// bursts.
    pub burst_days: Vec<BurstDay>,
    /// Every day of the window has a passing determinism artifact.
    pub determinism_ok: bool,
    /// The days of the window without one.
    pub determinism_failures: Vec<String>,
}

/// A day with bursts, and the recordings (`venue:symbol`) that carried them.
#[derive(Debug)]
pub struct BurstDay {
    pub date: String,
    pub recordings: Vec<String>,
}

// ---------------------------------------------------------------------------
// Runs
// ---------------------------------------------------------------------------

/// The days `a..b` are all good, and each but the first follows on the day
/// before it.
pub open spec fn good_run(good: Seq<bool>, follows: Seq<bool>, a: int, b: int) -> bool {
    &&& 0 <= a <= b <= good.len()
    &&& forall|i: int| a <= i < b ==> #[trigger] good[i]
    &&& forall|i: int| a < i < b ==> #[trigger] follows[i]
}

/// `start..start + len` is the longest run, and the latest of that length.
pub open spec fn longest_run(good: Seq<bool>, follows: Seq<bool>, start: int, len: int) -> bool {
    &&& good_run(good, follows, start, start + len)
    &&& forall|a: int, b: int| #[trigger]
        good_run(good, follows, a, b) ==> b - a <= len && (b - a == len && len > 0 ==> a <= start)
    &&& len == 0 ==> start == 0
}

/// The length of the run that ends before day `n`.
spec fn run_before(good: Seq<bool>, follows: Seq<bool>, n: int) -> int
    decreases n,
{
    if n <= 0 || !good[n - 1] {
        0
    } else if n >= 2 && follows[n - 1] {
        run_before(good, follows, n - 1) + 1
    } else {
        1
    }
}

proof fn lemma_run_before(good: Seq<bool>, follows: Seq<bool>, n: int)
    requires
        0 <= n <= good.len(),
        good.len() == follows.len(),
    ensures
        0 <= run_before(good, follows, n) <= n,
        good_run(good, follows, n - run_before(good, follows, n), n),
        forall|a: int| #[trigger]
            good_run(good, follows, a, n) ==> n - a <= run_before(good, follows, n),
    decreases n,
{
    if n > 0 {
        lemma_run_before(good, follows, n - 1);
        let r = run_before(good, follows, n);
        assert forall|a: int| #[trigger] good_run(good, follows, a, n) implies n - a <= r by {
            if a < n {
                assert(good[n - 1]);
                assert(good_run(good, follows, a, n - 1));
                if a < n - 1 {
                    assert(follows[n - 1]);
                }
            }
        }
    }
}

/// The start and the length of the longest run, the latest of its length.
fn find_longest_run(good: &Vec<bool>, follows: &Vec<bool>) -> (r: (usize, usize))
    requires
        good@.len() == follows@.len(),
    ensures
        longest_run(good@, follows@, r.0 as int, r.1 as int),
        r.0 + r.1 <= good@.len(),
{
    let mut best_start: usize = 0;
    let mut best_len: usize = 0;
    let mut current: usize = 0;
    let mut i: usize = 0;
    while i < good.len()
        invariant
            i <= good@.len(),
            good@.len() == follows@.len(),
            current == run_before(good@, follows@, i as int),
            current <= i,
            best_start + best_len <= i,
            good_run(good@, follows@, best_start as int, best_start + best_len),
            forall|a: int, b: int|
                b <= i && #[trigger] good_run(good@, follows@, a, b) ==> b - a <= best_len && (b - a
                    == best_len && best_len > 0 ==> a <= best_start),
            best_len == 0 ==> best_start == 0,
        decreases good@.len() - i,
    {
        let ghost bs = best_start;
        let ghost bl = best_len;
        if !good[i] {
            current = 0;
        } else if i > 0 && follows[i] {
            current = current + 1;
        } else {
            current = 1;
        }
        i = i + 1;
        proof {
            lemma_run_before(good@, follows@, i as int);
            assert(current == run_before(good@, follows@, i as int));
        }
        if current > 0 && current >= best_len {
            best_len = current;
            best_start = i - current;
        }
        proof {
            assert forall|a: int, b: int|
                b <= i && #[trigger] good_run(good@, follows@, a, b) implies b - a <= best_len && (b
                - a == best_len && best_len > 0 ==> a <= best_start) by {
                if b < i {
                    assert(b - a <= bl && (b - a == bl && bl > 0 ==> a <= bs));
                    if best_len != bl || best_start != bs {
                        assert(b <= i - 1);
                    }
                } else {
                    assert(good_run(good@, follows@, a, i as int));
                    assert(b - a <= current);
                }
            }
        }
    }
    (best_start, best_len)
}

/// The days up to the end of `good` that make a run, and no longer one.
pub open spec fn run_at_end(good: Seq<bool>, follows: Seq<bool>, len: int) -> bool {
    &&& good_run(good, follows, good.len() - len, good.len() as int)
    &&& forall|a: int| #[trigger]
        good_run(good, follows, a, good.len() as int) ==> good.len() - a <= len
}

/// The length of the run at the end.
fn find_run_at_end(good: &Vec<bool>, follows: &Vec<bool>) -> (len: usize)
    requires
        good@.len() == follows@.len(),
    ensures
        run_at_end(good@, follows@, len as int),
{
    let mut current: usize = 0;
    let mut i: usize = 0;
    while i < good.len()
        invariant
            i <= good@.len(),
            good@.len() == follows@.len(),
            current == run_before(good@, follows@, i as int),
            current <= i,
        decreases good@.len() - i,
    {
        if !good[i] {
            current = 0;
        } else if i > 0 && follows[i] {
            current = current + 1;
        } else {
            current = 1;
        }
        i = i + 1;
    }
    proof {
        lemma_run_before(good@, follows@, i as int);
    }
    current
}

/// The days `a..b` are a run of at least `required` days, and not of none.
pub open spec fn long_run(good: Seq<bool>, follows: Seq<bool>, required: int, a: int, b: int) -> bool {
    good_run(good, follows, a, b) && b - a >= required && b > a
}

/// The latest run of at least `required` days, with every day that belongs to
/// it: no such run ends later, and none that ends there begins earlier.
pub open spec fn latest_run(
    good: Seq<bool>,
    follows: Seq<bool>,
    required: int,
    a: int,
    b: int,
) -> bool {
    &&& long_run(good, follows, required, a, b)
    &&& forall|c: int, d: int| #[trigger]
        long_run(good, follows, required, c, d) ==> d < b || (d == b && a <= c)
}

/// The latest run of at least `required` days.
fn find_latest_run(good: &Vec<bool>, follows: &Vec<bool>, required: usize) -> (r: Option<
    (usize, usize),
>)
    requires
        good@.len() == follows@.len(),
    ensures
        match r {
            Some((a, b)) => latest_run(good@, follows@, required as int, a as int, b as int),
            None => forall|c: int, d: int| !#[trigger]
                long_run(good@, follows@, required as int, c, d),
        },
{
    let mut found: Option<(usize, usize)> = None;
    let mut current: usize = 0;
    let mut i: usize = 0;
    while i < good.len()
        invariant
            i <= good@.len(),
            good@.len() == follows@.len(),
            current == run_before(good@, follows@, i as int),
            current <= i,
            found matches Some((a, b)) ==> long_run(
                good@,
                follows@,
                required as int,
                a as int,
                b as int,
            ),
            forall|c: int, d: int|
                d <= i && #[trigger] long_run(good@, follows@, required as int, c, d) ==> (
                found matches Some((a, b)) && (d < b || (d == b && a <= c))),
        decreases good@.len() - i,
    {
        let ghost f0 = found;
        if !good[i] {
            current = 0;
        } else if i > 0 && follows[i] {
            current = current + 1;
        } else {
            current = 1;
        }
        i = i + 1;
        proof {
            lemma_run_before(good@, follows@, i as int);
            assert(current == run_before(good@, follows@, i as int));
        }
        if current > 0 && current >= required {
            found = Some(((i - current) as usize, i));
        }
        proof {
            assert forall|c: int, d: int|
                d <= i && #[trigger] long_run(good@, follows@, required as int, c, d) implies (
            found matches Some((a, b)) && (d < b || (d == b && a <= c))) by {
                if d == i {
                    assert(good_run(good@, follows@, c, i as int));
                    assert(i - c <= current);
                } else {
                    assert(f0 matches Some((a, b)) && (d < b || (d == b && a <= c)));
                }
            }
        }
    }
    proof {
        assert forall|c: int, d: int| #[trigger]
            long_run(good@, follows@, required as int, c, d) implies d <= i by {}
    }
    found
}

// ---------------------------------------------------------------------------
// Days
// ---------------------------------------------------------------------------

/// Some recording of the day carried a burst.
pub open spec fn has_bursts(card: DailyScorecard) -> bool {
    exists|i: int|
        0 <= i < card.recording_bursts@.len() && (#[trigger] card.recording_bursts@[i]).stale_bursts
            > 0
}

/// Whether some recording of the day carried a burst.
fn day_has_bursts(card: &DailyScorecard) -> (r: bool)
    ensures
        r == has_bursts(*card),
{
    let mut i: usize = 0;
    while i < card.recording_bursts.len()
        invariant
            i <= card.recording_bursts@.len(),
            forall|k: int|
                0 <= k < i ==> (#[trigger] card.recording_bursts@[k]).stale_bursts == 0,
        decreases card.recording_bursts@.len() - i,
    {
        if card.recording_bursts[i].stale_bursts > 0 {
            return true;
        }
        i = i + 1;
    }
    false
}

/// Which days are promotable.
pub open spec fn promotable_days(cards: Seq<DailyScorecard>) -> Seq<bool> {
    Seq::new(cards.len(), |i: int| cards[i].promotable)
}

/// Which days follow on the day of the card before.
pub open spec fn following_days(cards: Seq<DailyScorecard>) -> Seq<bool> {
    Seq::new(cards.len(), |i: int| i > 0 && adjacent(cards[i - 1].date@, cards[i].date@))
}

/// Which days a window may hold: promotable ones without bursts.
pub open spec fn window_days(cards: Seq<DailyScorecard>) -> Seq<bool> {
    Seq::new(cards.len(), |i: int| cards[i].promotable && !has_bursts(cards[i]))
}

/// The days `start..start + len` are the latest longest streak of promotable
/// days on consecutive dates.
pub open spec fn best_streak(cards: Seq<DailyScorecard>, start: int, len: int) -> bool {
    longest_run(promotable_days(cards), following_days(cards), start, len)
}

/// The days `a..b` qualify: at least `required` promotable days without bursts
/// on consecutive dates.
pub open spec fn qualifies(cards: Seq<DailyScorecard>, required: int, a: int, b: int) -> bool {
    long_run(window_days(cards), following_days(cards), required, a, b)
}

/// The days `a..b` are the latest that qualify.
pub open spec fn latest_window(cards: Seq<DailyScorecard>, required: int, a: int, b: int) -> bool {
    latest_run(window_days(cards), following_days(cards), required, a, b)
}

/// Day `i` breaks a streak: it does not follow on the card before, or is not
/// promotable.
pub open spec fn breaks(cards: Seq<DailyScorecard>, i: int) -> bool {
    0 <= i < cards.len() && (!cards[i].promotable || (i > 0 && !adjacent(
        cards[i - 1].date@,
        cards[i].date@,
    )))
}

/// The date of the first day that breaks a streak.
pub open spec fn first_break(cards: Seq<DailyScorecard>) -> Option<Seq<char>>
    decreases cards.len(),
{
    if cards.len() == 0 {
        None
    } else if first_break(cards.drop_last()) is Some {
        first_break(cards.drop_last())
    } else if breaks(cards, cards.len() - 1) {
        Some(cards.last().date@)
    } else {
        None
    }
}

/// The text of an optional string.
pub open spec fn text_of(o: Option<String>) -> Option<Seq<char>> {
    match o {
        Some(s) => Some(s@),
        None => None,
    }
}

/// The recordings of a day that carried bursts, as `venue:symbol`.
pub open spec fn bursting(bursts: Seq<RecordingBursts>) -> Seq<Seq<char>>
    decreases bursts.len(),
{
    if bursts.len() == 0 {
        Seq::empty()
    } else if bursts.last().stale_bursts > 0 {
        bursting(bursts.drop_last()).push(
            bursts.last().venue@ + ":"@ + bursts.last().symbol@,
        )
    } else {
        bursting(bursts.drop_last())
    }
}

/// The days of `cards` that carried bursts: date and recordings.
pub open spec fn burst_days_of(cards: Seq<DailyScorecard>) -> Seq<(Seq<char>, Seq<Seq<char>>)>
    decreases cards.len(),
{
    if cards.len() == 0 {
        Seq::empty()
    } else if has_bursts(cards.last()) {
        burst_days_of(cards.drop_last()).push(
            (cards.last().date@, bursting(cards.last().recording_bursts@)),
        )
    } else {
        burst_days_of(cards.drop_last())
    }
}

/// What a list of burst days says.
pub open spec fn burst_day_views(v: Seq<BurstDay>) -> Seq<(Seq<char>, Seq<Seq<char>>)> {
    Seq::new(v.len(), |i: int| (v[i].date@, views(v[i].recordings@)))
}

/// The recordings of a day that carried bursts.
fn bursting_recordings(card: &DailyScorecard) -> (r: Vec<String>)
    ensures
        views(r@) == bursting(card.recording_bursts@),
{
    let mut r: Vec<String> = Vec::new();
    let ghost all = card.recording_bursts@;
    let mut i: usize = 0;
    assert(views(r@) =~= bursting(all.take(0)));
    while i < card.recording_bursts.len()
        invariant
            all == card.recording_bursts@,
            i <= all.len(),
            views(r@) == bursting(all.take(i as int)),
        decreases all.len() - i,
    {
        let rec = &card.recording_bursts[i];
        assert(all.take(i + 1).drop_last() =~= all.take(i as int));
        if rec.stale_bursts > 0 {
            let mut text = rec.venue.clone();
            push_text(&mut text, ":");
            push_text(&mut text, rec.symbol.as_str());
            let ghost before = r@;
            r.push(text);
            assert(views(r@) =~= views(before).push(text@));
        }
        i = i + 1;
    }
    assert(all.take(i as int) =~= all);
    r
}

/// The days `from..to` of `cards` that carried bursts.
fn burst_days_in(cards: &Vec<DailyScorecard>, from: usize, to: usize) -> (r: Vec<BurstDay>)
    requires
        from <= to <= cards@.len(),
    ensures
        burst_day_views(r@) == burst_days_of(cards@.subrange(from as int, to as int)),
{
    let mut r: Vec<BurstDay> = Vec::new();
    let mut i: usize = from;
    assert(burst_day_views(r@) =~= burst_days_of(cards@.subrange(from as int, from as int)));
    while i < to
        invariant
            from <= i <= to <= cards@.len(),
            burst_day_views(r@) == burst_days_of(cards@.subrange(from as int, i as int)),
        decreases to - i,
    {
        let ghost next = cards@.subrange(from as int, i + 1);
        assert(next.drop_last() =~= cards@.subrange(from as int, i as int));
        assert(next.last() == cards@[i as int]);
        if day_has_bursts(&cards[i]) {
            let day = BurstDay {
                date: cards[i].date.clone(),
                recordings: bursting_recordings(&cards[i]),
            };
            let ghost before = r@;
            r.push(day);
            assert(burst_day_views(r@) =~= burst_day_views(before).push(
                (day.date@, views(day.recordings@)),
            ));
        }
        i = i + 1;
    }
    r
}

/// The date of the first day that breaks a streak.
fn find_first_break(cards: &Vec<DailyScorecard>) -> (r: Option<String>)
    ensures
        text_of(r) == first_break(cards@),
{
    let mut i: usize = 0;
    while i < cards.len()
        invariant
            i <= cards@.len(),
            first_break(cards@.take(i as int)) is None,
        decreases cards@.len() - i,
    {
        let ghost next = cards@.take(i + 1);
        assert(next.drop_last() =~= cards@.take(i as int));
        assert(next.last() == cards@[i as int]);
        if i > 0 {
            assert(next[i - 1] == cards@[i - 1]);
        }
        let broken = !cards[i].promotable || (i > 0 && !dates_are_adjacent(
            cards[i - 1].date.as_str(),
            cards[i].date.as_str(),
        ));
        if broken {
            assert(breaks(next, next.len() - 1));
            proof {
                lemma_first_break_stays(cards@, i + 1);
            }
            return Some(cards[i].date.clone());
        }
        i = i + 1;
    }
    assert(cards@.take(i as int) =~= cards@);
    None
}

proof fn lemma_first_break_stays(cards: Seq<DailyScorecard>, k: int)
    requires
        0 <= k <= cards.len(),
        first_break(cards.take(k)) is Some,
    ensures
        first_break(cards) == first_break(cards.take(k)),
    decreases cards.len(),
{
    if k < cards.len() {
        assert(cards.drop_last().take(k) =~= cards.take(k));
        lemma_first_break_stays(cards.drop_last(), k);
    } else {
        assert(cards.take(k) =~= cards);
    }
}

// ---------------------------------------------------------------------------
// The promotion rule
// ---------------------------------------------------------------------------

/// The verdict on `cards` when `start..start + len` is the longest streak. It
/// is promoted exactly if some days qualify, anywhere; the window is then the
/// latest that do.
pub open spec fn verdict_holds(
    v: PromotionVerdict,
    cards: Seq<DailyScorecard>,
    required: int,
    start: int,
    len: int,
) -> bool {
    &&& best_streak(cards, start, len)
    &&& run_at_end(promotable_days(cards), following_days(cards), v.consecutive_clean as int)
    &&& v.required == required
    &&& v.promoted <==> exists|a: int, b: int| #[trigger] qualifies(cards, required, a, b)
    &&& v.promoted ==> exists|a: int, b: int| #[trigger]
        latest_window(cards, required, a, b) && text_of(v.window_start) == Some(cards[a].date@)
            && text_of(v.window_end) == Some(cards[b - 1].date@)
    &&& !v.promoted ==> v.window_start is None && v.window_end is None
    &&& text_of(v.first_failure) == if v.promoted {
        None
    } else {
        first_break(cards)
    }
    &&& burst_day_views(v.burst_days@) == if v.promoted {
        Seq::empty()
    } else {
        burst_days_of(cards.subrange(start, start + len))
    }
    &&& v.determinism_ok
    &&& v.determinism_failures@.len() == 0
}

/// Whether the scorecards hold a window of the usual length.
pub fn check_promotion(scorecards: &Vec<DailyScorecard>) -> (v: PromotionVerdict)
    ensures
        exists|start: int, len: int| verdict_holds(v, scorecards@, 7, start, len),
{
    check_promotion_n(scorecards, REQUIRED_CONSECUTIVE_CLEAN_DAYS)
}

/// Whether the scorecards (sorted by date) hold `required` clean days without
/// bursts on consecutive dates, and the latest window of such days. A day with
/// bursts counts for the streak; it only cannot be part of the window.
pub fn check_promotion_n(scorecards: &Vec<DailyScorecard>, required: usize) -> (v: PromotionVerdict)
    ensures
        exists|start: int, len: int| verdict_holds(v, scorecards@, required as int, start, len),
{
    let ghost cards = scorecards@;
    let mut good: Vec<bool> = Vec::new();
    let mut free: Vec<bool> = Vec::new();
    let mut follows: Vec<bool> = Vec::new();
    let mut i: usize = 0;
    while i < scorecards.len()
        invariant
            cards == scorecards@,
            i <= cards.len(),
            good@ =~= promotable_days(cards).take(i as int),
            free@ =~= window_days(cards).take(i as int),
            follows@ =~= following_days(cards).take(i as int),
        decreases cards.len() - i,
    {
        good.push(scorecards[i].promotable);
        free.push(scorecards[i].promotable && !day_has_bursts(&scorecards[i]));
        let f = i > 0 && dates_are_adjacent(
            scorecards[i - 1].date.as_str(),
            scorecards[i].date.as_str(),
        );
        follows.push(f);
        i = i + 1;
    }
    assert(good@ =~= promotable_days(cards));
    assert(free@ =~= window_days(cards));
    assert(follows@ =~= following_days(cards));
    let (start, len) = find_longest_run(&good, &follows);
    let consecutive_clean: usize = find_run_at_end(&good, &follows);
    let window = find_latest_run(&free, &follows, required);
    let v = match window {
        Some((a, b)) => {
            assert(qualifies(cards, required as int, a as int, b as int));
            assert(latest_window(cards, required as int, a as int, b as int));
            let v = PromotionVerdict {
                consecutive_clean,
                required,
                promoted: true,
                first_failure: None,
                window_start: Some(scorecards[a].date.clone()),
                window_end: Some(scorecards[b - 1].date.clone()),
                burst_days: Vec::new(),
                determinism_ok: true,
                determinism_failures: Vec::new(),
            };
            assert(burst_day_views(v.burst_days@) =~= Seq::empty());
            v
        },
        None => {
            assert forall|a: int, b: int| !#[trigger] qualifies(cards, required as int, a, b) by {
                assert(!long_run(free@, follows@, required as int, a, b));
            }
            PromotionVerdict {
                consecutive_clean,
                required,
                promoted: false,
                first_failure: find_first_break(scorecards),
                window_start: None,
                window_end: None,
                burst_days: burst_days_in(scorecards, start, start + len),
                determinism_ok: true,
                determinism_failures: Vec::new(),
            }
        },
    };
    assert(verdict_holds(v, cards, required as int, start as int, len as int));
    v
}

/// A passing artifact for `date`.
pub open spec fn proven(artifacts: Seq<DeterminismArtifact>, date: Seq<char>) -> bool {
    exists|i: int|
        0 <= i < artifacts.len() && (#[trigger] artifacts[i]).date@ == date && artifacts[i].passed
}

/// The days of the window `ws..=we` without a passing artifact.
pub open spec fn unproven_days(
    cards: Seq<DailyScorecard>,
    artifacts: Seq<DeterminismArtifact>,
    ws: Seq<char>,
    we: Seq<char>,
) -> Seq<Seq<char>>
    decreases cards.len(),
{
    if cards.len() == 0 {
        Seq::empty()
    } else {
        let rest = unproven_days(cards.drop_last(), artifacts, ws, we);
        let d = cards.last().date@;
        if !before(d, ws) && !before(we, d) && !proven(artifacts, d) {
            rest.push(d)
        } else {
            rest
        }
    }
}

fn is_proven(artifacts: &Vec<DeterminismArtifact>, date: &str) -> (r: bool)
    ensures
        r == proven(artifacts@, date@),
{
    let mut i: usize = 0;
    while i < artifacts.len()
        invariant
            i <= artifacts@.len(),
            forall|k: int|
                0 <= k < i ==> !((#[trigger] artifacts@[k]).date@ == date@ && artifacts@[k].passed),
        decreases artifacts@.len() - i,
    {
        if same(artifacts[i].date.as_str(), date) && artifacts[i].passed {
            return true;
        }
        i = i + 1;
    }
    false
}

/// The verdict `v` held back by determinism: `base` is the verdict without
/// it.
pub open spec fn held_back(
    v: PromotionVerdict,
    base: PromotionVerdict,
    cards: Seq<DailyScorecard>,
    artifacts: Seq<DeterminismArtifact>,
) -> bool {
    if base.promoted {
        let failures = unproven_days(
            cards,
            artifacts,
            text_of(base.window_start)->0,
            text_of(base.window_end)->0,
        );
        &&& views(v.determinism_failures@) == failures
        &&& v.determinism_ok == (failures.len() == 0)
        &&& v.promoted == (failures.len() == 0)
        &&& v.consecutive_clean == base.consecutive_clean
        &&& v.required == base.required
        &&& v.first_failure == base.first_failure
        &&& v.window_start == base.window_start
        &&& v.window_end == base.window_end
        &&& v.burst_days == base.burst_days
    } else {
        v == base
    }
}

/// The promotion check with the determinism condition: every day of the
/// qualifying window also has a passing artifact. A window that is held back
/// stays named.
pub fn check_promotion_determinism(
    scorecards: &Vec<DailyScorecard>,
    artifacts: &Vec<DeterminismArtifact>,
) -> (v: PromotionVerdict)
    ensures
        exists|base: PromotionVerdict, start: int, len: int|
            #[trigger] verdict_holds(base, scorecards@, 7, start, len) && held_back(
                v,
                base,
                scorecards@,
                artifacts@,
            ),
{
    let mut v = check_promotion(scorecards);
    let ghost base = v;
    let ghost (start, len) = choose|start: int, len: int|
        verdict_holds(v, scorecards@, 7, start, len);
    assert(verdict_holds(base, scorecards@, 7, start, len));
    if !v.promoted {
        return v;
    }
    let ghost cards = scorecards@;
    let mut failures: Vec<String> = Vec::new();
    match (&v.window_start, &v.window_end) {
        (Some(ws), Some(we)) => {
            let mut i: usize = 0;
            assert(views(failures@) =~= unproven_days(cards.take(0), artifacts@, ws@, we@));
            while i < scorecards.len()
                invariant
                    cards == scorecards@,
                    i <= cards.len(),
                    views(failures@) == unproven_days(
                        cards.take(i as int),
                        artifacts@,
                        ws@,
                        we@,
                    ),
                decreases cards.len() - i,
            {
                let date = &scorecards[i].date;
                assert(cards.take(i + 1).drop_last() =~= cards.take(i as int));
                if !text_before(date.as_str(), ws.as_str()) && !text_before(
                    we.as_str(),
                    date.as_str(),
                ) && !is_proven(artifacts, date.as_str()) {
                    let ghost f0 = failures@;
                    failures.push(date.clone());
                    assert(views(failures@) =~= views(f0).push(date@));
                }
                i = i + 1;
            }
            assert(cards.take(i as int) =~= cards);
        },
        _ => {},
    }
    v.determinism_ok = failures.len() == 0;
    v.promoted = failures.len() == 0;
    v.determinism_failures = failures;
    assert(held_back(v, base, scorecards@, artifacts@));
    v
}

/// Promotion is owed wherever days qualify. The window that the verdict names
/// is the latest that do; every day of it is promotable, without bursts, and
/// follows on the day before.
pub proof fn law_promoted_window(
    v: PromotionVerdict,
    cards: Seq<DailyScorecard>,
    required: int,
    start: int,
    len: int,
    a: int,
    b: int,
)
    requires
        verdict_holds(v, cards, required, start, len),
        latest_window(cards, required, a, b),
    ensures
        v.promoted,
        0 <= a < b <= cards.len(),
        b - a >= required,
        forall|i: int| a <= i < b ==> (#[trigger] cards[i]).promotable && !has_bursts(cards[i]),
        forall|i: int|
            a < i < b ==> adjacent(cards[i - 1].date@, (#[trigger] cards[i]).date@),
        text_of(v.window_start) == Some(cards[a].date@),
        text_of(v.window_end) == Some(cards[b - 1].date@),
{
    assert(qualifies(cards, required, a, b));
    let (c, d) = choose|c: int, d: int| #[trigger]
        latest_window(cards, required, c, d) && text_of(v.window_start) == Some(cards[c].date@)
            && text_of(v.window_end) == Some(cards[d - 1].date@);
    assert(long_run(window_days(cards), following_days(cards), required, c, d));
    assert(long_run(window_days(cards), following_days(cards), required, a, b));
    assert(a == c && b == d);
    assert forall|i: int| a <= i < b implies (#[trigger] cards[i]).promotable && !has_bursts(
        cards[i],
    ) by {
        assert(window_days(cards)[i]);
    }
    assert forall|i: int| a < i < b implies adjacent(
        cards[i - 1].date@,
        (#[trigger] cards[i]).date@,
    ) by {
        assert(following_days(cards)[i]);
    }
}

/// Days without a qualifying run are not promoted, and name no window.
pub proof fn law_not_promoted_without_window(
    v: PromotionVerdict,
    cards: Seq<DailyScorecard>,
    required: int,
    start: int,
    len: int,
)
    requires
        verdict_holds(v, cards, required, start, len),
        forall|a: int, b: int| !#[trigger] qualifies(cards, required, a, b),
    ensures
        !v.promoted,
        v.window_start is None,
        v.window_end is None,
{
}

/// A fresh tail of days that qualify is promoted, whatever came before it, and
/// the window reaches to the last scorecard.
pub proof fn law_fresh_tail_promotes(
    v: PromotionVerdict,
    cards: Seq<DailyScorecard>,
    required: int,
    start: int,
    len: int,
    a: int,
)
    requires
        verdict_holds(v, cards, required, start, len),
        qualifies(cards, required, a, cards.len() as int),
    ensures
        v.promoted,
        text_of(v.window_end) == Some(cards.last().date@),
{
    let (c, d) = choose|c: int, d: int| #[trigger]
        latest_window(cards, required, c, d) && text_of(v.window_start) == Some(cards[c].date@)
            && text_of(v.window_end) == Some(cards[d - 1].date@);
    assert(long_run(window_days(cards), following_days(cards), required, a, cards.len() as int));
    assert(long_run(window_days(cards), following_days(cards), required, c, d));
    assert(d == cards.len());
}

/// Enough promotable days in a row, each the day after the one before and
/// none with a burst, promote.
pub proof fn law_enough_days_promote(
    v: PromotionVerdict,
    cards: Seq<DailyScorecard>,
    required: int,
    start: int,
    len: int,
    a: int,
    b: int,
)
    requires
        verdict_holds(v, cards, required, start, len),
        0 <= a < b <= cards.len(),
        b - a >= required,
        forall|i: int| a <= i < b ==> (#[trigger] cards[i]).promotable,
        forall|i: int, k: int|
            a <= i < b && 0 <= k < cards[i].recording_bursts@.len() ==> (
            #[trigger] cards[i].recording_bursts@[k]).stale_bursts == 0,
        forall|i: int| a < i < b ==> adjacent(cards[i - 1].date@, (#[trigger] cards[i]).date@),
    ensures
        v.promoted,
        v.window_start is Some,
        v.window_end is Some,
{
    assert forall|i: int| a <= i < b implies #[trigger] window_days(cards)[i] by {
        assert(cards[i].promotable);
    }
    assert forall|i: int| a < i < b implies #[trigger] following_days(cards)[i] by {
        assert(adjacent(cards[i - 1].date@, cards[i].date@));
    }
    assert(qualifies(cards, required, a, b));
}

/// The clean days at the end are promotable and follow each other, and they
/// are all there are.
pub proof fn law_clean_days_at_the_end(
    v: PromotionVerdict,
    cards: Seq<DailyScorecard>,
    required: int,
    start: int,
    len: int,
    i: int,
)
    requires
        verdict_holds(v, cards, required, start, len),
    ensures
        0 <= v.consecutive_clean <= cards.len(),
        v.required == required,
        cards.len() - v.consecutive_clean <= i < cards.len() ==> cards[i].promotable,
        cards.len() - v.consecutive_clean < i < cards.len() ==> adjacent(
            cards[i - 1].date@,
            cards[i].date@,
        ),
        ({
            let first = cards.len() - v.consecutive_clean;
            first > 0 ==> !cards[first - 1].promotable || (first < cards.len() && !adjacent(
                cards[first - 1].date@,
                cards[first].date@,
            ))
        }),
{
    let good = promotable_days(cards);
    let follows = following_days(cards);
    let n = cards.len() as int;
    let first = n - v.consecutive_clean;
    assert(good_run(good, follows, first, n));
    if first <= i < n {
        assert(good[i]);
    }
    if first < i < n {
        assert(follows[i]);
    }
    if first > 0 && cards[first - 1].promotable && (first == n || adjacent(
        cards[first - 1].date@,
        cards[first].date@,
    )) {
        assert forall|k: int| first - 1 <= k < n implies #[trigger] good[k] by {}
        assert forall|k: int| first - 1 < k < n implies #[trigger] follows[k] by {}
        assert(good_run(good, follows, first - 1, n));
        assert(false);
    }
}

/// The first failure is the first day that is not promotable or does not
/// follow the day before.
pub proof fn law_first_break(cards: Seq<DailyScorecard>, i: int)
    ensures
        0 <= i < cards.len() && (!cards[i].promotable || (i > 0 && !adjacent(
            cards[i - 1].date@,
            cards[i].date@,
        ))) && (forall|k: int| 0 <= k < i ==> (#[trigger] cards[k]).promotable) && (forall|k: int|
            0 < k < i ==> adjacent(cards[k - 1].date@, (#[trigger] cards[k]).date@))
            ==> first_break(cards) == Some(cards[i].date@),
        (forall|k: int| 0 <= k < cards.len() ==> (#[trigger] cards[k]).promotable) && (forall|k: int|
            0 < k < cards.len() ==> adjacent(cards[k - 1].date@, (#[trigger] cards[k]).date@))
            ==> first_break(cards) is None,
    decreases cards.len(),
{
    if cards.len() > 0 {
        let t = cards.drop_last();
        let n = cards.len() - 1;
        assert(forall|k: int| 0 <= k < t.len() ==> t[k] == cards[k]);
        assert(cards[n] == cards.last());
        law_first_break(t, i);
        let sound = (forall|k: int| 0 <= k < n ==> (#[trigger] cards[k]).promotable) && (forall|
            k: int,
        |
            0 < k < n ==> adjacent(cards[k - 1].date@, (#[trigger] cards[k]).date@));
        if sound {
            assert forall|k: int| 0 <= k < t.len() implies (#[trigger] t[k]).promotable by {
                assert(cards[k].promotable);
            }
            assert forall|k: int| 0 < k < t.len() implies adjacent(
                t[k - 1].date@,
                (#[trigger] t[k]).date@,
            ) by {
                assert(adjacent(cards[k - 1].date@, cards[k].date@));
            }
            assert(first_break(t) is None);
        }
        if 0 <= i < n && (forall|k: int| 0 <= k < i ==> (#[trigger] cards[k]).promotable) && (
        forall|k: int| 0 < k < i ==> adjacent(cards[k - 1].date@, (#[trigger] cards[k]).date@)) {
            assert forall|k: int| 0 < k < i implies adjacent(
                t[k - 1].date@,
                (#[trigger] t[k]).date@,
            ) by {
                assert(adjacent(cards[k - 1].date@, cards[k].date@));
            }
        }
    }
}

/// The burst days are the days with a burst of a recording, each with the
/// recordings that had one.
pub proof fn law_burst_days(cards: Seq<DailyScorecard>)
    ensures
        ({
            let days = cards.filter(
                |c: DailyScorecard|
                    exists|k: int|
                        0 <= k < c.recording_bursts@.len() && (
                        #[trigger] c.recording_bursts@[k]).stale_bursts > 0,
            );
            &&& burst_days_of(cards).len() == days.len()
            &&& forall|i: int|
                0 <= i < days.len() ==> (#[trigger] burst_days_of(cards)[i]).0 == days[i].date@
                    && burst_days_of(cards)[i].1 == bursting(days[i].recording_bursts@)
        }),
    decreases cards.len(),
{
    reveal(Seq::filter);
    if cards.len() > 0 {
        law_burst_days(cards.drop_last());
    }
}

/// A recording with a burst is named by its venue and its symbol.
pub proof fn law_bursting(bursts: Seq<RecordingBursts>)
    ensures
        ({
            let kept = bursts.filter(|b: RecordingBursts| b.stale_bursts > 0);
            &&& bursting(bursts).len() == kept.len()
            &&& forall|i: int|
                0 <= i < kept.len() ==> #[trigger] bursting(bursts)[i] == kept[i].venue@ + ":"@
                    + kept[i].symbol@
        }),
    decreases bursts.len(),
{
    reveal(Seq::filter);
    if bursts.len() > 0 {
        law_bursting(bursts.drop_last());
    }
}

/// A day of the window is held against the promotion exactly where no passed
/// replay is shown for it.
pub proof fn law_unproven_days(
    cards: Seq<DailyScorecard>,
    artifacts: Seq<DeterminismArtifact>,
    ws: Seq<char>,
    we: Seq<char>,
    d: Seq<char>,
)
    ensures
        unproven_days(cards, artifacts, ws, we).contains(d) <==> {
            &&& exists|i: int| 0 <= i < cards.len() && (#[trigger] cards[i]).date@ == d
            &&& !before(d, ws)
            &&& !before(we, d)
            &&& forall|k: int|
                0 <= k < artifacts.len() && (#[trigger] artifacts[k]).date@ == d
                    ==> !artifacts[k].passed
        },
    decreases cards.len(),
{
    if cards.len() > 0 {
        let t = cards.drop_last();
        let n = cards.len() - 1;
        law_unproven_days(t, artifacts, ws, we, d);
        let rest = unproven_days(t, artifacts, ws, we);
        let all = unproven_days(cards, artifacts, ws, we);
        let x = cards.last().date@;
        assert(cards[n] == cards.last());
        assert(rest.push(x)[rest.len() as int] == x);
        if rest.contains(d) {
            let i = rest.index_of(d);
            assert(rest.push(x)[i] == d);
            let j = choose|j: int| 0 <= j < t.len() && (#[trigger] t[j]).date@ == d;
            assert(cards[j].date@ == d);
        }
        if all.contains(d) && !rest.contains(d) {
            let i = all.index_of(d);
            if i < rest.len() {
                assert(rest[i] == d);
            }
            assert(x == d);
        }
        if exists|i: int| 0 <= i < cards.len() && (#[trigger] cards[i]).date@ == d {
            let i = choose|i: int| 0 <= i < cards.len() && (#[trigger] cards[i]).date@ == d;
            if i < n {
                assert(t[i].date@ == d);
            }
        }
    }
}

/// Replays can only hold a promotion back: it stands exactly where every day
/// of its window is proven, and nothing else of the verdict changes.
pub proof fn law_replays_hold_back(
    v: PromotionVerdict,
    base: PromotionVerdict,
    cards: Seq<DailyScorecard>,
    artifacts: Seq<DeterminismArtifact>,
)
    requires
        held_back(v, base, cards, artifacts),
    ensures
        v.promoted ==> base.promoted,
        !base.promoted ==> v == base,
        base.promoted ==> (v.promoted <==> views(v.determinism_failures@).len() == 0)
            && v.determinism_ok == v.promoted && v.consecutive_clean == base.consecutive_clean
            && v.required == base.required && v.window_start == base.window_start && v.window_end
            == base.window_end && v.first_failure == base.first_failure,
{
}

/// The best streak is a run of promotable days that follow each other, and no
/// such run is longer.
pub proof fn law_best_streak(
    cards: Seq<DailyScorecard>,
    start: int,
    len: int,
    a: int,
    b: int,
    i: int,
)
    requires
        best_streak(cards, start, len),
    ensures
        0 <= start <= start + len <= cards.len(),
        start <= i < start + len ==> cards[i].promotable,
        start < i < start + len ==> adjacent(cards[i - 1].date@, cards[i].date@),
        0 <= a <= b <= cards.len() && (forall|k: int|
            a <= k < b ==> (#[trigger] cards[k]).promotable) && (forall|k: int|
            a < k < b ==> adjacent(cards[k - 1].date@, (#[trigger] cards[k]).date@)) ==> b - a
            <= len,
{
    let good = promotable_days(cards);
    let follows = following_days(cards);
    assert(good_run(good, follows, start, start + len));
    if start <= i < start + len {
        assert(good[i]);
    }
    if start < i < start + len {
        assert(follows[i]);
    }
    if 0 <= a <= b <= cards.len() && (forall|k: int|
        a <= k < b ==> (#[trigger] cards[k]).promotable) && (forall|k: int|
        a < k < b ==> adjacent(cards[k - 1].date@, (#[trigger] cards[k]).date@)) {
        assert forall|k: int| a <= k < b implies #[trigger] good[k] by {
            assert(cards[k].promotable);
        }
        assert forall|k: int| a < k < b implies #[trigger] follows[k] by {
            assert(adjacent(cards[k - 1].date@, cards[k].date@));
        }
        assert(good_run(good, follows, a, b));
    }
}

} // verus!
