use mp_research::audit::{scorecard, AuditFinding, DailyScorecard, RawLogAudit, TimeRange};
use mp_research::determinism::DeterminismArtifact;
use mp_research::event::Venue;
use mp_research::number::Real;
use mp_research::ordered::SortedMap;
use mp_research::promotion::{
    check_promotion, check_promotion_determinism, check_promotion_n,
    REQUIRED_CONSECUTIVE_CLEAN_DAYS, ZERO_COST_REQUIRED_CONSECUTIVE_CLEAN_DAYS,
};

fn clean_audit() -> RawLogAudit {
    RawLogAudit {
        event_count: 100,
        first_recv_ts_ns: Some(1),
        last_recv_ts_ns: Some(1_000_000_000),
        coverage: Real { bits: 1.0_f64.to_bits() },
        streams: SortedMap::new(),
        gaps: vec![],
        stale_periods: vec![],
        stale_bursts: vec![],
        stale_silences_ms: vec![],
        worst_gap_ns: 0,
        findings: vec![],
    }
}

fn dirty_audit() -> RawLogAudit {
    RawLogAudit {
        findings: vec![AuditFinding { code: "test".into(), detail: "fail".into() }],
        ..clean_audit()
    }
}

fn card(date: &str, clean: bool) -> DailyScorecard {
    let audit = if clean { clean_audit() } else { dirty_audit() };
    scorecard(date, vec![(Venue::BinanceFutures, "BTCUSDT".into(), audit)])
}

fn burst_card(date: &str) -> DailyScorecard {
    let mut audit = clean_audit();
    audit.stale_bursts = vec![TimeRange { start_ns: 0, end_ns: 0 }];
    scorecard(date, vec![(Venue::BinanceFutures, "BTCUSDT".into(), audit)])
}

#[test]
fn promotion_requires_seven_consecutive_clean_days() {
    let cards: Vec<_> = (1..=7).map(|d| card(&format!("2026070{d}"), true)).collect();
    let v = check_promotion(&cards);
    assert!(v.promoted);
    assert_eq!(v.consecutive_clean, 7);
    assert_eq!(v.window_start.as_deref(), Some("20260701"));
    assert_eq!(v.window_end.as_deref(), Some("20260707"));
}

#[test]
fn promotion_rejects_non_adjacent_clean_scorecard_dates() {
    let cards = [
        "20260701", "20260702", "20260703", "20260705", "20260706", "20260707", "20260708",
    ]
    .into_iter()
    .map(|date| card(date, true))
    .collect::<Vec<_>>();
    let v = check_promotion(&cards);
    assert!(!v.promoted);
    assert_eq!(v.consecutive_clean, 4);
}

#[test]
fn promotion_fails_with_six_clean_days() {
    let cards: Vec<_> = (1..=6).map(|d| card(&format!("2026070{d}"), true)).collect();
    let v = check_promotion(&cards);
    assert!(!v.promoted);
    assert_eq!(v.consecutive_clean, 6);
}

#[test]
fn promotion_resets_on_dirty_day() {
    let mut cards: Vec<_> = (1..=4).map(|d| card(&format!("2026070{d}"), true)).collect();
    cards.push(card("20260705", false)); // breaks streak
    cards.extend((6..=9).map(|d| card(&format!("2026070{d}"), true)));
    let v = check_promotion(&cards);
    assert!(!v.promoted); // best run is 4, not 7
    assert_eq!(v.consecutive_clean, 4);
    assert_eq!(v.first_failure.as_deref(), Some("20260705"));
}

#[test]
fn promotion_empty_input() {
    let v = check_promotion(&vec![]);
    assert!(!v.promoted);
    assert_eq!(v.consecutive_clean, 0);
    assert!(v.burst_days.is_empty());
}

#[test]
fn promotion_window_condition_holds_back_bursty_full_streak() {
    let mut cards: Vec<_> = (1..=7).map(|d| card(&format!("2026070{d}"), true)).collect();
    cards[3] = burst_card("20260704");
    let v = check_promotion(&cards);
    assert!(!v.promoted, "a bursty day in the window must hold promotion");
    assert_eq!(v.consecutive_clean, 7, "the streak itself is intact");
    assert!(v.first_failure.is_none(), "no clean-day break: bursts are the why");
    assert_eq!(v.burst_days.len(), 1);
    assert_eq!(v.burst_days[0].date, "20260704");
    assert_eq!(v.burst_days[0].recordings, vec!["binance:BTCUSDT".to_string()]);
}

#[test]
fn promotion_promotes_on_burst_free_subwindow() {
    let mut cards: Vec<_> = (1..=10).map(|d| card(&format!("202607{d:02}"), true)).collect();
    cards[2] = burst_card("20260703");
    let v = check_promotion(&cards);
    assert!(v.promoted, "a burst-free 7-day tail must qualify");
    assert_eq!(v.consecutive_clean, 10);
    assert_eq!(v.window_start.as_deref(), Some("20260704"));
    assert_eq!(v.window_end.as_deref(), Some("20260710"));
    assert!(v.burst_days.is_empty(), "qualifying window is burst-free");
}

#[test]
fn promotion_bursts_on_window_edges_block() {
    let mut cards: Vec<_> = (1..=7).map(|d| card(&format!("2026070{d}"), true)).collect();
    cards[0] = burst_card("20260701");
    cards[6] = burst_card("20260707");
    let v = check_promotion(&cards);
    assert!(!v.promoted);
    assert_eq!(v.consecutive_clean, 7);
    assert_eq!(v.burst_days.len(), 2);
    assert_eq!(v.burst_days[0].date, "20260701");
    assert_eq!(v.burst_days[1].date, "20260707");
}

#[test]
fn mod_11_determinism_blocks_promotion_and_names_failures() {
    let cards: Vec<_> = (1..=7).map(|d| card(&format!("2026070{d}"), true)).collect();
    let plain = check_promotion(&cards);
    assert!(plain.promoted, "the numeric gate passes on its own");
    assert!(plain.determinism_ok, "plain gate leaves determinism_ok true");

    // No artifacts at all: every window day lacks proof.
    let v = check_promotion_determinism(&cards, &vec![]);
    assert!(!v.promoted, "a window with no determinism proof must not promote");
    assert_eq!(v.consecutive_clean, 7, "the streak itself is intact");
    assert!(!v.determinism_ok);
    assert_eq!(v.determinism_failures.len(), 7, "all window days named");
    assert!(v.determinism_failures.contains(&"20260703".to_string()));

    // Artifacts for every day but one failing: still blocked, one name.
    let mut artifacts: Vec<DeterminismArtifact> = (1..=7)
        .map(|d| DeterminismArtifact {
            date: format!("2026070{d}"),
            passed: true,
            ..Default::default()
        })
        .collect();
    artifacts[3].passed = false;
    let v2 = check_promotion_determinism(&cards, &artifacts);
    assert!(!v2.promoted);
    assert_eq!(v2.determinism_failures, vec!["20260704".to_string()]);

    // All passing: the window promotes.
    for a in artifacts.iter_mut() {
        a.passed = true;
    }
    let v3 = check_promotion_determinism(&cards, &artifacts);
    assert!(v3.promoted);
    assert!(v3.determinism_ok);
    assert!(v3.determinism_failures.is_empty());
}

#[test]
fn promotion_bursts_do_not_mask_clean_day_break() {
    let mut cards: Vec<_> = (1..=6).map(|d| card(&format!("2026070{d}"), true)).collect();
    cards.push(burst_card("20260707"));
    cards.push(card("20260708", false));
    cards.extend((9..=15).map(|d| card(&format!("202607{d:02}"), true)));
    let v = check_promotion(&cards);
    assert!(v.promoted);
    assert_eq!(v.window_start.as_deref(), Some("20260709"));
    assert_eq!(v.window_end.as_deref(), Some("20260715"));
}

#[test]
fn a_window_may_cross_a_month() {
    let dates = [
        "20260628", "20260629", "20260630", "20260701", "20260702", "20260703", "20260704",
    ];
    let cards: Vec<_> = dates.into_iter().map(|d| card(d, true)).collect();
    let v = check_promotion(&cards);
    assert!(v.promoted);
    assert_eq!(v.consecutive_clean, 7);
}

#[test]
fn the_zero_cost_window_is_fourteen_days() {
    assert_eq!(REQUIRED_CONSECUTIVE_CLEAN_DAYS, 7);
    assert_eq!(ZERO_COST_REQUIRED_CONSECUTIVE_CLEAN_DAYS, 14);
    let cards: Vec<_> = (1..=13).map(|d| card(&format!("202607{d:02}"), true)).collect();
    let v = check_promotion_n(&cards, ZERO_COST_REQUIRED_CONSECUTIVE_CLEAN_DAYS);
    assert!(!v.promoted);
    assert_eq!(v.required, 14);
    assert_eq!(v.consecutive_clean, 13);
    let cards: Vec<_> = (1..=14).map(|d| card(&format!("202607{d:02}"), true)).collect();
    assert!(check_promotion_n(&cards, ZERO_COST_REQUIRED_CONSECUTIVE_CLEAN_DAYS).promoted);
}

#[test]
fn a_fresh_tail_behind_a_bursty_streak_promotes() {
    let mut cards: Vec<_> = (1..=10).map(|d| card(&format!("202607{d:02}"), true)).collect();
    cards[2] = burst_card("20260703");
    cards[7] = burst_card("20260708");
    cards.push(card("20260711", false));
    cards.extend((12..=18).map(|d| card(&format!("202607{d:02}"), true)));
    let v = check_promotion(&cards);
    assert!(v.promoted);
    assert_eq!(v.window_start.as_deref(), Some("20260712"));
    assert_eq!(v.window_end.as_deref(), Some("20260718"));
    assert_eq!(v.consecutive_clean, 7);
}

#[test]
fn an_old_window_counts_too() {
    let mut cards: Vec<_> = (1..=8).map(|d| card(&format!("2026070{d}"), true)).collect();
    cards.push(burst_card("20260709"));
    cards.push(card("20260710", true));
    let v = check_promotion(&cards);
    assert!(v.promoted);
    assert_eq!(v.window_start.as_deref(), Some("20260701"));
    assert_eq!(v.window_end.as_deref(), Some("20260708"));
    assert_eq!(v.consecutive_clean, 10);
}

#[test]
fn the_streak_ends_at_the_last_scorecard() {
    let cards = vec![
        card("20260701", true),
        card("20260702", true),
        card("20260703", true),
        card("20260704", false),
    ];
    let v = check_promotion_n(&cards, 7);
    assert!(!v.promoted);
    assert_eq!(v.consecutive_clean, 0);
    assert_eq!(v.first_failure.as_deref(), Some("20260704"));
}
