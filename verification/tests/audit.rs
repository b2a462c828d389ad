use mp_research::audit::{
    audit_raw_log, discover_raw_logs, finding, is_blocking_finding, log_selected,
    parse_stale_silence_ms, scorecard, AuditConfig, CoverageInput, RawLogAudit, RawLogContents,
    TimeRange, MIN_COVERAGE, ZERO_COST_MIN_COVERAGE,
};
use mp_research::compactor::{compact_day_verified, compact_targets};
use mp_research::error::StorageError;
use mp_research::event::{
    EventEnvelope, EventProvenance, MarketEvent, Side, SnapshotSource, StatusKind, SymbolId,
    SymbolMeta, Venue,
};
use mp_research::layout::partition_file;
use mp_research::number::Real;
use mp_research::ordered::SortedMap;

fn r(x: f64) -> Real {
    Real { bits: x.to_bits() }
}

fn event(recv: i64) -> EventEnvelope {
    EventEnvelope::new(
        Venue::BinanceFutures,
        SymbolId(0),
        recv,
        recv,
        recv as u64,
        MarketEvent::Trade { price: r(1.0), qty: r(1.0), side: Side::Buy, trade_id: recv as u64 },
    )
    .with_provenance(EventProvenance {
        stream: "trade".into(),
        subscription: "btcusdt@aggTrade".into(),
        connection_id: 1,
        snapshot_source: SnapshotSource::Unknown,
    })
}

fn stale_event(recv: i64) -> EventEnvelope {
    let mut e = event(recv);
    e.body = MarketEvent::Status { kind: StatusKind::Stale, detail: "stale".into() };
    e
}

fn table() -> Vec<SymbolMeta> {
    vec![SymbolMeta {
        symbol_id: SymbolId(0),
        venue: Venue::BinanceFutures,
        venue_symbol: "BTCUSDT".into(),
    }]
}

fn recording(events: Vec<EventEnvelope>) -> RawLogContents {
    RawLogContents::Events {
        tables: vec![table()],
        events: events.into_iter().map(|e| (0, e)).collect(),
        failure: None,
    }
}

fn audited(contents: &RawLogContents, config: &AuditConfig) -> RawLogAudit {
    let mut audit = audit_raw_log(contents, config);
    if let RawLogContents::Events { .. } = contents {
        let coverage = match audit.coverage_input() {
            CoverageInput::Nothing => 0.0,
            CoverageInput::Whole => 1.0,
            CoverageInput::Ratio { lost_ns, span_ns } => {
                (1.0 - lost_ns as f64 / span_ns as f64).clamp(0.0, 1.0)
            }
        };
        let shown = format!("{coverage:.4}");
        audit.settle(r(coverage), &shown, config.zero_cost_mode);
    }
    audit
}

fn binance() -> AuditConfig {
    AuditConfig::single(Venue::BinanceFutures, "BTCUSDT")
}

fn codes(audit: &RawLogAudit) -> Vec<&str> {
    audit.findings.iter().map(|f| f.code.as_str()).collect()
}

fn clean_audit() -> RawLogAudit {
    RawLogAudit {
        event_count: 100,
        first_recv_ts_ns: Some(1),
        last_recv_ts_ns: Some(1_000_000_000),
        coverage: r(1.0),
        streams: SortedMap::new(),
        gaps: vec![],
        stale_periods: vec![],
        stale_bursts: vec![],
        stale_silences_ms: vec![],
        worst_gap_ns: 0,
        findings: vec![],
    }
}

#[test]
fn int_1_event_provenance_roundtrips() {
    let audit = audited(&recording(vec![event(1)]), &binance());
    assert!(audit.is_clean(), "{:?}", audit.findings);
}

#[test]
fn int_2_mixed_log_is_quarantined() {
    let mut bad = event(1);
    bad.venue = Venue::Hyperliquid;
    let audit = audited(&recording(vec![bad]), &binance());
    assert!(audit.findings.iter().any(|finding| finding.code == "venue_mismatch"));
}

#[test]
fn int_recording_missing_is_named_and_blocking() {
    let contents = RawLogContents::Missing { path: "/tmp/missing.log".into() };
    let audit = audited(&contents, &binance());
    assert_eq!(audit.event_count, 0);
    assert!(codes(&audit).contains(&"recording_missing"));
    assert!(!codes(&audit).contains(&"unreadable_log"));
    assert!(!audit.is_clean());
}

#[test]
fn an_unreadable_recording_is_named_as_such() {
    let contents = RawLogContents::Unreadable { error: "bad magic".into() };
    let audit = audited(&contents, &binance());
    assert_eq!(codes(&audit), vec!["unreadable_log"]);
    assert!(!audit.is_clean());
}

#[test]
fn int_3_audit_reports_gap_and_staleness() {
    let mut config = binance();
    config.max_gap_ns = 10;
    let audit = audited(&recording(vec![event(1), stale_event(300)]), &config);
    assert_eq!(audit.gaps.len(), 1);
    assert_eq!(audit.stale_periods.len(), 1);
}

#[test]
fn int_4_compaction_refuses_quarantined_log() {
    let date = "2026-07-29";
    let mut bad = event(2);
    bad.venue = Venue::Hyperliquid;
    let mut bad_again = event(2);
    bad_again.venue = Venue::Hyperliquid;
    let audit = audited(&recording(vec![event(1), bad]), &binance());
    assert!(!audit.is_clean(), "mixed log must be quarantined");

    let events = vec![event(1), bad_again];
    let targets = compact_targets(&events, &table(), "cold", Venue::BinanceFutures, date);
    let absent: Vec<Option<String>> = targets.iter().map(|_| None).collect();
    let refused = compact_day_verified(
        &targets,
        &absent,
        &events,
        Venue::BinanceFutures,
        date,
        "hashA",
        &audit,
    );
    assert!(matches!(refused, Err(StorageError::Refused(_))), "{refused:?}");

    let clean = audited(&recording(vec![event(3), event(4)]), &binance());
    assert!(clean.is_clean());
    let events = vec![event(3), event(4)];
    let targets = compact_targets(&events, &table(), "cold", Venue::BinanceFutures, date);
    let absent: Vec<Option<String>> = targets.iter().map(|_| None).collect();
    let plan = compact_day_verified(
        &targets,
        &absent,
        &events,
        Venue::BinanceFutures,
        date,
        "hashB",
        &clean,
    )
    .unwrap();
    assert_eq!(plan.stats.trade_rows, 2);
    let path = partition_file("cold", "trades", Venue::BinanceFutures, "BTCUSDT", date);
    let written: Vec<&str> = targets
        .iter()
        .zip(&plan.write)
        .filter(|(_, write)| **write)
        .map(|(t, _)| t.path.as_str())
        .collect();
    assert_eq!(written, vec![path.as_str()]);
}

#[test]
fn int_6_recv_time_reversal_is_a_warning_not_a_blocker() {
    let mut audit = RawLogAudit {
        event_count: 2,
        last_recv_ts_ns: Some(2),
        findings: vec![finding(
            "recv_time_reversal",
            "arrival-order jitter, all frames present",
        )],
        ..clean_audit()
    };
    assert!(audit.is_clean(), "reversal-only log must be promotable");
    audit.findings.push(finding("sequence_gap", "venue-side gap"));
    assert!(!audit.is_clean(), "sequence_gap must block promotion");
    audit.findings.clear();
    audit.findings.push(finding("backpressure_loss", "dropped"));
    assert!(!audit.is_clean(), "backpressure_loss must block promotion");
    audit.findings.clear();
    audit.findings.push(finding("stale_stream", "stale status"));
    assert!(audit.is_clean(), "stale_stream is a warning");
    audit.findings.clear();
    audit.findings.push(finding("coverage_gap", "one 138s gap"));
    assert!(audit.is_clean(), "a single sub-tolerance gap must not veto a day");
}

#[test]
fn int_7_blocking_code_classification() {
    assert!(!is_blocking_finding("recv_time_reversal"));
    assert!(!is_blocking_finding("stale_stream"));
    assert!(!is_blocking_finding("coverage_gap"));
    for code in [
        "legacy_or_malformed",
        "unreadable_log",
        "empty_log",
        "missing_stream",
        "missing_provenance",
        "venue_mismatch",
        "symbol_mismatch",
        "invalid_symbol_table",
        "missing_snapshot_source",
        "sequence_gap",
        "backpressure_loss",
        "low_coverage",
    ] {
        assert!(is_blocking_finding(code), "{code} must block");
    }
}

#[test]
fn int_8_coverage_below_threshold_blocks_without_findings() {
    let mut audit = RawLogAudit {
        event_count: 10,
        last_recv_ts_ns: Some(86_400_000_000_000),
        coverage: r(0.99),
        ..clean_audit()
    };
    assert!(!audit.is_clean(), "coverage 0.99 < 0.995 must block");
    audit.coverage = r(0.995);
    assert!(audit.is_clean(), "coverage at the 0.995 bar is clean");
}

#[test]
fn int_9_stale_bursts_group_nearby_stale_events_and_worst_gap() {
    let audit = audited(
        &recording(vec![
            event(1_000_000_000),
            stale_event(10_000_000_000),
            stale_event(25_000_000_000),
            event(30_000_000_000),
            stale_event(200_000_000_000),
            event(201_000_000_000),
        ]),
        &binance(),
    );
    assert_eq!(audit.stale_bursts.len(), 2, "{:?}", audit.stale_bursts);
    assert_eq!(audit.stale_bursts[0].start_ns, 10_000_000_000);
    assert_eq!(audit.stale_bursts[0].end_ns, 25_000_000_000);
    assert_eq!(audit.stale_bursts[1].start_ns, 200_000_000_000);
    assert_eq!(audit.worst_gap_ns, 170_000_000_000);
    assert!(codes(&audit).contains(&"low_coverage"), "{:?}", audit.findings);
    assert!(!audit.is_clean());
}

#[test]
fn int_5_scorecard_requires_every_recording_clean() {
    let clean = RawLogAudit { event_count: 1, last_recv_ts_ns: Some(1), ..clean_audit() };
    let bad = RawLogAudit {
        event_count: 1,
        last_recv_ts_ns: Some(1),
        findings: vec![finding("missing_stream", "book")],
        ..clean_audit()
    };
    let card = scorecard(
        "2026-07-29",
        vec![
            (Venue::BinanceFutures, "BTCUSDT".into(), clean),
            (Venue::BinanceFutures, "ETHUSDT".into(), bad),
        ],
    );
    assert!(!card.promotable);
    assert_eq!(card.recordings.len(), 2);
    assert!(card.recordings[0].clean);
    assert!(!card.recordings[1].clean);
    assert_eq!(card.recordings[0].venue, "binance");
}

#[test]
fn zero_cost_clean_at_095_coverage() {
    let audit = RawLogAudit { event_count: 100, coverage: r(0.95), ..clean_audit() };
    assert!(audit.is_clean_zero_cost(), "0.95 coverage must pass Zero-Cost");
}

#[test]
fn zero_cost_clean_above_095_coverage() {
    let audit = RawLogAudit { event_count: 100, coverage: r(0.999), ..clean_audit() };
    assert!(audit.is_clean_zero_cost(), ">0.95 coverage must pass Zero-Cost");
}

#[test]
fn zero_cost_dirty_below_095_coverage() {
    let audit = RawLogAudit { event_count: 100, coverage: r(0.94), ..clean_audit() };
    assert!(!audit.is_clean_zero_cost(), "<0.95 coverage must fail Zero-Cost");
}

#[test]
fn zero_cost_dirty_with_blocking_finding() {
    let audit = RawLogAudit {
        event_count: 100,
        coverage: r(0.98),
        findings: vec![finding("sequence_gap", "3 gap(s)")],
        ..clean_audit()
    };
    assert!(!audit.is_clean_zero_cost(), "blocking finding must fail Zero-Cost");
}

#[test]
fn zero_cost_clean_with_warning_finding() {
    let audit = RawLogAudit {
        event_count: 100,
        coverage: r(0.96),
        findings: vec![finding("stale_stream", "2 stale status event(s)")],
        ..clean_audit()
    };
    assert!(audit.is_clean_zero_cost(), "warning finding must pass Zero-Cost");
}

#[test]
fn zero_cost_dirty_with_zero_events() {
    let audit = RawLogAudit { event_count: 0, coverage: r(0.0), ..clean_audit() };
    assert!(!audit.is_clean_zero_cost(), "zero events must fail Zero-Cost");
}

#[test]
fn full_mode_rejects_095_coverage() {
    let audit = RawLogAudit { event_count: 100, coverage: r(0.95), ..clean_audit() };
    assert!(!audit.is_clean(), "0.95 coverage must fail full-mode (needs 0.995)");
    assert!(audit.is_clean_zero_cost(), "0.95 coverage must pass Zero-Cost");
}

#[test]
fn coverage_bars_are_the_stated_fractions() {
    assert_eq!(MIN_COVERAGE, 0.995_f64.to_bits());
    assert_eq!(ZERO_COST_MIN_COVERAGE, 0.95_f64.to_bits());
}

#[test]
fn an_empty_recording_is_blocking() {
    let audit = audited(&recording(vec![]), &binance());
    assert!(codes(&audit).contains(&"empty_log"), "{:?}", audit.findings);
    assert!(!audit.is_clean());
}

#[test]
fn a_broken_tail_is_blocking() {
    let contents = RawLogContents::Events {
        tables: vec![table()],
        events: vec![(0, event(1))],
        failure: Some("torn frame".into()),
    };
    let audit = audited(&contents, &binance());
    assert_eq!(audit.event_count, 1);
    assert!(codes(&audit).contains(&"legacy_or_malformed"), "{:?}", audit.findings);
    assert!(!audit.is_clean());
}

#[test]
fn a_required_stream_that_never_spoke_is_missing() {
    let mut config = binance();
    config.require("book");
    let audit = audited(&recording(vec![event(1)]), &config);
    assert!(codes(&audit).contains(&"missing_stream"), "{:?}", audit.findings);
}

#[test]
fn an_event_without_provenance_is_named() {
    let bare = EventEnvelope::new(
        Venue::BinanceFutures,
        SymbolId(0),
        1,
        1,
        1,
        MarketEvent::Trade { price: r(1.0), qty: r(1.0), side: Side::Buy, trade_id: 1 },
    );
    let audit = audited(&recording(vec![bare]), &binance());
    assert!(codes(&audit).contains(&"missing_provenance"), "{:?}", audit.findings);
}

#[test]
fn reversed_arrival_is_noted_and_lets_pass() {
    let audit = audited(&recording(vec![event(5), event(3), event(7)]), &binance());
    assert!(codes(&audit).contains(&"recv_time_reversal"), "{:?}", audit.findings);
    assert!(audit.is_clean());
}

#[test]
fn silence_is_read_out_of_a_status_text() {
    assert_eq!(parse_stale_silence_ms("no valid event for 45000 ms on trade"), 45_000);
    assert_eq!(parse_stale_silence_ms("no valid event for 7000000 ns"), 7);
    assert_eq!(parse_stale_silence_ms("no valid event for 7 s"), 0);
    assert_eq!(parse_stale_silence_ms("stale"), 0);
}

#[test]
fn raw_logs_are_found_by_name() {
    let names: Vec<String> = vec![
        "20260802_binance_BTCUSDT.log".into(),
        "20260801_bybit_ETHUSDT.log".into(),
        "notes.txt".into(),
        "20260801_binance.log".into(),
    ];
    let logs = discover_raw_logs("data/raw", &names);
    let found: Vec<(&str, &str, &str)> = logs
        .iter()
        .map(|l| (l.date.as_str(), l.venue_str.as_str(), l.symbol.as_str()))
        .collect();
    assert_eq!(
        found,
        vec![("20260801", "bybit", "ETHUSDT"), ("20260802", "binance", "BTCUSDT")]
    );
    assert_eq!(logs[0].path, "data/raw/20260801_bybit_ETHUSDT.log");
    assert!(log_selected(&logs[0], &None, &None, &None));
    assert!(log_selected(&logs[0], &Some("bybit".into()), &None, &None));
    assert!(!log_selected(&logs[0], &Some("binance".into()), &None, &None));
    assert!(!log_selected(&logs[0], &None, &Some("BTCUSDT".into()), &None));
    assert!(!log_selected(&logs[0], &None, &None, &Some("20260802".into())));
}

#[test]
fn a_burst_is_carried_onto_the_scorecard() {
    let mut audit = clean_audit();
    audit.stale_bursts = vec![TimeRange { start_ns: 0, end_ns: 0 }];
    let card = scorecard("20260701", vec![(Venue::Bybit, "BTCUSDT".into(), audit)]);
    assert!(card.promotable);
    assert_eq!(card.recording_bursts.len(), 1);
    assert_eq!(card.recording_bursts[0].stale_bursts, 1);
    assert!(!scorecard("20260701", vec![]).promotable);
}

#[test]
fn zero_cost_mode_expects_no_book() {
    let mut config = binance();
    config.zero_cost_mode = true;
    config.require("book");
    let audit = audited(&recording(vec![event(1)]), &config);
    assert!(audit.findings.is_empty(), "{:?}", codes(&audit));
    // Any other stream is still missed, and so is the book in the usual mode.
    config.require("funding");
    assert_eq!(codes(&audited(&recording(vec![event(1)]), &config)), vec!["missing_stream"]);
    let mut usual = binance();
    usual.require("book");
    assert_eq!(codes(&audited(&recording(vec![event(1)]), &usual)), vec!["missing_stream"]);
}

#[test]
fn every_stale_report_lies_in_one_burst() {
    let sec = 1_000_000_000i64;
    let at = [500, 0, 90, 180, 600, 271];
    let audit =
        audited(&recording(at.iter().map(|t| stale_event(t * sec)).collect()), &binance());
    let bursts: Vec<(i64, i64)> =
        audit.stale_bursts.iter().map(|b| (b.start_ns / sec, b.end_ns / sec)).collect();
    assert_eq!(bursts, vec![(0, 180), (271, 271), (500, 500), (600, 600)]);
    for t in at {
        assert_eq!(bursts.iter().filter(|b| b.0 <= t && t <= b.1).count(), 1);
    }
    assert_eq!(audit.stale_silences_ms.len(), audit.stale_periods.len());
}
