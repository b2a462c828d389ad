use mp_research::compactor::{
    compact_day, compact_day_opts, compact_targets, merge_manifest, CompactOptions,
};
use mp_research::cross_venue::{
    app_version, classify_gap, config_hash, detect, findings_file, gap_overlap, gaps_to_classify,
    middle, version_string, veracity_window_ns, veracity_windows, window_before, window_findings,
    window_positions, Classification, CrossVenueConfig, MemberFacts, SymbolCohort, VeracityStream,
    WindowFacts,
};
use mp_research::dataset::Dataset;
use mp_research::error::StorageError;
use mp_research::event::{
    EventEnvelope, MarketEvent, OptionGreeks, OptionKind, OptionLeg, Side, StatusKind, SymbolId,
    SymbolMeta, Venue,
};
use mp_research::feature_store::{
    materialize, part_by_day, read_feature_meta, read_features, resolve_version,
    rows_content_hash, version_left, write_features, write_features_no_overwrite, Existing, FeatureMeta,
    FeatureRow, StreamingFeatureStore, VersionChoice, VersionDir,
};
use mp_research::layout::{
    counted_table, has_parquet_partition, manifest_file, partition_file, raw_file_venue_tokens,
    raw_log_dir, table_kind, venue_code, venue_from_code, venue_slug, TableKind,
};
use mp_research::manifest::{
    derive_manifest, derive_streams, Gap, GapKind, QualityManifest, StreamStats,
};
use mp_research::materialize::{
    canonical_logs, check_corpus, feature_files, materialize_stats, merge_sorted_events,
    remap_symbols, symbol_rows, symbols_file, write_symbols_snapshot, FeatureUpdate, SymbolTable,
};
use mp_research::number::Real;
use mp_research::ordered::SortedMap;
use mp_research::parquet_options::{read_options, write_options};
use mp_research::parquet_positions::{read_positions, write_positions};
use mp_research::parquet_trades::{read_trades, write_trades};
use mp_research::prune::{
    check_stream, crc32_ieee, prune_targets, source_log_hash, verify_prunable,
    verify_prunable_symbol, Footer, PartitionFacts, PruneRefusal, RawFile,
};

const DAY: i64 = 86_400_000_000_000;

fn r(x: f64) -> Real {
    Real { bits: x.to_bits() }
}

fn event(sym: u32, recv: i64, body: MarketEvent) -> EventEnvelope {
    EventEnvelope::new(Venue::Bybit, SymbolId(sym), recv - 1, recv, recv as u64, body)
}

fn trade(sym: u32, recv: i64, price: f64) -> EventEnvelope {
    event(
        sym,
        recv,
        MarketEvent::Trade { price: r(price), qty: r(2.0), side: Side::Sell, trade_id: 5 },
    )
}

fn status(sym: u32, recv: i64, kind: StatusKind) -> EventEnvelope {
    event(sym, recv, MarketEvent::Status { kind, detail: String::new() })
}

fn metas() -> Vec<SymbolMeta> {
    ["BTCUSDT", "ETHUSDT"]
        .iter()
        .enumerate()
        .map(|(i, s)| SymbolMeta {
            symbol_id: SymbolId(i as u32),
            venue: Venue::Bybit,
            venue_symbol: s.to_string(),
        })
        .collect()
}

// ---------------------------------------------------------------------------
// Layout
// ---------------------------------------------------------------------------

#[test]
fn every_venue_has_its_code_and_name() {
    let mut seen = Vec::new();
    for code in 0..40u16 {
        if let Some(v) = venue_from_code(code) {
            assert_eq!(venue_code(v), code);
            assert!(!seen.contains(&venue_slug(v)));
            seen.push(venue_slug(v));
        }
    }
    assert_eq!(seen.len(), 12);
    assert_eq!(venue_from_code(40), None);
}

#[test]
fn files_have_their_places() {
    assert_eq!(
        partition_file("cold", "trades", Venue::Bybit, "BTCUSDT", "2026-08-01"),
        "cold/trades/venue=bybit/symbol=BTCUSDT/date=2026-08-01/part-000.parquet"
    );
    let d = Dataset::open("cold");
    assert_eq!(d.root(), "cold");
    assert_eq!(
        d.trades_day(Venue::Bybit, "BTCUSDT", "2026-08-01"),
        partition_file("cold", "trades", Venue::Bybit, "BTCUSDT", "2026-08-01")
    );
    assert_eq!(
        d.manifest(Venue::Bybit, "2026-08-01"),
        manifest_file("cold", Venue::Bybit, "2026-08-01")
    );
    assert_eq!(raw_log_dir("data/cold").as_deref(), Some("data/raw"));
    assert!(has_parquet_partition("trades"));
    assert!(!has_parquet_partition("status"));
    assert!(raw_file_venue_tokens(Venue::Bybit).contains(&"bybit".to_string()));
}

// ---------------------------------------------------------------------------
// Tables
// ---------------------------------------------------------------------------

#[test]
fn trades_come_back_as_they_were_written() {
    let events = vec![trade(1, 20, 1.5), status(1, 15, StatusKind::Connected), trade(0, 10, 2.5)];
    let columns = write_trades(&events, &vec![2, 1, 0]);
    assert_eq!(columns.recv_ts_ns, vec![10, 20]);
    let back = read_trades(&columns).unwrap();
    assert_eq!(format!("{:?}", back[0]), format!("{:?}", events[2]));
    assert_eq!(format!("{:?}", back[1]), format!("{:?}", events[0]));
}

#[test]
fn a_trade_of_no_known_venue_is_refused() {
    let mut columns = write_trades(&vec![trade(0, 1, 1.0)], &vec![0]);
    columns.venue_code[0] = 999;
    assert!(matches!(read_trades(&columns), Err(StorageError::Arrow(_))));
}

#[test]
fn positions_come_back_as_they_were_written() {
    let events = vec![event(
        3,
        9,
        MarketEvent::WhalePosition {
            address: "0xabc".into(),
            size: r(-1.0),
            entry: r(100.0),
            leverage: r(3.0),
            liq_price: r(130.0),
        },
    )];
    let columns = write_positions(&events, &vec![0]);
    assert_eq!(columns.address, vec!["0xabc".to_string()]);
    let back = read_positions(&columns).unwrap();
    assert_eq!(format!("{back:?}"), format!("{events:?}"));
}

fn leg() -> OptionLeg {
    OptionLeg { underlying: "BTC".into(), strike: r(50.0), expiry_ts_ns: 7, kind: OptionKind::Put }
}

#[test]
fn options_come_back_as_they_were_written() {
    let bids = vec![(r(1.0), r(2.0))];
    let events = vec![
        event(
            0,
            1,
            MarketEvent::OptionTrade {
                leg: leg(),
                price: r(5.0),
                qty: r(1.0),
                side: Side::Buy,
                trade_id: 9,
            },
        ),
        event(
            0,
            2,
            MarketEvent::OptionBook {
                leg: leg(),
                bids: bids.clone(),
                asks: vec![],
                change_id: 4,
                is_snapshot: true,
            },
        ),
        event(
            0,
            3,
            MarketEvent::OptionTicker {
                leg: leg(),
                mark_iv: r(0.5),
                mark_price: r(4.0),
                underlying_price: r(60.0),
                open_interest: r(8.0),
                greeks: Some(OptionGreeks {
                    delta: r(0.1),
                    gamma: r(0.2),
                    theta: r(0.3),
                    vega: r(0.4),
                }),
            },
        ),
    ];
    let columns = write_options(&events, &vec![0, 1, 2], &vec![("[B]".into(), "[]".into())]);
    assert_eq!(columns.kind, vec![0, 1, 2]);
    assert_eq!(columns.bids[1].as_deref(), Some("[B]"));
    assert_eq!(columns.price, vec![Some(r(5.0)), None, None]);
    let levels = vec![
        (Ok(vec![]), Ok(vec![])),
        (Ok(bids.clone()), Ok(vec![])),
        (Ok(vec![]), Ok(vec![])),
    ];
    let back = read_options(&columns, &levels).unwrap();
    assert_eq!(format!("{back:?}"), format!("{events:?}"));
    let bad = vec![
        (Ok(vec![]), Ok(vec![])),
        (Err("trailing comma".into()), Ok(vec![])),
        (Ok(vec![]), Ok(vec![])),
    ];
    assert!(matches!(read_options(&columns, &bad), Err(StorageError::Arrow(_))));
}

// ---------------------------------------------------------------------------
// Manifests
// ---------------------------------------------------------------------------

#[test]
fn a_disconnect_opens_a_gap_until_data_returns() {
    let events = vec![
        trade(0, 10, 1.0),
        status(0, 20, StatusKind::Disconnected),
        status(0, 50, StatusKind::Connected),
        trade(0, 60, 1.0),
        trade(1, 30, 1.0),
    ];
    let streams = derive_streams(&events, &metas(), 0, 100);
    let keys: Vec<&str> = streams.entries.iter().map(|e| e.0.as_str()).collect();
    assert!(keys.contains(&"trades:BTCUSDT"), "{keys:?}");
    assert!(keys.contains(&"trades:ETHUSDT"), "{keys:?}");
    let btc = streams.get(&"trades:BTCUSDT".to_string()).unwrap();
    assert_eq!((btc.events, btc.first_ts_ns, btc.last_ts_ns), (2, 10, 60));
    assert_eq!(btc.gaps.len(), 1);
    assert_eq!((btc.gaps[0].from_ns, btc.gaps[0].kind), (20, GapKind::Disconnect));
    assert!(btc.uncovered_ns > 0 && btc.uncovered_ns <= 100);
    let coverages: Vec<Real> = streams
        .entries
        .iter()
        .map(|e| r(1.0 - e.1.uncovered_ns as f64 / 100.0))
        .collect();
    let m = derive_manifest("bybit", "2026-08-01", 0, 100, &streams, &coverages, 4, "v1", 77);
    assert_eq!(
        m.coverage("trades:BTCUSDT"),
        Some(r(1.0 - btc.uncovered_ns as f64 / 100.0))
    );
    assert_eq!(m.coverage("trades:NONE"), None);
    assert_eq!(m.gaps("trades:BTCUSDT").len(), 1);
    assert!(m.gaps("trades:NONE").is_empty());
}

fn stats(events: u64) -> StreamStats {
    StreamStats {
        events,
        first_ts_ns: 0,
        last_ts_ns: 1,
        gaps: vec![],
        coverage: r(1.0),
        sampled: false,
    }
}

fn manifest(entries: Vec<(&str, StreamStats)>) -> QualityManifest {
    let mut streams = SortedMap::new();
    for (k, v) in entries {
        streams.set(k.to_string(), v);
    }
    QualityManifest {
        venue: "bybit".into(),
        date: "2026-08-01".into(),
        schema_ver: 4,
        day_start_ns: 0,
        day_end_ns: DAY,
        streams,
        compactor_version: "v1".into(),
        created_ts_ns: 1,
    }
}

#[test]
fn manifests_of_one_day_are_merged() {
    let fresh = manifest(vec![("trades:BTCUSDT", stats(5))]);
    let old = manifest(vec![("trades:BTCUSDT", stats(1)), ("trades:ETHUSDT", stats(2))]);
    let m = merge_manifest(fresh, Some(old));
    assert_eq!(m.streams.get(&"trades:BTCUSDT".to_string()).unwrap().events, 5);
    assert_eq!(m.streams.get(&"trades:ETHUSDT".to_string()).unwrap().events, 2);
    let mut other = manifest(vec![("trades:ETHUSDT", stats(2))]);
    other.date = "2026-08-02".into();
    let m = merge_manifest(manifest(vec![("trades:BTCUSDT", stats(5))]), Some(other));
    assert_eq!(m.streams.len(), 1);
}

// ---------------------------------------------------------------------------
// Compaction and pruning
// ---------------------------------------------------------------------------

#[test]
fn a_day_is_compacted_once() {
    let events = vec![trade(1, 30, 1.0), trade(0, 20, 1.0), trade(0, 10, 1.0)];
    let targets = compact_targets(&events, &metas(), "cold", Venue::Bybit, "2026-08-01");
    assert_eq!(targets.len(), 2);
    assert_eq!(targets[0].symbol, "BTCUSDT");
    assert_eq!(targets[0].order, vec![2, 1]);
    let absent = vec![None, None];
    let first =
        compact_day(&targets, &absent, &events, Venue::Bybit, "2026-08-01", "abc").unwrap();
    assert_eq!(first.write, vec![true, true]);
    assert_eq!((first.stats.trade_rows, first.stats.trades_files_written), (3, 2));
    let present = vec![Some("abc".to_string()), Some("abc".to_string())];
    let again =
        compact_day(&targets, &present, &events, Venue::Bybit, "2026-08-01", "abc").unwrap();
    assert_eq!(again.write, vec![false, false]);
    assert_eq!(again.stats.trades_files_skipped, 2);
    let forced = compact_day_opts(
        &targets,
        &present,
        &events,
        Venue::Bybit,
        "2026-08-01",
        "abc",
        CompactOptions { force: true },
    )
    .unwrap();
    assert_eq!(forced.write, vec![true, true]);
}

#[test]
fn the_checksum_is_the_usual_one() {
    for text in ["", "a", "123456789", "The quick brown fox jumps over the lazy dog"] {
        assert_eq!(crc32_ieee(text.as_bytes()), crc32fast::hash(text.as_bytes()));
    }
    assert_eq!(source_log_hash(b"123456789"), "cbf43926");
}

fn raw(bytes: &[u8], modified: u128) -> RawFile {
    RawFile { bytes: Some(bytes.to_vec()), modified_ns: Some(modified) }
}

fn facts(rows: u64, footer: Footer, raw_modified: u128) -> PartitionFacts {
    PartitionFacts {
        rows: Some(rows),
        footer,
        modified_ns: Some(100),
        raw: vec![raw(b"123456789", raw_modified)],
    }
}

fn good() -> PartitionFacts {
    facts(5, Footer::Hash("cbf43926".into()), 50)
}

#[test]
fn a_raw_log_goes_only_when_its_table_is_proven() {
    assert!(check_stream("trades", "BTCUSDT", 5, &good()).is_ok());
    let refused = |f: PartitionFacts| check_stream("trades", "BTCUSDT", 5, &f).unwrap_err();
    let mut missing = good();
    missing.rows = None;
    missing.modified_ns = None;
    assert!(matches!(refused(missing), PruneRefusal::ParquetFileMissing { .. }));
    assert!(matches!(
        refused(facts(4, Footer::Hash("cbf43926".into()), 50)),
        PruneRefusal::RowCountMismatch { manifest: 5, parquet: 4, .. }
    ));
    assert!(matches!(
        refused(facts(5, Footer::Hash("00000000".into()), 50)),
        PruneRefusal::SourceLogHashMismatch { .. }
    ));
    assert!(matches!(
        refused(facts(5, Footer::Absent, 50)),
        PruneRefusal::FooterMissingSourceLogHash { .. }
    ));
    assert!(matches!(
        refused(facts(5, Footer::Hash("cbf43926".into()), 200)),
        PruneRefusal::RawLogNewerThanParquet { .. }
    ));
}

#[test]
fn pruning_follows_the_manifest() {
    let m = manifest(vec![("trades:BTCUSDT", stats(5)), ("status:BTCUSDT", stats(9))]);
    let targets =
        prune_targets(Some(&m), "data/cold", Venue::Bybit, "2026-08-01", None).unwrap();
    assert_eq!(targets.len(), 1);
    assert_eq!((targets[0].stream.as_str(), targets[0].events), ("trades", 5));
    assert!(
        targets[0].raw_candidates.iter().any(|p| p == "data/raw/20260801_bybit_BTCUSDT.log"),
        "{:?}",
        targets[0].raw_candidates
    );
    assert!(verify_prunable(&targets, &vec![good()]).is_ok());
    assert!(verify_prunable(&targets, &vec![facts(6, Footer::Absent, 1)]).is_err());
    let symbol = |s: &str| {
        verify_prunable_symbol(Some(&m), "data/cold", Venue::Bybit, "2026-08-01", s, &vec![good()])
    };
    assert!(symbol("BTCUSDT").is_ok());
    assert!(matches!(symbol("ETHUSDT"), Err(PruneRefusal::SymbolNotInManifest { .. })));
    assert!(matches!(
        prune_targets(None, "data/cold", Venue::Bybit, "2026-08-01", None),
        Err(PruneRefusal::ManifestMissing)
    ));
}

// ---------------------------------------------------------------------------
// Cross-venue findings
// ---------------------------------------------------------------------------

fn member(venue: Venue, overlap: f64, trades: u64, within: bool) -> MemberFacts {
    MemberFacts {
        venue,
        symbol: "BTC".into(),
        recorded: true,
        overlap: r(overlap),
        trade_count: trades,
        vwp_win: r(100.0),
        vwp_pre: r(100.0),
        within_band: within,
    }
}

#[test]
fn a_gap_is_classified_by_the_others() {
    let cfg = CrossVenueConfig::defaults();
    let class = |facts: Vec<MemberFacts>| classify_gap(Venue::Bybit, &facts, &cfg).0;
    let trading = || member(Venue::Okx, 0.0, 10, true);
    let silent = || member(Venue::Hyperliquid, 1.0, 0, false);
    assert_eq!(class(vec![trading(), silent()]), Classification::CorroboratedVenueSide);
    assert_eq!(class(vec![]), Classification::IsolatedUnknown);
    let off = member(Venue::Okx, 0.0, 10, false);
    assert_ne!(class(vec![off, silent()]), Classification::CorroboratedVenueSide);
}

#[test]
fn every_gap_of_a_cohort_is_judged() {
    let mut members = SortedMap::new();
    members.set("bybit".to_string(), "BTCUSDT".to_string());
    members.set("okx".to_string(), "BTC-USDT".to_string());
    let cohort = SymbolCohort { underlying: "BTC".into(), members };
    let mut s = stats(5);
    s.gaps = vec![Gap { from_ns: 10, to_ns: 20, kind: GapKind::Disconnect }];
    let manifests = vec![Some(manifest(vec![("trades:BTCUSDT", s)])), None];
    let cases = gaps_to_classify(&cohort, &manifests);
    assert_eq!(cases.len(), 1);
    assert_eq!((cases[0].venue, cases[0].gap.from_ns), (Venue::Bybit, 10));
    let found = detect(&cases, &vec![vec![]], &CrossVenueConfig::defaults());
    assert_eq!(found.len(), 1);
    assert_eq!(found[0].venue, "bybit");
    assert_eq!(found[0].classification, Classification::IsolatedUnknown);
}

#[test]
fn overlapping_gaps_count_once() {
    let gap = |from_ns, to_ns| Gap { from_ns, to_ns, kind: GapKind::Venue };
    assert_eq!(gap_overlap(&vec![gap(0, 6), gap(4, 8), gap(20, 30)], 2, 12), (6, 10));
    assert_eq!(gap_overlap(&vec![gap(8, 4)], 2, 12), (0, 10));
    assert_eq!(gap_overlap(&vec![], 5, 5), (0, 1));
    assert_eq!(window_before(100, 110), (90, 100));
    let events = vec![trade(0, 5, 1.0), trade(0, 10, 1.0), trade(0, 12, 1.0)];
    assert_eq!(window_positions(&events, 5, 12), vec![0, 1]);
}

#[test]
fn the_middle_of_numbers_is_found() {
    assert_eq!(middle(&vec![r(3.0), r(-1.0), r(2.0)]), Some((r(2.0), None)));
    assert_eq!(middle(&vec![r(4.0), r(1.0)]), Some((r(1.0), Some(r(4.0)))));
    assert_eq!(middle(&vec![]), None);
}

#[test]
fn a_window_finds_a_price_off_the_cohort() {
    let mut cfg = CrossVenueConfig::defaults();
    cfg.veracity_min_trades = 1;
    let stream = |venue, n: i64| VeracityStream {
        venue,
        symbol: "BTC".into(),
        trades: (0..n).map(|i| trade(0, i + 1, 100.0)).collect(),
    };
    let streams = vec![stream(Venue::Bybit, 4), stream(Venue::Okx, 4)];
    let windows = veracity_windows(&streams, veracity_window_ns(60));
    assert_eq!(windows.len(), 1);
    assert_eq!(windows[0].rows, vec![vec![0, 1, 2, 3], vec![0, 1, 2, 3]]);
    let facts = WindowFacts {
        vwps: vec![r(100.0), r(140.0)],
        median_vwp: r(120.0),
        off_band: vec![false, true],
        below_ratio: vec![false, false],
        price_evidence: vec!["a".into(), "far off".into()],
        drought_evidence: vec!["c".into(), "d".into()],
    };
    let found = window_findings(&streams, &windows[0], &facts, &cfg);
    assert_eq!(found.len(), 1);
    assert_eq!((found[0].venue.as_str(), found[0].evidence.as_str()), ("okx", "far off"));
    assert_eq!(found[0].trade_count, 4);
}

#[test]
fn versions_and_hashes_have_their_form() {
    assert_eq!(app_version("mp-audit", "0.1.0", None), "mp-audit 0.1.0 (dev)");
    assert_eq!(version_string("0.1.0", Some("abc")), "mp-cross-venue 0.1.0 (abc)");
    assert_eq!(config_hash(""), "cbf29ce484222325");
    assert_eq!(config_hash("a"), "af63dc4c8601ec8c");
    assert_eq!(
        findings_file("cold", "2026-08-01"),
        "cold/cross_venue/date=2026-08-01/findings.json"
    );
}

// ---------------------------------------------------------------------------
// Features
// ---------------------------------------------------------------------------

fn row(ts_ns: i64, value: f64) -> FeatureRow {
    FeatureRow { symbol_id: 1, venue_code: 2, ts_ns, value: r(value), ver: 3 }
}

fn meta() -> FeatureMeta {
    FeatureMeta {
        feature_ver: 3,
        engine_git_sha: "sha".into(),
        params_hash: "params".into(),
        symbols_hash: "symbols".into(),
    }
}

#[test]
fn features_come_back_as_they_were_written() {
    let rows = vec![row(1, 0.5), row(2, f64::NAN)];
    assert_eq!(read_features(&write_features(&rows)), rows);
    let kv = |k: &str, v: &str| (k.to_string(), Some(v.to_string()));
    let footer = vec![
        kv("feature_ver", "3"),
        kv("engine_git_sha", "sha"),
        kv("params_hash", "params"),
        kv("symbols_hash", "symbols"),
    ];
    let m = read_feature_meta(&footer).unwrap();
    assert_eq!(m.feature_ver, 3);
    assert_eq!(m.symbols_hash, "symbols");
    assert!(read_feature_meta(&vec![kv("feature_ver", "3")]).is_none());
}

#[test]
fn a_feature_file_is_never_overwritten() {
    let rows = vec![row(1, 0.5)];
    assert!(write_features_no_overwrite(&Existing::Absent, &rows, &meta(), "f").unwrap());
    let same = Existing::File { rows: vec![row(1, 0.5)], meta: meta() };
    assert!(!write_features_no_overwrite(&same, &rows, &meta(), "f").unwrap());
    let other = Existing::File { rows: vec![row(1, 0.25)], meta: meta() };
    assert!(write_features_no_overwrite(&other, &rows, &meta(), "f").is_err());
    assert!(write_features_no_overwrite(&Existing::NoFooter, &rows, &meta(), "f").is_err());
    assert_ne!(
        rows_content_hash(&rows, &meta()),
        rows_content_hash(&vec![row(1, 0.25)], &meta())
    );
}

#[test]
fn changed_parameters_get_a_new_version() {
    let first = resolve_version(&vec![], "p1", 1);
    let marker = match first {
        VersionChoice::Allocate { ver: 0, marker } => marker,
        other => panic!("{other:?}"),
    };
    let dirs = || vec![VersionDir { name: "ver=0".into(), marker: Some(marker.clone()) }];
    assert!(matches!(resolve_version(&dirs(), "p1", 1), VersionChoice::Reuse(0)));
    assert!(matches!(
        resolve_version(&dirs(), "p2", 1),
        VersionChoice::Allocate { ver: 1, .. }
    ));
    assert!(matches!(
        resolve_version(&dirs(), "p1", 2),
        VersionChoice::Allocate { ver: 1, .. }
    ));
}

#[test]
fn a_buffer_is_flushed_by_day() {
    let mut store = StreamingFeatureStore::new("feat", "cvd", "bybit", 1, meta());
    assert!(!store.push(row(DAY, 2.0), 1));
    assert!(!store.push(row(5, 1.0), 2));
    assert!(store.push(row(6, 1.5), 60_000_000_000));
    let files = store.flush(60_000_000_000, 3);
    assert_eq!(files.len(), 2);
    let hash = rows_content_hash(&vec![row(5, 1.0), row(6, 1.5)], &meta());
    assert_eq!(
        files[0].path,
        format!("feat/cvd/ver=3/venue=bybit/symbol=1/1970-01-01-{hash:016x}.parquet")
    );
    assert_eq!(
        materialize("feat", "cvd", "bybit", 1, "1970-01-01", 3),
        "feat/cvd/ver=3/venue=bybit/symbol=1/1970-01-01.parquet"
    );
    assert_eq!(files[0].rows, vec![row(5, 1.0), row(6, 1.5)]);
    assert_eq!(files[1].rows, vec![row(DAY, 2.0)]);
    assert!(store.flush(61_000_000_000, 3).is_empty());
    assert_eq!(part_by_day(&vec![row(5, 1.0), row(DAY, 2.0)]).len(), 2);
}

// ---------------------------------------------------------------------------
// Materialization
// ---------------------------------------------------------------------------

#[test]
fn the_order_of_logs_does_not_matter() {
    let logs = |v: &[&str]| v.iter().map(|s| s.to_string()).collect::<Vec<String>>();
    let a = canonical_logs(&logs(&["b.log", "a.log", "b.log"])).unwrap();
    assert_eq!(a, logs(&["a.log", "b.log"]));
    assert_eq!(a, canonical_logs(&logs(&["a.log", "b.log"])).unwrap());
    assert_eq!(canonical_logs(&vec![]), Err("materialize: log set is empty".into()));
}

#[test]
fn a_corpus_that_is_too_large_is_refused() {
    assert!(check_corpus(&vec![10, 20], Some(30)).is_ok());
    assert!(check_corpus(&vec![10, 21], Some(30)).is_err());
    assert!(check_corpus(&vec![17_179_869_184], None).is_ok());
    assert!(check_corpus(&vec![17_179_869_185], None).is_err());
}

#[test]
fn logs_share_one_symbol_table() {
    let mut table = SymbolTable::new();
    assert_eq!(remap_symbols(&mut table, &metas(), &vec![1, 0], "a.log"), Ok(vec![SymbolId(0), SymbolId(1)]));
    assert_eq!(remap_symbols(&mut table, &metas(), &vec![0], "b.log"), Ok(vec![SymbolId(1)]));
    assert_eq!(
        remap_symbols(&mut table, &metas(), &vec![9], "c.log"),
        Err("c.log: symbol id 9 has no metadata (corrupt log?)".into())
    );
    let rows = symbol_rows(&table);
    assert_eq!((rows[0].id, rows[0].venue.as_str(), rows[0].venue_symbol.as_str()), (0, "bybit", "ETHUSDT"));
    assert_eq!(rows[1].venue_symbol, "BTCUSDT");
}

#[test]
fn a_symbol_snapshot_is_written_once() {
    let json = b"[]".to_vec();
    assert_eq!(write_symbols_snapshot(&None, &json, "p"), Ok(true));
    assert_eq!(write_symbols_snapshot(&Some(b"[]".to_vec()), &json, "p"), Ok(false));
    assert!(write_symbols_snapshot(&Some(b"[1]".to_vec()), &json, "p").is_err());
    assert_eq!(symbols_file("out", "ab"), "out/symbols/ab.json");
}

#[test]
fn events_merge_by_time_and_number() {
    let sources = vec![vec![(1, 5), (3, 1)], vec![(1, 4), (1, 5), (2, 0)]];
    let merged: Vec<(usize, usize)> =
        merge_sorted_events(&sources).iter().map(|p| (p.0, p.1)).collect();
    assert_eq!(merged, vec![(1, 0), (0, 0), (1, 1), (1, 2), (0, 1)]);
}

#[test]
fn updates_are_parted_into_files() {
    let update = |name: &str, ts_ns, value| FeatureUpdate {
        name: name.into(),
        venue: Venue::Bybit,
        symbol: 1,
        ver: 2,
        ts_ns,
        value: r(value),
    };
    let files = feature_files(&vec![
        update("b", 9, 1.0),
        update("a", DAY + 1, 2.0),
        update("a", 1, 3.0),
    ]);
    let shape: Vec<(&str, &str, usize)> =
        files.iter().map(|f| (f.feature.as_str(), f.date.as_str(), f.rows.len())).collect();
    assert_eq!(
        shape,
        vec![("a", "1970-01-01", 1), ("a", "1970-01-02", 1), ("b", "1970-01-01", 1)]
    );
    let s = materialize_stats(&files, 10, 3, 1, 2, "hash");
    assert_eq!((s.rows_written, s.files_written, s.nan_suppressed), (3, 3, 1));
    assert_eq!(s.features, vec!["a".to_string(), "b".to_string()]);
}

#[test]
fn trades_with_addresses_are_trades() {
    let plain = trade(0, 10, 2.5);
    let with = event(
        0,
        11,
        MarketEvent::TradeWithAddr { price: r(3.5), qty: r(1.0), side: Side::Buy, trade_id: 9 },
    );
    let columns = write_trades(&vec![plain, with], &vec![0, 1]);
    let back = read_trades(&columns).unwrap();
    assert_eq!(back.len(), 2);
    let t = back[1].body.trade_view().unwrap();
    assert_eq!((t.price, t.qty, t.side, t.trade_id), (r(3.5), r(1.0), Side::Buy, 9));
    assert_eq!((back[1].recv_ts_ns, back[1].stream_seq), (11, 11));
}

#[test]
fn a_trade_at_the_start_of_a_window_has_its_window() {
    let hour = 3_600_000_000_000;
    let stream = |venue, price: f64| VeracityStream {
        venue,
        symbol: "BTC".into(),
        trades: (0..100).map(|_| trade(0, hour, price)).collect(),
    };
    let streams = vec![
        stream(Venue::BinanceFutures, 100.0),
        stream(Venue::Bybit, 100.0),
        stream(Venue::Okx, 200.0),
    ];
    let windows = veracity_windows(&streams, veracity_window_ns(60));
    assert_eq!(windows.len(), 2);
    assert!(windows[0].rows.iter().all(|row| row.is_empty()));
    assert_eq!((windows[1].from_ns, windows[1].to_ns), (hour, 2 * hour));
    assert!(windows[1].rows.iter().all(|row| row.len() == 100));
    let facts = WindowFacts {
        vwps: vec![r(100.0), r(100.0), r(200.0)],
        median_vwp: r(100.0),
        off_band: vec![false, false, true],
        below_ratio: vec![false; 3],
        price_evidence: vec![String::new(); 3],
        drought_evidence: vec![String::new(); 3],
    };
    let cfg = CrossVenueConfig::defaults();
    let found = window_findings(&streams, &windows[1], &facts, &cfg);
    assert_eq!(found.len(), 1);
    assert_eq!((found[0].kind.as_str(), found[0].cohort_size), ("price_divergence", 3));
    assert_eq!((found[0].vwp, found[0].cohort_vwp), (Some(r(200.0)), Some(r(100.0))));
}

#[test]
fn a_symbol_may_hold_a_colon() {
    let m = manifest(vec![("trades:xyz:BTC", stats(5))]);
    let symbol = |s: &str| {
        verify_prunable_symbol(Some(&m), "data/cold", Venue::Bybit, "2026-08-01", s, &vec![good()])
    };
    assert!(!matches!(symbol("xyz:BTC"), Err(PruneRefusal::SymbolNotInManifest { .. })));
    assert!(matches!(
        symbol("BTC"),
        Err(PruneRefusal::SymbolNotInManifest { symbol }) if symbol == "BTC"
    ));
}

#[test]
fn the_order_of_the_logs_changes_nothing() {
    let logs = |names: &[&str]| {
        canonical_logs(&names.iter().map(|n| n.to_string()).collect()).unwrap()
    };
    let run = |names: &[&str]| {
        let canon = logs(names);
        let sources: Vec<Vec<(i64, u64)>> = canon
            .iter()
            .map(|n| (0..3).map(|i| (i, n.len() as u64)).collect())
            .collect();
        let merged = merge_sorted_events(&sources);
        let updates: Vec<FeatureUpdate> = merged
            .iter()
            .map(|p| FeatureUpdate {
                name: canon[p.0].clone(),
                venue: Venue::Bybit,
                symbol: p.0 as u32,
                ver: 1,
                ts_ns: p.1 as i64 * DAY,
                value: r(1.0),
            })
            .collect();
        let files = feature_files(&updates);
        let stats = materialize_stats(&files, merged.len() as u64, updates.len() as u64, 0, 2, "h");
        (format!("{merged:?}"), format!("{files:?}"), format!("{stats:?}"))
    };
    let once = run(&["a.log", "bb.log"]);
    assert_eq!(once, run(&["bb.log", "a.log", "bb.log"]));
    assert_ne!(once, run(&["a.log"]));
}

#[test]
fn days_of_every_stream_have_their_files() {
    let d = Dataset::open("cold");
    let at = |stream: &str| partition_file("cold", stream, Venue::Okx, "BTC", "2026-08-01");
    assert_eq!(d.positions_day(Venue::Okx, "BTC", "2026-08-01"), at("positions"));
    assert_eq!(d.macro_day(Venue::Okx, "BTC", "2026-08-01"), at("macro"));
    assert_eq!(d.options_day(Venue::Okx, "BTC", "2026-08-01"), at("options"));
}

#[test]
fn a_log_is_read_once_however_it_is_spelled() {
    let canon = |names: &[&str]| {
        canonical_logs(&names.iter().map(|n| n.to_string()).collect()).unwrap()
    };
    assert_eq!(canon(&["a//b.log", "a/b.log", "a/./b.log", "a/b.log/"]), vec!["a/./b.log"]);
    assert_eq!(canon(&["a/b.log", "a//b.log"]), canon(&["a//b.log", "a/b.log"]));
    assert_eq!(canon(&["/a.log", "a.log"]).len(), 2);
    assert_eq!(canon(&["//a.log", "/a.log", "/./a.log"]).len(), 1);
    // A leading `.` and a `..` count.
    assert_eq!(canon(&["./a.log", "a.log"]).len(), 2);
    assert_eq!(canon(&["a/../b.log", "b.log"]).len(), 2);
}

#[test]
fn paths_are_one_where_their_components_are() {
    let names = [
        "", ".", "./", "/", "//", "a", "a/", "./a", "a/.", "a/./b", "a//b", "a/b", "/a", "/./a",
        "..", "../a", "a/..", ".//a", "a/b/",
    ];
    for x in names {
        for y in names {
            let n = canonical_logs(&vec![x.to_string(), y.to_string()]).unwrap().len();
            let same = std::path::PathBuf::from(x) == std::path::PathBuf::from(y);
            assert_eq!(n == 1, same, "{x:?} {y:?}");
        }
    }
}

#[test]
fn a_flush_that_fails_leaves_the_stamp() {
    let mut store = StreamingFeatureStore::new("feat", "cvd", "bybit", 1, meta());
    store.push(row(5, 1.0), 2);
    let before = store.last_flush_ns;
    assert_eq!(store.flush(70, 3).len(), 1);
    store.settle_flush(before, true);
    assert_eq!(store.last_flush_ns, 70);
    store.push(row(6, 1.0), 71);
    store.flush(90, 3);
    store.settle_flush(70, false);
    assert_eq!(store.last_flush_ns, 70);
    assert!(store.buffer.is_empty());
}

#[test]
fn exactly_the_partitioned_streams_have_tables() {
    for (stream, kind) in [
        ("trades", TableKind::Trades),
        ("positions", TableKind::Positions),
        ("macro", TableKind::Macro),
        ("options", TableKind::Options),
    ] {
        assert!(has_parquet_partition(stream));
        assert_eq!(table_kind(stream), Some(kind));
        assert!(matches!(counted_table(stream), Ok(k) if k == kind));
    }
    for stream in ["status", "book_deltas", "", "trade"] {
        assert!(!has_parquet_partition(stream));
        assert_eq!(table_kind(stream), None);
        assert!(matches!(
            counted_table(stream),
            Err(StorageError::Refused(e)) if e == format!("no parquet reader for {stream}")
        ));
    }
}

#[test]
fn the_last_version_can_be_reused_but_not_passed() {
    let dirs = |name: &str| vec![VersionDir { name: name.into(), marker: Some("p1:1".into()) }];
    assert!(version_left(&dirs("ver=65535"), "p1", 1));
    assert!(matches!(resolve_version(&dirs("ver=65535"), "p1", 1), VersionChoice::Reuse(65535)));
    assert!(!version_left(&dirs("ver=65535"), "p2", 1));
    assert!(!version_left(&dirs("ver=+65535"), "p2", 1));
    assert!(!version_left(&dirs("ver=065535"), "p2", 1));
    assert!(version_left(&dirs("ver=65534"), "p2", 1));
}

#[test]
fn a_newer_recording_is_never_pruned() {
    let m = manifest(vec![("trades:BTCUSDT", stats(5))]);
    let targets = prune_targets(Some(&m), "data/cold", Venue::Bybit, "2026-08-01", None).unwrap();
    let mut newer = good();
    newer.raw[0].modified_ns = newer.modified_ns.map(|t| t + 1);
    assert!(matches!(
        verify_prunable(&targets, &vec![newer]),
        Err(PruneRefusal::RawLogNewerThanParquet { .. })
    ));
}
