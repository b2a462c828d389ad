use mp_research::event::{Side, SymbolId, Venue};
use mp_research::number::Real;
use mp_research::observation_store::{
    direction_code, direction_from_code, observations_content_hash, partitioned_write,
    quality_code, quality_from_code, read_observations, write_observations,
    write_observations_no_overwrite, DataQualityState, Direction, ObservationColumns,
    ObservationOutcome, SignalObservation, SignalResearchIdentity,
};
use mp_research::observations::ObservationRecorder;
use mp_research::ordered::SortedMap;

const T0: i64 = 1_784_505_600_000_000_000;

fn r(x: f64) -> Real {
    Real { bits: x.to_bits() }
}

fn sample_obs(n: u64, with_outcomes: bool) -> Vec<SignalObservation> {
    (0..n)
        .map(|i| SignalObservation {
            observation_id: 1000 + i,
            identity: SignalResearchIdentity {
                signal_id: "whale_imb".into(),
                feature_version: 1,
                data_schema_version: 4,
                params_hash: "params-1".into(),
                cost_model_hash: "cost-1".into(),
            },
            timestamp_ns: T0 + 10 + i as i64,
            symbol: SymbolId(1),
            venue: Venue::Bybit,
            direction: Direction::Long,
            feature_snapshot: vec![("funding.rate".into(), r(0.0004))],
            quality: DataQualityState::Healthy,
            created_at_ns: T0,
            outcomes: if with_outcomes {
                vec![ObservationOutcome {
                    horizon_ns: 3_600_000_000_000,
                    entry_price: r(100.0),
                    exit_price: r(101.0),
                    gross_return: r(0.01),
                    net_return: r(0.009),
                    mfe: r(0.02),
                    mae: r(-0.005),
                    hit: true,
                }]
            } else {
                vec![]
            },
        })
        .collect()
}

fn snapshots(obs: &[SignalObservation]) -> Vec<String> {
    obs.iter()
        .map(|o| {
            let fields: Vec<String> = o
                .feature_snapshot
                .iter()
                .map(|(k, v)| format!("{k}={}", v.bits))
                .collect();
            fields.join(";")
        })
        .collect()
}

fn decoded(c: &ObservationColumns) -> Vec<Result<Vec<(String, Real)>, String>> {
    c.snapshot_json
        .iter()
        .map(|text| {
            Ok(text
                .split(';')
                .map(|f| {
                    let (k, v) = f.split_once('=').unwrap();
                    (k.to_string(), Real { bits: v.parse().unwrap() })
                })
                .collect())
        })
        .collect()
}

fn fingerprints(obs: &[SignalObservation]) -> Vec<String> {
    obs.iter().map(|o| format!("{}-fp", o.identity.signal_id)).collect()
}

#[test]
fn rel_5_parquet_roundtrip_preserves_observations() {
    let obs = sample_obs(3, true);
    let written = write_observations(&obs, &snapshots(&obs));
    assert_eq!(written.observation_id.len(), 3, "one row per outcome");
    let back = read_observations(&written, &decoded(&written)).unwrap();
    assert_eq!(format!("{back:?}"), format!("{obs:?}"));
}

#[test]
fn rel_5_roundtrip_without_outcomes_keeps_null_columns() {
    let obs = sample_obs(2, false);
    let written = write_observations(&obs, &snapshots(&obs));
    assert!(written.horizon_ns.iter().all(|h| h.is_none()));
    let back = read_observations(&written, &decoded(&written)).unwrap();
    assert_eq!(format!("{back:?}"), format!("{obs:?}"));
    assert!(back.iter().all(|o| o.outcomes.is_empty()));
}

#[test]
fn rel_8_content_hash_is_deterministic_and_w6_guard_holds() {
    let obs = sample_obs(2, true);
    let hash = observations_content_hash(&obs, &fingerprints(&obs));
    assert_eq!(hash, observations_content_hash(&obs, &fingerprints(&obs)));
    // A file that is not there is written.
    assert!(write_observations_no_overwrite(None, hash, "obs.parquet").unwrap());
    // Identical re-write: no-op, not an error.
    assert!(!write_observations_no_overwrite(Some(hash), hash, "obs.parquet").unwrap());
    // Divergent content on the same path: an error.
    let mut changed = sample_obs(2, true);
    changed[0].timestamp_ns += 1;
    let other = observations_content_hash(&changed, &fingerprints(&changed));
    assert_ne!(hash, other);
    assert!(write_observations_no_overwrite(Some(hash), other, "obs.parquet").is_err());
}

#[test]
fn rel_10_partitioned_write_and_read_back() {
    let mut obs = sample_obs(2, true);
    // Move one observation across midnight.
    obs[1].timestamp_ns = T0 + 86_400_000_000_000_i64;
    let parts = partitioned_write("out", &obs, &fingerprints(&obs));
    assert_eq!(parts.len(), 2, "one file per date");
    let mut got: Vec<u64> = parts
        .iter()
        .flat_map(|p| p.members.iter().map(|i| obs[*i].observation_id))
        .collect();
    got.sort_unstable();
    assert_eq!(got, vec![1000, 1001]);
    assert!(parts.iter().all(|p| p.path.contains("whale_imb-fp")));
    assert!(parts[0].path.starts_with("out/observations/"), "{}", parts[0].path);
}

#[test]
fn codes_of_observations_are_kept() {
    for q in [
        DataQualityState::Healthy,
        DataQualityState::InsufficientHistory,
        DataQualityState::Stale,
        DataQualityState::Invalid,
    ] {
        assert_eq!(quality_from_code(quality_code(q)), q);
    }
    assert_eq!(quality_from_code(200), DataQualityState::Invalid);
    for d in [Direction::Long, Direction::Short] {
        assert_eq!(direction_from_code(direction_code(d)), d);
    }
}

#[test]
fn a_snapshot_that_does_not_decode_is_refused() {
    let obs = sample_obs(1, false);
    let written = write_observations(&obs, &snapshots(&obs));
    let bad = vec![Err("expected value".to_string())];
    assert!(read_observations(&written, &bad).is_err());
}

fn recorder(ids: &[&str]) -> ObservationRecorder {
    let ids: Vec<String> = ids.iter().map(|s| s.to_string()).collect();
    ObservationRecorder::new(&ids)
}

#[test]
fn rel_25_recorder_captures_regime_context_into_snapshots() {
    let mut rec = recorder(&["sig"]);
    for _ in 0..5 {
        rec.on_feature_update("funding.rate", SymbolId(1), r(1.0));
    }
    rec.on_feature_update("regime.trend", SymbolId(1), r(1.0)); // 1.0 = CHOP
    let fire = rec.record_intent("sig", Side::Buy, SymbolId(1), SortedMap::new()).unwrap();
    assert_eq!(fire.direction, Direction::Long);
    assert_eq!(
        fire.snapshot.get(&"regime.trend".to_string()),
        Some(&r(1.0)),
        "fire snapshot carries the last-seen regime value"
    );
    // Last seen wins, and a NaN is passed over.
    rec.on_feature_update("regime.trend", SymbolId(1), r(0.0));
    rec.on_feature_update("regime.trend", SymbolId(1), r(1.0));
    rec.on_feature_update("regime.trend", SymbolId(1), r(f64::NAN));
    let fire = rec.record_intent("sig", Side::Sell, SymbolId(1), SortedMap::new()).unwrap();
    assert_eq!(fire.direction, Direction::Short);
    assert_eq!(fire.snapshot.get(&"regime.trend".to_string()), Some(&r(1.0)));
    // A symbol with no regime history gets no tag.
    for _ in 0..5 {
        rec.on_feature_update("funding.rate", SymbolId(2), r(1.0));
    }
    let fire = rec.record_intent("sig", Side::Buy, SymbolId(2), SortedMap::new()).unwrap();
    assert!(!fire.snapshot.contains(&"regime.trend".to_string()));
}

#[test]
fn the_trigger_keeps_its_own_regime() {
    let mut rec = recorder(&["sig"]);
    rec.on_feature_update("regime.trend", SymbolId(1), r(1.0));
    let mut snapshot = SortedMap::new();
    snapshot.set("regime.trend".to_string(), r(0.5));
    let fire = rec.record_intent("sig", Side::Buy, SymbolId(1), snapshot).unwrap();
    assert_eq!(fire.snapshot.get(&"regime.trend".to_string()), Some(&r(0.5)));
    assert!(rec.record_intent("other", Side::Buy, SymbolId(1), SortedMap::new()).is_none());
}

#[test]
fn observations_are_kept_in_order_and_refusals_are_not() {
    let mut rec = recorder(&["sig"]);
    for o in sample_obs(2, false) {
        rec.keep(Some(o));
        rec.keep(None);
    }
    let kept: Vec<u64> = rec.into_observations().iter().map(|o| o.observation_id).collect();
    assert_eq!(kept, vec![1000, 1001]);
}

#[test]
fn only_usable_marks_are_kept() {
    let mut rec = recorder(&[]);
    rec.record_mark(SymbolId(1), r(100.0), 1);
    rec.record_mark(SymbolId(1), r(f64::NAN), 2);
    rec.record_mark(SymbolId(1), r(-1.0), 3);
    rec.record_mark(SymbolId(1), r(101.0), 4);
    rec.record_mark(SymbolId(2), r(5.0), 5);
    assert_eq!(rec.mark_history.get(&1), Some(&vec![(1, r(100.0)), (4, r(101.0))]));
    assert_eq!(rec.mark_history.get(&2), Some(&vec![(5, r(5.0))]));
}

/// An observation of a fire, once enough values were seen.
fn observed(rec: &mut ObservationRecorder, updates: u32, side: Side, ts: i64) {
    let Some(fire) = rec.record_intent("carry-v1", side, SymbolId(1), SortedMap::new()) else {
        return;
    };
    if updates < 5 {
        rec.keep(None);
        return;
    }
    let mut o = sample_obs(1, false).remove(0);
    o.identity.signal_id = "carry-v1".into();
    o.timestamp_ns = ts;
    o.direction = fire.direction;
    rec.keep(Some(o));
}

#[test]
fn obs_recorder_records_and_blocks_deterministically() {
    let mut rec = recorder(&["carry-v1"]);
    for _ in 0..3 {
        rec.on_feature_update("funding.rate", SymbolId(1), r(1.0));
    }
    observed(&mut rec, 3, Side::Buy, T0 + 3);
    assert!(rec.observations().is_empty());
    assert_eq!(rec.blocked_count(), 1);
    for _ in 3..5 {
        rec.on_feature_update("funding.rate", SymbolId(1), r(1.0));
    }
    observed(&mut rec, 5, Side::Buy, T0 + 5);
    assert_eq!(rec.observations().len(), 1);
    assert_eq!(rec.blocked_count(), 1);
    assert_eq!(rec.observations()[0].direction, Direction::Long);
    assert_eq!(rec.observations()[0].identity.signal_id, "carry-v1");
}

/// The last mark at or before a time.
fn mark_at(marks: &[(i64, Real)], ts: i64) -> f64 {
    let seen: Vec<f64> =
        marks.iter().filter(|m| m.0 <= ts).map(|m| f64::from_bits(m.1.bits)).collect();
    seen[seen.len() - 1]
}

#[test]
fn obs_recorder_attaches_outcomes_post_run() {
    let sec = 1_000_000_000;
    let mut rec = recorder(&["carry-v1"]);
    for i in 0..10 {
        rec.on_feature_update("funding.rate", SymbolId(1), r(1.0));
        rec.record_mark(SymbolId(1), r(100.0 + i as f64), T0 + i * sec);
    }
    observed(&mut rec, 10, Side::Buy, T0 + 5 * sec);
    assert!(rec.observations()[0].outcomes.is_empty());
    let marks = rec.marks_of(rec.observations()[0].symbol);
    let (entry, exit) = (mark_at(&marks, T0 + 5 * sec), mark_at(&marks, T0 + 6 * sec));
    let gross = (exit - entry) / entry;
    rec.attach_outcomes(vec![vec![ObservationOutcome {
        horizon_ns: sec,
        entry_price: r(entry),
        exit_price: r(exit),
        gross_return: r(gross),
        net_return: r(gross),
        mfe: r(gross),
        mae: r(0.0),
        hit: gross > 0.0,
    }]]);
    let o = &rec.observations()[0];
    assert_eq!(o.outcomes.len(), 1);
    assert_eq!(o.outcomes[0].entry_price, r(105.0));
    assert_eq!(o.outcomes[0].exit_price, r(106.0));
    assert!((f64::from_bits(o.outcomes[0].gross_return.bits) - (1.0 / 105.0)).abs() < 1e-12);
    assert_eq!(o.timestamp_ns, T0 + 5 * sec);
}

#[test]
fn outcomes_go_to_their_observations_in_order() {
    let mut rec = recorder(&["sig"]);
    for o in sample_obs(3, false) {
        rec.keep(Some(o));
    }
    let one = sample_obs(1, true).remove(0).outcomes;
    rec.attach_outcomes(vec![vec![], one, vec![]]);
    let kept: Vec<(u64, usize)> =
        rec.observations().iter().map(|o| (o.observation_id, o.outcomes.len())).collect();
    assert_eq!(kept, vec![(1000, 0), (1001, 1), (1002, 0)]);
    assert!(rec.marks_of(SymbolId(9)).is_empty());
}
