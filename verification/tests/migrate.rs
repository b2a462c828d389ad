use mp_research::event::{EventEnvelope, MarketEvent, Side, SymbolId, Venue, SCHEMA_VER};
use mp_research::migrate::{
    migrate_log, plan_migration, restamp, MigrateError, MigrateOutcome, MigratePlan,
};
use mp_research::number::Real;

#[test]
fn int_1_migrate_rewrites_v1_log_to_current_schema() {
    let plan = plan_migration("v1.log", false, &vec![1, 1, 1, 1, 1]).unwrap();
    let outcome = migrate_log(plan, 5).unwrap();
    assert_eq!(outcome, MigrateOutcome::Migrated { events: 5, legacy_events: 5 });
    for i in 0..5u64 {
        let mut old = EventEnvelope::new(
            Venue::Bybit,
            SymbolId(i as u32),
            i as i64,
            i as i64,
            i,
            MarketEvent::Trade {
                price: Real { bits: 1.0_f64.to_bits() },
                qty: Real { bits: 2.0_f64.to_bits() },
                side: Side::Buy,
                trade_id: i,
            },
        );
        old.schema_ver = 1;
        let new = restamp(old);
        assert_eq!(new.schema_ver, SCHEMA_VER);
        assert_eq!(new.symbol, SymbolId(i as u32));
        assert_eq!(new.stream_seq, i);
    }
}

#[test]
fn int_1_migrate_skips_current_schema() {
    let plan = plan_migration("v2.log", false, &vec![SCHEMA_VER; 3]).unwrap();
    assert!(matches!(plan, MigratePlan::Nothing));
    assert_eq!(migrate_log(plan, 0).unwrap(), MigrateOutcome::AlreadyCurrent);
}

#[test]
fn int_1_migrate_refuses_same_path() {
    let err = plan_migration("v1.log", true, &vec![1, 1]).unwrap_err();
    assert!(matches!(err, MigrateError::SamePath(_)), "{err:?}");
    assert!(err.message().contains("v1.log"));
}

#[test]
fn a_rewrite_that_lost_events_is_refused() {
    let plan = plan_migration("v1.log", false, &vec![1, SCHEMA_VER, 1]).unwrap();
    assert!(matches!(plan, MigratePlan::Rewrite { events: 3, legacy_events: 2 }));
    let err = migrate_log(plan, 2).unwrap_err();
    assert!(matches!(err, MigrateError::VerifyMismatch { src: 3, dst: 2 }));
}
