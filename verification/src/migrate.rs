//! Migrating recordings of an older schema to the current one: a new copy is
//! written and counted, and the source is never touched.
use vstd::prelude::*;
use crate::event::{EventEnvelope, SCHEMA_VER};
use crate::text::{dec, push_dec, push_text};

verus! {

/// What migrating a recording did.
#[derive(Clone, Copy, Debug, PartialEq, Eq, Structural)]
pub enum MigrateOutcome {
    /// Nothing: every event is of the current schema.
    AlreadyCurrent,
    /// A copy was written.
    Migrated { events: u64, legacy_events: u64 },
}

/// Why a migration is refused.
#[derive(Debug)]
pub enum MigrateError {
    Io(String),
    Log(String),
    /// Source and destination are one file.
    SamePath(String),
    /// The copy does not hold as many events as the source.
    VerifyMismatch { src: u64, dst: u64 },
}

impl MigrateError {
    /// The error as one line.
    pub fn message(&self) -> (s: String)
        ensures
            s@ == match *self {
                MigrateError::Io(e) => "io: "@ + e@,
                MigrateError::Log(e) => "log: "@ + e@,
                MigrateError::SamePath(p) => "src and dst resolve to the same path: "@ + p@,
                MigrateError::VerifyMismatch { src, dst } => "src has "@ + dec(src as nat)
                    + " events but dst has "@ + dec(dst as nat) + " after write"@,
            },
    {
        match self {
            MigrateError::Io(e) => "io: ".to_owned().concat(e.as_str()),
            MigrateError::Log(e) => "log: ".to_owned().concat(e.as_str()),
            MigrateError::SamePath(p) => "src and dst resolve to the same path: ".to_owned().concat(
                p.as_str(),
            ),
            MigrateError::VerifyMismatch { src, dst } => {
                let mut s = "src has ".to_owned();
                push_dec(&mut s, *src);
                push_text(&mut s, " events but dst has ");
                push_dec(&mut s, *dst);
                push_text(&mut s, " after write");
                s
            },
        }
    }
}

/// How many of the events are of another schema than the current one.
pub open spec fn legacy_count(versions: Seq<u16>) -> nat
    decreases versions.len(),
{
    if versions.len() == 0 {
        0
    } else {
        legacy_count(versions.drop_last()) + if versions.last() != SCHEMA_VER {
            1nat
        } else {
            0
        }
    }
}

fn count_legacy(versions: &Vec<u16>) -> (n: u64)
    ensures
        n == legacy_count(versions@),
        n <= versions@.len(),
{
    let mut n: u64 = 0;
    let mut i: usize = 0;
    let total: usize = versions.len();
    assert(versions@.take(0).len() == 0);
    while i < total
        invariant
            total == versions@.len(),
            i <= total,
            n == legacy_count(versions@.take(i as int)),
            n <= i,
        decreases total - i,
    {
        assert(versions@.take(i + 1).drop_last() =~= versions@.take(i as int));
        if versions[i] != SCHEMA_VER {
            n = n + 1;
        }
        i = i + 1;
    }
    assert(versions@.take(i as int) =~= versions@);
    n
}

/// What a recording needs, going by the schema of each of its events.
#[derive(Clone, Copy, Debug, PartialEq, Eq, Structural)]
pub enum MigratePlan {
    /// Nothing is written.
    Nothing,
    /// A copy of all events is written.
    Rewrite { events: u64, legacy_events: u64 },
}

/// What a recording needs. `same_file` tells whether source and destination
/// are one existing file, over which nothing is ever written.
pub fn plan_migration(src: &str, same_file: bool, versions: &Vec<u16>) -> (r: Result<
    MigratePlan,
    MigrateError,
>)
    ensures
        match r {
            Err(e) => same_file && (e matches MigrateError::SamePath(p) && p@ == src@),
            Ok(plan) => !same_file && plan == if legacy_count(versions@) == 0 {
                MigratePlan::Nothing
            } else {
                MigratePlan::Rewrite {
                    events: versions@.len() as u64,
                    legacy_events: legacy_count(versions@) as u64,
                }
            },
        },
{
    if same_file {
        return Err(MigrateError::SamePath(src.to_owned()));
    }
    let legacy_events: u64 = count_legacy(versions);
    if legacy_events == 0 {
        return Ok(MigratePlan::Nothing);
    }
    Ok(MigratePlan::Rewrite { events: versions.len() as u64, legacy_events })
}

/// The event as it is written: of the current schema, and otherwise unchanged.
pub fn restamp(event: EventEnvelope) -> (e: EventEnvelope)
    ensures
        e == (EventEnvelope { schema_ver: SCHEMA_VER, ..event }),
{
    EventEnvelope {
        schema_ver: SCHEMA_VER,
        venue: event.venue,
        symbol: event.symbol,
        exch_ts_ns: event.exch_ts_ns,
        recv_ts_ns: event.recv_ts_ns,
        stream_seq: event.stream_seq,
        provenance: event.provenance,
        body: event.body,
    }
}

/// The outcome, once the events of the copy were counted again: success only
/// when none is missing.
pub fn migrate_log(plan: MigratePlan, dst_events: u64) -> (r: Result<MigrateOutcome, MigrateError>)
    ensures
        match plan {
            MigratePlan::Nothing => r == Ok::<MigrateOutcome, MigrateError>(
                MigrateOutcome::AlreadyCurrent,
            ),
            MigratePlan::Rewrite { events, legacy_events } => if dst_events == events {
                r == Ok::<MigrateOutcome, MigrateError>(
                    MigrateOutcome::Migrated { events, legacy_events },
                )
            } else {
                r == Err::<MigrateOutcome, MigrateError>(
                    MigrateError::VerifyMismatch { src: events, dst: dst_events },
                )
            },
        },
{
    match plan {
        MigratePlan::Nothing => Ok(MigrateOutcome::AlreadyCurrent),
        MigratePlan::Rewrite { events, legacy_events } => {
            if dst_events != events {
                return Err(MigrateError::VerifyMismatch { src: events, dst: dst_events });
            }
            Ok(MigrateOutcome::Migrated { events, legacy_events })
        },
    }
}

/// A restamped recording needs no further migration.
pub proof fn law_migration_is_final(versions: Seq<u16>)
    requires
        forall|i: int| 0 <= i < versions.len() ==> #[trigger] versions[i] == SCHEMA_VER,
    ensures
        legacy_count(versions) == 0,
    decreases versions.len(),
{
    if versions.len() > 0 {
        assert(versions[versions.len() - 1] == SCHEMA_VER);
        assert forall|i: int| 0 <= i < versions.drop_last().len() implies
            #[trigger] versions.drop_last()[i] == SCHEMA_VER by {
            assert(versions[i] == SCHEMA_VER);
        }
        law_migration_is_final(versions.drop_last());
    }
}

/// Every record of another schema than the current one counts as legacy.
pub proof fn law_legacy_counted(versions: Seq<u16>)
    ensures
        legacy_count(versions) == versions.filter(|v: u16| v != 4).len(),
    decreases versions.len(),
{
    reveal(Seq::filter);
    if versions.len() > 0 {
        law_legacy_counted(versions.drop_last());
    }
}

} // verus!
