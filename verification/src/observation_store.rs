//! Signal observations as columns, and back: one row for each outcome of an
//! observation, or one row without an outcome.
use vstd::prelude::*;
use crate::calendar::{date_str, date_text, day_of_ns};
use crate::error::{Failure, StorageError};
use crate::event::{SymbolId, Venue};
use crate::feature_store::{to_unsigned, unsigned};
use crate::fnv::{
    fnv, fnv1a_absorb, fnv1a_absorb_le, law_fnv_chunks, le_bytes, FNV1A_OFFSET,
};
use crate::layout::{code_of, glued, venue_code, venue_from_code, venue_of_code};
use crate::number::Real;
use crate::ordered::{group_positions, grouped, lemma_pos, lemma_positions, positions, Key};
use crate::text::{hex, join_path, joined, push_hex, push_text};

verus! {

/// Footer keys of an observation file.
pub const KV_IDENTITY_FINGERPRINT: &'static str = "identity_fingerprint";

pub const KV_OBSERVATION_SCHEMA_VER: &'static str = "observation_schema_ver";

/// The version of the columns.
pub const OBSERVATION_SCHEMA_VER: u16 = 1;

#[derive(Clone, Copy, Debug, PartialEq, Eq, Structural)]
pub enum Direction {
    Long,
    Short,
}

/// The state of the data behind an observation.
#[derive(Clone, Copy, Debug, PartialEq, Eq, Structural)]
pub enum DataQualityState {
    Healthy,
    InsufficientHistory,
    Stale,
    Invalid,
}

/// What an observation is an observation of.
#[derive(Debug)]
pub struct SignalResearchIdentity {
    pub signal_id: String,
    pub feature_version: u16,
    pub data_schema_version: u16,
    pub params_hash: String,
    pub cost_model_hash: String,
}

/// What followed an observation, at one horizon.
#[derive(Clone, Copy, Debug, PartialEq, Eq, Structural)]
pub struct ObservationOutcome {
    pub horizon_ns: i64,
    pub entry_price: Real,
    pub exit_price: Real,
    pub gross_return: Real,
    pub net_return: Real,
    pub mfe: Real,
    pub mae: Real,
    pub hit: bool,
}

/// One observation of a signal.
#[derive(Debug)]
pub struct SignalObservation {
    pub observation_id: u64,
    pub identity: SignalResearchIdentity,
    pub timestamp_ns: i64,
    pub symbol: SymbolId,
    pub venue: Venue,
    pub direction: Direction,
    /// Feature names and values, by name.
    pub feature_snapshot: Vec<(String, Real)>,
    pub quality: DataQualityState,
    pub created_at_ns: i64,
    pub outcomes: Vec<ObservationOutcome>,
}

/// What an identity says.
pub struct IdentityView {
    pub signal_id: Seq<char>,
    pub feature_version: u16,
    pub data_schema_version: u16,
    pub params_hash: Seq<char>,
    pub cost_model_hash: Seq<char>,
}

/// A snapshot: names and values.
pub type Snapshot = Seq<(Seq<char>, Real)>;

/// What a snapshot says.
pub open spec fn snapshot_view(v: Seq<(String, Real)>) -> Snapshot {
    Seq::new(v.len(), |i: int| (v[i].0@, v[i].1))
}

/// What an observation says.
pub struct ObsView {
    pub id: u64,
    pub identity: IdentityView,
    pub timestamp_ns: i64,
    pub symbol: SymbolId,
    pub venue: Venue,
    pub direction: Direction,
    pub snapshot: Snapshot,
    pub quality: DataQualityState,
    pub created_at_ns: i64,
    pub outcomes: Seq<ObservationOutcome>,
}

impl SignalResearchIdentity {
    pub open spec fn says(self) -> IdentityView {
        IdentityView {
            signal_id: self.signal_id@,
            feature_version: self.feature_version,
            data_schema_version: self.data_schema_version,
            params_hash: self.params_hash@,
            cost_model_hash: self.cost_model_hash@,
        }
    }
}

impl SignalObservation {
    pub open spec fn says(self) -> ObsView {
        ObsView {
            id: self.observation_id,
            identity: self.identity.says(),
            timestamp_ns: self.timestamp_ns,
            symbol: self.symbol,
            venue: self.venue,
            direction: self.direction,
            snapshot: snapshot_view(self.feature_snapshot@),
            quality: self.quality,
            created_at_ns: self.created_at_ns,
            outcomes: self.outcomes@,
        }
    }
}

/// What observations say.
pub open spec fn obs_views(v: Seq<SignalObservation>) -> Seq<ObsView> {
    Seq::new(v.len(), |i: int| v[i].says())
}

// ---------------------------------------------------------------------------
// Codes
// ---------------------------------------------------------------------------

/// The code of a data state.
pub open spec fn quality_code_of(q: DataQualityState) -> u8 {
    match q {
        DataQualityState::Healthy => 0,
        DataQualityState::InsufficientHistory => 1,
        DataQualityState::Stale => 2,
        DataQualityState::Invalid => 3,
    }
}

/// The data state of a code: an unknown code is invalid.
pub open spec fn quality_of_code(c: u8) -> DataQualityState {
    match c {
        0 => DataQualityState::Healthy,
        1 => DataQualityState::InsufficientHistory,
        2 => DataQualityState::Stale,
        _ => DataQualityState::Invalid,
    }
}

/// The code of a direction.
pub open spec fn direction_code_of(d: Direction) -> i8 {
    match d {
        Direction::Long => 1i8,
        Direction::Short => (-1) as i8,
    }
}

/// The direction of a code: negative is short.
pub open spec fn direction_of_code(c: i8) -> Direction {
    if c < 0 {
        Direction::Short
    } else {
        Direction::Long
    }
}

pub fn quality_code(q: DataQualityState) -> (c: u8)
    ensures
        c == quality_code_of(q),
{
    match q {
        DataQualityState::Healthy => 0,
        DataQualityState::InsufficientHistory => 1,
        DataQualityState::Stale => 2,
        DataQualityState::Invalid => 3,
    }
}

pub fn quality_from_code(c: u8) -> (q: DataQualityState)
    ensures
        q == quality_of_code(c),
{
    match c {
        0 => DataQualityState::Healthy,
        1 => DataQualityState::InsufficientHistory,
        2 => DataQualityState::Stale,
        _ => DataQualityState::Invalid,
    }
}

pub fn direction_code(d: Direction) -> (c: i8)
    ensures
        c == direction_code_of(d),
{
    match d {
        Direction::Long => 1,
        Direction::Short => -1,
    }
}

pub fn direction_from_code(c: i8) -> (d: Direction)
    ensures
        d == direction_of_code(c),
{
    if c < 0 {
        Direction::Short
    } else {
        Direction::Long
    }
}

/// Codes lead back to what they stand for.
pub proof fn law_observation_codes(q: DataQualityState, d: Direction)
    ensures
        quality_of_code(quality_code_of(q)) == q,
        direction_of_code(direction_code_of(d)) == d,
{
}

// ---------------------------------------------------------------------------
// Content hash
// ---------------------------------------------------------------------------

/// The byte of a direction: 1, or all bits for short.
pub open spec fn direction_byte(d: Direction) -> u64 {
    match d {
        Direction::Long => 1,
        Direction::Short => 255,
    }
}

/// The bytes of a snapshot: each name, then its value.
pub open spec fn snapshot_bytes(s: Snapshot) -> Seq<u8>
    decreases s.len(),
{
    if s.len() == 0 {
        Seq::empty()
    } else {
        snapshot_bytes(s.drop_last()) + vstd::utf8::encode_utf8(s.last().0) + le_bytes(
            s.last().1.bits,
            8,
        )
    }
}

/// The bytes of an outcome.
pub open spec fn outcome_bytes(o: ObservationOutcome) -> Seq<u8> {
    le_bytes(unsigned(o.horizon_ns), 8) + le_bytes(o.entry_price.bits, 8) + le_bytes(
        o.exit_price.bits,
        8,
    ) + le_bytes(o.gross_return.bits, 8) + le_bytes(o.net_return.bits, 8) + le_bytes(o.mfe.bits, 8)
        + le_bytes(o.mae.bits, 8) + le_bytes(
        if o.hit {
            1
        } else {
            0
        },
        1,
    )
}

/// The bytes of outcomes, one behind the other.
pub open spec fn outcomes_bytes(s: Seq<ObservationOutcome>) -> Seq<u8>
    decreases s.len(),
{
    if s.len() == 0 {
        Seq::empty()
    } else {
        outcomes_bytes(s.drop_last()) + outcome_bytes(s.last())
    }
}

/// The bytes of an observation's own fields.
pub open spec fn head_bytes(o: ObsView, fingerprint: Seq<char>) -> Seq<u8> {
    le_bytes(o.id, 8) + vstd::utf8::encode_utf8(fingerprint) + le_bytes(
        unsigned(o.timestamp_ns),
        8,
    ) + le_bytes(o.symbol.0 as u64, 4) + le_bytes(code_of(o.venue) as u64, 2) + le_bytes(
        direction_byte(o.direction),
        1,
    ) + le_bytes(quality_code_of(o.quality) as u64, 1) + le_bytes(unsigned(o.created_at_ns), 8)
}

/// The bytes of an observation: its fields, its snapshot, its outcomes.
pub open spec fn obs_bytes(o: ObsView, fingerprint: Seq<char>) -> Seq<u8> {
    head_bytes(o, fingerprint) + snapshot_bytes(o.snapshot) + outcomes_bytes(o.outcomes)
}

/// The bytes of observations, one behind the other.
pub open spec fn all_obs_bytes(obs: Seq<ObsView>, fingerprints: Seq<Seq<char>>) -> Seq<u8>
    decreases obs.len(),
{
    if obs.len() == 0 {
        Seq::empty()
    } else {
        all_obs_bytes(obs.drop_last(), fingerprints) + obs_bytes(
            obs.last(),
            fingerprints[obs.len() - 1],
        )
    }
}

/// The content hash of observations.
pub open spec fn obs_hash(obs: Seq<ObsView>, fingerprints: Seq<Seq<char>>) -> u64 {
    fnv(FNV1A_OFFSET, all_obs_bytes(obs, fingerprints))
}

fn absorb_head(h: u64, o: &SignalObservation, fingerprint: &str) -> (g: u64)
    ensures
        g == fnv(h, head_bytes(o.says(), fingerprint@)),
{
    let a = fnv1a_absorb_le(h, o.observation_id, 8);
    let b = fnv1a_absorb(a, fingerprint.as_bytes());
    let c = fnv1a_absorb_le(b, to_unsigned(o.timestamp_ns), 8);
    let d = fnv1a_absorb_le(c, o.symbol.0 as u64, 4);
    let e = fnv1a_absorb_le(d, venue_code(o.venue) as u64, 2);
    let dir: u64 = match o.direction {
        Direction::Long => 1,
        Direction::Short => 255,
    };
    let f = fnv1a_absorb_le(e, dir, 1);
    let g = fnv1a_absorb_le(f, quality_code(o.quality) as u64, 1);
    let r = fnv1a_absorb_le(g, to_unsigned(o.created_at_ns), 8);
    proof {
        let v = o.says();
        let x1 = le_bytes(v.id, 8);
        let x2 = x1 + vstd::utf8::encode_utf8(fingerprint@);
        let x3 = x2 + le_bytes(unsigned(v.timestamp_ns), 8);
        let x4 = x3 + le_bytes(v.symbol.0 as u64, 4);
        let x5 = x4 + le_bytes(code_of(v.venue) as u64, 2);
        let x6 = x5 + le_bytes(direction_byte(v.direction), 1);
        let x7 = x6 + le_bytes(quality_code_of(v.quality) as u64, 1);
        law_fnv_chunks(h, x1, vstd::utf8::encode_utf8(fingerprint@));
        law_fnv_chunks(h, x2, le_bytes(unsigned(v.timestamp_ns), 8));
        law_fnv_chunks(h, x3, le_bytes(v.symbol.0 as u64, 4));
        law_fnv_chunks(h, x4, le_bytes(code_of(v.venue) as u64, 2));
        law_fnv_chunks(h, x5, le_bytes(direction_byte(v.direction), 1));
        law_fnv_chunks(h, x6, le_bytes(quality_code_of(v.quality) as u64, 1));
        law_fnv_chunks(h, x7, le_bytes(unsigned(v.created_at_ns), 8));
    }
    r
}

fn absorb_snapshot(h: u64, s: &Vec<(String, Real)>) -> (g: u64)
    ensures
        g == fnv(h, snapshot_bytes(snapshot_view(s@))),
{
    let ghost v = snapshot_view(s@);
    let mut g: u64 = h;
    let mut i: usize = 0;
    assert(v.take(0).len() == 0);
    while i < s.len()
        invariant
            i <= s@.len(),
            v == snapshot_view(s@),
            g == fnv(h, snapshot_bytes(v.take(i as int))),
        decreases s@.len() - i,
    {
        let ghost done = snapshot_bytes(v.take(i as int));
        let a = fnv1a_absorb(g, s[i].0.as_str().as_bytes());
        g = fnv1a_absorb_le(a, s[i].1.bits, 8);
        proof {
            let name = vstd::utf8::encode_utf8(v[i as int].0);
            let value = le_bytes(v[i as int].1.bits, 8);
            law_fnv_chunks(h, done, name);
            law_fnv_chunks(h, done + name, value);
            assert(v.take(i + 1).drop_last() =~= v.take(i as int));
            assert(v.take(i + 1).last() == v[i as int]);
        }
        i = i + 1;
    }
    assert(v.take(i as int) =~= v);
    g
}

fn absorb_outcome(h: u64, o: &ObservationOutcome) -> (g: u64)
    ensures
        g == fnv(h, outcome_bytes(*o)),
{
    let hit: u64 = if o.hit {
        1
    } else {
        0
    };
    let a = fnv1a_absorb_le(h, to_unsigned(o.horizon_ns), 8);
    let b = fnv1a_absorb_le(a, o.entry_price.bits, 8);
    let c = fnv1a_absorb_le(b, o.exit_price.bits, 8);
    let d = fnv1a_absorb_le(c, o.gross_return.bits, 8);
    let e = fnv1a_absorb_le(d, o.net_return.bits, 8);
    let f = fnv1a_absorb_le(e, o.mfe.bits, 8);
    let g = fnv1a_absorb_le(f, o.mae.bits, 8);
    let r = fnv1a_absorb_le(g, hit, 1);
    proof {
        let x1 = le_bytes(unsigned(o.horizon_ns), 8);
        let x2 = x1 + le_bytes(o.entry_price.bits, 8);
        let x3 = x2 + le_bytes(o.exit_price.bits, 8);
        let x4 = x3 + le_bytes(o.gross_return.bits, 8);
        let x5 = x4 + le_bytes(o.net_return.bits, 8);
        let x6 = x5 + le_bytes(o.mfe.bits, 8);
        let x7 = x6 + le_bytes(o.mae.bits, 8);
        law_fnv_chunks(h, x1, le_bytes(o.entry_price.bits, 8));
        law_fnv_chunks(h, x2, le_bytes(o.exit_price.bits, 8));
        law_fnv_chunks(h, x3, le_bytes(o.gross_return.bits, 8));
        law_fnv_chunks(h, x4, le_bytes(o.net_return.bits, 8));
        law_fnv_chunks(h, x5, le_bytes(o.mfe.bits, 8));
        law_fnv_chunks(h, x6, le_bytes(o.mae.bits, 8));
        law_fnv_chunks(h, x7, le_bytes(hit, 1));
    }
    r
}

fn absorb_outcomes(h: u64, s: &Vec<ObservationOutcome>) -> (g: u64)
    ensures
        g == fnv(h, outcomes_bytes(s@)),
{
    let mut g: u64 = h;
    let mut i: usize = 0;
    assert(s@.take(0).len() == 0);
    while i < s.len()
        invariant
            i <= s@.len(),
            g == fnv(h, outcomes_bytes(s@.take(i as int))),
        decreases s@.len() - i,
    {
        let ghost done = outcomes_bytes(s@.take(i as int));
        g = absorb_outcome(g, &s[i]);
        proof {
            law_fnv_chunks(h, done, outcome_bytes(s@[i as int]));
            assert(s@.take(i + 1).drop_last() =~= s@.take(i as int));
        }
        i = i + 1;
    }
    assert(s@.take(i as int) =~= s@);
    g
}

/// The texts of a list.
pub open spec fn texts(v: Seq<String>) -> Seq<Seq<char>> {
    Seq::new(v.len(), |i: int| v[i]@)
}

/// The observations at the positions `at`.
pub open spec fn obs_at(v: Seq<SignalObservation>, at: Seq<usize>) -> Seq<ObsView> {
    Seq::new(at.len(), |i: int| v[at[i] as int].says())
}

/// The texts at the positions `at`.
pub open spec fn texts_at(v: Seq<String>, at: Seq<usize>) -> Seq<Seq<char>> {
    Seq::new(at.len(), |i: int| v[at[i] as int]@)
}

/// The content hash of the observations at `at`; `fingerprints` holds each
/// observation's identity as text.
fn hash_at(
    obs: &Vec<SignalObservation>,
    fingerprints: &Vec<String>,
    at: &Vec<usize>,
) -> (h: u64)
    requires
        fingerprints@.len() == obs@.len(),
        forall|i: int| 0 <= i < at@.len() ==> (#[trigger] at@[i]) < obs@.len(),
    ensures
        h == obs_hash(obs_at(obs@, at@), texts_at(fingerprints@, at@)),
{
    let ghost v = obs_at(obs@, at@);
    let ghost f = texts_at(fingerprints@, at@);
    let mut h: u64 = FNV1A_OFFSET;
    let mut i: usize = 0;
    assert(v.take(0).len() == 0);
    while i < at.len()
        invariant
            i <= at@.len(),
            fingerprints@.len() == obs@.len(),
            forall|i: int| 0 <= i < at@.len() ==> (#[trigger] at@[i]) < obs@.len(),
            v == obs_at(obs@, at@),
            f == texts_at(fingerprints@, at@),
            h == fnv(FNV1A_OFFSET, all_obs_bytes(v.take(i as int), f)),
        decreases at@.len() - i,
    {
        let o = &obs[at[i]];
        let ghost done = all_obs_bytes(v.take(i as int), f);
        let fp = &fingerprints[at[i]];
        assert(v[i as int] == o.says() && f[i as int] == fp@);
        let a = absorb_head(h, o, fp.as_str());
        let b = absorb_snapshot(a, &o.feature_snapshot);
        h = absorb_outcomes(b, &o.outcomes);
        proof {
            let x = head_bytes(o.says(), fp@);
            let y = snapshot_bytes(o.says().snapshot);
            let z = outcomes_bytes(o.says().outcomes);
            law_fnv_chunks(FNV1A_OFFSET, done, x);
            law_fnv_chunks(FNV1A_OFFSET, done + x, y);
            law_fnv_chunks(FNV1A_OFFSET, done + x + y, z);
            assert(v.take(i + 1).drop_last() =~= v.take(i as int));
            assert(all_obs_bytes(v.take(i + 1), f) =~= done + x + y + z);
        }
        i = i + 1;
    }
    assert(v.take(i as int) =~= v);
    h
}

/// The content hash of observations: the same observations always have the
/// same hash. `fingerprints` holds each observation's identity as text.
pub fn observations_content_hash(obs: &Vec<SignalObservation>, fingerprints: &Vec<String>) -> (h:
    u64)
    requires
        fingerprints@.len() == obs@.len(),
    ensures
        h == obs_hash(obs_views(obs@), texts(fingerprints@)),
{
    let mut at: Vec<usize> = Vec::new();
    let mut i: usize = 0;
    while i < obs.len()
        invariant
            i <= obs@.len(),
            at@.len() == i,
            forall|k: int| 0 <= k < i ==> (#[trigger] at@[k]) == k,
        decreases obs@.len() - i,
    {
        at.push(i);
        i = i + 1;
    }
    assert(obs_at(obs@, at@) =~= obs_views(obs@));
    assert(texts_at(fingerprints@, at@) =~= texts(fingerprints@));
    hash_at(obs, fingerprints, &at)
}

// ---------------------------------------------------------------------------
// Columns
// ---------------------------------------------------------------------------

/// The columns of an observation file.
pub struct ObservationColumns {
    pub observation_id: Vec<u64>,
    pub signal_id: Vec<String>,
    pub feature_version: Vec<u16>,
    pub data_schema_version: Vec<u16>,
    pub params_hash: Vec<String>,
    pub cost_model_hash: Vec<String>,
    pub ts_ns: Vec<i64>,
    pub symbol_id: Vec<u32>,
    pub venue_code: Vec<u16>,
    pub direction: Vec<i8>,
    pub quality: Vec<u8>,
    pub created_at_ns: Vec<i64>,
    pub snapshot_json: Vec<String>,
    /// The outcome's columns, null without an outcome.
    pub horizon_ns: Vec<Option<i64>>,
    pub entry_price: Vec<Option<Real>>,
    pub exit_price: Vec<Option<Real>>,
    pub gross_return: Vec<Option<Real>>,
    pub net_return: Vec<Option<Real>>,
    pub mfe: Vec<Option<Real>>,
    pub mae: Vec<Option<Real>>,
    pub hit: Vec<Option<u8>>,
}

/// The part of a row that is the observation's.
pub struct ObsHead {
    pub id: u64,
    pub identity: IdentityView,
    pub ts_ns: i64,
    pub symbol_id: u32,
    pub venue_code: u16,
    pub direction: i8,
    pub quality: u8,
    pub created_at_ns: i64,
    pub snapshot_json: Seq<char>,
}

/// The part of a row that is an outcome's.
pub struct OutcomeCells {
    pub horizon_ns: Option<i64>,
    pub entry_price: Option<Real>,
    pub exit_price: Option<Real>,
    pub gross_return: Option<Real>,
    pub net_return: Option<Real>,
    pub mfe: Option<Real>,
    pub mae: Option<Real>,
    pub hit: Option<u8>,
}

/// A row of an observation file.
pub struct ObsRow {
    pub head: ObsHead,
    pub cells: OutcomeCells,
}

/// The cells of an outcome, or of none.
pub open spec fn cells_of(o: Option<ObservationOutcome>) -> OutcomeCells {
    match o {
        None => OutcomeCells {
            horizon_ns: None,
            entry_price: None,
            exit_price: None,
            gross_return: None,
            net_return: None,
            mfe: None,
            mae: None,
            hit: None,
        },
        Some(o) => OutcomeCells {
            horizon_ns: Some(o.horizon_ns),
            entry_price: Some(o.entry_price),
            exit_price: Some(o.exit_price),
            gross_return: Some(o.gross_return),
            net_return: Some(o.net_return),
            mfe: Some(o.mfe),
            mae: Some(o.mae),
            hit: Some(
                if o.hit {
                    1u8
                } else {
                    0u8
                },
            ),
        },
    }
}

/// The part of a row that is the observation's; `json` is its snapshot as
/// text.
pub open spec fn obs_head(o: ObsView, json: Seq<char>) -> ObsHead {
    ObsHead {
        id: o.id,
        identity: o.identity,
        ts_ns: o.timestamp_ns,
        symbol_id: o.symbol.0,
        venue_code: code_of(o.venue),
        direction: direction_code_of(o.direction),
        quality: quality_code_of(o.quality),
        created_at_ns: o.created_at_ns,
        snapshot_json: json,
    }
}

/// The rows of one observation.
pub open spec fn rows_of_obs(o: ObsView, json: Seq<char>) -> Seq<ObsRow> {
    if o.outcomes.len() == 0 {
        seq![ObsRow { head: obs_head(o, json), cells: cells_of(None) }]
    } else {
        Seq::new(
            o.outcomes.len(),
            |i: int| ObsRow { head: obs_head(o, json), cells: cells_of(Some(o.outcomes[i])) },
        )
    }
}

/// The rows of observations, one behind the other.
pub open spec fn rows_of_all(obs: Seq<ObsView>, jsons: Seq<Seq<char>>) -> Seq<ObsRow>
    decreases obs.len(),
{
    if obs.len() == 0 {
        Seq::empty()
    } else {
        rows_of_all(obs.drop_last(), jsons) + rows_of_obs(obs.last(), jsons[obs.len() - 1])
    }
}

impl ObservationColumns {
    /// All columns have the same length.
    pub open spec fn wf(&self) -> bool {
        let n = self.observation_id@.len();
        &&& self.signal_id@.len() == n
        &&& self.feature_version@.len() == n
        &&& self.data_schema_version@.len() == n
        &&& self.params_hash@.len() == n
        &&& self.cost_model_hash@.len() == n
        &&& self.ts_ns@.len() == n
        &&& self.symbol_id@.len() == n
        &&& self.venue_code@.len() == n
        &&& self.direction@.len() == n
        &&& self.quality@.len() == n
        &&& self.created_at_ns@.len() == n
        &&& self.snapshot_json@.len() == n
        &&& self.horizon_ns@.len() == n
        &&& self.entry_price@.len() == n
        &&& self.exit_price@.len() == n
        &&& self.gross_return@.len() == n
        &&& self.net_return@.len() == n
        &&& self.mfe@.len() == n
        &&& self.mae@.len() == n
        &&& self.hit@.len() == n
    }

    /// The row at `i`.
    pub open spec fn row(&self, i: int) -> ObsRow {
        ObsRow {
            head: ObsHead {
                id: self.observation_id@[i],
                identity: IdentityView {
                    signal_id: self.signal_id@[i]@,
                    feature_version: self.feature_version@[i],
                    data_schema_version: self.data_schema_version@[i],
                    params_hash: self.params_hash@[i]@,
                    cost_model_hash: self.cost_model_hash@[i]@,
                },
                ts_ns: self.ts_ns@[i],
                symbol_id: self.symbol_id@[i],
                venue_code: self.venue_code@[i],
                direction: self.direction@[i],
                quality: self.quality@[i],
                created_at_ns: self.created_at_ns@[i],
                snapshot_json: self.snapshot_json@[i]@,
            },
            cells: OutcomeCells {
                horizon_ns: self.horizon_ns@[i],
                entry_price: self.entry_price@[i],
                exit_price: self.exit_price@[i],
                gross_return: self.gross_return@[i],
                net_return: self.net_return@[i],
                mfe: self.mfe@[i],
                mae: self.mae@[i],
                hit: self.hit@[i],
            },
        }
    }

    /// The rows.
    pub open spec fn rows(&self) -> Seq<ObsRow> {
        Seq::new(self.observation_id@.len(), |i: int| self.row(i))
    }

    /// Columns without rows.
    pub fn new() -> (c: ObservationColumns)
        ensures
            c.wf(),
            c.rows() == Seq::<ObsRow>::empty(),
    {
        let c = ObservationColumns {
            observation_id: Vec::new(),
            signal_id: Vec::new(),
            feature_version: Vec::new(),
            data_schema_version: Vec::new(),
            params_hash: Vec::new(),
            cost_model_hash: Vec::new(),
            ts_ns: Vec::new(),
            symbol_id: Vec::new(),
            venue_code: Vec::new(),
            direction: Vec::new(),
            quality: Vec::new(),
            created_at_ns: Vec::new(),
            snapshot_json: Vec::new(),
            horizon_ns: Vec::new(),
            entry_price: Vec::new(),
            exit_price: Vec::new(),
            gross_return: Vec::new(),
            net_return: Vec::new(),
            mfe: Vec::new(),
            mae: Vec::new(),
            hit: Vec::new(),
        };
        assert(c.rows() =~= Seq::<ObsRow>::empty());
        c
    }

    fn push_head(&mut self, o: &SignalObservation, json: &String)
        ensures
            final(self).observation_id@ == old(self).observation_id@.push(o.observation_id),
            final(self).signal_id@ == old(self).signal_id@.push(o.identity.signal_id),
            final(self).feature_version@ == old(self).feature_version@.push(
                o.identity.feature_version,
            ),
            final(self).data_schema_version@ == old(self).data_schema_version@.push(
                o.identity.data_schema_version,
            ),
            final(self).params_hash@ == old(self).params_hash@.push(o.identity.params_hash),
            final(self).cost_model_hash@ == old(self).cost_model_hash@.push(
                o.identity.cost_model_hash,
            ),
            final(self).ts_ns@ == old(self).ts_ns@.push(o.timestamp_ns),
            final(self).symbol_id@ == old(self).symbol_id@.push(o.symbol.0),
            final(self).venue_code@ == old(self).venue_code@.push(code_of(o.venue)),
            final(self).direction@ == old(self).direction@.push(direction_code_of(o.direction)),
            final(self).quality@ == old(self).quality@.push(quality_code_of(o.quality)),
            final(self).created_at_ns@ == old(self).created_at_ns@.push(o.created_at_ns),
            final(self).snapshot_json@ == old(self).snapshot_json@.push(*json),
            final(self).horizon_ns == old(self).horizon_ns,
            final(self).entry_price == old(self).entry_price,
            final(self).exit_price == old(self).exit_price,
            final(self).gross_return == old(self).gross_return,
            final(self).net_return == old(self).net_return,
            final(self).mfe == old(self).mfe,
            final(self).mae == old(self).mae,
            final(self).hit == old(self).hit,
    {
        self.observation_id.push(o.observation_id);
        self.signal_id.push(o.identity.signal_id.clone());
        self.feature_version.push(o.identity.feature_version);
        self.data_schema_version.push(o.identity.data_schema_version);
        self.params_hash.push(o.identity.params_hash.clone());
        self.cost_model_hash.push(o.identity.cost_model_hash.clone());
        self.ts_ns.push(o.timestamp_ns);
        self.symbol_id.push(o.symbol.0);
        self.venue_code.push(venue_code(o.venue));
        self.direction.push(direction_code(o.direction));
        self.quality.push(quality_code(o.quality));
        self.created_at_ns.push(o.created_at_ns);
        self.snapshot_json.push(json.clone());
    }

    /// Adds a row of the observation.
    fn push_row(
        &mut self,
        o: &SignalObservation,
        json: &String,
        outcome: Option<ObservationOutcome>,
    )
        requires
            old(self).wf(),
        ensures
            final(self).wf(),
            final(self).rows() == old(self).rows().push(
                ObsRow { head: obs_head(o.says(), json@), cells: cells_of(outcome) },
            ),
    {
        let ghost before = self.rows();
        let ghost n = self.observation_id@.len() as int;
        let ghost added = ObsRow { head: obs_head(o.says(), json@), cells: cells_of(outcome) };
        self.push_head(o, json);
        match outcome {
            None => {
                self.horizon_ns.push(None);
                self.entry_price.push(None);
                self.exit_price.push(None);
                self.gross_return.push(None);
                self.net_return.push(None);
                self.mfe.push(None);
                self.mae.push(None);
                self.hit.push(None);
            },
            Some(oc) => {
                let hit: u8 = if oc.hit {
                    1
                } else {
                    0
                };
                self.horizon_ns.push(Some(oc.horizon_ns));
                self.entry_price.push(Some(oc.entry_price));
                self.exit_price.push(Some(oc.exit_price));
                self.gross_return.push(Some(oc.gross_return));
                self.net_return.push(Some(oc.net_return));
                self.mfe.push(Some(oc.mfe));
                self.mae.push(Some(oc.mae));
                self.hit.push(Some(hit));
            },
        }
        proof {
            assert(self.row(n) == added);
            assert forall|i: int| 0 <= i < n implies self.row(i) == #[trigger] before[i] by {}
            assert(self.rows() =~= before.push(added));
        }
    }
}

/// The observations as columns; `snapshots` holds each snapshot as text.
pub fn write_observations(obs: &Vec<SignalObservation>, snapshots: &Vec<String>) -> (c:
    ObservationColumns)
    requires
        snapshots@.len() == obs@.len(),
    ensures
        c.wf(),
        c.rows() == rows_of_all(obs_views(obs@), texts(snapshots@)),
{
    let mut c = ObservationColumns::new();
    let ghost v = obs_views(obs@);
    let ghost j = texts(snapshots@);
    let mut i: usize = 0;
    assert(v.take(0).len() == 0);
    while i < obs.len()
        invariant
            i <= obs@.len(),
            snapshots@.len() == obs@.len(),
            v == obs_views(obs@),
            j == texts(snapshots@),
            c.wf(),
            c.rows() == rows_of_all(v.take(i as int), j),
        decreases obs@.len() - i,
    {
        let o = &obs[i];
        let json = &snapshots[i];
        let ghost before = c.rows();
        let ghost want = rows_of_obs(o.says(), json@);
        assert(v.take(i + 1).drop_last() =~= v.take(i as int));
        assert(v.take(i + 1).last() == o.says());
        if o.outcomes.len() == 0 {
            c.push_row(o, json, None);
            assert(c.rows() =~= before + want);
        } else {
            let mut k: usize = 0;
            assert(before =~= before + want.take(0));
            while k < o.outcomes.len()
                invariant
                    k <= o.outcomes@.len(),
                    o.outcomes@.len() > 0,
                    want == rows_of_obs(o.says(), json@),
                    c.wf(),
                    c.rows() == before + want.take(k as int),
                decreases o.outcomes@.len() - k,
            {
                c.push_row(o, json, Some(o.outcomes[k]));
                assert(want.take(k + 1) =~= want.take(k as int).push(want[k as int]));
                assert(c.rows() =~= before + want.take(k + 1));
                k = k + 1;
            }
            assert(want.take(k as int) =~= want);
        }
        i = i + 1;
    }
    assert(v.take(i as int) =~= v);
    c
}

// ---------------------------------------------------------------------------
// Reading back
// ---------------------------------------------------------------------------

/// What decoding the snapshot of a row gave.
pub type DecodedSnapshot = Result<Vec<(String, Real)>, String>;

/// What is wrong with a row, if anything.
pub open spec fn obs_row_fault(r: ObsRow, s: DecodedSnapshot) -> Option<Seq<char>> {
    if venue_of_code(r.head.venue_code) is None {
        Some("unknown venue code"@)
    } else {
        match s {
            Ok(_) => None,
            Err(e) => Some("snapshot parse: "@ + e@),
        }
    }
}

/// The number in a cell; a null cell holds zero.
pub open spec fn cell_number(o: Option<Real>) -> Real {
    match o {
        Some(x) => x,
        None => Real { bits: 0 },
    }
}

fn number_of(o: Option<Real>) -> (x: Real)
    ensures
        x == cell_number(o),
{
    match o {
        Some(x) => x,
        None => Real { bits: 0 },
    }
}

/// The outcome of a row, if it has one.
pub open spec fn outcome_of(c: OutcomeCells) -> Option<ObservationOutcome> {
    match c.horizon_ns {
        None => None,
        Some(h) => Some(
            ObservationOutcome {
                horizon_ns: h,
                entry_price: cell_number(c.entry_price),
                exit_price: cell_number(c.exit_price),
                gross_return: cell_number(c.gross_return),
                net_return: cell_number(c.net_return),
                mfe: cell_number(c.mfe),
                mae: cell_number(c.mae),
                hit: c.hit matches Some(b) && b != 0,
            },
        ),
    }
}

/// The observation that a row begins, without outcomes.
pub open spec fn obs_of_row(r: ObsRow, s: DecodedSnapshot) -> ObsView {
    ObsView {
        id: r.head.id,
        identity: r.head.identity,
        timestamp_ns: r.head.ts_ns,
        symbol: SymbolId(r.head.symbol_id),
        venue: venue_of_code(r.head.venue_code)->0,
        direction: direction_of_code(r.head.direction),
        snapshot: snapshot_view(s->Ok_0@),
        quality: quality_of_code(r.head.quality),
        created_at_ns: r.head.created_at_ns,
        outcomes: Seq::empty(),
    }
}

/// The position of the observation with that id.
pub open spec fn pos_of_id(out: Seq<ObsView>, id: u64) -> Option<int>
    decreases out.len(),
{
    if out.len() == 0 {
        None
    } else if out.last().id == id {
        Some(out.len() - 1)
    } else {
        pos_of_id(out.drop_last(), id)
    }
}

/// `o` with one more outcome, if there is one.
pub open spec fn with_outcome(o: ObsView, c: Option<ObservationOutcome>) -> ObsView {
    match c {
        Some(oc) => ObsView { outcomes: o.outcomes.push(oc), ..o },
        None => o,
    }
}

/// The observations after one more row: the row continues the observation of
/// its id, or begins one behind the others.
pub open spec fn after_row(out: Seq<ObsView>, r: ObsRow, s: DecodedSnapshot) -> Seq<ObsView> {
    match pos_of_id(out, r.head.id) {
        Some(p) => out.update(p, with_outcome(out[p], outcome_of(r.cells))),
        None => out.push(with_outcome(obs_of_row(r, s), outcome_of(r.cells))),
    }
}

/// The observations of rows, in the order in which they first appear.
pub open spec fn obs_of_rows(rows: Seq<ObsRow>, s: Seq<DecodedSnapshot>) -> Seq<ObsView>
    decreases rows.len(),
{
    if rows.len() == 0 {
        Seq::empty()
    } else {
        after_row(obs_of_rows(rows.drop_last(), s), rows.last(), s[rows.len() - 1])
    }
}

proof fn lemma_pos_of_id(out: Seq<ObsView>, id: u64)
    ensures
        pos_of_id(out, id) matches Some(p) ==> 0 <= p < out.len() && out[p].id == id,
    decreases out.len(),
{
    if out.len() > 0 && out.last().id != id {
        lemma_pos_of_id(out.drop_last(), id);
    }
}

fn find_id(out: &Vec<SignalObservation>, id: u64) -> (r: Option<usize>)
    ensures
        pos_of_id(obs_views(out@), id) == match r {
            Some(i) => Some(i as int),
            None => None,
        },
        r matches Some(i) ==> i < out@.len(),
{
    let ghost v = obs_views(out@);
    let mut i: usize = out.len();
    assert(v.take(i as int) =~= v);
    while i > 0
        invariant
            i <= out@.len(),
            v == obs_views(out@),
            pos_of_id(v, id) == pos_of_id(v.take(i as int), id),
        decreases i,
    {
        assert(v.take(i as int).last() == out@[i - 1].says());
        assert(v.take(i as int).drop_last() =~= v.take(i - 1));
        if out[i - 1].observation_id == id {
            return Some(i - 1);
        }
        i = i - 1;
    }
    None
}

fn copy_snapshot(s: &Vec<(String, Real)>) -> (r: Vec<(String, Real)>)
    ensures
        snapshot_view(r@) == snapshot_view(s@),
{
    let mut r: Vec<(String, Real)> = Vec::new();
    let mut i: usize = 0;
    while i < s.len()
        invariant
            i <= s@.len(),
            r@.len() == i,
            forall|k: int| 0 <= k < i ==> (#[trigger] r@[k]).0@ == s@[k].0@ && r@[k].1 == s@[k].1,
        decreases s@.len() - i,
    {
        r.push((s[i].0.clone(), s[i].1));
        i = i + 1;
    }
    assert(snapshot_view(r@) =~= snapshot_view(s@));
    r
}

fn outcome_at(c: &ObservationColumns, i: usize) -> (r: Option<ObservationOutcome>)
    requires
        c.wf(),
        i < c.observation_id@.len(),
    ensures
        r == outcome_of(c.row(i as int).cells),
{
    match c.horizon_ns[i] {
        None => None,
        Some(horizon_ns) => {
            let hit = match c.hit[i] {
                Some(b) => b != 0,
                None => false,
            };
            Some(
                ObservationOutcome {
                    horizon_ns,
                    entry_price: number_of(c.entry_price[i]),
                    exit_price: number_of(c.exit_price[i]),
                    gross_return: number_of(c.gross_return[i]),
                    net_return: number_of(c.net_return[i]),
                    mfe: number_of(c.mfe[i]),
                    mae: number_of(c.mae[i]),
                    hit,
                },
            )
        },
    }
}

/// No row up to `n` has something wrong with it.
pub open spec fn rows_sound(rows: Seq<ObsRow>, s: Seq<DecodedSnapshot>, n: int) -> bool {
    forall|i: int| 0 <= i < n ==> obs_row_fault(#[trigger] rows[i], s[i]) is None
}

/// The observations of the rows, in the order in which they first appear;
/// refused at the first row with something wrong. `snapshots` holds what
/// decoding each row's snapshot gave.
pub fn read_observations(c: &ObservationColumns, snapshots: &Vec<DecodedSnapshot>) -> (r: Result<
    Vec<SignalObservation>,
    StorageError,
>)
    requires
        c.wf(),
        snapshots@.len() == c.observation_id@.len(),
    ensures
        match r {
            Ok(out) => rows_sound(c.rows(), snapshots@, c.rows().len() as int) && obs_views(out@)
                == obs_of_rows(c.rows(), snapshots@),
            Err(e) => exists|i: int|
                #![trigger c.rows()[i]]
                0 <= i < c.rows().len() && rows_sound(c.rows(), snapshots@, i) && obs_row_fault(
                    c.rows()[i],
                    snapshots@[i],
                ) is Some && e.says() == Failure::Arrow(
                    obs_row_fault(c.rows()[i], snapshots@[i])->0,
                ),
        },
{
    let ghost rows = c.rows();
    let mut out: Vec<SignalObservation> = Vec::new();
    let mut i: usize = 0;
    assert(obs_views(out@) =~= obs_of_rows(rows.take(0), snapshots@));
    while i < c.observation_id.len()
        invariant
            c.wf(),
            rows == c.rows(),
            i <= c.observation_id@.len(),
            snapshots@.len() == c.observation_id@.len(),
            rows_sound(rows, snapshots@, i as int),
            obs_views(out@) == obs_of_rows(rows.take(i as int), snapshots@),
        decreases c.observation_id@.len() - i,
    {
        let ghost row = rows[i as int];
        assert(row == c.row(i as int));
        assert(rows.take(i + 1).drop_last() =~= rows.take(i as int));
        assert(rows.take(i + 1).last() == row);
        let venue = match venue_from_code(c.venue_code[i]) {
            Some(v) => v,
            None => {
                return Err(StorageError::Arrow("unknown venue code".to_owned()));
            },
        };
        let snapshot = match &snapshots[i] {
            Ok(s) => s,
            Err(e) => {
                return Err(StorageError::Arrow(glued("snapshot parse: ", e.as_str())));
            },
        };
        let outcome = outcome_at(c, i);
        let ghost v0 = obs_views(out@);
        match find_id(&out, c.observation_id[i]) {
            Some(p) => {
                if let Some(oc) = outcome {
                    let mut o = out.remove(p);
                    let ghost o0 = o.says();
                    o.outcomes.push(oc);
                    out.insert(p, o);
                    assert(obs_views(out@) =~= v0.update(
                        p as int,
                        with_outcome(v0[p as int], Some(oc)),
                    ));
                } else {
                    assert(v0 =~= v0.update(p as int, with_outcome(v0[p as int], None)));
                }
            },
            None => {
                let mut outcomes: Vec<ObservationOutcome> = Vec::new();
                if let Some(oc) = outcome {
                    outcomes.push(oc);
                }
                let o = SignalObservation {
                    observation_id: c.observation_id[i],
                    identity: SignalResearchIdentity {
                        signal_id: c.signal_id[i].clone(),
                        feature_version: c.feature_version[i],
                        data_schema_version: c.data_schema_version[i],
                        params_hash: c.params_hash[i].clone(),
                        cost_model_hash: c.cost_model_hash[i].clone(),
                    },
                    timestamp_ns: c.ts_ns[i],
                    symbol: SymbolId(c.symbol_id[i]),
                    venue,
                    direction: direction_from_code(c.direction[i]),
                    feature_snapshot: copy_snapshot(snapshot),
                    quality: quality_from_code(c.quality[i]),
                    created_at_ns: c.created_at_ns[i],
                    outcomes,
                };
                proof {
                    let want = with_outcome(obs_of_row(row, snapshots@[i as int]), outcome);
                    assert(o.outcomes@ =~= want.outcomes);
                    assert(o.says() == want);
                }
                let ghost added = o.says();
                out.push(o);
                assert(obs_views(out@) =~= v0.push(added));
            },
        }
        i = i + 1;
    }
    assert(rows.take(i as int) =~= rows);
    Ok(out)
}

// ---------------------------------------------------------------------------
// Round trip
// ---------------------------------------------------------------------------

/// No two observations have the same id.
pub open spec fn distinct_ids(obs: Seq<ObsView>) -> bool {
    forall|i: int, j: int| 0 <= i < j < obs.len() ==> (#[trigger] obs[i]).id != (#[trigger] obs[j]).id
}

/// The snapshot that is decoded for each row is that of the row's
/// observation.
pub open spec fn snapshots_decode(
    obs: Seq<ObsView>,
    rows: Seq<ObsRow>,
    s: Seq<DecodedSnapshot>,
) -> bool {
    forall|i: int, k: int|
        0 <= i < rows.len() && 0 <= k < obs.len() && (#[trigger] rows[i]).head.id == (
        #[trigger] obs[k]).id ==> s[i] is Ok && snapshot_view(s[i]->Ok_0@) == obs[k].snapshot
}

/// Observations with ids of their own read back as they were written, in
/// order and with their outcomes, when their snapshots decode to what they
/// were written from.
pub proof fn law_observation_round_trip(
    obs: Seq<ObsView>,
    jsons: Seq<Seq<char>>,
    s: Seq<DecodedSnapshot>,
)
    requires
        jsons.len() >= obs.len(),
        distinct_ids(obs),
        snapshots_decode(obs, rows_of_all(obs, jsons), s),
    ensures
        obs_of_rows(rows_of_all(obs, jsons), s) == obs,
        rows_sound(rows_of_all(obs, jsons), s, rows_of_all(obs, jsons).len() as int),
    decreases obs.len(),
{
    let rows = rows_of_all(obs, jsons);
    lemma_rows_belong(obs, jsons);
    assert(rows_sound(rows, s, rows.len() as int)) by {
        assert forall|i: int| 0 <= i < rows.len() implies obs_row_fault(
            #[trigger] rows[i],
            s[i],
        ) is None by {
            let k = choose|k: int|
                0 <= k < obs.len() && rows[i].head == obs_head(#[trigger] obs[k], jsons[k]);
            assert(rows[i].head.id == obs[k].id);
            crate::layout::law_venue_code_inverse(obs[k].venue, code_of(obs[k].venue));
        }
    }
    if obs.len() == 0 {
        assert(obs_of_rows(rows, s) =~= obs);
    } else {
        let prev = obs.drop_last();
        let o = obs.last();
        let n = obs.len() - 1;
        let before = rows_of_all(prev, jsons);
        let own = rows_of_obs(o, jsons[n]);
        assert(rows == before + own);
        assert(snapshots_decode(prev, before, s)) by {
            assert forall|i: int, k: int|
                0 <= i < before.len() && 0 <= k < prev.len() && (#[trigger] before[i]).head.id == (
                #[trigger] prev[k]).id implies s[i] is Ok && snapshot_view(s[i]->Ok_0@)
                == prev[k].snapshot by {
                assert(rows[i] == before[i] && obs[k] == prev[k]);
            }
        }
        assert(distinct_ids(prev)) by {
            assert forall|i: int, j: int| 0 <= i < j < prev.len() implies (#[trigger] prev[i]).id
                != (#[trigger] prev[j]).id by {
                assert(obs[i].id != obs[j].id);
            }
        }
        law_observation_round_trip(prev, jsons, s);
        assert(pos_of_id(prev, o.id) is None) by {
            lemma_pos_of_id(prev, o.id);
            if pos_of_id(prev, o.id) is Some {
                let p = pos_of_id(prev, o.id)->0;
                assert(obs[p].id != obs[n].id);
            }
        }
        assert forall|i: int| before.len() <= i < before.len() + own.len() implies (
        #[trigger] s[i]) is Ok && snapshot_view(s[i]->Ok_0@) == o.snapshot by {
            assert(rows[i] == own[i - before.len()]);
            assert(rows[i].head.id == obs[n].id);
        }
        lemma_own_rows(prev, o, before, jsons[n], s, own.len() as int);
        assert((before + own).take((before.len() + own.len()) as int) =~= rows);
        if o.outcomes.len() > 0 {
            assert(o.outcomes.take(own.len() as int) =~= o.outcomes);
        }
        assert(prev.push(o) =~= obs);
    }
}

/// Each row is one of an observation's.
proof fn lemma_rows_belong(obs: Seq<ObsView>, jsons: Seq<Seq<char>>)
    ensures
        forall|i: int|
            0 <= i < rows_of_all(obs, jsons).len() ==> exists|k: int|
                0 <= k < obs.len() && (#[trigger] rows_of_all(obs, jsons)[i]).head == obs_head(
                    #[trigger] obs[k],
                    jsons[k],
                ),
    decreases obs.len(),
{
    if obs.len() > 0 {
        let prev = obs.drop_last();
        lemma_rows_belong(prev, jsons);
        let before = rows_of_all(prev, jsons);
        let rows = rows_of_all(obs, jsons);
        let n = obs.len() - 1;
        assert forall|i: int| 0 <= i < rows.len() implies exists|k: int|
            0 <= k < obs.len() && (#[trigger] rows[i]).head == obs_head(
                #[trigger] obs[k],
                jsons[k],
            ) by {
            if i < before.len() {
                assert(rows[i] == before[i]);
                let k = choose|k: int|
                    0 <= k < prev.len() && before[i].head == obs_head(#[trigger] prev[k], jsons[k]);
                assert(obs[k] == prev[k]);
                assert(rows[i].head == obs_head(obs[k], jsons[k]));
            } else {
                assert(rows[i] == rows_of_obs(obs.last(), jsons[n])[i - before.len()]);
                assert(rows[i].head == obs_head(obs[n], jsons[n]));
            }
        }
    }
}

/// Reading the first `m` rows of an observation behind others gives the
/// observation with its first `m` outcomes.
proof fn lemma_own_rows(
    prev: Seq<ObsView>,
    o: ObsView,
    before: Seq<ObsRow>,
    json: Seq<char>,
    s: Seq<DecodedSnapshot>,
    m: int,
)
    requires
        obs_of_rows(before, s) == prev,
        pos_of_id(prev, o.id) is None,
        1 <= m <= rows_of_obs(o, json).len(),
        forall|i: int|
            before.len() <= i < before.len() + rows_of_obs(o, json).len() ==> (#[trigger] s[i]) is Ok
                && snapshot_view(s[i]->Ok_0@) == o.snapshot,
    ensures
        obs_of_rows((before + rows_of_obs(o, json)).take(before.len() + m), s) == prev.push(
            if o.outcomes.len() == 0 {
                o
            } else {
                ObsView { outcomes: o.outcomes.take(m), ..o }
            },
        ),
    decreases m,
{
    let own = rows_of_obs(o, json);
    let rows = before + own;
    let part = rows.take(before.len() + m);
    let at = before.len() + m - 1;
    assert(part.drop_last() =~= rows.take(before.len() + m - 1));
    assert(part.last() == own[m - 1]);
    assert(s[at] is Ok);
    crate::layout::law_venue_code_inverse(o.venue, code_of(o.venue));
    law_observation_codes(o.quality, o.direction);
    let r = own[m - 1];
    if m == 1 {
        assert(rows.take(before.len() as int) =~= before);
        let got = with_outcome(obs_of_row(r, s[at]), outcome_of(r.cells));
        if o.outcomes.len() == 0 {
            assert(got.outcomes =~= o.outcomes);
            assert(got == o);
        } else {
            assert(got.outcomes =~= o.outcomes.take(1));
            assert(got == (ObsView { outcomes: o.outcomes.take(1), ..o }));
        }
    } else {
        lemma_own_rows(prev, o, before, json, s, m - 1);
        let mid = ObsView { outcomes: o.outcomes.take(m - 1), ..o };
        let out = prev.push(mid);
        assert(obs_of_rows(part.drop_last(), s) == out);
        assert(pos_of_id(out, o.id) == Some(prev.len() as int));
        let got = with_outcome(mid, outcome_of(r.cells));
        assert(got.outcomes =~= o.outcomes.take(m));
        assert(out.update(prev.len() as int, got) =~= prev.push(got));
    }
}

// ---------------------------------------------------------------------------
// Partitions
// ---------------------------------------------------------------------------

/// Why observations are not written, if they are not: other content is there.
pub open spec fn obs_overwrite_fault(existing: Option<u64>, fresh: u64, path: Seq<char>) -> Option<
    Seq<char>,
> {
    match existing {
        Some(h) => if h == fresh {
            None
        } else {
            Some(
                "refusing to overwrite "@ + path
                    + " with different observation content (W-6)"@,
            )
        },
        None => None,
    }
}

/// Whether observations are to be written: yes where there is no file, no
/// where the same content is there already, and refused where other content
/// is. `existing` is the content hash of what is there.
pub fn write_observations_no_overwrite(existing: Option<u64>, fresh: u64, path: &str) -> (r: Result<
    bool,
    StorageError,
>)
    ensures
        match r {
            Ok(write) => obs_overwrite_fault(existing, fresh, path@) is None && write == (
            existing is None),
            Err(e) => obs_overwrite_fault(existing, fresh, path@) is Some && e.says()
                == Failure::Parquet(obs_overwrite_fault(existing, fresh, path@)->0),
        },
{
    match existing {
        None => Ok(true),
        Some(h) => {
            if h == fresh {
                Ok(false)
            } else {
                let mut s = "refusing to overwrite ".to_owned();
                push_text(&mut s, path);
                push_text(&mut s, " with different observation content (W-6)");
                Err(StorageError::Parquet(s))
            }
        },
    }
}

/// One day's file of observations.
#[derive(Debug)]
pub struct ObservationPart {
    pub date: String,
    pub path: String,
    /// The observations of the day, in order.
    pub members: Vec<usize>,
    pub content_hash: u64,
}

/// The date text of an observation.
pub open spec fn obs_date(o: SignalObservation) -> Seq<char> {
    date_text(day_of_ns(o.timestamp_ns as int))
}

/// The positions of the observations of a date, in order.
pub open spec fn obs_on(obs: Seq<SignalObservation>, date: Seq<char>) -> Seq<usize>
    decreases obs.len(),
{
    if obs.len() == 0 {
        Seq::empty()
    } else {
        let before = obs_on(obs.drop_last(), date);
        if obs_date(obs.last()) == date {
            before.push((obs.len() - 1) as usize)
        } else {
            before
        }
    }
}

/// `{root}/observations/{fingerprint}/date={date}-{hash}.parquet`.
pub open spec fn part_path(
    root: Seq<char>,
    fingerprint: Seq<char>,
    date: Seq<char>,
    hash: u64,
) -> Seq<char> {
    joined(
        joined(joined(root, "observations"@), fingerprint),
        "date="@ + date + "-"@ + hex(hash as nat, 16) + ".parquet"@,
    )
}

/// `p` is the file of its date.
pub open spec fn is_part(
    p: ObservationPart,
    root: Seq<char>,
    obs: Seq<SignalObservation>,
    fingerprints: Seq<String>,
) -> bool {
    &&& p.members@ == obs_on(obs, p.date@)
    &&& p.members@.len() > 0
    &&& p.content_hash == obs_hash(
        obs_at(obs, p.members@),
        texts_at(fingerprints, p.members@),
    )
    &&& p.path@ == part_path(root, fingerprints[0]@, p.date@, p.content_hash)
}

/// Whether one of the files has that date.
pub open spec fn has_part(parts: Seq<ObservationPart>, date: Seq<char>) -> bool {
    exists|i: int| 0 <= i < parts.len() && (#[trigger] parts[i]).date@ == date
}

proof fn lemma_obs_on(obs: Seq<SignalObservation>, keys: Seq<String>, date: Seq<char>)
    requires
        keys.len() == obs.len(),
        forall|i: int| 0 <= i < keys.len() ==> (#[trigger] keys[i])@ == obs_date(obs[i]),
    ensures
        obs_on(obs, date) == positions(keys, date),
    decreases obs.len(),
{
    if obs.len() > 0 {
        assert forall|i: int| 0 <= i < keys.drop_last().len() implies (
        #[trigger] keys.drop_last()[i])@ == obs_date(obs.drop_last()[i]) by {
            assert(keys[i]@ == obs_date(obs[i]));
        }
        lemma_obs_on(obs.drop_last(), keys.drop_last(), date);
        assert(keys[keys.len() - 1]@ == obs_date(obs.last()));
    }
}

/// The files of the observations, one for each UTC date on which some of them
/// happened, dates in order. `fingerprints` holds each observation's identity
/// as text; the first names the directory.
pub fn partitioned_write(
    root: &str,
    obs: &Vec<SignalObservation>,
    fingerprints: &Vec<String>,
) -> (parts: Vec<ObservationPart>)
    requires
        fingerprints@.len() == obs@.len(),
    ensures
        forall|i: int|
            0 <= i < parts@.len() ==> is_part(#[trigger] parts@[i], root@, obs@, fingerprints@),
        forall|i: int, j: int|
            0 <= i < j < parts@.len() ==> crate::text::before(
                (#[trigger] parts@[i]).date@,
                (#[trigger] parts@[j]).date@,
            ),
        forall|k: int| 0 <= k < obs@.len() ==> has_part(parts@, obs_date(#[trigger] obs@[k])),
{
    let mut parts: Vec<ObservationPart> = Vec::new();
    if obs.len() == 0 {
        return parts;
    }
    let total: usize = obs.len();
    let mut keys: Vec<String> = Vec::new();
    let mut i: usize = 0;
    while i < total
        invariant
            i <= total,
            total == obs@.len(),
            keys@.len() == i,
            forall|k: int| 0 <= k < i ==> (#[trigger] keys@[k])@ == obs_date(obs@[k]),
        decreases total - i,
    {
        keys.push(date_str(obs[i].timestamp_ns));
        i = i + 1;
    }
    let ghost all = keys@;
    let groups = group_positions(keys);
    let ghost entries = groups.entries@;
    let base = join_path(
        join_path(root, "observations").as_str(),
        fingerprints[0].as_str(),
    );
    for entry in it: groups.entries
        invariant
            it.seq() == entries,
            entries == groups.entries@,
            grouped(all, groups),
            all.len() == obs@.len(),
            all.len() == total,
            total > 0,
            fingerprints@.len() == obs@.len(),
            base@ == joined(joined(root@, "observations"@), fingerprints@[0]@),
            forall|k: int| 0 <= k < all.len() ==> (#[trigger] all[k])@ == obs_date(obs@[k]),
            parts@.len() == it.index(),
            forall|k: int|
                0 <= k < parts@.len() ==> is_part(
                    #[trigger] parts@[k],
                    root@,
                    obs@,
                    fingerprints@,
                ) && parts@[k].date@ == entries[k].0@,
    {
        let ghost g = it.index();
        let (date, members) = entry;
        proof {
            lemma_pos(entries, g);
            assert(groups.map().dom().contains(date@));
            assert(groups.map()[date@]@ == positions(all, date@));
            lemma_positions(all, date@);
            lemma_obs_on(obs@, all, date@);
        }
        assert forall|x: int| 0 <= x < members@.len() implies (#[trigger] members@[x])
            < obs@.len() by {
            assert(positions(all, date@)[x] < all.len());
        }
        let content_hash: u64 = hash_at(obs, fingerprints, &members);
        let mut name = "date=".to_owned();
        push_text(&mut name, date.as_str());
        push_text(&mut name, "-");
        push_hex(&mut name, content_hash, 16);
        push_text(&mut name, ".parquet");
        let path = join_path(base.as_str(), name.as_str());
        let p = ObservationPart { date, path, members, content_hash };
        assert(is_part(p, root@, obs@, fingerprints@));
        parts.push(p);
    }
    proof {
        assert forall|i: int, j: int| 0 <= i < j < parts@.len() implies crate::text::before(
            (#[trigger] parts@[i]).date@,
            (#[trigger] parts@[j]).date@,
        ) by {
            assert(String::precedes(entries[i].0.id(), entries[j].0.id()));
        }
        assert forall|k: int| 0 <= k < obs@.len() implies has_part(
            parts@,
            obs_date(#[trigger] obs@[k]),
        ) by {
            let d = all[k].id();
            assert(d == obs_date(obs@[k]));
            assert(crate::ordered::occurs(all, d));
            assert(groups.map().dom().contains(d));
            let i = crate::ordered::key_pos(entries, d);
            assert(entries[i].0@ == d);
            assert(parts@[i].date@ == d);
        }
    }
    parts
}

/// The codes that qualities and directions are written as.
pub proof fn law_code_tables()
    ensures
        quality_code_of(DataQualityState::Healthy) == 0,
        quality_code_of(DataQualityState::InsufficientHistory) == 1,
        quality_code_of(DataQualityState::Stale) == 2,
        quality_code_of(DataQualityState::Invalid) == 3,
        direction_code_of(Direction::Long) == 1,
        direction_code_of(Direction::Short) == -1,
        direction_byte(Direction::Long) == 1,
        direction_byte(Direction::Short) == 255,
{
}

/// Outcomes that differ in any field have different bytes.
pub proof fn law_outcome_bytes(a: ObservationOutcome, b: ObservationOutcome)
    ensures
        outcome_bytes(a).len() == 57,
        outcome_bytes(a) == outcome_bytes(b) ==> a == b,
{
    crate::fnv::law_capacities();
    crate::fnv::law_le_bytes(unsigned(a.horizon_ns), unsigned(b.horizon_ns), 8);
    crate::fnv::law_le_bytes(unsigned(b.horizon_ns), unsigned(a.horizon_ns), 8);
    crate::fnv::law_le_bytes(a.entry_price.bits, b.entry_price.bits, 8);
    crate::fnv::law_le_bytes(b.entry_price.bits, a.entry_price.bits, 8);
    crate::fnv::law_le_bytes(a.exit_price.bits, b.exit_price.bits, 8);
    crate::fnv::law_le_bytes(b.exit_price.bits, a.exit_price.bits, 8);
    crate::fnv::law_le_bytes(a.gross_return.bits, b.gross_return.bits, 8);
    crate::fnv::law_le_bytes(b.gross_return.bits, a.gross_return.bits, 8);
    crate::fnv::law_le_bytes(a.net_return.bits, b.net_return.bits, 8);
    crate::fnv::law_le_bytes(b.net_return.bits, a.net_return.bits, 8);
    crate::fnv::law_le_bytes(a.mfe.bits, b.mfe.bits, 8);
    crate::fnv::law_le_bytes(b.mfe.bits, a.mfe.bits, 8);
    crate::fnv::law_le_bytes(a.mae.bits, b.mae.bits, 8);
    crate::fnv::law_le_bytes(b.mae.bits, a.mae.bits, 8);
    let (p, q): (u64, u64) = (if a.hit { 1 } else { 0 }, if b.hit { 1 } else { 0 });
    crate::fnv::law_le_bytes(p, q, 1);
    crate::fnv::law_le_bytes(q, p, 1);
    let (x, y) = (outcome_bytes(a), outcome_bytes(b));
    assert(x.subrange(0, 8) =~= le_bytes(unsigned(a.horizon_ns), 8));
    assert(y.subrange(0, 8) =~= le_bytes(unsigned(b.horizon_ns), 8));
    assert(x.subrange(8, 16) =~= le_bytes(a.entry_price.bits, 8));
    assert(y.subrange(8, 16) =~= le_bytes(b.entry_price.bits, 8));
    assert(x.subrange(16, 24) =~= le_bytes(a.exit_price.bits, 8));
    assert(y.subrange(16, 24) =~= le_bytes(b.exit_price.bits, 8));
    assert(x.subrange(24, 32) =~= le_bytes(a.gross_return.bits, 8));
    assert(y.subrange(24, 32) =~= le_bytes(b.gross_return.bits, 8));
    assert(x.subrange(32, 40) =~= le_bytes(a.net_return.bits, 8));
    assert(y.subrange(32, 40) =~= le_bytes(b.net_return.bits, 8));
    assert(x.subrange(40, 48) =~= le_bytes(a.mfe.bits, 8));
    assert(y.subrange(40, 48) =~= le_bytes(b.mfe.bits, 8));
    assert(x.subrange(48, 56) =~= le_bytes(a.mae.bits, 8));
    assert(y.subrange(48, 56) =~= le_bytes(b.mae.bits, 8));
    assert(x.subrange(56, 57) =~= le_bytes(p, 1));
    assert(y.subrange(56, 57) =~= le_bytes(q, 1));
}

/// An outcome's cells hold its own numbers, with one for a hit and zero for a
/// miss; without an outcome they are all empty.
pub proof fn law_outcome_cells(o: ObservationOutcome)
    ensures
        cells_of(Some(o)).horizon_ns == Some(o.horizon_ns),
        cells_of(Some(o)).entry_price == Some(o.entry_price),
        cells_of(Some(o)).exit_price == Some(o.exit_price),
        cells_of(Some(o)).gross_return == Some(o.gross_return),
        cells_of(Some(o)).net_return == Some(o.net_return),
        cells_of(Some(o)).mfe == Some(o.mfe),
        cells_of(Some(o)).mae == Some(o.mae),
        o.hit ==> cells_of(Some(o)).hit == Some(1u8),
        !o.hit ==> cells_of(Some(o)).hit == Some(0u8),
        outcome_of(cells_of(Some(o))) == Some(o),
        cells_of(None).horizon_ns is None,
        cells_of(None).hit is None,
        outcome_of(cells_of(None)) is None,
{
}

/// An observation has a row for each of its outcomes, and one without where it
/// has none; each row repeats the observation.
pub proof fn law_observation_rows(o: ObsView, json: Seq<char>, i: int)
    requires
        0 <= i < rows_of_obs(o, json).len(),
    ensures
        o.outcomes.len() > 0 ==> rows_of_obs(o, json).len() == o.outcomes.len()
            && rows_of_obs(o, json)[i].cells == cells_of(Some(o.outcomes[i])),
        o.outcomes.len() == 0 ==> rows_of_obs(o, json).len() == 1 && rows_of_obs(o, json)[i].cells
            == cells_of(None),
        rows_of_obs(o, json)[i].head.id == o.id,
        rows_of_obs(o, json)[i].head.identity == o.identity,
        rows_of_obs(o, json)[i].head.ts_ns == o.timestamp_ns,
        rows_of_obs(o, json)[i].head.symbol_id == o.symbol.0,
        rows_of_obs(o, json)[i].head.venue_code == code_of(o.venue),
        rows_of_obs(o, json)[i].head.direction == direction_code_of(o.direction),
        rows_of_obs(o, json)[i].head.quality == quality_code_of(o.quality),
        rows_of_obs(o, json)[i].head.created_at_ns == o.created_at_ns,
        rows_of_obs(o, json)[i].head.snapshot_json == json,
{
}

/// A row is refused for a venue that has no code, and for a snapshot that
/// cannot be read; no other row is.
pub proof fn law_row_faults(r: ObsRow, s: DecodedSnapshot)
    ensures
        obs_row_fault(r, s) is None <==> s is Ok && 1 <= r.head.venue_code <= 12,
{
}

/// The observations of a day are those whose time falls on it.
pub proof fn law_obs_on(obs: Seq<SignalObservation>, date: Seq<char>, k: int)
    requires
        0 <= k < obs.len() <= usize::MAX,
    ensures
        obs_on(obs, date).contains(k as usize) <==> date_text(
            day_of_ns(obs[k].timestamp_ns as int),
        ) == date,
{
    lemma_on_exact(obs, date, k);
}

proof fn lemma_on_exact(obs: Seq<SignalObservation>, date: Seq<char>, k: int)
    requires
        0 <= k <= usize::MAX,
        obs.len() <= usize::MAX,
    ensures
        obs_on(obs, date).contains(k as usize) <==> k < obs.len() && date_text(
            day_of_ns(obs[k].timestamp_ns as int),
        ) == date,
    decreases obs.len(),
{
    if obs.len() > 0 {
        let t = obs.drop_last();
        lemma_on_exact(t, date, k);
        assert(k < t.len() ==> t[k] == obs[k]);
        let before = obs_on(t, date);
        let x = (obs.len() - 1) as usize;
        let all = before.push(x);
        assert(all[before.len() as int] == x);
        if before.contains(k as usize) {
            let i = before.index_of(k as usize);
            assert(all[i] == k as usize);
        }
        if all.contains(k as usize) {
            let i = all.index_of(k as usize);
            if i < before.len() {
                assert(before[i] == k as usize);
            }
        }
    }
}

/// A part that is there is kept where its content has the same hash, and the
/// writing refused otherwise.
pub proof fn law_part_overwriting(existing: Option<u64>, fresh: u64, path: Seq<char>)
    ensures
        existing is None ==> obs_overwrite_fault(existing, fresh, path) is None,
        existing is Some ==> (obs_overwrite_fault(existing, fresh, path) is None <==> existing->0
            == fresh),
{
}

/// A row adds its outcome to the observation of its number, and starts one
/// where there is none.
pub proof fn law_row_joins_its_observation(
    out: Seq<ObsView>,
    r: ObsRow,
    s: DecodedSnapshot,
    p: int,
)
    requires
        distinct_ids(out),
    ensures
        0 <= p < out.len() && out[p].id == r.head.id ==> {
            let next = after_row(out, r, s);
            &&& next.len() == out.len()
            &&& forall|i: int| 0 <= i < out.len() && i != p ==> #[trigger] next[i] == out[i]
            &&& r.cells.horizon_ns is Some ==> next[p].outcomes == out[p].outcomes.push(
                outcome_of(r.cells)->0,
            )
            &&& r.cells.horizon_ns is None ==> next[p] == out[p]
        },
        (forall|i: int| 0 <= i < out.len() ==> (#[trigger] out[i]).id != r.head.id) ==> {
            let next = after_row(out, r, s);
            &&& next.len() == out.len() + 1
            &&& next.last().id == r.head.id
            &&& r.cells.horizon_ns is Some ==> next.last().outcomes.len() == 1
            &&& r.cells.horizon_ns is None ==> next.last().outcomes.len() == 0
        },
{
    lemma_pos_of_id(out, r.head.id);
    if 0 <= p < out.len() && out[p].id == r.head.id {
        lemma_found_id(out, r.head.id, p);
        let x = pos_of_id(out, r.head.id)->0;
        if x < p {
            assert(out[x].id != out[p].id);
        } else if p < x {
            assert(out[p].id != out[x].id);
        }
        assert(x == p);
    }
}

proof fn lemma_found_id(out: Seq<ObsView>, id: u64, p: int)
    requires
        0 <= p < out.len(),
        out[p].id == id,
    ensures
        pos_of_id(out, id) is Some,
    decreases out.len(),
{
    if out.last().id != id {
        assert(out.drop_last()[p] == out[p]);
        lemma_found_id(out.drop_last(), id, p);
    }
}

/// A part has the observations of its day, under the hash of their content.
pub proof fn law_part(
    p: ObservationPart,
    root: Seq<char>,
    obs: Seq<SignalObservation>,
    fingerprints: Seq<String>,
    k: int,
)
    requires
        is_part(p, root, obs, fingerprints),
        0 <= k < obs.len() <= usize::MAX,
    ensures
        p.members@.len() > 0,
        p.members@.contains(k as usize) <==> date_text(day_of_ns(obs[k].timestamp_ns as int))
            == p.date@,
        p.content_hash == obs_hash(obs_at(obs, p.members@), texts_at(fingerprints, p.members@)),
        p.path@ == joined(
            joined(joined(root, "observations"@), fingerprints[0]@),
            "date="@ + p.date@ + "-"@ + hex(p.content_hash as nat, 16) + ".parquet"@,
        ),
{
    law_obs_on(obs, p.date@, k);
}

/// Observations of one fingerprint that differ in a field of their head have
/// different bytes.
pub proof fn law_head_bytes(a: ObsView, b: ObsView, fingerprint: Seq<char>)
    ensures
        head_bytes(a, fingerprint) == head_bytes(b, fingerprint) ==> a.id == b.id && a.timestamp_ns
            == b.timestamp_ns && a.symbol == b.symbol && a.venue == b.venue && a.direction
            == b.direction && a.quality == b.quality && a.created_at_ns == b.created_at_ns,
{
    crate::fnv::law_capacities();
    let f = vstd::utf8::encode_utf8(fingerprint);
    let n = f.len() as int;
    let (x, y) = (head_bytes(a, fingerprint), head_bytes(b, fingerprint));
    lemma_field(a.id, b.id, 8);
    lemma_field(unsigned(a.timestamp_ns), unsigned(b.timestamp_ns), 8);
    lemma_field(a.symbol.0 as u64, b.symbol.0 as u64, 4);
    lemma_field(code_of(a.venue) as u64, code_of(b.venue) as u64, 2);
    lemma_field(direction_byte(a.direction), direction_byte(b.direction), 1);
    lemma_field(quality_code_of(a.quality) as u64, quality_code_of(b.quality) as u64, 1);
    lemma_field(unsigned(a.created_at_ns), unsigned(b.created_at_ns), 8);
    assert(x.subrange(0, 8) =~= le_bytes(a.id, 8));
    assert(y.subrange(0, 8) =~= le_bytes(b.id, 8));
    assert(x.subrange(n + 8, n + 16) =~= le_bytes(unsigned(a.timestamp_ns), 8));
    assert(y.subrange(n + 8, n + 16) =~= le_bytes(unsigned(b.timestamp_ns), 8));
    assert(x.subrange(n + 16, n + 20) =~= le_bytes(a.symbol.0 as u64, 4));
    assert(y.subrange(n + 16, n + 20) =~= le_bytes(b.symbol.0 as u64, 4));
    assert(x.subrange(n + 20, n + 22) =~= le_bytes(code_of(a.venue) as u64, 2));
    assert(y.subrange(n + 20, n + 22) =~= le_bytes(code_of(b.venue) as u64, 2));
    assert(x.subrange(n + 22, n + 23) =~= le_bytes(direction_byte(a.direction), 1));
    assert(y.subrange(n + 22, n + 23) =~= le_bytes(direction_byte(b.direction), 1));
    assert(x.subrange(n + 23, n + 24) =~= le_bytes(quality_code_of(a.quality) as u64, 1));
    assert(y.subrange(n + 23, n + 24) =~= le_bytes(quality_code_of(b.quality) as u64, 1));
    assert(x.subrange(n + 24, n + 32) =~= le_bytes(unsigned(a.created_at_ns), 8));
    assert(y.subrange(n + 24, n + 32) =~= le_bytes(unsigned(b.created_at_ns), 8));
    crate::layout::law_venue_code_inverse(a.venue, code_of(a.venue));
    crate::layout::law_venue_code_inverse(b.venue, code_of(b.venue));
}

proof fn lemma_field(n: u64, m: u64, width: nat)
    ensures
        le_bytes(n, width).len() == width,
        le_bytes(m, width).len() == width,
        n < crate::fnv::capacity(width) && m < crate::fnv::capacity(width) && le_bytes(n, width)
            == le_bytes(m, width) ==> n == m,
{
    crate::fnv::law_le_bytes(n, m, width);
    crate::fnv::law_le_bytes(m, n, width);
}

} // verus!
