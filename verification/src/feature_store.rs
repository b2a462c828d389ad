//! The feature store: rows as columns, the content hash, version directories
//! and the streaming buffer.
use vstd::prelude::*;
use crate::calendar::{date_str, date_text, day_of_ns};
use crate::error::{Failure, StorageError};
use crate::fnv::{fnv, fnv1a_absorb, fnv1a_absorb_le, law_fnv_chunks, le_bytes, FNV1A_OFFSET};
use crate::layout::glued;
use crate::number::Real;
use crate::ordered::{
    group_positions, grouped, lemma_pos, lemma_positions, occurs, positions, sort_order,
    stably_sorted, Key,
};
use crate::text::{
    contains, dec, dec_string, hex, join_path, joined, parse_nat, parse_u64_max, push_dec, push_hex,
    push_text, same, strip_prefix, starts, trim_text, trimmed,
};

verus! {

/// Footer keys of a feature file.
pub const KV_FEATURE_VER: &'static str = "feature_ver";

pub const KV_ENGINE_GIT_SHA: &'static str = "engine_git_sha";

pub const KV_PARAMS_HASH: &'static str = "params_hash";

pub const KV_SYMBOLS_HASH: &'static str = "symbols_hash";

/// One sample of a feature.
#[derive(Clone, Copy, Debug, PartialEq, Eq, Structural)]
pub struct FeatureRow {
    pub symbol_id: u32,
    pub venue_code: u16,
    pub ts_ns: i64,
    pub value: Real,
    /// The feature's version when it was emitted.
    pub ver: u16,
}

/// What a feature file says of itself.
#[derive(Debug)]
pub struct FeatureMeta {
    pub feature_ver: u16,
    pub engine_git_sha: String,
    pub params_hash: String,
    /// The hash of the symbol table that the rows refer to; empty when none
    /// was recorded.
    pub symbols_hash: String,
}

// ---------------------------------------------------------------------------
// Columns
// ---------------------------------------------------------------------------

/// The columns of a feature file.
pub struct FeatureColumns {
    pub symbol_id: Vec<u32>,
    pub venue_code: Vec<u16>,
    pub ts_ns: Vec<i64>,
    pub value: Vec<Real>,
    pub ver: Vec<u16>,
}

impl FeatureColumns {
    /// All columns have the same length.
    pub open spec fn wf(&self) -> bool {
        let n = self.symbol_id@.len();
        &&& self.venue_code@.len() == n
        &&& self.ts_ns@.len() == n
        &&& self.value@.len() == n
        &&& self.ver@.len() == n
    }

    /// The rows.
    pub open spec fn rows(&self) -> Seq<FeatureRow> {
        Seq::new(
            self.symbol_id@.len(),
            |i: int|
                FeatureRow {
                    symbol_id: self.symbol_id@[i],
                    venue_code: self.venue_code@[i],
                    ts_ns: self.ts_ns@[i],
                    value: self.value@[i],
                    ver: self.ver@[i],
                },
        )
    }
}

/// The rows as columns.
pub fn write_features(rows: &Vec<FeatureRow>) -> (c: FeatureColumns)
    ensures
        c.wf(),
        c.rows() == rows@,
{
    let mut c = FeatureColumns {
        symbol_id: Vec::new(),
        venue_code: Vec::new(),
        ts_ns: Vec::new(),
        value: Vec::new(),
        ver: Vec::new(),
    };
    let mut i: usize = 0;
    while i < rows.len()
        invariant
            i <= rows@.len(),
            c.wf(),
            c.rows() =~= rows@.take(i as int),
        decreases rows@.len() - i,
    {
        let r = rows[i];
        let ghost before = c.rows();
        c.symbol_id.push(r.symbol_id);
        c.venue_code.push(r.venue_code);
        c.ts_ns.push(r.ts_ns);
        c.value.push(r.value);
        c.ver.push(r.ver);
        assert(c.rows() =~= before.push(r));
        i = i + 1;
    }
    assert(rows@.take(i as int) =~= rows@);
    c
}

/// The columns as rows.
pub fn read_features(c: &FeatureColumns) -> (rows: Vec<FeatureRow>)
    requires
        c.wf(),
    ensures
        rows@ == c.rows(),
{
    let mut rows: Vec<FeatureRow> = Vec::new();
    let mut i: usize = 0;
    while i < c.symbol_id.len()
        invariant
            c.wf(),
            i <= c.symbol_id@.len(),
            rows@ =~= c.rows().take(i as int),
        decreases c.symbol_id@.len() - i,
    {
        rows.push(
            FeatureRow {
                symbol_id: c.symbol_id[i],
                venue_code: c.venue_code[i],
                ts_ns: c.ts_ns[i],
                value: c.value[i],
                ver: c.ver[i],
            },
        );
        i = i + 1;
    }
    assert(rows@ =~= c.rows());
    rows
}

// ---------------------------------------------------------------------------
// Footer
// ---------------------------------------------------------------------------

/// The value under the first entry of that key.
pub open spec fn footer_value(kvs: Seq<(String, Option<String>)>, key: Seq<char>) -> Option<
    Seq<char>,
>
    decreases kvs.len(),
{
    if kvs.len() == 0 {
        None
    } else if kvs[0].0@ == key {
        match kvs[0].1 {
            Some(v) => Some(v@),
            None => None,
        }
    } else {
        footer_value(kvs.skip(1), key)
    }
}

fn find_value(kvs: &Vec<(String, Option<String>)>, key: &str) -> (r: Option<String>)
    ensures
        match r {
            Some(v) => footer_value(kvs@, key@) == Some(v@),
            None => footer_value(kvs@, key@) is None,
        },
{
    let mut i: usize = 0;
    assert(kvs@.skip(0) =~= kvs@);
    while i < kvs.len()
        invariant
            i <= kvs@.len(),
            footer_value(kvs@, key@) == footer_value(kvs@.skip(i as int), key@),
        decreases kvs@.len() - i,
    {
        assert(kvs@.skip(i as int)[0] == kvs@[i as int]);
        assert(kvs@.skip(i as int).skip(1) =~= kvs@.skip(i + 1));
        if same(kvs[i].0.as_str(), key) {
            return match &kvs[i].1 {
                Some(v) => Some(v.clone()),
                None => None,
            };
        }
        i = i + 1;
    }
    None
}

/// What a footer says, if it is a feature file's. A version that is no number
/// counts as 0, and files without a symbol table's hash have an empty one.
pub fn read_feature_meta(kvs: &Vec<(String, Option<String>)>) -> (r: Option<FeatureMeta>)
    ensures
        ({
            let v = footer_value(kvs@, KV_FEATURE_VER@);
            let sha = footer_value(kvs@, KV_ENGINE_GIT_SHA@);
            let ph = footer_value(kvs@, KV_PARAMS_HASH@);
            let sh = footer_value(kvs@, KV_SYMBOLS_HASH@);
            match r {
                Some(m) => v is Some && sha is Some && ph is Some && m.feature_ver == (
                match parse_nat(v->0, u16::MAX as int) {
                    Some(n) => n as u16,
                    None => 0,
                }) && m.engine_git_sha@ == sha->0 && m.params_hash@ == ph->0 && m.symbols_hash@ == (
                match sh {
                    Some(s) => s,
                    None => Seq::empty(),
                }),
                None => v is None || sha is None || ph is None,
            }
        }),
{
    let v = match find_value(kvs, KV_FEATURE_VER) {
        Some(v) => v,
        None => {
            return None;
        },
    };
    let engine_git_sha = match find_value(kvs, KV_ENGINE_GIT_SHA) {
        Some(s) => s,
        None => {
            return None;
        },
    };
    let params_hash = match find_value(kvs, KV_PARAMS_HASH) {
        Some(s) => s,
        None => {
            return None;
        },
    };
    let symbols_hash = match find_value(kvs, KV_SYMBOLS_HASH) {
        Some(s) => s,
        None => String::new(),
    };
    let feature_ver: u16 = match parse_u64_max(v.as_str(), u16::MAX as u64) {
        Some(n) => n as u16,
        None => 0,
    };
    Some(FeatureMeta { feature_ver, engine_git_sha, params_hash, symbols_hash })
}

// ---------------------------------------------------------------------------
// Content hash
// ---------------------------------------------------------------------------

/// The bytes of `x` in two's complement.
pub open spec fn unsigned(x: i64) -> u64 {
    if x >= 0 {
        x as u64
    } else {
        (x + 0x1_0000_0000_0000_0000) as u64
    }
}

/// The bit pattern of `x`.
pub fn to_unsigned(x: i64) -> (u: u64)
    ensures
        u == unsigned(x),
{
    if x >= 0 {
        x as u64
    } else {
        (x as i128 + 0x1_0000_0000_0000_0000i128) as u64
    }
}

/// The bytes of a row.
pub open spec fn row_bytes(r: FeatureRow) -> Seq<u8> {
    le_bytes(r.symbol_id as u64, 4) + le_bytes(r.venue_code as u64, 2) + le_bytes(
        unsigned(r.ts_ns),
        8,
    ) + le_bytes(r.value.bits, 8) + le_bytes(r.ver as u64, 2)
}

/// The bytes of rows, one behind the other.
pub open spec fn rows_bytes(rows: Seq<FeatureRow>) -> Seq<u8>
    decreases rows.len(),
{
    if rows.len() == 0 {
        Seq::empty()
    } else {
        rows_bytes(rows.drop_last()) + row_bytes(rows.last())
    }
}

/// The bytes that identify the content of a file: the version and the two
/// hashes, then the rows. Which build wrote it is not content.
pub open spec fn content_bytes(
    rows: Seq<FeatureRow>,
    ver: u16,
    params_hash: Seq<char>,
    symbols_hash: Seq<char>,
) -> Seq<u8> {
    le_bytes(ver as u64, 2) + vstd::utf8::encode_utf8(params_hash) + vstd::utf8::encode_utf8(
        symbols_hash,
    ) + rows_bytes(rows)
}

/// The content hash of a file.
pub open spec fn content_hash_of(rows: Seq<FeatureRow>, meta: FeatureMeta) -> u64 {
    fnv(
        FNV1A_OFFSET,
        content_bytes(rows, meta.feature_ver, meta.params_hash@, meta.symbols_hash@),
    )
}

fn absorb_row(h: u64, r: &FeatureRow) -> (g: u64)
    ensures
        g == fnv(h, row_bytes(*r)),
{
    let a = fnv1a_absorb_le(h, r.symbol_id as u64, 4);
    let b = fnv1a_absorb_le(a, r.venue_code as u64, 2);
    let c = fnv1a_absorb_le(b, to_unsigned(r.ts_ns), 8);
    let d = fnv1a_absorb_le(c, r.value.bits, 8);
    let e = fnv1a_absorb_le(d, r.ver as u64, 2);
    proof {
        let x1 = le_bytes(r.symbol_id as u64, 4);
        let x2 = x1 + le_bytes(r.venue_code as u64, 2);
        let x3 = x2 + le_bytes(unsigned(r.ts_ns), 8);
        let x4 = x3 + le_bytes(r.value.bits, 8);
        law_fnv_chunks(h, x1, le_bytes(r.venue_code as u64, 2));
        law_fnv_chunks(h, x2, le_bytes(unsigned(r.ts_ns), 8));
        law_fnv_chunks(h, x3, le_bytes(r.value.bits, 8));
        law_fnv_chunks(h, x4, le_bytes(r.ver as u64, 2));
    }
    e
}

/// The content hash of rows and what they say of themselves.
pub fn rows_content_hash(rows: &Vec<FeatureRow>, meta: &FeatureMeta) -> (h: u64)
    ensures
        h == content_hash_of(rows@, *meta),
{
    let h1 = fnv1a_absorb_le(FNV1A_OFFSET, meta.feature_ver as u64, 2);
    let h2 = fnv1a_absorb(h1, meta.params_hash.as_str().as_bytes());
    let h3 = fnv1a_absorb(h2, meta.symbols_hash.as_str().as_bytes());
    let ghost x1 = le_bytes(meta.feature_ver as u64, 2);
    let ghost x2 = x1 + vstd::utf8::encode_utf8(meta.params_hash@);
    let ghost x3 = x2 + vstd::utf8::encode_utf8(meta.symbols_hash@);
    proof {
        law_fnv_chunks(FNV1A_OFFSET, x1, vstd::utf8::encode_utf8(meta.params_hash@));
        law_fnv_chunks(FNV1A_OFFSET, x2, vstd::utf8::encode_utf8(meta.symbols_hash@));
    }
    let mut h: u64 = h3;
    let mut i: usize = 0;
    assert(x3 + rows_bytes(rows@.take(0)) =~= x3);
    while i < rows.len()
        invariant
            i <= rows@.len(),
            h == fnv(FNV1A_OFFSET, x3 + rows_bytes(rows@.take(i as int))),
        decreases rows@.len() - i,
    {
        let ghost done = x3 + rows_bytes(rows@.take(i as int));
        h = absorb_row(h, &rows[i]);
        proof {
            assert(rows@.take(i + 1).drop_last() =~= rows@.take(i as int));
            law_fnv_chunks(FNV1A_OFFSET, done, row_bytes(rows@[i as int]));
            assert(x3 + rows_bytes(rows@.take(i + 1)) =~= done + row_bytes(rows@[i as int]));
        }
        i = i + 1;
    }
    assert(rows@.take(i as int) =~= rows@);
    h
}

/// What is found at the path of a file that is to be written.
pub enum Existing {
    /// Nothing.
    Absent,
    /// A file without a feature footer.
    NoFooter,
    /// A feature file.
    File { rows: Vec<FeatureRow>, meta: FeatureMeta },
}

/// Why a file is not written, if it is not: what is there is no feature file,
/// or holds something else.
pub open spec fn overwrite_fault(
    existing: Existing,
    rows: Seq<FeatureRow>,
    meta: FeatureMeta,
    path: Seq<char>,
) -> Option<Seq<char>> {
    match existing {
        Existing::Absent => None,
        Existing::NoFooter => Some(path + " lacks feature footer"@),
        Existing::File { rows: old_rows, meta: old_meta } => if content_hash_of(
            old_rows@,
            old_meta,
        ) == content_hash_of(rows, meta) {
            None
        } else {
            Some(
                "refusing to overwrite "@ + path
                    + " with different content (W-6): existing (params_hash="@
                    + old_meta.params_hash@ + ", symbols_hash="@ + old_meta.symbols_hash@
                    + ") vs new (params_hash="@ + meta.params_hash@ + ", symbols_hash="@
                    + meta.symbols_hash@ + ")"@,
            )
        },
    }
}

/// Whether a file is to be written: yes where there is none, no where the same
/// content is there already, and refused where other content is.
pub fn write_features_no_overwrite(
    existing: &Existing,
    rows: &Vec<FeatureRow>,
    meta: &FeatureMeta,
    path: &str,
) -> (r: Result<bool, StorageError>)
    ensures
        match r {
            Ok(write) => overwrite_fault(*existing, rows@, *meta, path@) is None && write == (
            *existing is Absent),
            Err(e) => overwrite_fault(*existing, rows@, *meta, path@) is Some && e.says()
                == Failure::Parquet(overwrite_fault(*existing, rows@, *meta, path@)->0),
        },
{
    match existing {
        Existing::Absent => Ok(true),
        Existing::NoFooter => Err(StorageError::Parquet(glued(path, " lacks feature footer"))),
        Existing::File { rows: old_rows, meta: old_meta } => {
            if rows_content_hash(old_rows, old_meta) == rows_content_hash(rows, meta) {
                return Ok(false);
            }
            let mut s = "refusing to overwrite ".to_owned();
            push_text(&mut s, path);
            push_text(&mut s, " with different content (W-6): existing (params_hash=");
            push_text(&mut s, old_meta.params_hash.as_str());
            push_text(&mut s, ", symbols_hash=");
            push_text(&mut s, old_meta.symbols_hash.as_str());
            push_text(&mut s, ") vs new (params_hash=");
            push_text(&mut s, meta.params_hash.as_str());
            push_text(&mut s, ", symbols_hash=");
            push_text(&mut s, meta.symbols_hash.as_str());
            push_text(&mut s, ")");
            Err(StorageError::Parquet(s))
        },
    }
}

/// Writing what is there already is never refused, whichever build wrote it.
pub proof fn law_rewrite_of_same_content_is_no_op(
    rows: Vec<FeatureRow>,
    old_meta: FeatureMeta,
    meta: FeatureMeta,
    path: Seq<char>,
)
    requires
        old_meta.feature_ver == meta.feature_ver,
        old_meta.params_hash@ == meta.params_hash@,
        old_meta.symbols_hash@ == meta.symbols_hash@,
    ensures
        overwrite_fault(Existing::File { rows, meta: old_meta }, rows@, meta, path) is None,
{
}

// ---------------------------------------------------------------------------
// Versions
// ---------------------------------------------------------------------------

/// A directory beside a feature's versions, and the text of its marker if it
/// has one.
#[derive(Debug)]
pub struct VersionDir {
    pub name: String,
    pub marker: Option<String>,
}

/// The number of a `ver=N` directory.
pub open spec fn version_of(name: Seq<char>) -> Option<nat> {
    if starts(name, "ver="@) {
        parse_nat(name.skip("ver="@.len() as int), u16::MAX as int)
    } else {
        None
    }
}

/// The marker of a version: the parameters' hash and the feature's version.
pub open spec fn version_key(params_hash: Seq<char>, feature_ver: u16) -> Seq<char> {
    params_hash + ":"@ + dec(feature_ver as nat)
}

/// Whether directory `d` was made for these parameters and this version:
/// its marker names both, or it is an older one that names the parameters
/// only and stands for this very version.
pub open spec fn is_match(d: VersionDir, params_hash: Seq<char>, feature_ver: u16) -> bool {
    version_of(d.name@) matches Some(n) && d.marker matches Some(m) && {
        let text = trimmed(m@);
        text == version_key(params_hash, feature_ver) || (!contains(text, ":"@) && text
            == params_hash && n == feature_ver)
    }
}

/// The first directory that matches.
pub open spec fn first_match(dirs: Seq<VersionDir>, params_hash: Seq<char>, feature_ver: u16) -> Option<
    nat,
>
    decreases dirs.len(),
{
    if dirs.len() == 0 {
        None
    } else {
        let before = first_match(dirs.drop_last(), params_hash, feature_ver);
        if before is Some {
            before
        } else if is_match(dirs.last(), params_hash, feature_ver) {
            version_of(dirs.last().name@)
        } else {
            None
        }
    }
}

/// The greatest version among the directories.
pub open spec fn max_version(dirs: Seq<VersionDir>) -> Option<nat>
    decreases dirs.len(),
{
    if dirs.len() == 0 {
        None
    } else {
        let before = max_version(dirs.drop_last());
        match (before, version_of(dirs.last().name@)) {
            (Some(a), Some(b)) => Some(
                if a > b {
                    a
                } else {
                    b
                },
            ),
            (None, Some(b)) => Some(b),
            (a, None) => a,
        }
    }
}

/// Which version directory is used.
#[derive(Debug)]
pub enum VersionChoice {
    /// An existing one.
    Reuse(u16),
    /// A new one, with this marker.
    Allocate { ver: u16, marker: String },
}

fn version_number(name: &str) -> (r: Option<u16>)
    ensures
        match r {
            Some(n) => version_of(name@) == Some(n as nat),
            None => version_of(name@) is None,
        },
{
    match strip_prefix(name, "ver=") {
        Some(rest) => match parse_u64_max(rest.as_str(), u16::MAX as u64) {
            Some(n) => Some(n as u16),
            None => None,
        },
        None => None,
    }
}

fn has_colon(s: &str) -> (r: bool)
    ensures
        r == contains(s@, ":"@),
{
    crate::text::contains_text(s, ":")
}

/// Whether a version directory can be had: one was made for the parameters and
/// the feature's version, or there is room for one behind the greatest.
pub open spec fn version_room(dirs: Seq<VersionDir>, params_hash: Seq<char>, feature_ver: u16) -> bool {
    first_match(dirs, params_hash, feature_ver) is Some || (max_version(dirs) matches Some(m)
        ==> m < u16::MAX)
}

/// The version of the first directory that was made for the parameters and the
/// feature's version; without one, the greatest version that is there.
fn scan_versions(dirs: &Vec<VersionDir>, params_hash: &str, feature_ver: u16) -> (r: Result<
    u16,
    Option<u16>,
>)
    ensures
        match r {
            Ok(n) => first_match(dirs@, params_hash@, feature_ver) == Some(n as nat),
            Err(max) => first_match(dirs@, params_hash@, feature_ver) is None && max_version(dirs@)
                == (match max {
                Some(m) => Some(m as nat),
                None => None,
            }),
        },
{
    let mut key = params_hash.to_owned();
    push_text(&mut key, ":");
    push_dec(&mut key, feature_ver as u64);
    let mut max: Option<u16> = None;
    let mut i: usize = 0;
    while i < dirs.len()
        invariant
            i <= dirs@.len(),
            key@ == version_key(params_hash@, feature_ver),
            first_match(dirs@.take(i as int), params_hash@, feature_ver) is None,
            max_version(dirs@.take(i as int)) == match max {
                Some(m) => Some(m as nat),
                None => None,
            },
        decreases dirs@.len() - i,
    {
        let d = &dirs[i];
        let ghost next = dirs@.take(i + 1);
        assert(next.drop_last() =~= dirs@.take(i as int));
        assert(next.last() == *d);
        if let Some(n) = version_number(d.name.as_str()) {
            max = match max {
                Some(m) => if m > n {
                    Some(m)
                } else {
                    Some(n)
                },
                None => Some(n),
            };
            if let Some(m) = &d.marker {
                let text = trim_text(m.as_str());
                if same(text.as_str(), key.as_str()) || (!has_colon(text.as_str()) && same(
                    text.as_str(),
                    params_hash,
                ) && n == feature_ver) {
                    proof {
                        assert(is_match(*d, params_hash@, feature_ver));
                        lemma_first_match_stays(dirs@, params_hash@, feature_ver, i + 1);
                    }
                    return Ok(n);
                }
            }
        }
        i = i + 1;
    }
    assert(dirs@.take(i as int) =~= dirs@);
    Err(max)
}

/// Whether a version directory can be had for the parameters and the feature's
/// version.
pub fn version_left(dirs: &Vec<VersionDir>, params_hash: &str, feature_ver: u16) -> (r: bool)
    ensures
        r == version_room(dirs@, params_hash@, feature_ver),
{
    match scan_versions(dirs, params_hash, feature_ver) {
        Ok(_) => true,
        Err(Some(m)) => m < u16::MAX,
        Err(None) => true,
    }
}

/// The version directory for the parameters and the feature's version, given
/// the directories that are there: the first that was made for them, or a new
/// one behind the greatest. Changed parameters or a changed version never
/// reuse a directory.
pub fn resolve_version(dirs: &Vec<VersionDir>, params_hash: &str, feature_ver: u16) -> (r:
    VersionChoice)
    requires
        version_room(dirs@, params_hash@, feature_ver),
    ensures
        match r {
            VersionChoice::Reuse(n) => first_match(dirs@, params_hash@, feature_ver) == Some(
                n as nat,
            ),
            VersionChoice::Allocate { ver, marker } => first_match(
                dirs@,
                params_hash@,
                feature_ver,
            ) is None && ver == (match max_version(dirs@) {
                Some(m) => m + 1,
                None => 0,
            }) && marker@ == version_key(params_hash@, feature_ver),
        },
{
    let mut key = params_hash.to_owned();
    push_text(&mut key, ":");
    push_dec(&mut key, feature_ver as u64);
    match scan_versions(dirs, params_hash, feature_ver) {
        Ok(n) => VersionChoice::Reuse(n),
        Err(Some(m)) => VersionChoice::Allocate { ver: m + 1, marker: key },
        Err(None) => VersionChoice::Allocate { ver: 0, marker: key },
    }
}

proof fn lemma_first_match_stays(
    dirs: Seq<VersionDir>,
    params_hash: Seq<char>,
    feature_ver: u16,
    k: int,
)
    requires
        0 <= k <= dirs.len(),
        first_match(dirs.take(k), params_hash, feature_ver) is Some,
    ensures
        first_match(dirs, params_hash, feature_ver) == first_match(
            dirs.take(k),
            params_hash,
            feature_ver,
        ),
    decreases dirs.len(),
{
    if k < dirs.len() {
        assert(dirs.drop_last().take(k) =~= dirs.take(k));
        lemma_first_match_stays(dirs.drop_last(), params_hash, feature_ver, k);
    } else {
        assert(dirs.take(k) =~= dirs);
    }
}

/// A new version is greater than every version that is there, so that
/// recorded data is never overwritten.
pub proof fn law_new_version_is_fresh(dirs: Seq<VersionDir>, i: int)
    requires
        0 <= i < dirs.len(),
        version_of(dirs[i].name@) is Some,
    ensures
        max_version(dirs) is Some,
        version_of(dirs[i].name@)->0 < max_version(dirs)->0 + 1,
    decreases dirs.len(),
{
    if i < dirs.len() - 1 {
        law_new_version_is_fresh(dirs.drop_last(), i);
        assert(dirs.drop_last()[i] == dirs[i]);
    }
}

// ---------------------------------------------------------------------------
// Paths
// ---------------------------------------------------------------------------

/// `{root}/{feature}/ver={n}/venue={v}/symbol={s}`.
pub open spec fn feature_dir_path(
    root: Seq<char>,
    feature: Seq<char>,
    ver: u16,
    venue: Seq<char>,
    symbol_id: u32,
) -> Seq<char> {
    joined(
        joined(
            joined(joined(root, feature), "ver="@ + dec(ver as nat)),
            "venue="@ + venue,
        ),
        "symbol="@ + dec(symbol_id as nat),
    )
}

fn feature_dir(root: &str, feature: &str, ver: u16, venue: &str, symbol_id: u32) -> (s: String)
    ensures
        s@ == feature_dir_path(root@, feature@, ver, venue@, symbol_id),
{
    let a = join_path(root, feature);
    let b = join_path(
        a.as_str(),
        glued("ver=", dec_string(ver as u64).as_str()).as_str(),
    );
    let c = join_path(b.as_str(), glued("venue=", venue).as_str());
    join_path(c.as_str(), glued("symbol=", dec_string(symbol_id as u64).as_str()).as_str())
}

/// The file of a materialized day: `{dir}/{date}.parquet`.
pub fn materialize(
    root: &str,
    feature: &str,
    venue_slug: &str,
    symbol_id: u32,
    date: &str,
    ver: u16,
) -> (s: String)
    ensures
        s@ == joined(
            feature_dir_path(root@, feature@, ver, venue_slug@, symbol_id),
            date@ + ".parquet"@,
        ),
{
    join_path(
        feature_dir(root, feature, ver, venue_slug, symbol_id).as_str(),
        glued(date, ".parquet").as_str(),
    )
}

// ---------------------------------------------------------------------------
// Partition by day
// ---------------------------------------------------------------------------

/// The rows of one day.
#[derive(Debug)]
pub struct DayRows {
    pub date: String,
    pub rows: Vec<FeatureRow>,
}

/// The rows whose day has the date text `date`, in order.
pub open spec fn rows_on(rows: Seq<FeatureRow>, date: Seq<char>) -> Seq<FeatureRow>
    decreases rows.len(),
{
    if rows.len() == 0 {
        Seq::empty()
    } else {
        let before = rows_on(rows.drop_last(), date);
        if date_text(day_of_ns(rows.last().ts_ns as int)) == date {
            before.push(rows.last())
        } else {
            before
        }
    }
}

/// `days` are the rows parted by the day on which each happened, days in
/// order; no day is empty.
pub open spec fn parted_by_day(rows: Seq<FeatureRow>, days: Seq<DayRows>) -> bool {
    &&& forall|i: int|
        0 <= i < days.len() ==> (#[trigger] days[i]).rows@ == rows_on(rows, days[i].date@)
            && days[i].rows@.len() > 0
    &&& forall|i: int, j: int|
        0 <= i < j < days.len() ==> crate::text::before(
            (#[trigger] days[i]).date@,
            (#[trigger] days[j]).date@,
        )
    &&& forall|k: int| 0 <= k < rows.len() ==> has_day(days, #[trigger] row_date(rows, k))
}

/// The date text of row `k`.
pub open spec fn row_date(rows: Seq<FeatureRow>, k: int) -> Seq<char> {
    date_text(day_of_ns(rows[k].ts_ns as int))
}

/// Whether one of the days has that date.
pub open spec fn has_day(days: Seq<DayRows>, date: Seq<char>) -> bool {
    exists|i: int| 0 <= i < days.len() && (#[trigger] days[i]).date@ == date
}

proof fn lemma_rows_on_positions(rows: Seq<FeatureRow>, keys: Seq<String>, date: Seq<char>)
    requires
        keys.len() == rows.len(),
        rows.len() <= usize::MAX,
        forall|i: int|
            0 <= i < keys.len() ==> (#[trigger] keys[i])@ == date_text(
                day_of_ns(rows[i].ts_ns as int),
            ),
    ensures
        rows_on(rows, date) == Seq::new(
            positions(keys, date).len(),
            |i: int| rows[positions(keys, date)[i] as int],
        ),
    decreases rows.len(),
{
    if rows.len() > 0 {
        let r0 = rows.drop_last();
        let k0 = keys.drop_last();
        assert forall|i: int| 0 <= i < k0.len() implies (#[trigger] k0[i])@ == date_text(
            day_of_ns(r0[i].ts_ns as int),
        ) by {
            assert(keys[i]@ == date_text(day_of_ns(rows[i].ts_ns as int)));
        }
        lemma_rows_on_positions(r0, k0, date);
        lemma_positions(k0, date);
        let p0 = positions(k0, date);
        let p = positions(keys, date);
        assert(keys[keys.len() - 1]@ == date_text(day_of_ns(rows.last().ts_ns as int)));
        let want = Seq::new(p.len(), |i: int| rows[p[i] as int]);
        let b = Seq::new(p0.len(), |i: int| r0[p0[i] as int]);
        assert forall|i: int| 0 <= i < p0.len() implies want[i] == #[trigger] b[i] by {
            assert(p[i] == p0[i]);
            assert(p0[i] < k0.len());
        }
        if keys.last().id() == date {
            assert(want =~= b.push(rows.last()));
        } else {
            assert(want =~= b);
        }
    } else {
        assert(positions(keys, date).len() == 0);
        assert(rows_on(rows, date) =~= Seq::new(
            positions(keys, date).len(),
            |i: int| rows[positions(keys, date)[i] as int],
        ));
    }
}

/// The rows parted by the UTC day on which each happened.
pub fn part_by_day(rows: &Vec<FeatureRow>) -> (days: Vec<DayRows>)
    ensures
        parted_by_day(rows@, days@),
{
    let mut keys: Vec<String> = Vec::new();
    let total: usize = rows.len();
    let mut i: usize = 0;
    while i < total
        invariant
            i <= total,
            total == rows@.len(),
            keys@.len() == i,
            forall|k: int|
                0 <= k < i ==> (#[trigger] keys@[k])@ == date_text(
                    day_of_ns(rows@[k].ts_ns as int),
                ),
        decreases total - i,
    {
        keys.push(date_str(rows[i].ts_ns));
        i = i + 1;
    }
    let ghost all = keys@;
    let groups = group_positions(keys);
    let ghost entries = groups.entries@;
    let mut days: Vec<DayRows> = Vec::new();
    let mut g: usize = 0;
    while g < groups.entries.len()
        invariant
            g <= entries.len(),
            entries == groups.entries@,
            grouped(all, groups),
            all.len() == rows@.len(),
            all.len() == total,
            forall|k: int|
                0 <= k < all.len() ==> (#[trigger] all[k])@ == date_text(
                    day_of_ns(rows@[k].ts_ns as int),
                ),
            days@.len() == g,
            forall|k: int|
                0 <= k < g ==> (#[trigger] days@[k]).date@ == entries[k].0@ && days@[k].rows@
                    == rows_on(rows@, days@[k].date@) && days@[k].rows@.len() > 0,
        decreases entries.len() - g,
    {
        let entry = &groups.entries[g];
        let ghost k = entry.0@;
        proof {
            lemma_pos(entries, g as int);
            assert(groups.map().dom().contains(k));
            assert(groups.map()[k]@ == positions(all, k));
            lemma_positions(all, k);
            lemma_rows_on_positions(rows@, all, k);
        }
        let ghost members = entry.1@;
        let mut day: Vec<FeatureRow> = Vec::new();
        let mut m: usize = 0;
        while m < entry.1.len()
            invariant
                m <= entry.1@.len(),
                members == entry.1@,
                forall|x: int| 0 <= x < members.len() ==> (#[trigger] members[x]) < rows@.len(),
                day@ =~= Seq::new(m as nat, |x: int| rows@[members[x] as int]),
            decreases entry.1@.len() - m,
        {
            day.push(rows[entry.1[m]]);
            m = m + 1;
        }
        assert(day@ =~= rows_on(rows@, k));
        days.push(DayRows { date: entry.0.clone(), rows: day });
        g = g + 1;
    }
    proof {
        assert forall|i: int, j: int| 0 <= i < j < days@.len() implies crate::text::before(
            (#[trigger] days@[i]).date@,
            (#[trigger] days@[j]).date@,
        ) by {
            assert(String::precedes(entries[i].0.id(), entries[j].0.id()));
        }
        assert forall|k: int| 0 <= k < rows@.len() implies has_day(
            days@,
            #[trigger] row_date(rows@, k),
        ) by {
            let d = all[k].id();
            assert(occurs(all, d));
            assert(groups.map().dom().contains(d));
            let i = crate::ordered::key_pos(entries, d);
            assert(entries[i].0@ == d);
            assert(days@[i].date@ == d);
        }
    }
    days
}

// ---------------------------------------------------------------------------
// The streaming buffer
// ---------------------------------------------------------------------------

/// Rows of one feature, venue and symbol that are not on disk yet.
pub struct StreamingFeatureStore {
    pub root: String,
    pub buffer: Vec<FeatureRow>,
    pub meta: FeatureMeta,
    pub flush_threshold: usize,
    pub last_flush_ns: i64,
    pub flush_interval_ns: i64,
    pub feature: String,
    pub venue_slug: String,
    pub symbol_id: u32,
}

/// One file of a flush.
#[derive(Debug)]
pub struct FlushFile {
    pub path: String,
    pub rows: Vec<FeatureRow>,
}

/// `sorted` are the rows by time, equal times keeping their order.
pub open spec fn time_sorted(rows: Seq<FeatureRow>, sorted: Seq<FeatureRow>) -> bool {
    exists|order: Seq<usize>|
        #![trigger time_sorted_by(rows, sorted, order)]
        time_sorted_by(rows, sorted, order)
}

/// `sorted` are the rows at the positions `order`, which sort them by time.
pub open spec fn time_sorted_by(
    rows: Seq<FeatureRow>,
    sorted: Seq<FeatureRow>,
    order: Seq<usize>,
) -> bool {
    &&& stably_sorted(Seq::new(rows.len(), |i: int| rows[i].ts_ns), order)
    &&& sorted == Seq::new(order.len(), |i: int| rows[order[i] as int])
}

fn sort_by_time(rows: &Vec<FeatureRow>) -> (sorted: Vec<FeatureRow>)
    ensures
        time_sorted(rows@, sorted@),
{
    let mut keys: Vec<i64> = Vec::new();
    let mut i: usize = 0;
    while i < rows.len()
        invariant
            i <= rows@.len(),
            keys@ =~= Seq::new(i as nat, |k: int| rows@[k].ts_ns),
        decreases rows@.len() - i,
    {
        keys.push(rows[i].ts_ns);
        i = i + 1;
    }
    assert(keys@ =~= Seq::new(rows@.len(), |k: int| rows@[k].ts_ns));
    let order = sort_order(&keys);
    let mut sorted: Vec<FeatureRow> = Vec::new();
    let mut j: usize = 0;
    while j < order.len()
        invariant
            j <= order@.len(),
            keys@.len() == rows@.len(),
            stably_sorted(keys@, order@),
            sorted@ =~= Seq::new(j as nat, |k: int| rows@[order@[k] as int]),
        decreases order@.len() - j,
    {
        sorted.push(rows[order[j]]);
        j = j + 1;
    }
    assert(sorted@ =~= Seq::new(order@.len(), |k: int| rows@[order@[k] as int]));
    assert(time_sorted_by(rows@, sorted@, order@));
    sorted
}

/// The file of one day of a flush: `{dir}/{date}-{hash}.parquet`.
pub open spec fn flush_path(
    store: StreamingFeatureStore,
    ver: u16,
    date: Seq<char>,
    rows: Seq<FeatureRow>,
) -> Seq<char> {
    joined(
        feature_dir_path(
            store.root@,
            store.feature@,
            ver,
            store.venue_slug@,
            store.symbol_id,
        ),
        date + "-"@ + hex(content_hash_of(rows, store.meta) as nat, 16) + ".parquet"@,
    )
}

/// `files` are the files of a flush of the rows `sorted`.
pub open spec fn are_flush_files(
    files: Seq<FlushFile>,
    store: StreamingFeatureStore,
    ver: u16,
    sorted: Seq<FeatureRow>,
) -> bool {
    exists|days: Seq<DayRows>|
        #![trigger parted_by_day(sorted, days)]
        parted_by_day(sorted, days) && days.len() == files.len() && forall|i: int|
            0 <= i < files.len() ==> (#[trigger] files[i]).rows@ == days[i].rows@ && files[i].path@
                == flush_path(store, ver, days[i].date@, days[i].rows@)
}

impl StreamingFeatureStore {
    /// An empty buffer that is due at ten thousand rows or after a minute.
    pub fn new(
        root: &str,
        feature: &str,
        venue_slug: &str,
        symbol_id: u32,
        meta: FeatureMeta,
    ) -> (s: StreamingFeatureStore)
        ensures
            s.root@ == root@,
            s.feature@ == feature@,
            s.venue_slug@ == venue_slug@,
            s.symbol_id == symbol_id,
            s.meta == meta,
            s.buffer@.len() == 0,
            s.flush_threshold == 10_000,
            s.last_flush_ns == 0,
            s.flush_interval_ns == 60_000_000_000,
    {
        StreamingFeatureStore {
            root: root.to_owned(),
            buffer: Vec::new(),
            meta,
            flush_threshold: 10_000,
            last_flush_ns: 0,
            flush_interval_ns: 60_000_000_000,
            feature: feature.to_owned(),
            venue_slug: venue_slug.to_owned(),
            symbol_id,
        }
    }

    /// Adds a row, and tells whether the buffer is due: at the threshold, or
    /// when the interval has passed in event time.
    pub fn push(&mut self, row: FeatureRow, ts_ns: i64) -> (due: bool)
        requires
            i64::MIN <= ts_ns - old(self).last_flush_ns <= i64::MAX,
        ensures
            final(self).buffer@ == old(self).buffer@.push(row),
            due == (old(self).buffer@.len() + 1 >= old(self).flush_threshold || ts_ns - old(
                self,
            ).last_flush_ns >= old(self).flush_interval_ns),
            final(self).root == old(self).root,
            final(self).meta == old(self).meta,
            final(self).flush_threshold == old(self).flush_threshold,
            final(self).last_flush_ns == old(self).last_flush_ns,
            final(self).flush_interval_ns == old(self).flush_interval_ns,
            final(self).feature == old(self).feature,
            final(self).venue_slug == old(self).venue_slug,
            final(self).symbol_id == old(self).symbol_id,
    {
        self.buffer.push(row);
        let elapsed: i64 = ts_ns - self.last_flush_ns;
        self.buffer.len() >= self.flush_threshold || elapsed >= self.flush_interval_ns
    }

    /// Empties the buffer into the files of a flush under version `ver`: rows
    /// by time, parted by the day on which each happened. An empty buffer
    /// makes no file, and is not stamped. Once the files are written, or one of
    /// them is not, [`settle_flush`](Self::settle_flush) settles the stamp.
    pub fn flush(&mut self, ts_ns: i64, ver: u16) -> (files: Vec<FlushFile>)
        ensures
            final(self).buffer@.len() == 0,
            old(self).buffer@.len() == 0 ==> files@.len() == 0 && final(self).last_flush_ns == old(
                self,
            ).last_flush_ns,
            old(self).buffer@.len() > 0 ==> final(self).last_flush_ns == ts_ns && exists|
                sorted: Seq<FeatureRow>,
            | #[trigger]
                time_sorted(old(self).buffer@, sorted) && are_flush_files(
                    files@,
                    *old(self),
                    ver,
                    sorted,
                ),
            final(self).root == old(self).root,
            final(self).meta == old(self).meta,
            final(self).flush_threshold == old(self).flush_threshold,
            final(self).flush_interval_ns == old(self).flush_interval_ns,
            final(self).feature == old(self).feature,
            final(self).venue_slug == old(self).venue_slug,
            final(self).symbol_id == old(self).symbol_id,
    {
        let mut files: Vec<FlushFile> = Vec::new();
        if self.buffer.len() == 0 {
            return files;
        }
        let ghost store = *self;
        let sorted = sort_by_time(&self.buffer);
        let days = part_by_day(&sorted);
        let dir = feature_dir(
            self.root.as_str(),
            self.feature.as_str(),
            ver,
            self.venue_slug.as_str(),
            self.symbol_id,
        );
        let ghost all = days@;
        for day in it: days
            invariant
                it.seq() == all,
                files@.len() == it.index(),
                *self == store,
                dir@ == feature_dir_path(
                    store.root@,
                    store.feature@,
                    ver,
                    store.venue_slug@,
                    store.symbol_id,
                ),
                forall|i: int|
                    0 <= i < files@.len() ==> (#[trigger] files@[i]).rows@ == all[i].rows@
                        && files@[i].path@ == flush_path(
                        store,
                        ver,
                        all[i].date@,
                        all[i].rows@,
                    ),
        {
            let DayRows { date, rows } = day;
            let h: u64 = rows_content_hash(&rows, &self.meta);
            let mut name = date;
            push_text(&mut name, "-");
            push_hex(&mut name, h, 16);
            push_text(&mut name, ".parquet");
            let path = join_path(dir.as_str(), name.as_str());
            files.push(FlushFile { path, rows });
        }
        proof {
            assert(parted_by_day(sorted@, all));
            assert(are_flush_files(files@, store, ver, sorted@));
        }
        self.buffer = Vec::new();
        self.last_flush_ns = ts_ns;
        files
    }

    /// Settles a flush: where not all of its files were written, the stamp is
    /// what it was before the flush, `before`.
    pub fn settle_flush(&mut self, before: i64, written: bool)
        ensures
            final(self).last_flush_ns == if written {
                old(self).last_flush_ns
            } else {
                before
            },
            final(self).buffer == old(self).buffer,
            final(self).root == old(self).root,
            final(self).meta == old(self).meta,
            final(self).flush_threshold == old(self).flush_threshold,
            final(self).flush_interval_ns == old(self).flush_interval_ns,
            final(self).feature == old(self).feature,
            final(self).venue_slug == old(self).venue_slug,
            final(self).symbol_id == old(self).symbol_id,
    {
        if !written {
            self.last_flush_ns = before;
        }
    }
}

/// A footer's value is that of the first entry under the key.
pub proof fn law_first_footer_entry(kvs: Seq<(String, Option<String>)>, key: Seq<char>, i: int)
    ensures
        0 <= i < kvs.len() && kvs[i].0@ == key && (forall|k: int|
            0 <= k < i ==> (#[trigger] kvs[k]).0@ != key) ==> {
            &&& kvs[i].1 is Some ==> footer_value(kvs, key) == Some(kvs[i].1->0@)
            &&& kvs[i].1 is None ==> footer_value(kvs, key) is None
        },
        (forall|k: int| 0 <= k < kvs.len() ==> (#[trigger] kvs[k]).0@ != key) ==> footer_value(
            kvs,
            key,
        ) is None,
    decreases kvs.len(),
{
    if kvs.len() > 0 && kvs[0].0@ != key {
        let t = kvs.skip(1);
        assert(forall|k: int| 0 <= k < t.len() ==> t[k] == kvs[k + 1]);
        law_first_footer_entry(t, key, i - 1);
    }
}

/// Rows that differ in any field have different bytes.
pub proof fn law_row_bytes(a: FeatureRow, b: FeatureRow)
    ensures
        row_bytes(a).len() == 24,
        row_bytes(a) == row_bytes(b) ==> a == b,
{
    crate::fnv::law_capacities();
    crate::fnv::law_le_bytes(a.symbol_id as u64, b.symbol_id as u64, 4);
    crate::fnv::law_le_bytes(b.symbol_id as u64, a.symbol_id as u64, 4);
    crate::fnv::law_le_bytes(a.venue_code as u64, b.venue_code as u64, 2);
    crate::fnv::law_le_bytes(b.venue_code as u64, a.venue_code as u64, 2);
    crate::fnv::law_le_bytes(unsigned(a.ts_ns), unsigned(b.ts_ns), 8);
    crate::fnv::law_le_bytes(unsigned(b.ts_ns), unsigned(a.ts_ns), 8);
    crate::fnv::law_le_bytes(a.value.bits, b.value.bits, 8);
    crate::fnv::law_le_bytes(b.value.bits, a.value.bits, 8);
    crate::fnv::law_le_bytes(a.ver as u64, b.ver as u64, 2);
    crate::fnv::law_le_bytes(b.ver as u64, a.ver as u64, 2);
    let (x, y) = (row_bytes(a), row_bytes(b));
    assert(x.subrange(0, 4) =~= le_bytes(a.symbol_id as u64, 4));
    assert(y.subrange(0, 4) =~= le_bytes(b.symbol_id as u64, 4));
    assert(x.subrange(4, 6) =~= le_bytes(a.venue_code as u64, 2));
    assert(y.subrange(4, 6) =~= le_bytes(b.venue_code as u64, 2));
    assert(x.subrange(6, 14) =~= le_bytes(unsigned(a.ts_ns), 8));
    assert(y.subrange(6, 14) =~= le_bytes(unsigned(b.ts_ns), 8));
    assert(x.subrange(14, 22) =~= le_bytes(a.value.bits, 8));
    assert(y.subrange(14, 22) =~= le_bytes(b.value.bits, 8));
    assert(x.subrange(22, 24) =~= le_bytes(a.ver as u64, 2));
    assert(y.subrange(22, 24) =~= le_bytes(b.ver as u64, 2));
}

/// Lists of rows that differ have different bytes.
pub proof fn law_rows_bytes(a: Seq<FeatureRow>, b: Seq<FeatureRow>)
    ensures
        rows_bytes(a).len() == 24 * a.len(),
        rows_bytes(a) == rows_bytes(b) ==> a == b,
    decreases a.len(),
{
    lemma_rows_len(a);
    lemma_rows_len(b);
    if rows_bytes(a) == rows_bytes(b) {
        assert(a.len() == b.len());
        if a.len() > 0 {
            let (p, q) = (a.drop_last(), b.drop_last());
            lemma_rows_len(p);
            lemma_rows_len(q);
            let n = 24 * p.len() as int;
            assert(rows_bytes(a).take(n) =~= rows_bytes(p));
            assert(rows_bytes(b).take(n) =~= rows_bytes(q));
            assert(rows_bytes(a).skip(n) =~= row_bytes(a.last()));
            assert(rows_bytes(b).skip(n) =~= row_bytes(b.last()));
            law_rows_bytes(p, q);
            law_row_bytes(a.last(), b.last());
            assert(a =~= p.push(a.last()));
            assert(b =~= q.push(b.last()));
        } else {
            assert(a =~= b);
        }
    }
}

proof fn lemma_rows_len(a: Seq<FeatureRow>)
    ensures
        rows_bytes(a).len() == 24 * a.len(),
    decreases a.len(),
{
    if a.len() > 0 {
        lemma_rows_len(a.drop_last());
        law_row_bytes(a.last(), a.last());
    }
}

/// The hashed content starts with the version and the two hashes of the
/// metadata, and ends with the rows.
pub proof fn law_content_bytes(
    rows: Seq<FeatureRow>,
    ver: u16,
    other: u16,
    params_hash: Seq<char>,
    symbols_hash: Seq<char>,
)
    ensures
        content_bytes(rows, ver, params_hash, symbols_hash) == content_bytes(
            rows,
            other,
            params_hash,
            symbols_hash,
        ) ==> ver == other,
        content_bytes(rows, ver, params_hash, symbols_hash).len() == 2 + vstd::utf8::encode_utf8(
            params_hash,
        ).len() + vstd::utf8::encode_utf8(symbols_hash).len() + 24 * rows.len(),
{
    crate::fnv::law_capacities();
    crate::fnv::law_le_bytes(ver as u64, other as u64, 2);
    crate::fnv::law_le_bytes(other as u64, ver as u64, 2);
    lemma_rows_len(rows);
    let x = content_bytes(rows, ver, params_hash, symbols_hash);
    let y = content_bytes(rows, other, params_hash, symbols_hash);
    assert(x.take(2) =~= le_bytes(ver as u64, 2));
    assert(y.take(2) =~= le_bytes(other as u64, 2));
}

/// A file that is not there is written, one without a footer never, and one
/// with a footer only where its content has the same hash.
pub proof fn law_overwriting(existing: Existing, rows: Seq<FeatureRow>, meta: FeatureMeta, path: Seq<char>)
    ensures
        existing is Absent ==> overwrite_fault(existing, rows, meta, path) is None,
        existing is NoFooter ==> overwrite_fault(existing, rows, meta, path) is Some,
        existing matches Existing::File { rows: old_rows, meta: old_meta } ==> (overwrite_fault(
            existing,
            rows,
            meta,
            path,
        ) is None <==> content_hash_of(old_rows@, old_meta) == content_hash_of(rows, meta)),
{
}

/// The directory of a version is read back as its number.
pub proof fn law_version_names(n: nat)
    requires
        n <= u16::MAX,
    ensures
        version_of("ver="@ + dec(n)) == Some(n),
{
    let p = "ver="@;
    let s = p + dec(n);
    assert(s.take(p.len() as int) =~= p);
    assert(s.skip(p.len() as int) =~= dec(n));
    crate::text::law_dec_round_trip(n);
    assert(crate::text::is_digit(dec(n)[0]));
}

/// A directory matches where it is a version with a marker that names the
/// parameters and the version, or, as older markers do, the parameters alone
/// in the directory of that version.
pub proof fn law_matching_directory(d: VersionDir, params_hash: Seq<char>, feature_ver: u16)
    ensures
        version_of(d.name@) is None ==> !is_match(d, params_hash, feature_ver),
        d.marker is None ==> !is_match(d, params_hash, feature_ver),
        version_of(d.name@) is Some && d.marker is Some && trimmed(d.marker->0@) == params_hash
            + ":"@ + dec(feature_ver as nat) ==> is_match(d, params_hash, feature_ver),
        version_of(d.name@) is Some && d.marker is Some && trimmed(d.marker->0@) == params_hash
            && !contains(params_hash, ":"@) ==> (version_of(d.name@)->0 == feature_ver ==> is_match(
            d,
            params_hash,
            feature_ver,
        )),
        is_match(d, params_hash, feature_ver) ==> trimmed(d.marker->0@) == params_hash + ":"@ + dec(
            feature_ver as nat,
        ) || (trimmed(d.marker->0@) == params_hash && version_of(d.name@)->0 == feature_ver),
{
}

/// The first directory that matches decides.
pub proof fn law_first_match(
    dirs: Seq<VersionDir>,
    params_hash: Seq<char>,
    feature_ver: u16,
    i: int,
)
    ensures
        0 <= i < dirs.len() && is_match(dirs[i], params_hash, feature_ver) && (forall|k: int|
            0 <= k < i ==> !is_match(#[trigger] dirs[k], params_hash, feature_ver))
            ==> first_match(dirs, params_hash, feature_ver) == version_of(dirs[i].name@),
        (forall|k: int|
            0 <= k < dirs.len() ==> !is_match(#[trigger] dirs[k], params_hash, feature_ver))
            ==> first_match(dirs, params_hash, feature_ver) is None,
    decreases dirs.len(),
{
    if dirs.len() > 0 {
        let t = dirs.drop_last();
        let n = dirs.len() - 1;
        assert(forall|k: int| 0 <= k < t.len() ==> t[k] == dirs[k]);
        assert(dirs[n] == dirs.last());
        law_first_match(t, params_hash, feature_ver, i);
        if i == n && (forall|k: int|
            0 <= k < i ==> !is_match(#[trigger] dirs[k], params_hash, feature_ver)) {
            assert forall|k: int| 0 <= k < t.len() implies !is_match(
                #[trigger] t[k],
                params_hash,
                feature_ver,
            ) by {
                assert(t[k] == dirs[k]);
            }
        }
    }
}

/// The largest version is that of a directory.
pub proof fn law_largest_version(dirs: Seq<VersionDir>)
    ensures
        max_version(dirs) is Some ==> exists|i: int|
            0 <= i < dirs.len() && version_of((#[trigger] dirs[i]).name@) == max_version(dirs),
    decreases dirs.len(),
{
    if dirs.len() > 0 {
        let t = dirs.drop_last();
        let n = dirs.len() - 1;
        assert(dirs[n] == dirs.last());
        law_largest_version(t);
        if max_version(t) is Some {
            let i = choose|i: int|
                0 <= i < t.len() && version_of((#[trigger] t[i]).name@) == max_version(t);
            assert(dirs[i] == t[i]);
        }
    }
}

/// The rows of a day are those whose time falls on it, in order.
pub proof fn law_rows_on(rows: Seq<FeatureRow>, date: Seq<char>)
    ensures
        rows_on(rows, date) == rows.filter(
            |r: FeatureRow| date_text(day_of_ns(r.ts_ns as int)) == date,
        ),
    decreases rows.len(),
{
    reveal(Seq::filter);
    if rows.len() > 0 {
        law_rows_on(rows.drop_last(), date);
    }
}

/// Sorting by time puts the earlier first, keeps the order of rows of one
/// time, and loses none.
pub proof fn law_time_sorted(
    rows: Seq<FeatureRow>,
    sorted: Seq<FeatureRow>,
    order: Seq<usize>,
    i: int,
    j: int,
)
    requires
        time_sorted_by(rows, sorted, order),
        0 <= i < j < sorted.len(),
    ensures
        sorted.len() == rows.len(),
        sorted[i] == rows[order[i] as int],
        order[i] != order[j],
        sorted[i].ts_ns <= sorted[j].ts_ns,
        sorted[i].ts_ns == sorted[j].ts_ns ==> order[i] < order[j],
{
    let keys = Seq::new(rows.len(), |x: int| rows[x].ts_ns);
    assert(crate::ordered::comes_first(keys, order[i] as int, order[j] as int));
}

/// Rows are parted by their day: each row is in the part of its date, the
/// parts are in the order of their dates, and none is empty.
pub proof fn law_parted_by_day(rows: Seq<FeatureRow>, days: Seq<DayRows>, k: int, i: int)
    requires
        parted_by_day(rows, days),
        0 <= k < rows.len(),
        0 <= i < days.len(),
    ensures
        exists|j: int|
            0 <= j < days.len() && (#[trigger] days[j]).date@ == date_text(
                day_of_ns(rows[k].ts_ns as int),
            ) && days[j].rows@.contains(rows[k]),
        days[i].rows@.len() > 0,
        days[i].rows@ == rows.filter(
            |r: FeatureRow| date_text(day_of_ns(r.ts_ns as int)) == days[i].date@,
        ),
        i > 0 ==> crate::text::before(days[i - 1].date@, days[i].date@),
{
    law_rows_on(rows, days[i].date@);
    assert(has_day(days, row_date(rows, k)));
    let j = choose|j: int| 0 <= j < days.len() && (#[trigger] days[j]).date@ == row_date(rows, k);
    lemma_row_is_on(rows, row_date(rows, k), k);
    assert(days[j].rows@.contains(rows[k]));
}

proof fn lemma_row_is_on(rows: Seq<FeatureRow>, date: Seq<char>, k: int)
    requires
        0 <= k < rows.len(),
        date_text(day_of_ns(rows[k].ts_ns as int)) == date,
    ensures
        rows_on(rows, date).contains(rows[k]),
    decreases rows.len(),
{
    let t = rows.drop_last();
    let before = rows_on(t, date);
    let all = rows_on(rows, date);
    if k < t.len() {
        assert(t[k] == rows[k]);
        lemma_row_is_on(t, date, k);
        let x = before.index_of(rows[k]);
        assert(all[x] == rows[k]);
    } else {
        assert(all[before.len() as int] == rows[k]);
    }
}

/// A flushed file stands in the directory of its feature, version, venue and
/// symbol, under its date and the hash of its content.
pub proof fn law_flush_path(
    store: StreamingFeatureStore,
    ver: u16,
    date: Seq<char>,
    rows: Seq<FeatureRow>,
)
    ensures
        flush_path(store, ver, date, rows) == joined(
            joined(
                joined(
                    joined(joined(store.root@, store.feature@), "ver="@ + dec(ver as nat)),
                    "venue="@ + store.venue_slug@,
                ),
                "symbol="@ + dec(store.symbol_id as nat),
            ),
            date + "-"@ + hex(content_hash_of(rows, store.meta) as nat, 16) + ".parquet"@,
        ),
{
}

/// A signed number is written as its two's complement.
pub proof fn law_unsigned(x: i64, y: i64)
    ensures
        x >= 0 ==> unsigned(x) == x,
        x < 0 ==> unsigned(x) == 0x1_0000_0000_0000_0000 + x,
        unsigned(x) == unsigned(y) ==> x == y,
{
}

} // verus!
