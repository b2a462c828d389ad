//! Safe pruning: a raw recording may be deleted only when the cold store
//! provably holds it.
use vstd::prelude::*;
use crate::event::Venue;
use crate::layout::{
    has_parquet_partition, has_partition, parent_of, partition_file, partition_path,
    raw_file_venue_tokens, raw_log_dir, venue_tokens_of,
};
use crate::manifest::{QualityManifest, StreamStats};
use crate::text::{hex, hex8, join_path, joined, push_text, same, slice_text, to_chars, views};

verus! {

// ---------------------------------------------------------------------------
// CRC-32
// ---------------------------------------------------------------------------

/// One bit of the reflected CRC-32 register with polynomial `0xEDB88320`.
pub open spec fn crc_bit(c: u32) -> u32 {
    if c & 1 != 0 {
        0xEDB8_8320u32 ^ (c >> 1)
    } else {
        c >> 1
    }
}

/// `k` bits of the register.
pub open spec fn crc_bits(c: u32, k: nat) -> u32
    decreases k,
{
    if k == 0 {
        c
    } else {
        crc_bit(crc_bits(c, (k - 1) as nat))
    }
}

/// The register after the bytes: each is added to the low end, and eight bits
/// are shifted out.
pub open spec fn crc_register(bytes: Seq<u8>) -> u32
    decreases bytes.len(),
{
    if bytes.len() == 0 {
        0xFFFF_FFFF
    } else {
        crc_bits(crc_register(bytes.drop_last()) ^ (bytes.last() as u32), 8)
    }
}

/// The CRC-32 (IEEE 802.3) of the bytes.
pub open spec fn crc32(bytes: Seq<u8>) -> u32 {
    crc_register(bytes) ^ 0xFFFF_FFFF
}

proof fn lemma_crc_bit_linear(a: u32, b: u32)
    ensures
        crc_bit(a ^ b) == crc_bit(a) ^ crc_bit(b),
{
    assert((if (a ^ b) & 1 != 0 {
        0xEDB8_8320u32 ^ ((a ^ b) >> 1)
    } else {
        (a ^ b) >> 1
    }) == (if a & 1 != 0 {
        0xEDB8_8320u32 ^ (a >> 1)
    } else {
        a >> 1
    }) ^ (if b & 1 != 0 {
        0xEDB8_8320u32 ^ (b >> 1)
    } else {
        b >> 1
    })) by (bit_vector);
}

proof fn lemma_crc_bits_linear(a: u32, b: u32, k: nat)
    ensures
        crc_bits(a ^ b, k) == crc_bits(a, k) ^ crc_bits(b, k),
    decreases k,
{
    if k > 0 {
        lemma_crc_bits_linear(a, b, (k - 1) as nat);
        lemma_crc_bit_linear(crc_bits(a, (k - 1) as nat), crc_bits(b, (k - 1) as nat));
    }
}

/// Eight zero bits at the low end are shifted out unchanged.
proof fn lemma_crc_high(h: u32)
    requires
        h & 0xFF == 0,
    ensures
        crc_bits(h, 8) == h >> 8,
{
    reveal_with_fuel(crc_bits, 9);
    assert(h & 1 == 0 && (h >> 1) & 1 == 0 && (h >> 1 >> 1) & 1 == 0 && (h >> 1 >> 1 >> 1) & 1 == 0
        && (h >> 1 >> 1 >> 1 >> 1) & 1 == 0 && (h >> 1 >> 1 >> 1 >> 1 >> 1) & 1 == 0 && (h >> 1 >> 1
        >> 1 >> 1 >> 1 >> 1) & 1 == 0 && (h >> 1 >> 1 >> 1 >> 1 >> 1 >> 1 >> 1) & 1 == 0 && (h >> 1
        >> 1 >> 1 >> 1 >> 1 >> 1 >> 1 >> 1) == h >> 8) by (bit_vector)
        requires
            h & 0xFF == 0,
    ;
}

/// Looking the low byte up in a table of eight-bit shifts is shifting the
/// whole register.
proof fn lemma_crc_table(x: u32)
    ensures
        crc_bits(x, 8) == crc_bits(x & 0xFF, 8) ^ (x >> 8),
{
    let lo = x & 0xFF;
    let hi = x & 0xFFFF_FF00;
    assert(x == lo ^ hi && hi & 0xFF == 0 && hi >> 8 == x >> 8) by (bit_vector)
        requires
            lo == x & 0xFF,
            hi == x & 0xFFFF_FF00,
    ;
    lemma_crc_bits_linear(lo, hi, 8);
    lemma_crc_high(hi);
}

/// `table` maps each byte to the register that it leaves.
pub open spec fn is_crc_table(table: Seq<u32>) -> bool {
    &&& table.len() == 256
    &&& forall|i: int| 0 <= i < 256 ==> #[trigger] table[i] == crc_bits(i as u32, 8)
}

/// The register that each byte leaves.
pub fn build_crc32_table() -> (table: Vec<u32>)
    ensures
        is_crc_table(table@),
{
    let mut table: Vec<u32> = Vec::new();
    let mut i: u32 = 0;
    while i < 256
        invariant
            i <= 256,
            table@.len() == i,
            forall|j: int| 0 <= j < i ==> #[trigger] table@[j] == crc_bits(j as u32, 8),
        decreases 256 - i,
    {
        let mut c: u32 = i;
        let mut k: u32 = 0;
        while k < 8
            invariant
                k <= 8,
                c == crc_bits(i, k as nat),
            decreases 8 - k,
        {
            c = if c & 1 != 0 {
                0xEDB8_8320u32 ^ (c >> 1)
            } else {
                c >> 1
            };
            k = k + 1;
        }
        table.push(c);
        i = i + 1;
    }
    table
}

/// The CRC-32 of the bytes.
pub fn crc32_ieee(data: &[u8]) -> (r: u32)
    ensures
        r == crc32(data@),
{
    let table = build_crc32_table();
    let mut crc: u32 = 0xFFFF_FFFF;
    let mut i: usize = 0;
    while i < data.len()
        invariant
            is_crc_table(table@),
            i <= data@.len(),
            crc == crc_register(data@.take(i as int)),
        decreases data@.len() - i,
    {
        let x: u32 = crc ^ (data[i] as u32);
        let low: u32 = x & 0xFF;
        proof {
            assert(low < 256) by (bit_vector)
                requires
                    low == x & 0xFF,
            ;
            let b = data@[i as int];
            let b32 = b as u32;
            assert((crc >> 8) == (x >> 8)) by (bit_vector)
                requires
                    x == crc ^ b32,
                    b32 < 256,
            ;
            lemma_crc_table(x);
            assert(data@.take(i + 1).drop_last() =~= data@.take(i as int));
        }
        crc = table[low as usize] ^ (crc >> 8);
        i = i + 1;
    }
    assert(data@.take(i as int) =~= data@);
    crc ^ 0xFFFF_FFFF
}

/// The hash under which a raw recording is known: the CRC-32 of its bytes, as
/// eight hexadecimal digits.
pub fn source_log_hash(data: &[u8]) -> (s: String)
    ensures
        s@ == hex(crc32(data@) as nat, 8),
{
    hex8(crc32_ieee(data))
}

// ---------------------------------------------------------------------------
// Refusals
// ---------------------------------------------------------------------------

/// Why a prune is refused.
#[derive(Debug)]
pub enum PruneRefusal {
    ManifestMissing,
    ParquetFileMissing { stream: String, symbol: String },
    RowCountMismatch { stream: String, symbol: String, manifest: u64, parquet: u64 },
    /// The raw recording is not the one that the file was made from.
    SourceLogHashMismatch { stream: String, symbol: String },
    /// The raw recording was changed after the file was written.
    RawLogNewerThanParquet { stream: String, symbol: String },
    /// The file does not say what it was made from.
    FooterMissingSourceLogHash { stream: String, symbol: String },
    /// The manifest lists no stream of the symbol.
    SymbolNotInManifest { symbol: String },
}

/// What a refusal says.
pub enum Refusal {
    ManifestMissing,
    ParquetFileMissing { stream: Seq<char>, symbol: Seq<char> },
    RowCountMismatch { stream: Seq<char>, symbol: Seq<char>, manifest: u64, parquet: u64 },
    SourceLogHashMismatch { stream: Seq<char>, symbol: Seq<char> },
    RawLogNewerThanParquet { stream: Seq<char>, symbol: Seq<char> },
    FooterMissingSourceLogHash { stream: Seq<char>, symbol: Seq<char> },
    SymbolNotInManifest { symbol: Seq<char> },
}

impl PruneRefusal {
    pub open spec fn says(self) -> Refusal {
        match self {
            PruneRefusal::ManifestMissing => Refusal::ManifestMissing,
            PruneRefusal::ParquetFileMissing { stream, symbol } => Refusal::ParquetFileMissing {
                stream: stream@,
                symbol: symbol@,
            },
            PruneRefusal::RowCountMismatch { stream, symbol, manifest, parquet } =>
                Refusal::RowCountMismatch { stream: stream@, symbol: symbol@, manifest, parquet },
            PruneRefusal::SourceLogHashMismatch { stream, symbol } =>
                Refusal::SourceLogHashMismatch { stream: stream@, symbol: symbol@ },
            PruneRefusal::RawLogNewerThanParquet { stream, symbol } =>
                Refusal::RawLogNewerThanParquet { stream: stream@, symbol: symbol@ },
            PruneRefusal::FooterMissingSourceLogHash { stream, symbol } =>
                Refusal::FooterMissingSourceLogHash { stream: stream@, symbol: symbol@ },
            PruneRefusal::SymbolNotInManifest { symbol } => Refusal::SymbolNotInManifest {
                symbol: symbol@,
            },
        }
    }
}

/// `r` is the refusal `want`, or none.
pub open spec fn refuses(r: Result<(), PruneRefusal>, want: Option<Refusal>) -> bool {
    match r {
        Ok(_) => want is None,
        Err(e) => want == Some(e.says()),
    }
}

// ---------------------------------------------------------------------------
// Keys
// ---------------------------------------------------------------------------

/// The position of the first `:` in `s`, or its length.
pub open spec fn first_colon(s: Seq<char>) -> int
    decreases s.len(),
{
    if s.len() == 0 || s[0] == ':' {
        0
    } else {
        1 + first_colon(s.skip(1))
    }
}

/// Whether the stream key belongs to the symbol: what is behind its first `:`
/// is the symbol, which may hold further ones.
pub open spec fn key_of_symbol(key: Seq<char>, symbol: Seq<char>) -> bool {
    first_colon(key) < key.len() && key.skip(first_colon(key) + 1) == symbol
}

/// The stream and the symbol of a stream key, parted at its first `:`.
fn split_key(key: &str) -> (r: Option<(String, String)>)
    ensures
        match r {
            Some((stream, symbol)) => first_colon(key@) < key@.len() && stream@ == key@.take(
                first_colon(key@),
            ) && symbol@ == key@.skip(first_colon(key@) + 1),
            None => first_colon(key@) >= key@.len(),
        },
{
    let c = to_chars(key);
    let n: usize = c.len();
    let mut i: usize = 0;
    assert(c@.skip(0) =~= c@);
    while i < n && c[i] != ':'
        invariant
            i <= n,
            n == c@.len(),
            c@ == key@,
            first_colon(key@) == i + first_colon(c@.skip(i as int)),
        ensures
            i <= n,
            first_colon(key@) == i + first_colon(c@.skip(i as int)),
            i < n ==> c@[i as int] == ':',
        decreases n - i,
    {
        assert(c@.skip(i as int).skip(1) =~= c@.skip(i + 1));
        i = i + 1;
    }
    if i == n {
        return None;
    }
    assert(c@.skip(i as int)[0] == ':');
    assert(c@.subrange(0, i as int) =~= key@.take(i as int));
    assert(c@.subrange(i + 1, n as int) =~= key@.skip(i + 1));
    Some((slice_text(c.as_slice(), 0, i), slice_text(c.as_slice(), i + 1, n)))
}

/// Whether the stream key belongs to the symbol.
fn belongs(key: &str, symbol: &str) -> (r: bool)
    ensures
        r == key_of_symbol(key@, symbol@),
{
    match split_key(key) {
        Some((_, s)) => same(s.as_str(), symbol),
        None => false,
    }
}

// ---------------------------------------------------------------------------
// What is found on disk
// ---------------------------------------------------------------------------

/// What a partition's footer says of its source.
#[derive(Debug)]
pub enum Footer {
    Unreadable,
    /// There is no source hash.
    Absent,
    Hash(String),
}

/// What is found of one raw recording.
#[derive(Debug)]
pub struct RawFile {
    /// Its bytes, if they can be read.
    pub bytes: Option<Vec<u8>>,
    /// When it was changed, if that is known.
    pub modified_ns: Option<u128>,
}

/// What is found of one partition file and of the raw recordings behind it.
#[derive(Debug)]
pub struct PartitionFacts {
    /// Number of rows, if the file is there and can be read.
    pub rows: Option<u64>,
    pub footer: Footer,
    /// When the file was changed, if that is known.
    pub modified_ns: Option<u128>,
    /// The raw recordings that still exist.
    pub raw: Vec<RawFile>,
}

/// Why a raw recording is not proven by the partition, if it is not: its
/// bytes hash to something else, or it is newer than the file.
pub open spec fn raw_refusal(
    stream: Seq<char>,
    symbol: Seq<char>,
    hash: Seq<char>,
    written: Option<u128>,
    raw: RawFile,
) -> Option<Refusal> {
    match raw.bytes {
        None => Some(Refusal::ParquetFileMissing { stream, symbol }),
        Some(bytes) => if hex(crc32(bytes@) as nat, 8) != hash {
            Some(Refusal::SourceLogHashMismatch { stream, symbol })
        } else {
            match (raw.modified_ns, written) {
                (Some(r), Some(w)) => if r > w {
                    Some(Refusal::RawLogNewerThanParquet { stream, symbol })
                } else {
                    None
                },
                _ => Some(Refusal::ParquetFileMissing { stream, symbol }),
            }
        },
    }
}

/// Whether both times are known, and the recording is not newer than a table
/// written at `written`.
pub open spec fn not_newer(raw: RawFile, written: Option<u128>) -> bool {
    match (raw.modified_ns, written) {
        (Some(r), Some(w)) => r <= w,
        _ => false,
    }
}

/// The first refusal of the raw recordings.
pub open spec fn raws_refusal(
    stream: Seq<char>,
    symbol: Seq<char>,
    hash: Seq<char>,
    written: Option<u128>,
    raws: Seq<RawFile>,
) -> Option<Refusal>
    decreases raws.len(),
{
    if raws.len() == 0 {
        None
    } else {
        let before = raws_refusal(stream, symbol, hash, written, raws.drop_last());
        if before is Some {
            before
        } else {
            raw_refusal(stream, symbol, hash, written, raws.last())
        }
    }
}

/// Why a stream is not proven by its partition, if it is not: the file is
/// missing, its rows are not the recorded events, its footer does not name
/// its source, or a raw recording is not proven.
pub open spec fn stream_refusal(
    stream: Seq<char>,
    symbol: Seq<char>,
    events: u64,
    facts: PartitionFacts,
) -> Option<Refusal> {
    match facts.rows {
        None => Some(Refusal::ParquetFileMissing { stream, symbol }),
        Some(rows) => if rows != events {
            Some(Refusal::RowCountMismatch { stream, symbol, manifest: events, parquet: rows })
        } else {
            match facts.footer {
                Footer::Unreadable => Some(Refusal::ParquetFileMissing { stream, symbol }),
                Footer::Absent => Some(Refusal::FooterMissingSourceLogHash { stream, symbol }),
                Footer::Hash(hash) => raws_refusal(
                    stream,
                    symbol,
                    hash@,
                    facts.modified_ns,
                    facts.raw@,
                ),
            }
        },
    }
}

fn check_raw(
    stream: &str,
    symbol: &str,
    hash: &str,
    written: Option<u128>,
    raw: &RawFile,
) -> (r: Result<(), PruneRefusal>)
    ensures
        refuses(r, raw_refusal(stream@, symbol@, hash@, written, *raw)),
{
    match &raw.bytes {
        None => Err(
            PruneRefusal::ParquetFileMissing {
                stream: stream.to_owned(),
                symbol: symbol.to_owned(),
            },
        ),
        Some(bytes) => {
            if !same(source_log_hash(bytes.as_slice()).as_str(), hash) {
                return Err(
                    PruneRefusal::SourceLogHashMismatch {
                        stream: stream.to_owned(),
                        symbol: symbol.to_owned(),
                    },
                );
            }
            match (raw.modified_ns, written) {
                (Some(changed), Some(w)) => {
                    if changed > w {
                        Err(
                            PruneRefusal::RawLogNewerThanParquet {
                                stream: stream.to_owned(),
                                symbol: symbol.to_owned(),
                            },
                        )
                    } else {
                        Ok(())
                    }
                },
                _ => Err(
                    PruneRefusal::ParquetFileMissing {
                        stream: stream.to_owned(),
                        symbol: symbol.to_owned(),
                    },
                ),
            }
        },
    }
}

/// Whether the partition proves the stream's `events` recorded events, and
/// each raw recording behind them.
pub fn check_stream(stream: &str, symbol: &str, events: u64, facts: &PartitionFacts) -> (r: Result<
    (),
    PruneRefusal,
>)
    ensures
        refuses(r, stream_refusal(stream@, symbol@, events, *facts)),
{
    let rows: u64 = match facts.rows {
        None => {
            return Err(
                PruneRefusal::ParquetFileMissing {
                    stream: stream.to_owned(),
                    symbol: symbol.to_owned(),
                },
            );
        },
        Some(rows) => rows,
    };
    if rows != events {
        return Err(
            PruneRefusal::RowCountMismatch {
                stream: stream.to_owned(),
                symbol: symbol.to_owned(),
                manifest: events,
                parquet: rows,
            },
        );
    }
    match &facts.footer {
        Footer::Unreadable => Err(
            PruneRefusal::ParquetFileMissing {
                stream: stream.to_owned(),
                symbol: symbol.to_owned(),
            },
        ),
        Footer::Absent => Err(
            PruneRefusal::FooterMissingSourceLogHash {
                stream: stream.to_owned(),
                symbol: symbol.to_owned(),
            },
        ),
        Footer::Hash(hash) => {
            let mut i: usize = 0;
            while i < facts.raw.len()
                invariant
                    i <= facts.raw@.len(),
                    raws_refusal(
                        stream@,
                        symbol@,
                        hash@,
                        facts.modified_ns,
                        facts.raw@.take(i as int),
                    ) is None,
                    facts.rows == Some(events),
                    facts.footer == Footer::Hash(*hash),
                decreases facts.raw@.len() - i,
            {
                assert(facts.raw@.take(i + 1).drop_last() =~= facts.raw@.take(i as int));
                match check_raw(stream, symbol, hash.as_str(), facts.modified_ns, &facts.raw[i]) {
                    Ok(_) => {},
                    Err(e) => {
                        proof {
                            lemma_raws_refusal_stays(
                                stream@,
                                symbol@,
                                hash@,
                                facts.modified_ns,
                                facts.raw@,
                                i + 1,
                            );
                        }
                        return Err(e);
                    },
                }
                i = i + 1;
            }
            assert(facts.raw@.take(i as int) =~= facts.raw@);
            Ok(())
        },
    }
}

proof fn lemma_raws_refusal_stays(
    stream: Seq<char>,
    symbol: Seq<char>,
    hash: Seq<char>,
    written: Option<u128>,
    raws: Seq<RawFile>,
    k: int,
)
    requires
        0 <= k <= raws.len(),
        raws_refusal(stream, symbol, hash, written, raws.take(k)) is Some,
    ensures
        raws_refusal(stream, symbol, hash, written, raws) == raws_refusal(
            stream,
            symbol,
            hash,
            written,
            raws.take(k),
        ),
    decreases raws.len(),
{
    if k < raws.len() {
        assert(raws.drop_last().take(k) =~= raws.take(k));
        lemma_raws_refusal_stays(stream, symbol, hash, written, raws.drop_last(), k);
    } else {
        assert(raws.take(k) =~= raws);
    }
}

// ---------------------------------------------------------------------------
// The whole day
// ---------------------------------------------------------------------------

/// What is checked of a stream of the manifest: the stream, the symbol and
/// the events of a key whose stream owns a partition.
pub open spec fn checked_key(entry: (String, StreamStats)) -> Option<(Seq<char>, Seq<char>, u64)> {
    let key = entry.0@;
    let at = first_colon(key);
    if at < key.len() && has_partition(key.take(at)) {
        Some((key.take(at), key.skip(at + 1), entry.1.events))
    } else {
        None
    }
}

/// The streams of the manifest that are checked, in order.
pub open spec fn checked_streams(entries: Seq<(String, StreamStats)>) -> Seq<
    (Seq<char>, Seq<char>, u64),
>
    decreases entries.len(),
{
    if entries.len() == 0 {
        Seq::empty()
    } else {
        let before = checked_streams(entries.drop_last());
        match checked_key(entries.last()) {
            Some(t) => before.push(t),
            None => before,
        }
    }
}

/// One stream to check, and where its partition lies.
#[derive(Debug)]
pub struct PruneTarget {
    pub stream: String,
    pub symbol: String,
    pub events: u64,
    /// The partition file.
    pub path: String,
    /// Where raw recordings of it may lie.
    pub raw_candidates: Vec<String>,
}

/// What the targets name.
pub open spec fn target_views(t: Seq<PruneTarget>) -> Seq<(Seq<char>, Seq<char>, u64)> {
    Seq::new(t.len(), |i: int| (t[i].stream@, t[i].symbol@, t[i].events))
}

/// `s` without its dashes.
pub open spec fn without_dashes(s: Seq<char>) -> Seq<char>
    decreases s.len(),
{
    if s.len() == 0 {
        Seq::empty()
    } else if s.last() == '-' {
        without_dashes(s.drop_last())
    } else {
        without_dashes(s.drop_last()).push(s.last())
    }
}

fn strip_dashes(s: &str) -> (r: String)
    ensures
        r@ == without_dashes(s@),
{
    let c = to_chars(s);
    let mut r = String::new();
    let mut i: usize = 0;
    assert(c@.take(0).len() == 0);
    while i < c.len()
        invariant
            i <= c@.len(),
            r@ == without_dashes(c@.take(i as int)),
        decreases c@.len() - i,
    {
        assert(c@.take(i + 1).drop_last() =~= c@.take(i as int));
        if c[i] != '-' {
            r.push(c[i]);
        }
        i = i + 1;
    }
    assert(c@.take(i as int) =~= c@);
    r
}

/// Where raw recordings of a venue's symbol and day may lie: one path for
/// each spelling of the venue, in the directory beside the cold root.
pub open spec fn raw_candidates_of(
    root: Seq<char>,
    venue: Venue,
    date: Seq<char>,
    symbol: Seq<char>,
) -> Seq<Seq<char>> {
    match parent_of(root) {
        Some(p) => Seq::new(
            venue_tokens_of(venue).len(),
            |i: int|
                joined(
                    joined(p, "raw"@),
                    without_dashes(date) + "_"@ + venue_tokens_of(venue)[i] + "_"@ + symbol
                        + ".log"@,
                ),
        ),
        None => Seq::empty(),
    }
}

/// Where raw recordings of a venue's symbol and day may lie.
pub fn raw_log_files(root: &str, venue: Venue, date: &str, symbol: &str) -> (r: Vec<String>)
    ensures
        views(r@) == raw_candidates_of(root@, venue, date@, symbol@),
{
    let mut r: Vec<String> = Vec::new();
    match raw_log_dir(root) {
        None => {
            assert(views(r@) =~= raw_candidates_of(root@, venue, date@, symbol@));
        },
        Some(dir) => {
            let flat = strip_dashes(date);
            let tokens = raw_file_venue_tokens(venue);
            let ghost want = raw_candidates_of(root@, venue, date@, symbol@);
            assert(tokens@.len() == views(tokens@).len());
            let mut i: usize = 0;
            while i < tokens.len()
                invariant
                    i <= tokens@.len(),
                    views(tokens@) == venue_tokens_of(venue),
                    tokens@.len() == venue_tokens_of(venue).len(),
                    parent_of(root@) is Some,
                    dir@ == joined(parent_of(root@)->0, "raw"@),
                    flat@ == without_dashes(date@),
                    want == raw_candidates_of(root@, venue, date@, symbol@),
                    views(r@) == want.take(i as int),
                decreases tokens@.len() - i,
            {
                let mut name = flat.clone();
                push_text(&mut name, "_");
                push_text(&mut name, tokens[i].as_str());
                push_text(&mut name, "_");
                push_text(&mut name, symbol);
                push_text(&mut name, ".log");
                assert(views(tokens@)[i as int] == tokens@[i as int]@);
                let path = join_path(dir.as_str(), name.as_str());
                assert(path@ == want[i as int]);
                let ghost before = r@;
                r.push(path);
                assert(views(r@) =~= views(before).push(want[i as int]));
                assert(want.take(i + 1) =~= want.take(i as int).push(want[i as int]));
                i = i + 1;
            }
            assert(want.take(i as int) =~= want);
        },
    }
    r
}

/// Whether the manifest lists a stream of the symbol.
pub open spec fn lists_symbol(entries: Seq<(String, StreamStats)>, symbol: Seq<char>) -> bool {
    exists|i: int| 0 <= i < entries.len() && key_of_symbol((#[trigger] entries[i]).0@, symbol)
}

/// What has to be checked before the day's raw recordings may be deleted;
/// refused when there is no manifest, or when it lists no stream of the symbol
/// that is asked for.
pub fn prune_targets(
    manifest: Option<&QualityManifest>,
    root: &str,
    venue: Venue,
    date: &str,
    require_symbol: Option<&str>,
) -> (r: Result<Vec<PruneTarget>, PruneRefusal>)
    ensures
        match r {
            Ok(targets) => manifest is Some && (require_symbol matches Some(s) ==> lists_symbol(
                manifest->0.streams.entries@,
                s@,
            )) && target_views(targets@) == checked_streams(manifest->0.streams.entries@) && forall|
                i: int,
            |
                0 <= i < targets@.len() ==> (#[trigger] targets@[i]).path@ == partition_path(
                    root@,
                    targets@[i].stream@,
                    venue,
                    targets@[i].symbol@,
                    date@,
                ) && views(targets@[i].raw_candidates@) == raw_candidates_of(
                    root@,
                    venue,
                    date@,
                    targets@[i].symbol@,
                ),
            Err(e) => match manifest {
                None => e.says() == Refusal::ManifestMissing,
                Some(m) => require_symbol is Some && !lists_symbol(
                    m.streams.entries@,
                    require_symbol->0@,
                ) && e.says() == (Refusal::SymbolNotInManifest { symbol: require_symbol->0@ }),
            },
        },
{
    let m = match manifest {
        None => {
            return Err(PruneRefusal::ManifestMissing);
        },
        Some(m) => m,
    };
    let ghost entries = m.streams.entries@;
    if let Some(symbol) = require_symbol {
        let mut owned = false;
        let mut i: usize = 0;
        while i < m.streams.entries.len()
            invariant
                i <= m.streams.entries@.len(),
                owned ==> lists_symbol(m.streams.entries@, symbol@),
                !owned ==> forall|k: int|
                    0 <= k < i ==> !key_of_symbol((#[trigger] m.streams.entries@[k]).0@, symbol@),
            decreases m.streams.entries@.len() - i,
        {
            if belongs(m.streams.entries[i].0.as_str(), symbol) {
                assert(key_of_symbol(m.streams.entries@[i as int].0@, symbol@));
                owned = true;
            }
            i = i + 1;
        }
        if !owned {
            return Err(PruneRefusal::SymbolNotInManifest { symbol: symbol.to_owned() });
        }
    }
    let mut targets: Vec<PruneTarget> = Vec::new();
    let mut i: usize = 0;
    assert(target_views(targets@) =~= checked_streams(entries.take(0)));
    while i < m.streams.entries.len()
        invariant
            entries == m.streams.entries@,
            i <= entries.len(),
            target_views(targets@) == checked_streams(entries.take(i as int)),
            forall|k: int|
                0 <= k < targets@.len() ==> (#[trigger] targets@[k]).path@ == partition_path(
                    root@,
                    targets@[k].stream@,
                    venue,
                    targets@[k].symbol@,
                    date@,
                ) && views(targets@[k].raw_candidates@) == raw_candidates_of(
                    root@,
                    venue,
                    date@,
                    targets@[k].symbol@,
                ),
        decreases entries.len() - i,
    {
        let entry = &m.streams.entries[i];
        assert(entries.take(i + 1).drop_last() =~= entries.take(i as int));
        assert(entries.take(i + 1).last() == *entry);
        if let Some((stream, symbol)) = split_key(entry.0.as_str()) {
            if has_parquet_partition(stream.as_str()) {
                let path = partition_file(root, stream.as_str(), venue, symbol.as_str(), date);
                let raw_candidates = raw_log_files(root, venue, date, symbol.as_str());
                let ghost t0 = targets@;
                let ghost view = (stream@, symbol@, entry.1.events);
                targets.push(
                    PruneTarget { stream, symbol, events: entry.1.events, path, raw_candidates },
                );
                assert(target_views(targets@) =~= target_views(t0).push(view));
            }
        }
        i = i + 1;
    }
    assert(entries.take(i as int) =~= entries);
    Ok(targets)
}

/// The first refusal among the streams, in order.
pub open spec fn first_refusal(
    streams: Seq<(Seq<char>, Seq<char>, u64)>,
    facts: Seq<PartitionFacts>,
) -> Option<Refusal>
    decreases streams.len(),
{
    if streams.len() == 0 {
        None
    } else {
        let before = first_refusal(streams.drop_last(), facts);
        if before is Some {
            before
        } else {
            let t = streams.last();
            stream_refusal(t.0, t.1, t.2, facts[streams.len() - 1])
        }
    }
}

/// Whether the day's raw recordings may be deleted: every stream of the
/// targets is proven by what was found of its partition.
pub fn verify_prunable(targets: &Vec<PruneTarget>, facts: &Vec<PartitionFacts>) -> (r: Result<
    (),
    PruneRefusal,
>)
    requires
        facts@.len() == targets@.len(),
    ensures
        refuses(r, first_refusal(target_views(targets@), facts@)),
{
    let ghost views = target_views(targets@);
    let mut i: usize = 0;
    while i < targets.len()
        invariant
            i <= targets@.len(),
            facts@.len() == targets@.len(),
            views == target_views(targets@),
            first_refusal(views.take(i as int), facts@) is None,
        decreases targets@.len() - i,
    {
        let t = &targets[i];
        assert(views.take(i + 1).drop_last() =~= views.take(i as int));
        assert(views.take(i + 1).last() == (t.stream@, t.symbol@, t.events));
        match check_stream(t.stream.as_str(), t.symbol.as_str(), t.events, &facts[i]) {
            Ok(_) => {},
            Err(e) => {
                proof {
                    lemma_first_refusal_stays(views, facts@, i + 1);
                }
                return Err(e);
            },
        }
        i = i + 1;
    }
    assert(views.take(i as int) =~= views);
    Ok(())
}

/// [`prune_targets`] and [`verify_prunable`] for one symbol's recording: the
/// manifest must list the symbol, and every stream must be proven.
pub fn verify_prunable_symbol(
    manifest: Option<&QualityManifest>,
    root: &str,
    venue: Venue,
    date: &str,
    symbol: &str,
    facts: &Vec<PartitionFacts>,
) -> (r: Result<(), PruneRefusal>)
    requires
        manifest matches Some(m) ==> facts@.len() == checked_streams(m.streams.entries@).len(),
    ensures
        refuses(
            r,
            match manifest {
                None => Some(Refusal::ManifestMissing),
                Some(m) => if !lists_symbol(m.streams.entries@, symbol@) {
                    Some(Refusal::SymbolNotInManifest { symbol: symbol@ })
                } else {
                    first_refusal(checked_streams(m.streams.entries@), facts@)
                },
            },
        ),
{
    match prune_targets(manifest, root, venue, date, Some(symbol)) {
        Ok(targets) => {
            assert(target_views(targets@).len() == targets@.len());
            verify_prunable(&targets, facts)
        },
        Err(e) => Err(e),
    }
}

proof fn lemma_first_refusal_stays(
    streams: Seq<(Seq<char>, Seq<char>, u64)>,
    facts: Seq<PartitionFacts>,
    k: int,
)
    requires
        0 <= k <= streams.len(),
        first_refusal(streams.take(k), facts) is Some,
    ensures
        first_refusal(streams, facts) == first_refusal(streams.take(k), facts),
    decreases streams.len(),
{
    if k < streams.len() {
        assert(streams.drop_last().take(k) =~= streams.take(k));
        lemma_first_refusal_stays(streams.drop_last(), facts, k);
    } else {
        assert(streams.take(k) =~= streams);
    }
}

/// Deletion is allowed only when, for every stream that owns a partition, the
/// rows are exactly the recorded events, the hash of every raw recording that
/// still exists is the one that the footer names, and no such recording is
/// newer than the table.
pub proof fn law_prunable_means_proven(
    streams: Seq<(Seq<char>, Seq<char>, u64)>,
    facts: Seq<PartitionFacts>,
)
    requires
        first_refusal(streams, facts) is None,
    ensures
        forall|i: int|
            #![trigger streams[i]]
            0 <= i < streams.len() ==> {
                &&& facts[i].rows == Some(streams[i].2)
                &&& facts[i].footer is Hash
                &&& forall|j: int|
                    0 <= j < facts[i].raw@.len() ==> {
                        &&& (#[trigger] facts[i].raw@[j]).bytes is Some
                        &&& hex(crc32(facts[i].raw@[j].bytes->0@) as nat, 8)
                            == facts[i].footer->Hash_0@
                        &&& not_newer(facts[i].raw@[j], facts[i].modified_ns)
                    }
            },
    decreases streams.len(),
{
    if streams.len() > 0 {
        law_prunable_means_proven(streams.drop_last(), facts);
        let n = streams.len() - 1;
        let t = streams.last();
        assert(stream_refusal(t.0, t.1, t.2, facts[n]) is None);
        lemma_raws_proven(
            t.0,
            t.1,
            facts[n].footer->Hash_0@,
            facts[n].modified_ns,
            facts[n].raw@,
        );
        assert forall|i: int|
            #![trigger streams[i]]
            0 <= i < streams.len() implies {
            &&& facts[i].rows == Some(streams[i].2)
            &&& facts[i].footer is Hash
            &&& forall|j: int|
                0 <= j < facts[i].raw@.len() ==> {
                    &&& (#[trigger] facts[i].raw@[j]).bytes is Some
                    &&& hex(crc32(facts[i].raw@[j].bytes->0@) as nat, 8)
                        == facts[i].footer->Hash_0@
                    &&& not_newer(facts[i].raw@[j], facts[i].modified_ns)
                }
        } by {
            if i < n {
                assert(streams.drop_last()[i] == streams[i]);
            }
        }
    }
}

proof fn lemma_raws_proven(
    stream: Seq<char>,
    symbol: Seq<char>,
    hash: Seq<char>,
    written: Option<u128>,
    raws: Seq<RawFile>,
)
    requires
        raws_refusal(stream, symbol, hash, written, raws) is None,
    ensures
        forall|j: int|
            0 <= j < raws.len() ==> (#[trigger] raws[j]).bytes is Some && hex(
                crc32(raws[j].bytes->0@) as nat,
                8,
            ) == hash && not_newer(raws[j], written),
    decreases raws.len(),
{
    if raws.len() > 0 {
        lemma_raws_proven(stream, symbol, hash, written, raws.drop_last());
        assert forall|j: int| 0 <= j < raws.len() implies (#[trigger] raws[j]).bytes is Some && hex(
            crc32(raws[j].bytes->0@) as nat,
            8,
        ) == hash && not_newer(raws[j], written) by {
            if j < raws.len() - 1 {
                assert(raws.drop_last()[j] == raws[j]);
            }
        }
    }
}

/// What a partition is refused for: first that it cannot be read, then its
/// rows, then its footer, and only then its raw logs.
pub proof fn law_partition_refusals(
    stream: Seq<char>,
    symbol: Seq<char>,
    events: u64,
    facts: PartitionFacts,
)
    ensures
        facts.rows is None ==> stream_refusal(stream, symbol, events, facts) == Some(
            Refusal::ParquetFileMissing { stream, symbol },
        ),
        facts.rows is Some && facts.rows->0 != events ==> stream_refusal(
            stream,
            symbol,
            events,
            facts,
        ) == Some(
            Refusal::RowCountMismatch {
                stream,
                symbol,
                manifest: events,
                parquet: facts.rows->0,
            },
        ),
        facts.rows == Some(events) && facts.footer is Unreadable ==> stream_refusal(
            stream,
            symbol,
            events,
            facts,
        ) == Some(Refusal::ParquetFileMissing { stream, symbol }),
        facts.rows == Some(events) && facts.footer is Absent ==> stream_refusal(
            stream,
            symbol,
            events,
            facts,
        ) == Some(Refusal::FooterMissingSourceLogHash { stream, symbol }),
        facts.rows == Some(events) && facts.footer is Hash && facts.raw@.len() == 0
            ==> stream_refusal(stream, symbol, events, facts) is None,
{
}

/// What a raw log is refused for: that it cannot be read, that its checksum is
/// not the partition's, and that it changed after the partition was written.
pub proof fn law_raw_refusals(
    stream: Seq<char>,
    symbol: Seq<char>,
    hash: Seq<char>,
    written: Option<u128>,
    raw: RawFile,
)
    ensures
        raw.bytes is None ==> raw_refusal(stream, symbol, hash, written, raw) == Some(
            Refusal::ParquetFileMissing { stream, symbol },
        ),
        raw.bytes is Some && hex(crc32(raw.bytes->0@) as nat, 8) != hash ==> raw_refusal(
            stream,
            symbol,
            hash,
            written,
            raw,
        ) == Some(Refusal::SourceLogHashMismatch { stream, symbol }),
        raw.bytes is Some && hex(crc32(raw.bytes->0@) as nat, 8) == hash && (raw.modified_ns is None
            || written is None) ==> raw_refusal(stream, symbol, hash, written, raw) == Some(
            Refusal::ParquetFileMissing { stream, symbol },
        ),
        raw.bytes is Some && hex(crc32(raw.bytes->0@) as nat, 8) == hash && raw.modified_ns is Some
            && written is Some && raw.modified_ns->0 > written->0 ==> raw_refusal(
            stream,
            symbol,
            hash,
            written,
            raw,
        ) == Some(Refusal::RawLogNewerThanParquet { stream, symbol }),
        raw.bytes is Some && hex(crc32(raw.bytes->0@) as nat, 8) == hash && raw.modified_ns is Some
            && written is Some && raw.modified_ns->0 <= written->0 ==> raw_refusal(
            stream,
            symbol,
            hash,
            written,
            raw,
        ) is None,
{
}

/// Of several raw logs the first that is refused decides.
pub proof fn law_first_raw_log_decides(
    stream: Seq<char>,
    symbol: Seq<char>,
    hash: Seq<char>,
    written: Option<u128>,
    raws: Seq<RawFile>,
    i: int,
)
    ensures
        0 <= i < raws.len() && raw_refusal(stream, symbol, hash, written, raws[i]) is Some && (
        forall|k: int|
            0 <= k < i ==> raw_refusal(stream, symbol, hash, written, #[trigger] raws[k]) is None)
            ==> raws_refusal(stream, symbol, hash, written, raws) == raw_refusal(
            stream,
            symbol,
            hash,
            written,
            raws[i],
        ),
        (forall|k: int|
            0 <= k < raws.len() ==> raw_refusal(
                stream,
                symbol,
                hash,
                written,
                #[trigger] raws[k],
            ) is None) ==> raws_refusal(stream, symbol, hash, written, raws) is None,
    decreases raws.len(),
{
    if raws.len() > 0 {
        let t = raws.drop_last();
        assert(forall|k: int| 0 <= k < t.len() ==> t[k] == raws[k]);
        law_first_raw_log_decides(stream, symbol, hash, written, t, i);
        let n = raws.len() - 1;
        assert(raws[n] == raws.last());
        if i == n && (forall|k: int|
            0 <= k < i ==> raw_refusal(stream, symbol, hash, written, #[trigger] raws[k]) is None) {
            assert forall|k: int| 0 <= k < t.len() implies raw_refusal(
                stream,
                symbol,
                hash,
                written,
                #[trigger] t[k],
            ) is None by {
                assert(t[k] == raws[k]);
            }
        }
    }
}

/// Of several partitions the first that is refused decides, and a day whose
/// partitions all hold is not refused.
pub proof fn law_first_partition_decides(
    streams: Seq<(Seq<char>, Seq<char>, u64)>,
    facts: Seq<PartitionFacts>,
    i: int,
)
    ensures
        0 <= i < streams.len() && stream_refusal(
            streams[i].0,
            streams[i].1,
            streams[i].2,
            facts[i],
        ) is Some && (forall|k: int|
            0 <= k < i ==> stream_refusal(
                (#[trigger] streams[k]).0,
                streams[k].1,
                streams[k].2,
                facts[k],
            ) is None) ==> first_refusal(streams, facts) == stream_refusal(
            streams[i].0,
            streams[i].1,
            streams[i].2,
            facts[i],
        ),
        (forall|k: int|
            0 <= k < streams.len() ==> stream_refusal(
                (#[trigger] streams[k]).0,
                streams[k].1,
                streams[k].2,
                facts[k],
            ) is None) ==> first_refusal(streams, facts) is None,
    decreases streams.len(),
{
    if streams.len() > 0 {
        let t = streams.drop_last();
        assert(forall|k: int| 0 <= k < t.len() ==> t[k] == streams[k]);
        law_first_partition_decides(t, facts, i);
        let n = streams.len() - 1;
        assert(streams[n] == streams.last());
        if i == n && (forall|k: int|
            0 <= k < i ==> stream_refusal(
                (#[trigger] streams[k]).0,
                streams[k].1,
                streams[k].2,
                facts[k],
            ) is None) {
            assert forall|k: int| 0 <= k < t.len() implies stream_refusal(
                (#[trigger] t[k]).0,
                t[k].1,
                t[k].2,
                facts[k],
            ) is None by {
                assert(t[k] == streams[k]);
            }
        }
    }
}

/// The first colon of a text is where it stands, and past the end where there
/// is none.
pub proof fn law_first_colon(s: Seq<char>, i: int)
    ensures
        0 <= i < s.len() && s[i] == ':' && (forall|k: int| 0 <= k < i ==> #[trigger] s[k] != ':')
            ==> first_colon(s) == i,
        (forall|k: int| 0 <= k < s.len() ==> #[trigger] s[k] != ':') ==> first_colon(s) == s.len(),
    decreases s.len(),
{
    if s.len() > 0 && s[0] != ':' {
        let t = s.skip(1);
        assert(forall|k: int| 0 <= k < t.len() ==> t[k] == s[k + 1]);
        law_first_colon(t, i - 1);
    }
}

/// A manifest's entry is checked where its key is a stream that has
/// partitions, a colon and a symbol, and not otherwise.
pub proof fn law_checked_entry(
    entry: (String, StreamStats),
    stream: Seq<char>,
    symbol: Seq<char>,
)
    requires
        forall|k: int| 0 <= k < stream.len() ==> #[trigger] stream[k] != ':',
        entry.0@ == stream + seq![':'] + symbol,
    ensures
        has_partition(stream) ==> checked_key(entry) == Some((stream, symbol, entry.1.events)),
        !has_partition(stream) ==> checked_key(entry) is None,
        key_of_symbol(entry.0@, symbol),
{
    let key = entry.0@;
    let n = stream.len() as int;
    assert(forall|k: int| 0 <= k < n ==> key[k] == stream[k]);
    assert(key[n] == ':');
    law_first_colon(key, n);
    assert(key.take(n) =~= stream);
    assert(key.skip(n + 1) =~= symbol);
}

/// An entry whose key has no colon is not checked.
pub proof fn law_unkeyed_entry(entry: (String, StreamStats), symbol: Seq<char>)
    requires
        forall|k: int| 0 <= k < entry.0@.len() ==> #[trigger] entry.0@[k] != ':',
    ensures
        checked_key(entry) is None,
        !key_of_symbol(entry.0@, symbol),
{
    law_first_colon(entry.0@, 0);
}

/// The checked streams are those of the entries that are checked, and no
/// others.
pub proof fn law_checked_streams(
    entries: Seq<(String, StreamStats)>,
    t: (Seq<char>, Seq<char>, u64),
)
    ensures
        checked_streams(entries).contains(t) <==> exists|i: int|
            0 <= i < entries.len() && checked_key(#[trigger] entries[i]) == Some(t),
    decreases entries.len(),
{
    if entries.len() > 0 {
        let e = entries.drop_last();
        let n = entries.len() - 1;
        law_checked_streams(e, t);
        let before = checked_streams(e);
        let all = checked_streams(entries);
        assert(entries[n] == entries.last());
        if before.contains(t) {
            let x = before.index_of(t);
            assert(all[x] == t);
            let i = choose|i: int| 0 <= i < e.len() && checked_key(#[trigger] e[i]) == Some(t);
            assert(checked_key(entries[i]) == Some(t));
        }
        if checked_key(entries[n]) == Some(t) {
            assert(all[before.len() as int] == t);
        }
        if all.contains(t) && !before.contains(t) {
            let x = all.index_of(t);
            if x < before.len() {
                assert(before[x] == t);
            }
            assert(checked_key(entries[n]) == Some(t));
        }
        if exists|i: int| 0 <= i < entries.len() && checked_key(#[trigger] entries[i]) == Some(t) {
            let i = choose|i: int|
                0 <= i < entries.len() && checked_key(#[trigger] entries[i]) == Some(t);
            if i < n {
                assert(checked_key(e[i]) == Some(t));
            }
        }
    }
}

/// A date without its dashes is its other characters in order.
pub proof fn law_without_dashes(s: Seq<char>)
    ensures
        without_dashes(s) == s.filter(|c: char| c != '-'),
    decreases s.len(),
{
    reveal(Seq::filter);
    if s.len() > 0 {
        law_without_dashes(s.drop_last());
    }
}

/// The raw logs of a symbol stand beside the data, one for each way in which
/// its venue is written.
pub proof fn law_raw_candidates(
    root: Seq<char>,
    venue: Venue,
    date: Seq<char>,
    symbol: Seq<char>,
    i: int,
)
    ensures
        parent_of(root) is None ==> raw_candidates_of(root, venue, date, symbol).len() == 0,
        parent_of(root) matches Some(p) ==> {
            let found = raw_candidates_of(root, venue, date, symbol);
            &&& found.len() == venue_tokens_of(venue).len()
            &&& 0 <= i < found.len() ==> found[i] == joined(
                joined(p, "raw"@),
                date.filter(|c: char| c != '-') + "_"@ + venue_tokens_of(venue)[i] + "_"@ + symbol
                    + ".log"@,
            )
        },
{
    law_without_dashes(date);
}

/// A symbol is in a manifest where an entry's key ends in a colon and the
/// symbol.
pub proof fn law_lists_symbol(
    entries: Seq<(String, StreamStats)>,
    i: int,
    stream: Seq<char>,
    symbol: Seq<char>,
)
    requires
        0 <= i < entries.len(),
        forall|k: int| 0 <= k < stream.len() ==> #[trigger] stream[k] != ':',
        entries[i].0@ == stream + seq![':'] + symbol,
    ensures
        lists_symbol(entries, symbol),
{
    law_checked_entry(entries[i], stream, symbol);
}

/// The checksum register moves one bit to the right at a time, and a bit that
/// falls out is fed back by the polynomial. A checksum of nothing is zero.
pub proof fn law_crc_step(c: u32, bytes: Seq<u8>, b: u8)
    ensures
        c % 2 == 0 ==> crc_bit(c) == c / 2,
        c % 2 == 1 ==> crc_bit(c) ^ 0xEDB8_8320u32 == c / 2,
        crc32(Seq::empty()) == 0,
        crc_register(bytes.push(b)) == crc_bits(crc_register(bytes) ^ (b as u32), 8),
        crc32(bytes) == crc_register(bytes) ^ 0xFFFF_FFFFu32,
{
    assert(c % 2 == (c & 1) && c / 2 == c >> 1) by (bit_vector);
    assert((0xEDB8_8320u32 ^ (c >> 1)) ^ 0xEDB8_8320u32 == c >> 1) by (bit_vector);
    assert(0xFFFF_FFFFu32 ^ 0xFFFF_FFFFu32 == 0) by (bit_vector);
    assert(bytes.push(b).drop_last() =~= bytes);
}

/// Bits are shifted one after the other.
pub proof fn law_crc_bits(c: u32, k: nat)
    ensures
        crc_bits(c, 0) == c,
        crc_bits(c, k + 1) == crc_bit(crc_bits(c, k)),
{
}

} // verus!
