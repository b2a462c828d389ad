//! Downloading archive days: the request schedule, the retry decisions and
//! the one text file of an archive.
use vstd::prelude::*;
use crate::error::{Failure, StorageError};
use crate::number::Real;
use crate::fnv::{fnv, fnv1a_absorb_le, le_bytes, FNV1A_OFFSET};
use crate::text::{dec, ends, ends_with, lower_text, lowered, push_dec, push_text, views};

verus! {

// ---------------------------------------------------------------------------
// Throttle
// ---------------------------------------------------------------------------

/// Spaces requests by a least interval; an interval of 0 does not limit.
#[derive(Clone, Copy, Debug, PartialEq, Eq, Structural)]
pub struct Throttle {
    pub min_interval_ns: u64,
    pub next_slot_ns: u64,
}

/// The sum, held to 64 bits.
pub open spec fn capped_sum(a: u64, b: u64) -> u64 {
    if a + b > u64::MAX {
        u64::MAX
    } else {
        (a + b) as u64
    }
}

/// The slot of a request that begins at `now`.
pub open spec fn slot_of(t: Throttle, now: u64) -> u64 {
    if t.next_slot_ns > now {
        t.next_slot_ns
    } else {
        now
    }
}

impl Throttle {
    /// A throttle for `rate_per_sec` requests a second, which is one every
    /// `interval_ns`. A rate that is not finite and above zero limits nothing.
    pub fn new(rate_per_sec: Real, interval_ns: u64) -> (t: Throttle)
        ensures
            t.min_interval_ns == if rate_per_sec.finite() && rate_per_sec.positive() {
                interval_ns
            } else {
                0
            },
            t.next_slot_ns == 0,
    {
        let min_interval_ns: u64 = if rate_per_sec.is_finite() && rate_per_sec.is_positive() {
            interval_ns
        } else {
            0
        };
        Throttle { min_interval_ns, next_slot_ns: 0 }
    }

    /// How long a request that begins at `now_ns` has to wait for its slot;
    /// the next slot is one interval behind it. Without an interval there is
    /// no wait and no slot.
    pub fn wait_ns(&mut self, now_ns: u64) -> (wait: u64)
        ensures
            final(self).min_interval_ns == old(self).min_interval_ns,
            old(self).min_interval_ns == 0 ==> wait == 0 && *final(self) == *old(self),
            old(self).min_interval_ns > 0 ==> {
                &&& wait == slot_of(*old(self), now_ns) - now_ns
                &&& final(self).next_slot_ns == capped_sum(
                    slot_of(*old(self), now_ns),
                    old(self).min_interval_ns,
                )
            },
    {
        if self.min_interval_ns == 0 {
            return 0;
        }
        let slot: u64 = if self.next_slot_ns > now_ns {
            self.next_slot_ns
        } else {
            now_ns
        };
        self.next_slot_ns = slot.saturating_add(self.min_interval_ns);
        slot - now_ns
    }
}

/// Two requests in a row are sent at least one interval apart, as long as the
/// clock fits in 64 bits, and none waits longer than that takes: the second is
/// sent at once where the interval has passed, and else when it has.
pub proof fn law_throttle_spacing(t0: Throttle, t1: Throttle, now0: u64, now1: u64)
    requires
        t0.min_interval_ns > 0,
        t1.min_interval_ns == t0.min_interval_ns,
        t1.next_slot_ns == capped_sum(slot_of(t0, now0), t0.min_interval_ns),
        slot_of(t0, now0) + t0.min_interval_ns <= u64::MAX,
    ensures
        slot_of(t1, now1) >= slot_of(t0, now0) + t0.min_interval_ns,
        slot_of(t1, now1) >= now1,
        slot_of(t1, now1) == now1 || slot_of(t1, now1) == slot_of(t0, now0) + t0.min_interval_ns,
        now1 >= slot_of(t0, now0) + t0.min_interval_ns ==> slot_of(t1, now1) == now1,
{
}

// ---------------------------------------------------------------------------
// Backoff
// ---------------------------------------------------------------------------

/// Two to the power `k`.
pub open spec fn pow2(k: nat) -> nat
    decreases k,
{
    if k == 0 {
        1
    } else {
        2 * pow2((k - 1) as nat)
    }
}

/// Backoff between the attempts of a request.
#[derive(Clone, Copy, Debug, PartialEq, Eq, Structural)]
pub struct RetryPolicy {
    pub max_retries: u32,
    pub base_ms: u64,
    pub cap_ms: u64,
}

/// The longest delay before the retry with index `attempt`: it doubles from
/// the base up to the cap.
pub open spec fn ceiling_of(p: RetryPolicy, attempt: u32) -> int {
    if p.base_ms * pow2(attempt as nat) < p.cap_ms {
        p.base_ms * pow2(attempt as nat)
    } else {
        p.cap_ms as int
    }
}

/// The number from which the delay before a retry is drawn: a fixed hash of
/// the retry's index.
pub open spec fn jitter_of(attempt: u32) -> u64 {
    fnv(fnv(FNV1A_OFFSET, le_bytes(0x4852_5338, 8)), le_bytes(attempt as u64, 4))
}

impl RetryPolicy {
    /// Base and cap are at least 1, and the cap at least the base.
    pub open spec fn wf(&self) -> bool {
        1 <= self.base_ms <= self.cap_ms
    }

    /// A policy; base and cap are raised to at least 1, and the cap to at
    /// least the base.
    pub fn new(max_retries: u32, base_ms: u64, cap_ms: u64) -> (p: RetryPolicy)
        ensures
            p.wf(),
            p.max_retries == max_retries,
            p.base_ms == if base_ms < 1 {
                1
            } else {
                base_ms
            },
            p.cap_ms == if cap_ms < p.base_ms {
                p.base_ms
            } else {
                cap_ms
            },
    {
        let base: u64 = if base_ms < 1 {
            1
        } else {
            base_ms
        };
        let cap: u64 = if cap_ms < base {
            base
        } else {
            cap_ms
        };
        RetryPolicy { max_retries, base_ms: base, cap_ms: cap }
    }

    fn ceiling(&self, attempt: u32) -> (c: u64)
        requires
            self.wf(),
        ensures
            c == ceiling_of(*self, attempt),
    {
        let mut c: u64 = self.base_ms;
        let mut k: u32 = 0;
        assert(pow2(0) == 1);
        while k < attempt
            invariant
                self.wf(),
                k <= attempt,
                c == ceiling_of(*self, k),
                c <= self.cap_ms,
            decreases attempt - k,
        {
            proof {
                assert(pow2((k + 1) as nat) == 2 * pow2(k as nat));
                assert(self.base_ms * (2 * pow2(k as nat)) == 2 * (self.base_ms * pow2(k as nat)))
                    by (nonlinear_arith);
                assert(self.base_ms * pow2(k as nat) >= 0) by (nonlinear_arith);
            }
            if c >= self.cap_ms {
                proof {
                    lemma_pow2_monotone(k as nat, attempt as nat);
                    assert(self.base_ms * pow2(attempt as nat) >= self.base_ms * pow2(k as nat))
                        by (nonlinear_arith)
                        requires
                            pow2(attempt as nat) >= pow2(k as nat),
                            self.base_ms >= 0,
                    ;
                }
                return self.cap_ms;
            }
            if c > self.cap_ms / 2 {
                assert(2 * c >= self.cap_ms);
                c = self.cap_ms;
            } else {
                c = c * 2;
            }
            k = k + 1;
        }
        c
    }

    /// The delay in milliseconds before retry number `attempt + 1`: between 0
    /// and the ceiling, and the same each time.
    pub fn delay_ms(&self, attempt: u32) -> (ms: u64)
        requires
            self.wf(),
        ensures
            ms == jitter_of(attempt) as int % (ceiling_of(*self, attempt) + 1),
            ms <= ceiling_of(*self, attempt),
    {
        let ceiling: u64 = self.ceiling(attempt);
        let h0: u64 = fnv1a_absorb_le(FNV1A_OFFSET, 0x4852_5338, 8);
        let h: u64 = fnv1a_absorb_le(h0, attempt as u64, 4);
        let span: u128 = ceiling as u128 + 1;
        let r: u128 = h as u128 % span;
        assert(r < span);
        r as u64
    }

    /// How many requests may follow the first.
    pub fn max_retries(&self) -> (n: u32)
        ensures
            n == self.max_retries,
    {
        self.max_retries
    }
}

proof fn lemma_pow2_monotone(a: nat, b: nat)
    requires
        a <= b,
    ensures
        pow2(a) <= pow2(b),
        pow2(a) >= 1,
    decreases b,
{
    if a < b {
        lemma_pow2_monotone(a, (b - 1) as nat);
    } else if a > 0 {
        lemma_pow2_monotone((a - 1) as nat, (b - 1) as nat);
    }
}

/// Ceilings never shrink from one retry to the next, begin at the base and
/// never pass the cap.
pub proof fn law_backoff_grows_to_cap(p: RetryPolicy, attempt: u32)
    requires
        p.wf(),
        attempt < u32::MAX,
    ensures
        ceiling_of(p, 0) == p.base_ms,
        ceiling_of(p, attempt) <= ceiling_of(p, (attempt + 1) as u32) <= p.cap_ms,
{
    assert(pow2(0) == 1);
    lemma_pow2_monotone(attempt as nat, (attempt + 1) as nat);
    assert(p.base_ms * pow2(attempt as nat) <= p.base_ms * pow2((attempt + 1) as nat))
        by (nonlinear_arith)
        requires
            pow2(attempt as nat) <= pow2((attempt + 1) as nat),
            p.base_ms >= 0,
    ;
}

// ---------------------------------------------------------------------------
// Requests
// ---------------------------------------------------------------------------

/// `{base}/data/{class}/daily/aggTrades/{sym}/{sym}-aggTrades-{date}.zip`.
pub open spec fn url_of(
    base: Seq<char>,
    class: Seq<char>,
    symbol: Seq<char>,
    date: Seq<char>,
) -> Seq<char> {
    base + "/data/"@ + class + "/daily/aggTrades/"@ + symbol + "/"@ + symbol + "-aggTrades-"@ + date
        + ".zip"@
}

/// The address of one day's archive.
pub fn daily_url(base_url: &str, data_class: &str, symbol: &str, date: &str) -> (s: String)
    ensures
        s@ == url_of(base_url@, data_class@, symbol@, date@),
{
    let mut s = base_url.to_owned();
    push_text(&mut s, "/data/");
    push_text(&mut s, data_class);
    push_text(&mut s, "/daily/aggTrades/");
    push_text(&mut s, symbol);
    push_text(&mut s, "/");
    push_text(&mut s, symbol);
    push_text(&mut s, "-aggTrades-");
    push_text(&mut s, date);
    push_text(&mut s, ".zip");
    s
}

/// What came back of a request.
#[derive(Debug)]
pub enum Reply {
    /// The request could not be sent; what is known of it.
    NotSent(String),
    /// A status, and how it is written.
    Status { code: u16, text: String },
}

/// What follows a reply.
#[derive(Debug)]
pub enum FetchStep {
    /// Read the body.
    Read,
    /// Ask again, with this attempt's index, after that many milliseconds.
    Again { attempt: u32, delay_ms: u64 },
    /// Give up.
    Fail(StorageError),
}

/// What a failed request is reported as.
pub open spec fn reply_fault(reply: Reply, url: Seq<char>) -> Seq<char> {
    match reply {
        Reply::NotSent(e) => "request failed: "@ + e@ + " (url "@ + url + ")"@,
        Reply::Status { code, text } => "HTTP "@ + text@ + " for "@ + url,
    }
}

/// Whether a status reports success.
pub open spec fn success(code: u16) -> bool {
    200 <= code <= 299
}

/// `step` is what follows attempt number `attempt` (from 0): a success is
/// read, a record that the archive does not have fails at once, and anything
/// else is tried again as long as retries are left.
pub open spec fn follows(
    step: FetchStep,
    policy: RetryPolicy,
    attempt: u32,
    reply: Reply,
    url: Seq<char>,
) -> bool {
    match reply {
        Reply::Status { code: 404, .. } => step matches FetchStep::Fail(e) && e.says()
            == Failure::Refused("archive has no record for "@ + url + " (HTTP 404)"@),
        _ => if reply matches Reply::Status { code, .. } && success(code) {
            step is Read
        } else if attempt < policy.max_retries {
            step matches FetchStep::Again { attempt: next, delay_ms } && next == attempt + 1
                && delay_ms == jitter_of(attempt) as int % (ceiling_of(policy, attempt) + 1)
        } else {
            step matches FetchStep::Fail(e) && e.says() == Failure::Refused(
                reply_fault(reply, url),
            )
        },
    }
}

/// What follows the reply to attempt number `attempt`.
pub fn next_step(policy: &RetryPolicy, attempt: u32, reply: &Reply, url: &str) -> (step: FetchStep)
    requires
        policy.wf(),
    ensures
        follows(step, *policy, attempt, *reply, url@),
{
    let fault = match reply {
        Reply::NotSent(e) => {
            let mut s = "request failed: ".to_owned();
            push_text(&mut s, e.as_str());
            push_text(&mut s, " (url ");
            push_text(&mut s, url);
            push_text(&mut s, ")");
            s
        },
        Reply::Status { code, text } => {
            if *code == 404 {
                let mut s = "archive has no record for ".to_owned();
                push_text(&mut s, url);
                push_text(&mut s, " (HTTP 404)");
                return FetchStep::Fail(StorageError::Refused(s));
            }
            if 200 <= *code && *code <= 299 {
                return FetchStep::Read;
            }
            let mut s = "HTTP ".to_owned();
            push_text(&mut s, text.as_str());
            push_text(&mut s, " for ");
            push_text(&mut s, url);
            s
        },
    };
    if attempt < policy.max_retries {
        FetchStep::Again { attempt: attempt + 1, delay_ms: policy.delay_ms(attempt) }
    } else {
        FetchStep::Fail(StorageError::Refused(fault))
    }
}

/// No request is made beyond the allowed retries, and none follows a missing
/// record.
pub proof fn law_retries_bounded(
    step: FetchStep,
    policy: RetryPolicy,
    attempt: u32,
    reply: Reply,
    url: Seq<char>,
)
    requires
        follows(step, policy, attempt, reply, url),
    ensures
        step matches FetchStep::Again { attempt: next, .. } ==> next == attempt + 1 && next
            <= policy.max_retries,
        reply matches Reply::Status { code, .. } ==> (code == 404 ==> step is Fail),
{
}

// ---------------------------------------------------------------------------
// Archives
// ---------------------------------------------------------------------------

/// The texts of a list, or of an error.
pub open spec fn listing_texts(r: Result<Vec<String>, String>) -> Result<Seq<Seq<char>>, Seq<char>> {
    match r {
        Ok(v) => Ok(views(v@)),
        Err(e) => Err(e@),
    }
}

/// The text of a string, or of an error.
pub open spec fn outcome_text(r: Result<String, String>) -> Result<Seq<char>, Seq<char>> {
    match r {
        Ok(s) => Ok(s@),
        Err(e) => Err(e@),
    }
}

/// The entry names of a ZIP archive in the order of its directory, or why its
/// bytes are no archive.
pub uninterp spec fn archive_listing(bytes: Seq<u8>) -> Result<Seq<Seq<char>>, Seq<char>>;

/// The text of the named entry of a ZIP archive, or why it cannot be read.
pub uninterp spec fn archive_text(bytes: Seq<u8>, name: Seq<char>) -> Result<Seq<char>, Seq<char>>;

/// The list of strings as Rust's `{:?}` writes it.
pub uninterp spec fn debug_list_text(v: Seq<Seq<char>>) -> Seq<char>;

/// `zip::ZipArchive::new` over the bytes, then `file_names`: the names are a
/// function of the bytes. Nothing is said of what they are.
#[verifier::external_body]
fn archive_names(bytes: &[u8]) -> (r: Result<Vec<String>, String>)
    ensures
        listing_texts(r) == archive_listing(bytes@),
{
    match zip::ZipArchive::new(std::io::Cursor::new(bytes)) {
        Ok(archive) => Ok(archive.file_names().map(str::to_owned).collect()),
        Err(e) => Err(e.to_string()),
    }
}

/// `zip::ZipArchive::by_name` for the entry, and its whole content as text:
/// the outcome is a function of the bytes and the name. Nothing is said of
/// what it is.
#[verifier::external_body]
fn archive_entry(bytes: &[u8], name: &str) -> (r: Result<String, String>)
    ensures
        outcome_text(r) == archive_text(bytes@, name@),
{
    let mut archive = zip::ZipArchive::new(std::io::Cursor::new(bytes)).map_err(|e| e.to_string())?;
    let mut file = archive.by_name(name).map_err(|e| e.to_string())?;
    let mut text = String::new();
    std::io::Read::read_to_string(&mut file, &mut text).map_err(|e| e.to_string())?;
    Ok(text)
}

/// The `{:?}` form of a list of strings: a function of the strings.
#[verifier::external_body]
fn debug_list(v: &Vec<String>) -> (s: String)
    ensures
        s@ == debug_list_text(views(v@)),
{
    format!("{:?}", v)
}

/// Whether the entry is a CSV file, going by its name in any case.
pub open spec fn is_csv(name: Seq<char>) -> bool {
    ends(lowered(name), ".csv"@)
}

/// The CSV entries among the names, in order.
pub open spec fn csv_names(names: Seq<Seq<char>>) -> Seq<Seq<char>>
    decreases names.len(),
{
    if names.len() == 0 {
        Seq::empty()
    } else if is_csv(names.last()) {
        csv_names(names.drop_last()).push(names.last())
    } else {
        csv_names(names.drop_last())
    }
}

/// What is wrong with an archive that does not hold exactly one CSV entry.
pub open spec fn entries_fault(
    names: Seq<Seq<char>>,
    symbol: Seq<char>,
    date: Seq<char>,
) -> Option<Seq<char>> {
    let csvs = csv_names(names);
    let head = "zip for "@ + symbol + " "@ + date;
    if csvs.len() == 0 {
        Some(head + " contains no CSV (entries: "@ + debug_list_text(names) + ")"@)
    } else if csvs.len() == 1 {
        None
    } else {
        Some(
            head + " has "@ + dec(csvs.len()) + " CSVs (expected exactly 1): "@ + debug_list_text(
                csvs,
            ),
        )
    }
}

/// The one CSV entry among the names; refused unless there is exactly one.
pub fn single_csv(names: &Vec<String>, symbol: &str, date: &str) -> (r: Result<String, StorageError>)
    ensures
        match r {
            Ok(name) => entries_fault(views(names@), symbol@, date@) is None && csv_names(
                views(names@),
            ) == seq![name@],
            Err(e) => entries_fault(views(names@), symbol@, date@) is Some && e.says()
                == Failure::Refused(entries_fault(views(names@), symbol@, date@)->0),
        },
{
    let mut csvs: Vec<String> = Vec::new();
    let ghost all = views(names@);
    let mut i: usize = 0;
    assert(views(csvs@) =~= csv_names(all.take(0)));
    while i < names.len()
        invariant
            all == views(names@),
            i <= names@.len(),
            views(csvs@) == csv_names(all.take(i as int)),
        decreases names@.len() - i,
    {
        assert(all.take(i + 1).drop_last() =~= all.take(i as int));
        assert(all.take(i + 1).last() == names@[i as int]@);
        if ends_with(lower_text(names[i].as_str()).as_str(), ".csv") {
            let ghost c0 = csvs@;
            csvs.push(names[i].clone());
            assert(views(csvs@) =~= views(c0).push(names@[i as int]@));
        }
        i = i + 1;
    }
    assert(all.take(i as int) =~= all);
    assert(views(csvs@).len() == csvs@.len());
    if csvs.len() == 1 {
        assert(views(csvs@) =~= seq![csvs@[0]@]);
        return Ok(csvs[0].clone());
    }
    let mut s = "zip for ".to_owned();
    push_text(&mut s, symbol);
    push_text(&mut s, " ");
    push_text(&mut s, date);
    if csvs.len() == 0 {
        push_text(&mut s, " contains no CSV (entries: ");
        push_text(&mut s, debug_list(names).as_str());
        push_text(&mut s, ")");
    } else {
        push_text(&mut s, " has ");
        push_dec(&mut s, csvs.len() as u64);
        push_text(&mut s, " CSVs (expected exactly 1): ");
        push_text(&mut s, debug_list(&csvs).as_str());
    }
    Err(StorageError::Refused(s))
}

/// The text of the single CSV entry of an archive, given the archive's
/// listing and the outcome of reading the entry.
pub open spec fn unzipped(
    listing: Result<Seq<Seq<char>>, Seq<char>>,
    read: spec_fn(Seq<char>) -> Result<Seq<char>, Seq<char>>,
    symbol: Seq<char>,
    date: Seq<char>,
) -> Result<Seq<char>, Seq<char>> {
    match listing {
        Err(e) => Err("cannot open zip for "@ + symbol + " "@ + date + ": "@ + e),
        Ok(names) => match entries_fault(names, symbol, date) {
            Some(fault) => Err(fault),
            None => {
                let name = csv_names(names)[0];
                match read(name) {
                    Ok(text) => Ok(text),
                    Err(e) => Err(
                        "read csv "@ + name + " for "@ + symbol + " "@ + date + ": "@ + e,
                    ),
                }
            },
        },
    }
}

/// The text of the single CSV entry of a day's archive. An archive that
/// cannot be opened, that holds no CSV entry or several, or whose entry
/// cannot be read is refused: which entry is the data is never guessed.
pub fn unzip_single_csv(zip_bytes: &[u8], symbol: &str, date: &str) -> (r: Result<
    String,
    StorageError,
>)
    ensures
        ({
            let want = unzipped(
                archive_listing(zip_bytes@),
                |name: Seq<char>| archive_text(zip_bytes@, name),
                symbol@,
                date@,
            );
            match r {
                Ok(text) => want == Ok::<Seq<char>, Seq<char>>(text@),
                Err(e) => want is Err && e.says() == Failure::Refused(want->Err_0),
            }
        }),
{
    let names = match archive_names(zip_bytes) {
        Ok(names) => names,
        Err(e) => {
            let mut s = "cannot open zip for ".to_owned();
            push_text(&mut s, symbol);
            push_text(&mut s, " ");
            push_text(&mut s, date);
            push_text(&mut s, ": ");
            push_text(&mut s, e.as_str());
            return Err(StorageError::Refused(s));
        },
    };
    let name = match single_csv(&names, symbol, date) {
        Ok(name) => name,
        Err(e) => {
            return Err(e);
        },
    };
    assert(csv_names(views(names@))[0] == name@);
    match archive_entry(zip_bytes, name.as_str()) {
        Ok(text) => Ok(text),
        Err(e) => {
            let mut s = "read csv ".to_owned();
            push_text(&mut s, name.as_str());
            push_text(&mut s, " for ");
            push_text(&mut s, symbol);
            push_text(&mut s, " ");
            push_text(&mut s, date);
            push_text(&mut s, ": ");
            push_text(&mut s, e.as_str());
            Err(StorageError::Refused(s))
        },
    }
}

/// The ceiling of a delay doubles with each attempt until it meets the cap.
pub proof fn law_backoff_doubles(p: RetryPolicy, attempt: u32)
    requires
        p.wf(),
        attempt < u32::MAX,
    ensures
        ceiling_of(p, 0) == p.base_ms,
        2 * ceiling_of(p, attempt) <= p.cap_ms ==> ceiling_of(p, (attempt + 1) as u32) == 2
            * ceiling_of(p, attempt),
        2 * ceiling_of(p, attempt) >= p.cap_ms ==> ceiling_of(p, (attempt + 1) as u32) == p.cap_ms,
{
    let x = pow2(attempt as nat);
    assert(pow2((attempt + 1) as nat) == 2 * x);
    assert(p.base_ms * (2 * x) == 2 * (p.base_ms * x)) by (nonlinear_arith);
    assert(p.base_ms * 1 == p.base_ms) by (nonlinear_arith);
}

/// A success is read. A missing archive fails at once. Any other reply is
/// tried again while attempts are left, and fails when none is.
pub proof fn law_reply_decides(
    step: FetchStep,
    policy: RetryPolicy,
    attempt: u32,
    reply: Reply,
    url: Seq<char>,
)
    requires
        follows(step, policy, attempt, reply, url),
    ensures
        step is Read <==> reply is Status && 200 <= reply->code < 300,
        reply is Status && reply->code == 404 ==> step is Fail,
        step is Again <==> !(reply is Status && 200 <= reply->code < 300) && !(reply is Status
            && reply->code == 404) && attempt < policy.max_retries,
        step is Fail <==> !(reply is Status && 200 <= reply->code < 300) && ((reply is Status
            && reply->code == 404) || attempt >= policy.max_retries),
{
}

/// The tables of an archive are its entries that end in `.csv`, in whatever
/// case, in order.
pub proof fn law_csv_names(names: Seq<Seq<char>>)
    ensures
        csv_names(names) == names.filter(|n: Seq<char>| ends(lowered(n), ".csv"@)),
    decreases names.len(),
{
    reveal(Seq::filter);
    if names.len() > 0 {
        law_csv_names(names.drop_last());
    }
}

/// An archive gives the text of its one table; with none, with several, or
/// where one cannot be read, it gives an error.
pub proof fn law_archive_has_one_table(
    listing: Result<Seq<Seq<char>>, Seq<char>>,
    read: spec_fn(Seq<char>) -> Result<Seq<char>, Seq<char>>,
    symbol: Seq<char>,
    date: Seq<char>,
)
    ensures
        listing is Err ==> unzipped(listing, read, symbol, date) is Err,
        listing matches Ok(names) ==> {
            let tables = names.filter(|n: Seq<char>| ends(lowered(n), ".csv"@));
            &&& tables.len() != 1 ==> unzipped(listing, read, symbol, date) is Err
            &&& tables.len() == 1 && read(tables[0]) is Err ==> unzipped(
                listing,
                read,
                symbol,
                date,
            ) is Err
            &&& tables.len() == 1 && read(tables[0]) is Ok ==> unzipped(
                listing,
                read,
                symbol,
                date,
            ) == Ok::<Seq<char>, Seq<char>>(read(tables[0])->Ok_0)
        },
{
    if listing is Ok {
        law_csv_names(listing->Ok_0);
    }
}

/// A request waits for the later of its turn and the present.
pub proof fn law_slot(t: Throttle, now: u64)
    ensures
        slot_of(t, now) >= now,
        slot_of(t, now) >= t.next_slot_ns,
        slot_of(t, now) == now || slot_of(t, now) == t.next_slot_ns,
{
}

} // verus!
