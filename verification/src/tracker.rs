//! The record of a run, by which it can be repeated and found again.
use vstd::prelude::*;
use crate::fnv::{content_hash, fnv, FNV1A_OFFSET};
use crate::harness::MetricsSummary;
use crate::text::{dec, dec_int, push_dec, push_dec_int, push_text};

verus! {

/// One run.
#[derive(Debug)]
pub struct RunRecord {
    pub run_id: String,
    pub git_sha: String,
    pub config_hash: u64,
    pub data_from_ns: i64,
    pub data_to_ns: i64,
    /// The hashes of the manifests of the streams that were read.
    pub manifest_hashes: Vec<u64>,
    pub decision_log_hash: u64,
    pub metrics: MetricsSummary,
}

/// The numbers of a record's metrics as text.
#[derive(Debug)]
pub struct SummaryTexts {
    pub expectancy: String,
    pub stress_expectancy_2x: String,
    pub max_drawdown: String,
}

/// Numbers with commas between them.
pub open spec fn comma_list(v: Seq<u64>) -> Seq<char>
    decreases v.len(),
{
    if v.len() == 0 {
        Seq::empty()
    } else if v.len() == 1 {
        dec(v[0] as nat)
    } else {
        comma_list(v.drop_last()) + ","@ + dec(v.last() as nat)
    }
}

/// The line of a record.
pub open spec fn record_line(r: RunRecord, t: SummaryTexts) -> Seq<char> {
    "{\"run_id\":\""@ + r.run_id@ + "\",\"git_sha\":\""@ + r.git_sha@ + "\",\"config_hash\":"@
        + dec(r.config_hash as nat) + ",\"data_from_ns\":"@ + dec_int(r.data_from_ns as int)
        + ",\"data_to_ns\":"@ + dec_int(r.data_to_ns as int) + ",\"manifest_hashes\":["@
        + comma_list(r.manifest_hashes@) + "],\"decision_log_hash\":"@ + dec(
        r.decision_log_hash as nat,
    ) + ",\"trades\":"@ + dec(r.metrics.trades as nat) + ",\"expectancy\":"@ + t.expectancy@
        + ",\"stress_expectancy_2x\":"@ + t.stress_expectancy_2x@ + ",\"max_drawdown\":"@
        + t.max_drawdown@ + "}"@
}

/// Whether two records are of one experiment: the same configuration, data and
/// manifests, whatever the run is called.
pub open spec fn one_experiment(a: RunRecord, b: RunRecord) -> bool {
    &&& a.config_hash == b.config_hash
    &&& a.data_from_ns == b.data_from_ns
    &&& a.data_to_ns == b.data_to_ns
    &&& a.manifest_hashes@ == b.manifest_hashes@
}

fn push_list(out: &mut String, v: &Vec<u64>)
    ensures
        final(out)@ == old(out)@ + comma_list(v@),
{
    let ghost base = out@;
    let mut i: usize = 0;
    assert(out@ =~= base + comma_list(v@.take(0)));
    while i < v.len()
        invariant
            i <= v@.len(),
            out@ == base + comma_list(v@.take(i as int)),
        decreases v@.len() - i,
    {
        let ghost next = v@.take(i + 1);
        assert(next.drop_last() =~= v@.take(i as int));
        assert(next.last() == v@[i as int]);
        if i > 0 {
            push_text(out, ",");
        }
        push_dec(out, v[i]);
        assert(out@ =~= base + comma_list(next));
        i = i + 1;
    }
    assert(v@.take(i as int) =~= v@);
}

impl RunRecord {
    /// A record, with the hash of the whole configuration text.
    pub fn new(
        run_id: String,
        git_sha: String,
        config_text: &str,
        data_from_ns: i64,
        data_to_ns: i64,
        manifest_hashes: Vec<u64>,
        decision_log_hash: u64,
        metrics: MetricsSummary,
    ) -> (r: Self)
        ensures
            r.run_id == run_id,
            r.git_sha == git_sha,
            r.config_hash == fnv(FNV1A_OFFSET, vstd::utf8::encode_utf8(config_text@)),
            r.data_from_ns == data_from_ns,
            r.data_to_ns == data_to_ns,
            r.manifest_hashes == manifest_hashes,
            r.decision_log_hash == decision_log_hash,
            r.metrics == metrics,
    {
        RunRecord {
            run_id,
            git_sha,
            config_hash: content_hash(config_text.as_bytes()),
            data_from_ns,
            data_to_ns,
            manifest_hashes,
            decision_log_hash,
            metrics,
        }
    }

    /// The record as one line.
    pub fn to_jsonl(&self, texts: &SummaryTexts) -> (s: String)
        ensures
            s@ == record_line(*self, *texts),
    {
        let mut s = "{\"run_id\":\"".to_owned();
        push_text(&mut s, self.run_id.as_str());
        push_text(&mut s, "\",\"git_sha\":\"");
        push_text(&mut s, self.git_sha.as_str());
        push_text(&mut s, "\",\"config_hash\":");
        push_dec(&mut s, self.config_hash);
        push_text(&mut s, ",\"data_from_ns\":");
        push_dec_int(&mut s, self.data_from_ns);
        push_text(&mut s, ",\"data_to_ns\":");
        push_dec_int(&mut s, self.data_to_ns);
        push_text(&mut s, ",\"manifest_hashes\":[");
        push_list(&mut s, &self.manifest_hashes);
        push_text(&mut s, "],\"decision_log_hash\":");
        push_dec(&mut s, self.decision_log_hash);
        push_text(&mut s, ",\"trades\":");
        push_dec(&mut s, self.metrics.trades);
        push_text(&mut s, ",\"expectancy\":");
        push_text(&mut s, texts.expectancy.as_str());
        push_text(&mut s, ",\"stress_expectancy_2x\":");
        push_text(&mut s, texts.stress_expectancy_2x.as_str());
        push_text(&mut s, ",\"max_drawdown\":");
        push_text(&mut s, texts.max_drawdown.as_str());
        push_text(&mut s, "}");
        s
    }

    /// Whether two records are of one experiment.
    pub fn same_experiment(&self, other: &RunRecord) -> (r: bool)
        ensures
            r == one_experiment(*self, *other),
    {
        if self.config_hash != other.config_hash || self.data_from_ns != other.data_from_ns
            || self.data_to_ns != other.data_to_ns || self.manifest_hashes.len()
            != other.manifest_hashes.len() {
            return false;
        }
        let mut i: usize = 0;
        while i < self.manifest_hashes.len()
            invariant
                i <= self.manifest_hashes@.len(),
                self.manifest_hashes@.len() == other.manifest_hashes@.len(),
                forall|k: int|
                    0 <= k < i ==> self.manifest_hashes@[k] == other.manifest_hashes@[k],
            decreases self.manifest_hashes@.len() - i,
        {
            if self.manifest_hashes[i] != other.manifest_hashes[i] {
                return false;
            }
            i = i + 1;
        }
        assert(self.manifest_hashes@ =~= other.manifest_hashes@);
        true
    }
}

/// Being of one experiment relates records as equality does.
pub proof fn law_experiments(a: RunRecord, b: RunRecord, c: RunRecord)
    ensures
        one_experiment(a, a),
        one_experiment(a, b) ==> one_experiment(b, a),
        one_experiment(a, b) && one_experiment(b, c) ==> one_experiment(a, c),
{
}

/// A list is its numbers with a comma between two of them.
pub proof fn law_comma_list(v: Seq<u64>)
    ensures
        comma_list(v) == crate::text::join_with(
            Seq::new(v.len(), |i: int| dec(v[i] as nat)),
            ","@,
        ),
    decreases v.len(),
{
    if v.len() > 1 {
        law_comma_list(v.drop_last());
        let all = Seq::new(v.len(), |i: int| dec(v[i] as nat));
        assert(all.drop_last() =~= Seq::new(
            v.drop_last().len(),
            |i: int| dec(v.drop_last()[i] as nat),
        ));
    }
}

} // verus!
