//! The decision log: one line for each decision, with a rolling hash. Two runs
//! over the same input are compared by it.
use vstd::prelude::*;
use crate::determinism::{divergence, first_divergence};
use crate::event::{venue_name_of, SymbolId, Venue};
use crate::fills::{optimism_text, FillOptimism};
use crate::fnv::{fnv, fnv1a_absorb, FNV1A_OFFSET};
use crate::number::Real;
use crate::order::{
    bool_name, bool_text, liquidity_name, liquidity_text, side_name, side_text, Fill, IntentTexts,
    OrderIntent,
};
use crate::text::{dec, dec_int, join_with, push_dec, push_dec_int, push_dec_wide, push_text, views};

verus! {

/// The lines of a log, each absorbed into the hash behind the one before.
pub open spec fn log_hash(lines: Seq<Seq<char>>) -> u64
    decreases lines.len(),
{
    if lines.len() == 0 {
        FNV1A_OFFSET
    } else {
        fnv(log_hash(lines.drop_last()), vstd::utf8::encode_utf8(lines.last()))
    }
}

/// A feature value as the log shows it.
#[derive(Clone, Copy, Debug, PartialEq, Eq, Structural)]
pub struct FeatureRecord {
    pub feature: u32,
    pub venue: Venue,
    pub symbol: SymbolId,
    pub ts_ns: i64,
    pub value: Real,
    pub ver: u16,
}

/// The line of an intent.
pub open spec fn intent_line(seq: u64, i: OrderIntent, t: IntentTexts) -> Seq<char> {
    "I|"@ + dec(seq as nat) + "|"@ + i.strategy@ + "|"@ + side_text(i.side) + "|"@ + dec(
        i.symbol.0 as nat,
    ) + "|"@ + t.kind@ + "|"@ + t.qty@ + "|"@ + t.tif@ + "|"@ + bool_text(i.reduce_only)
}

/// The line of a fill. Numbers are shown by their bit patterns.
pub open spec fn fill_line(seq: u64, f: Fill, o: FillOptimism) -> Seq<char> {
    "F|"@ + dec(seq as nat) + "|"@ + dec(f.symbol.0 as nat) + "|"@ + side_text(f.side) + "|"@ + dec(
        f.price.bits as nat,
    ) + "|"@ + dec(f.qty.bits as nat) + "|"@ + dec(f.fee.bits as nat) + "|"@ + liquidity_text(
        f.liquidity,
    ) + "|"@ + optimism_text(o)
}

/// The line of a feature value.
pub open spec fn feature_line(seq: u64, u: FeatureRecord) -> Seq<char> {
    "U|"@ + dec(seq as nat) + "|"@ + dec(u.feature as nat) + "|"@ + venue_name_of(u.venue) + "|"@
        + dec(u.symbol.0 as nat) + "|"@ + dec_int(u.ts_ns as int) + "|"@ + dec(u.value.bits as nat)
        + "|"@ + dec(u.ver as nat)
}

/// The line of a risk verdict.
pub open spec fn verdict_line(seq: u64, intent: u128, verdict: Seq<char>) -> Seq<char> {
    "V|"@ + dec(seq as nat) + "|"@ + dec(intent as nat) + "|"@ + verdict
}

/// The line of a strategy's own remark.
pub open spec fn remark_line(seq: u64, msg: Seq<char>) -> Seq<char> {
    "L|"@ + dec(seq as nat) + "|"@ + msg
}

/// The line of an intent that is not valid.
pub open spec fn invalid_line(seq: u64, intent: u128, reason: Seq<char>) -> Seq<char> {
    "X|"@ + dec(seq as nat) + "|"@ + dec(intent as nat) + "|"@ + reason
}

/// The decisions of a run, in order.
#[derive(Debug)]
pub struct DecisionLog {
    pub hash: u64,
    pub intents: u64,
    pub fills: u64,
    pub lines: Vec<String>,
}

/// What a log says.
pub struct LogView {
    pub intents: int,
    pub fills: int,
    pub lines: Seq<Seq<char>>,
}

/// How many of the lines begin with `kind`.
pub open spec fn count_kind(lines: Seq<Seq<char>>, kind: char) -> nat
    decreases lines.len(),
{
    if lines.len() == 0 {
        0
    } else {
        count_kind(lines.drop_last(), kind) + if lines.last().len() > 0 && lines.last()[0] == kind {
            1nat
        } else {
            0
        }
    }
}

/// The kind of each line.
proof fn lemma_line_kinds()
    ensures
        forall|seq: u64, i: OrderIntent, t: IntentTexts|
            (#[trigger] intent_line(seq, i, t)).len() > 0 && intent_line(seq, i, t)[0] == 'I',
        forall|seq: u64, f: Fill, o: FillOptimism|
            (#[trigger] fill_line(seq, f, o)).len() > 0 && fill_line(seq, f, o)[0] == 'F',
        forall|seq: u64, u: FeatureRecord|
            (#[trigger] feature_line(seq, u)).len() > 0 && feature_line(seq, u)[0] == 'U',
        forall|seq: u64, i: u128, v: Seq<char>|
            (#[trigger] verdict_line(seq, i, v)).len() > 0 && verdict_line(seq, i, v)[0] == 'V',
        forall|seq: u64, m: Seq<char>|
            (#[trigger] remark_line(seq, m)).len() > 0 && remark_line(seq, m)[0] == 'L',
        forall|seq: u64, i: u128, r: Seq<char>|
            (#[trigger] invalid_line(seq, i, r)).len() > 0 && invalid_line(seq, i, r)[0] == 'X',
{
    reveal_strlit("I|");
    reveal_strlit("F|");
    reveal_strlit("U|");
    reveal_strlit("V|");
    reveal_strlit("L|");
    reveal_strlit("X|");
}

impl DecisionLog {
    /// The hash is that of the lines, and the two counts are those of the
    /// intents and the fills among them.
    pub open spec fn wf(&self) -> bool {
        &&& self.hash == log_hash(views(self.lines@))
        &&& self.intents == count_kind(views(self.lines@), 'I')
        &&& self.fills == count_kind(views(self.lines@), 'F')
    }

    pub open spec fn says(&self) -> LogView {
        LogView {
            intents: self.intents as int,
            fills: self.fills as int,
            lines: views(self.lines@),
        }
    }

    /// What the log says with one more line.
    pub open spec fn with_line(&self, line: Seq<char>) -> LogView {
        LogView { lines: self.says().lines.push(line), ..self.says() }
    }

    /// An empty log.
    pub fn new() -> (log: Self)
        ensures
            log.wf(),
            log.says() == (LogView { intents: 0, fills: 0, lines: Seq::empty() }),
    {
        let log = DecisionLog { hash: FNV1A_OFFSET, intents: 0, fills: 0, lines: Vec::new() };
        assert(views(log.lines@) =~= Seq::<Seq<char>>::empty());
        log
    }

    fn absorb(&mut self, s: String)
        requires
            old(self).hash == log_hash(views(old(self).lines@)),
        ensures
            final(self).hash == log_hash(views(final(self).lines@)),
            final(self).says() == old(self).with_line(s@),
            final(self).intents == old(self).intents,
            final(self).fills == old(self).fills,
            views(final(self).lines@).drop_last() == views(old(self).lines@),
            views(final(self).lines@).last() == s@,
            final(self).lines@.len() == old(self).lines@.len() + 1,
    {
        let ghost before = self.lines@;
        let ghost line = s@;
        self.hash = fnv1a_absorb(self.hash, s.as_str().as_bytes());
        self.lines.push(s);
        assert(views(self.lines@) =~= views(before).push(line));
        assert(views(self.lines@).drop_last() =~= views(before));
    }

    /// Records an intent.
    pub fn record_intent(&mut self, seq: u64, i: &OrderIntent, texts: &IntentTexts)
        requires
            old(self).wf(),
            old(self).intents < u64::MAX,
        ensures
            final(self).wf(),
            final(self).says() == (LogView {
                intents: old(self).intents + 1,
                ..old(self).with_line(intent_line(seq, *i, *texts))
            }),
    {
        let mut s = "I|".to_owned();
        push_dec(&mut s, seq);
        push_text(&mut s, "|");
        push_text(&mut s, i.strategy.as_str());
        push_text(&mut s, "|");
        push_text(&mut s, side_name(i.side));
        push_text(&mut s, "|");
        push_dec(&mut s, i.symbol.0 as u64);
        push_text(&mut s, "|");
        push_text(&mut s, texts.kind.as_str());
        push_text(&mut s, "|");
        push_text(&mut s, texts.qty.as_str());
        push_text(&mut s, "|");
        push_text(&mut s, texts.tif.as_str());
        push_text(&mut s, "|");
        push_text(&mut s, bool_name(i.reduce_only));
        self.intents = self.intents + 1;
        self.absorb(s);
        proof {
            lemma_line_kinds();
        }
    }

    /// Records a fill without a tag.
    pub fn record_fill(&mut self, seq: u64, f: &Fill)
        requires
            old(self).wf(),
            old(self).fills < u64::MAX,
        ensures
            final(self).wf(),
            final(self).says() == (LogView {
                fills: old(self).fills + 1,
                ..old(self).with_line(fill_line(seq, *f, FillOptimism::Exact))
            }),
    {
        self.record_fill_tagged(seq, f, FillOptimism::Exact);
    }

    /// Records a fill with its tag.
    pub fn record_fill_tagged(&mut self, seq: u64, f: &Fill, optimism: FillOptimism)
        requires
            old(self).wf(),
            old(self).fills < u64::MAX,
        ensures
            final(self).wf(),
            final(self).says() == (LogView {
                fills: old(self).fills + 1,
                ..old(self).with_line(fill_line(seq, *f, optimism))
            }),
    {
        let mut s = "F|".to_owned();
        push_dec(&mut s, seq);
        push_text(&mut s, "|");
        push_dec(&mut s, f.symbol.0 as u64);
        push_text(&mut s, "|");
        push_text(&mut s, side_name(f.side));
        push_text(&mut s, "|");
        push_dec(&mut s, f.price.bits);
        push_text(&mut s, "|");
        push_dec(&mut s, f.qty.bits);
        push_text(&mut s, "|");
        push_dec(&mut s, f.fee.bits);
        push_text(&mut s, "|");
        push_text(&mut s, liquidity_name(f.liquidity));
        push_text(&mut s, "|");
        push_text(&mut s, optimism.as_str());
        self.fills = self.fills + 1;
        self.absorb(s);
        proof {
            lemma_line_kinds();
        }
    }

    /// Records a feature value.
    pub fn record_feature(&mut self, seq: u64, u: &FeatureRecord)
        requires
            old(self).wf(),
        ensures
            final(self).wf(),
            final(self).says() == old(self).with_line(feature_line(seq, *u)),
    {
        let mut s = "U|".to_owned();
        push_dec(&mut s, seq);
        push_text(&mut s, "|");
        push_dec(&mut s, u.feature as u64);
        push_text(&mut s, "|");
        push_text(&mut s, u.venue.name());
        push_text(&mut s, "|");
        push_dec(&mut s, u.symbol.0 as u64);
        push_text(&mut s, "|");
        push_dec_int(&mut s, u.ts_ns);
        push_text(&mut s, "|");
        push_dec(&mut s, u.value.bits);
        push_text(&mut s, "|");
        push_dec(&mut s, u.ver as u64);
        self.absorb(s);
        proof {
            lemma_line_kinds();
            assert(feature_line(seq, *u)[0] == 'U');
        }
    }

    /// Records a risk verdict on an intent.
    pub fn record_verdict(&mut self, seq: u64, intent: u128, verdict: &str)
        requires
            old(self).wf(),
        ensures
            final(self).wf(),
            final(self).says() == old(self).with_line(verdict_line(seq, intent, verdict@)),
    {
        let mut s = "V|".to_owned();
        push_dec(&mut s, seq);
        push_text(&mut s, "|");
        push_dec_wide(&mut s, intent);
        push_text(&mut s, "|");
        push_text(&mut s, verdict);
        self.absorb(s);
        proof {
            lemma_line_kinds();
            assert(verdict_line(seq, intent, verdict@)[0] == 'V');
        }
    }

    /// Records a strategy's own remark.
    pub fn record_log(&mut self, seq: u64, msg: &str)
        requires
            old(self).wf(),
        ensures
            final(self).wf(),
            final(self).says() == old(self).with_line(remark_line(seq, msg@)),
    {
        let mut s = "L|".to_owned();
        push_dec(&mut s, seq);
        push_text(&mut s, "|");
        push_text(&mut s, msg);
        self.absorb(s);
        proof {
            lemma_line_kinds();
            assert(remark_line(seq, msg@)[0] == 'L');
        }
    }

    /// Records an intent that is not valid, with the reason.
    pub fn record_invalid_intent(&mut self, seq: u64, intent: u128, reason: &str)
        requires
            old(self).wf(),
        ensures
            final(self).wf(),
            final(self).says() == old(self).with_line(invalid_line(seq, intent, reason@)),
    {
        let mut s = "X|".to_owned();
        push_dec(&mut s, seq);
        push_text(&mut s, "|");
        push_dec_wide(&mut s, intent);
        push_text(&mut s, "|");
        push_text(&mut s, reason);
        self.absorb(s);
        proof {
            lemma_line_kinds();
            assert(invalid_line(seq, intent, reason@)[0] == 'X');
        }
    }

    /// The hash of the lines so far.
    pub fn hash(&self) -> (h: u64)
        ensures
            h == self.hash,
            self.wf() ==> h == log_hash(self.says().lines),
    {
        self.hash
    }

    /// How many intents were recorded.
    pub fn intent_count(&self) -> (n: u64)
        ensures
            n == self.says().intents,
    {
        self.intents
    }

    /// How many fills were recorded.
    pub fn fill_count(&self) -> (n: u64)
        ensures
            n == self.says().fills,
    {
        self.fills
    }

    /// The lines so far.
    pub fn lines(&self) -> (lines: &Vec<String>)
        ensures
            views(lines@) == self.says().lines,
            lines@ == self.lines@,
    {
        &self.lines
    }

    /// The first line in which two logs differ, if they do. A log that ends
    /// differs from one that goes on.
    pub fn first_divergence(&self, other: &DecisionLog) -> (r: Option<usize>)
        ensures
            match r {
                Some(i) => divergence(self.says().lines, other.says().lines) == Some(i as int),
                None => divergence(self.says().lines, other.says().lines) is None,
            },
    {
        first_divergence(&self.lines, &other.lines)
    }
}

/// Logs with the same lines have the same hash.
pub proof fn law_same_lines_same_hash(a: DecisionLog, b: DecisionLog)
    requires
        a.wf(),
        b.wf(),
        divergence(a.says().lines, b.says().lines) is None,
    ensures
        a.hash == b.hash,
{
}

/// The bytes of all lines.
pub open spec fn log_bytes(lines: Seq<Seq<char>>) -> Seq<u8>
    decreases lines.len(),
{
    if lines.len() == 0 {
        Seq::empty()
    } else {
        log_bytes(lines.drop_last()) + vstd::utf8::encode_utf8(lines.last())
    }
}

/// The rolling hash is the hash of all lines' bytes taken together.
pub proof fn law_hash_of_whole_log(lines: Seq<Seq<char>>)
    ensures
        log_hash(lines) == fnv(FNV1A_OFFSET, log_bytes(lines)),
    decreases lines.len(),
{
    if lines.len() > 0 {
        law_hash_of_whole_log(lines.drop_last());
        crate::fnv::law_fnv_chunks(
            FNV1A_OFFSET,
            log_bytes(lines.drop_last()),
            vstd::utf8::encode_utf8(lines.last()),
        );
    }
}

/// The counts are those of the lines that start with the letter.
pub proof fn law_lines_counted(lines: Seq<Seq<char>>, kind: char)
    ensures
        count_kind(lines, kind) == lines.filter(
            |l: Seq<char>| l.len() > 0 && l[0] == kind,
        ).len(),
    decreases lines.len(),
{
    reveal(Seq::filter);
    if lines.len() > 0 {
        law_lines_counted(lines.drop_last(), kind);
    }
}

proof fn lemma_bars(a: Seq<Seq<char>>, x: Seq<char>)
    requires
        a.len() > 0,
    ensures
        join_with(a.push(x), "|"@) == join_with(a, "|"@) + "|"@ + x,
{
    assert(a.push(x).drop_last() =~= a);
}

/// A fill's line is its letter, its number, symbol, side, price, quantity,
/// fee, liquidity and tag, with bars between.
pub proof fn law_fill_line(seq: u64, f: Fill, o: FillOptimism)
    ensures
        fill_line(seq, f, o) == join_with(
            seq![
                "F"@,
                dec(seq as nat),
                dec(f.symbol.0 as nat),
                side_text(f.side),
                dec(f.price.bits as nat),
                dec(f.qty.bits as nat),
                dec(f.fee.bits as nat),
                liquidity_text(f.liquidity),
                optimism_text(o),
            ],
            "|"@,
        ),
{
    let p0 = seq!["F"@];
    let p1 = p0.push(dec(seq as nat));
    let p2 = p1.push(dec(f.symbol.0 as nat));
    let p3 = p2.push(side_text(f.side));
    let p4 = p3.push(dec(f.price.bits as nat));
    let p5 = p4.push(dec(f.qty.bits as nat));
    let p6 = p5.push(dec(f.fee.bits as nat));
    let p7 = p6.push(liquidity_text(f.liquidity));
    lemma_bars(p0, dec(seq as nat));
    lemma_bars(p1, dec(f.symbol.0 as nat));
    lemma_bars(p2, side_text(f.side));
    lemma_bars(p3, dec(f.price.bits as nat));
    lemma_bars(p4, dec(f.qty.bits as nat));
    lemma_bars(p5, dec(f.fee.bits as nat));
    lemma_bars(p6, liquidity_text(f.liquidity));
    lemma_bars(p7, optimism_text(o));
    reveal_strlit("F|");
    reveal_strlit("F");
    reveal_strlit("|");
    assert("F|"@ =~= "F"@ + "|"@);
    assert(join_with(p0, "|"@) == "F"@);
    assert(p7.push(optimism_text(o)) =~= seq![
        "F"@,
        dec(seq as nat),
        dec(f.symbol.0 as nat),
        side_text(f.side),
        dec(f.price.bits as nat),
        dec(f.qty.bits as nat),
        dec(f.fee.bits as nat),
        liquidity_text(f.liquidity),
        optimism_text(o),
    ]);
}

/// An intent's line is its letter, its number, strategy, side, symbol, kind,
/// quantity, time in force and whether it only reduces, with bars between.
pub proof fn law_intent_line(seq: u64, i: OrderIntent, t: IntentTexts)
    ensures
        intent_line(seq, i, t) == join_with(
            seq![
                "I"@,
                dec(seq as nat),
                i.strategy@,
                side_text(i.side),
                dec(i.symbol.0 as nat),
                t.kind@,
                t.qty@,
                t.tif@,
                bool_text(i.reduce_only),
            ],
            "|"@,
        ),
{
    let p0 = seq!["I"@];
    let p1 = p0.push(dec(seq as nat));
    let p2 = p1.push(i.strategy@);
    let p3 = p2.push(side_text(i.side));
    let p4 = p3.push(dec(i.symbol.0 as nat));
    let p5 = p4.push(t.kind@);
    let p6 = p5.push(t.qty@);
    let p7 = p6.push(t.tif@);
    lemma_bars(p0, dec(seq as nat));
    lemma_bars(p1, i.strategy@);
    lemma_bars(p2, side_text(i.side));
    lemma_bars(p3, dec(i.symbol.0 as nat));
    lemma_bars(p4, t.kind@);
    lemma_bars(p5, t.qty@);
    lemma_bars(p6, t.tif@);
    lemma_bars(p7, bool_text(i.reduce_only));
    reveal_strlit("I|");
    reveal_strlit("I");
    reveal_strlit("|");
    assert("I|"@ =~= "I"@ + "|"@);
    assert(join_with(p0, "|"@) == "I"@);
    assert(p7.push(bool_text(i.reduce_only)) =~= seq![
        "I"@,
        dec(seq as nat),
        i.strategy@,
        side_text(i.side),
        dec(i.symbol.0 as nat),
        t.kind@,
        t.qty@,
        t.tif@,
        bool_text(i.reduce_only),
    ]);
}

} // verus!
