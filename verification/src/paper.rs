//! Paper sessions: a feed that grows is read again and again, and each event
//! counts once.
use vstd::prelude::*;
use crate::event::EventEnvelope;

verus! {

/// What identifies an event in a feed: when it was received, and its number.
pub open spec fn merge_key(e: EventEnvelope) -> (i64, u64) {
    (e.recv_ts_ns, e.stream_seq)
}

/// The order of the keys.
pub open spec fn key_at_most(a: (i64, u64), b: (i64, u64)) -> bool {
    a.0 < b.0 || (a.0 == b.0 && a.1 <= b.1)
}

/// Whether an event was seen before: its key is not above the last one.
pub open spec fn seen(last: Option<(i64, u64)>, e: EventEnvelope) -> bool {
    last matches Some(k) && key_at_most(merge_key(e), k)
}

/// The last key behind a batch.
pub open spec fn last_after(last: Option<(i64, u64)>, events: Seq<EventEnvelope>) -> Option<
    (i64, u64),
>
    decreases events.len(),
{
    if events.len() == 0 {
        last
    } else {
        let before = last_after(last, events.drop_last());
        if seen(before, events.last()) {
            before
        } else {
            Some(merge_key(events.last()))
        }
    }
}

/// The events of a batch that were not seen before, in order.
pub open spec fn fresh(last: Option<(i64, u64)>, events: Seq<EventEnvelope>) -> Seq<EventEnvelope>
    decreases events.len(),
{
    if events.len() == 0 {
        Seq::empty()
    } else {
        let before = fresh(last, events.drop_last());
        if seen(last_after(last, events.drop_last()), events.last()) {
            before
        } else {
            before.push(events.last())
        }
    }
}

/// A session that is fed in batches.
#[derive(Debug)]
pub struct PaperSession {
    pub last_key: Option<(i64, u64)>,
    /// Events that were taken.
    pub consumed: u64,
    /// Events that were seen before.
    pub duplicates: u64,
}

impl PaperSession {
    /// A session that has seen nothing.
    pub fn new() -> (s: Self)
        ensures
            s.last_key is None,
            s.consumed == 0,
            s.duplicates == 0,
    {
        PaperSession { last_key: None, consumed: 0, duplicates: 0 }
    }

    /// Takes a batch, and gives back the events that are new, in order.
    pub fn push_batch(&mut self, events: Vec<EventEnvelope>) -> (new: Vec<EventEnvelope>)
        requires
            old(self).consumed + events@.len() <= u64::MAX,
            old(self).duplicates + events@.len() <= u64::MAX,
        ensures
            new@ == fresh(old(self).last_key, events@),
            final(self).last_key == last_after(old(self).last_key, events@),
            final(self).consumed == old(self).consumed + new@.len(),
            final(self).duplicates == old(self).duplicates + (events@.len() - new@.len()),
    {
        let ghost all = events@;
        let ghost first = self.last_key;
        let ghost c0 = self.consumed;
        let ghost d0 = self.duplicates;
        let mut new: Vec<EventEnvelope> = Vec::new();
        assert(all.take(0) =~= Seq::<EventEnvelope>::empty());
        for ev in it: events
            invariant
                it.seq() == all,
                new@ == fresh(first, all.take(it.index() as int)),
                self.last_key == last_after(first, all.take(it.index() as int)),
                new@.len() <= it.index(),
                self.consumed == c0,
                self.duplicates == d0 + (it.index() - new@.len()),
                d0 + all.len() <= u64::MAX,
                c0 + all.len() <= u64::MAX,
        {
            let ghost i = it.index();
            assert(all.take(i + 1).drop_last() =~= all.take(i as int));
            assert(all.take(i + 1).last() == ev);
            let key: (i64, u64) = (ev.recv_ts_ns, ev.stream_seq);
            let dup = match self.last_key {
                Some(k) => key.0 < k.0 || (key.0 == k.0 && key.1 <= k.1),
                None => false,
            };
            if dup {
                self.duplicates = self.duplicates + 1;
            } else {
                self.last_key = Some(key);
                new.push(ev);
            }
        }
        assert(all.take(all.len() as int) =~= all);
        self.consumed = self.consumed + new.len() as u64;
        new
    }
}

/// Batches add up: what two batches bring is what they bring joined. A session
/// fed in batches sees the events of one replay.
pub proof fn law_batches_join(
    last: Option<(i64, u64)>,
    a: Seq<EventEnvelope>,
    b: Seq<EventEnvelope>,
)
    ensures
        fresh(last, a + b) == fresh(last, a) + fresh(last_after(last, a), b),
        last_after(last, a + b) == last_after(last_after(last, a), b),
    decreases b.len(),
{
    if b.len() == 0 {
        assert(a + b =~= a);
        assert(fresh(last, a) + Seq::<EventEnvelope>::empty() =~= fresh(last, a));
    } else {
        law_batches_join(last, a, b.drop_last());
        assert((a + b).drop_last() =~= a + b.drop_last());
        assert((a + b).last() == b.last());
        let left = fresh(last, a);
        let right = fresh(last_after(last, a), b.drop_last());
        assert((left + right).push(b.last()) =~= left + right.push(b.last()));
    }
}

proof fn lemma_all_seen(last: Option<(i64, u64)>, a: Seq<EventEnvelope>)
    ensures
        forall|i: int| 0 <= i < a.len() ==> seen(last_after(last, a), #[trigger] a[i]),
        last is Some ==> last_after(last, a) is Some && key_at_most(
            last->0,
            last_after(last, a)->0,
        ),
    decreases a.len(),
{
    if a.len() > 0 {
        lemma_all_seen(last, a.drop_last());
        assert forall|i: int| 0 <= i < a.len() implies seen(
            last_after(last, a),
            #[trigger] a[i],
        ) by {
            if i < a.len() - 1 {
                assert(a.drop_last()[i] == a[i]);
            }
        }
    }
}

proof fn lemma_seen_is_skipped(last: Option<(i64, u64)>, a: Seq<EventEnvelope>)
    requires
        forall|i: int| 0 <= i < a.len() ==> seen(last, #[trigger] a[i]),
    ensures
        fresh(last, a) == Seq::<EventEnvelope>::empty(),
        last_after(last, a) == last,
    decreases a.len(),
{
    if a.len() > 0 {
        assert forall|i: int| 0 <= i < a.len() - 1 implies seen(
            last,
            #[trigger] a.drop_last()[i],
        ) by {
            assert(a.drop_last()[i] == a[i]);
        }
        lemma_seen_is_skipped(last, a.drop_last());
        assert(seen(last, a[a.len() - 1]));
    }
}

/// Reading again is idempotent: a batch that was taken brings nothing a second
/// time.
pub proof fn law_batch_counts_once(last: Option<(i64, u64)>, a: Seq<EventEnvelope>)
    ensures
        fresh(last_after(last, a), a) == Seq::<EventEnvelope>::empty(),
        last_after(last_after(last, a), a) == last_after(last, a),
{
    lemma_all_seen(last, a);
    lemma_seen_is_skipped(last_after(last, a), a);
}

/// A feed that is read from its head again brings what was added to it, and
/// in all what one reading of the whole feed brings.
pub proof fn law_tail_equals_replay(
    last: Option<(i64, u64)>,
    a: Seq<EventEnvelope>,
    b: Seq<EventEnvelope>,
)
    ensures
        fresh(last, a) + fresh(last_after(last, a), a + b) == fresh(last, a + b),
        last_after(last_after(last, a), a + b) == last_after(last, a + b),
{
    let l = last_after(last, a);
    law_batch_counts_once(last, a);
    law_batches_join(l, a, b);
    law_batches_join(last, a, b);
    assert(Seq::<EventEnvelope>::empty() + fresh(l, b) =~= fresh(l, b));
}

/// What is taken is new: each event taken comes after the last one before the
/// batch and after all that the batch gave earlier.
pub proof fn law_taken_moves_on(last: Option<(i64, u64)>, events: Seq<EventEnvelope>)
    ensures
        forall|i: int, j: int|
            0 <= i < j < fresh(last, events).len() ==> {
                let a = #[trigger] fresh(last, events)[i];
                let b = #[trigger] fresh(last, events)[j];
                a.recv_ts_ns < b.recv_ts_ns || (a.recv_ts_ns == b.recv_ts_ns && a.stream_seq
                    < b.stream_seq)
            },
        forall|i: int|
            0 <= i < fresh(last, events).len() && last is Some ==> {
                let a = #[trigger] fresh(last, events)[i];
                ({ let (t, n) = last->0; t < a.recv_ts_ns || (t == a.recv_ts_ns && n < a.stream_seq) })
            },
        fresh(last, events).len() > 0 ==> last_after(last, events) == Some(
            (fresh(last, events).last().recv_ts_ns, fresh(last, events).last().stream_seq),
        ),
        fresh(last, events).len() == 0 ==> last_after(last, events) == last,
    decreases events.len(),
{
    if events.len() > 0 {
        let t = events.drop_last();
        law_taken_moves_on(last, t);
        let p = fresh(last, t);
        let q = fresh(last, events);
        if !seen(last_after(last, t), events.last()) {
            assert forall|i: int, j: int| 0 <= i < j < q.len() implies {
                let a = #[trigger] q[i];
                let b = #[trigger] q[j];
                a.recv_ts_ns < b.recv_ts_ns || (a.recv_ts_ns == b.recv_ts_ns && a.stream_seq
                    < b.stream_seq)
            } by {
                assert(q[i] == p[i]);
                if j < p.len() {
                    assert(q[j] == p[j]);
                } else {
                    assert(p.last() == p[p.len() - 1]);
                }
            }
            assert forall|i: int| 0 <= i < q.len() && last is Some implies {
                let a = #[trigger] q[i];
                ({ let (t, n) = last->0; t < a.recv_ts_ns || (t == a.recv_ts_ns && n < a.stream_seq) })
            } by {
                if i < p.len() {
                    assert(q[i] == p[i]);
                } else if p.len() > 0 {
                    assert(p[p.len() - 1] == p.last());
                }
            }
        }
    }
}

/// Nothing new is missed: an event after the last one before the batch and
/// after all that the batch gave earlier is taken, and any other is not.
pub proof fn law_new_is_taken(
    last: Option<(i64, u64)>,
    events: Seq<EventEnvelope>,
    e: EventEnvelope,
)
    ensures
        ({
            let new = (last is Some ==> ({ let (t, n) = last->0; t < e.recv_ts_ns || (t == e.recv_ts_ns && n < e.stream_seq) })) && forall|i: int|
                0 <= i < events.len() ==> (#[trigger] events[i]).recv_ts_ns < e.recv_ts_ns || (
                events[i].recv_ts_ns == e.recv_ts_ns && events[i].stream_seq < e.stream_seq);
            &&& new ==> fresh(last, events.push(e)) == fresh(last, events).push(e)
            &&& !new ==> fresh(last, events.push(e)) == fresh(last, events)
        }),
{
    assert(events.push(e).drop_last() =~= events);
    lemma_all_seen(last, events);
    law_taken_moves_on(last, events);
    let k = last_after(last, events);
    let new = (last is Some ==> ({ let (t, n) = last->0; t < e.recv_ts_ns || (t == e.recv_ts_ns && n < e.stream_seq) })) && forall|i: int|
        0 <= i < events.len() ==> (#[trigger] events[i]).recv_ts_ns < e.recv_ts_ns || (
        events[i].recv_ts_ns == e.recv_ts_ns && events[i].stream_seq < e.stream_seq);
    lemma_last_is_given(last, events);
    if seen(k, e) {
        if fresh(last, events).len() > 0 {
            let i = choose|i: int|
                0 <= i < events.len() && merge_key(#[trigger] events[i]) == k->0;
            assert(!new);
        } else {
            assert(!new);
        }
    } else if !new {
        assert(false) by {
            if exists|i: int|
                0 <= i < events.len() && !((#[trigger] events[i]).recv_ts_ns < e.recv_ts_ns || (
                events[i].recv_ts_ns == e.recv_ts_ns && events[i].stream_seq < e.stream_seq)) {
                let i = choose|i: int|
                    0 <= i < events.len() && !((#[trigger] events[i]).recv_ts_ns < e.recv_ts_ns || (
                    events[i].recv_ts_ns == e.recv_ts_ns && events[i].stream_seq < e.stream_seq));
                assert(seen(k, events[i]));
            }
        }
    }
}

proof fn lemma_last_is_given(last: Option<(i64, u64)>, events: Seq<EventEnvelope>)
    ensures
        fresh(last, events).len() > 0 ==> last_after(last, events) is Some && exists|i: int|
            0 <= i < events.len() && merge_key(#[trigger] events[i]) == last_after(last, events)->0,
    decreases events.len(),
{
    if events.len() > 0 {
        let t = events.drop_last();
        let n = events.len() - 1;
        lemma_last_is_given(last, t);
        assert(events[n] == events.last());
        if seen(last_after(last, t), events.last()) {
            if fresh(last, t).len() > 0 {
                let i = choose|i: int|
                    0 <= i < t.len() && merge_key(#[trigger] t[i]) == last_after(last, t)->0;
                assert(merge_key(events[i]) == last_after(last, events)->0);
            }
        } else {
            assert(merge_key(events[n]) == last_after(last, events)->0);
        }
    }
}

} // verus!
