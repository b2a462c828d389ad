//! Counting instants: the length of a set of nanoseconds, and of a union of
//! intervals.
use vstd::prelude::*;
use crate::ordered::{sort_order, stably_sorted, comes_first};

verus! {

/// How many whole numbers of `lo..hi` satisfy `p`.
pub open spec fn count(p: spec_fn(int) -> bool, lo: int, hi: int) -> int
    decreases hi - lo,
{
    if hi <= lo {
        0
    } else {
        count(p, lo, hi - 1) + if p(hi - 1) {
            1int
        } else {
            0
        }
    }
}

pub proof fn lemma_count_bounds(p: spec_fn(int) -> bool, lo: int, hi: int)
    requires
        lo <= hi,
    ensures
        0 <= count(p, lo, hi) <= hi - lo,
    decreases hi - lo,
{
    if lo < hi {
        lemma_count_bounds(p, lo, hi - 1);
    }
}

pub proof fn lemma_count_split(p: spec_fn(int) -> bool, lo: int, mid: int, hi: int)
    requires
        lo <= mid <= hi,
    ensures
        count(p, lo, hi) == count(p, lo, mid) + count(p, mid, hi),
    decreases hi - mid,
{
    if mid < hi {
        lemma_count_split(p, lo, mid, hi - 1);
    }
}

pub proof fn lemma_count_same(
    p: spec_fn(int) -> bool,
    q: spec_fn(int) -> bool,
    lo: int,
    hi: int,
)
    requires
        forall|x: int| lo <= x < hi ==> #[trigger] p(x) == q(x),
    ensures
        count(p, lo, hi) == count(q, lo, hi),
    decreases hi - lo,
{
    if lo < hi {
        lemma_count_same(p, q, lo, hi - 1);
        assert(p(hi - 1) == q(hi - 1));
    }
}

pub proof fn lemma_count_all(p: spec_fn(int) -> bool, lo: int, hi: int)
    requires
        lo <= hi,
        forall|x: int| lo <= x < hi ==> #[trigger] p(x),
    ensures
        count(p, lo, hi) == hi - lo,
    decreases hi - lo,
{
    if lo < hi {
        lemma_count_all(p, lo, hi - 1);
        assert(p(hi - 1));
    }
}

pub proof fn lemma_count_none(p: spec_fn(int) -> bool, lo: int, hi: int)
    requires
        forall|x: int| lo <= x < hi ==> !#[trigger] p(x),
    ensures
        count(p, lo, hi) == 0,
    decreases hi - lo,
{
    if lo < hi {
        lemma_count_none(p, lo, hi - 1);
        assert(!p(hi - 1));
    }
}

/// Whether the instant `x` lies in one of the half-open intervals.
pub open spec fn covered(s: Seq<(i64, i64)>, x: int) -> bool {
    exists|i: int| 0 <= i < s.len() && (#[trigger] s[i]).0 <= x < s[i].1
}

/// How many instants of `lo..hi` lie in one of the intervals, none counted
/// twice.
pub open spec fn union_len(s: Seq<(i64, i64)>, lo: int, hi: int) -> int {
    count(|x: int| covered(s, x), lo, hi)
}

/// `x` held to `lo..=hi`.
fn clamp(x: i64, lo: i64, hi: i64) -> (r: i64)
    requires
        lo <= hi,
    ensures
        r == if x < lo {
            lo
        } else if x > hi {
            hi
        } else {
            x
        },
{
    if x < lo {
        lo
    } else if x > hi {
        hi
    } else {
        x
    }
}

/// The first `n` intervals of `s` in the order `order`.
spec fn chosen(s: Seq<(i64, i64)>, order: Seq<usize>, n: int) -> Seq<(i64, i64)> {
    Seq::new(n as nat, |i: int| s[order[i] as int])
}

proof fn lemma_chosen_all(s: Seq<(i64, i64)>, keys: Seq<i64>, order: Seq<usize>, x: int)
    requires
        keys.len() == s.len(),
        stably_sorted(keys, order),
    ensures
        covered(chosen(s, order, order.len() as int), x) == covered(s, x),
{
    let c = chosen(s, order, order.len() as int);
    if covered(c, x) {
        let i = choose|i: int| 0 <= i < c.len() && (#[trigger] c[i]).0 <= x < c[i].1;
        assert(s[order[i] as int].0 <= x < s[order[i] as int].1);
    }
    if covered(s, x) {
        let p = choose|p: int| 0 <= p < s.len() && (#[trigger] s[p]).0 <= x < s[p].1;
        assert(crate::ordered::listed(order, p));
        let i = choose|i: int| 0 <= i < order.len() && #[trigger] order[i] == p;
        assert(c[i].0 <= x < c[i].1);
    }
}

proof fn lemma_chosen_next(s: Seq<(i64, i64)>, order: Seq<usize>, n: int, x: int)
    requires
        0 <= n < order.len(),
    ensures
        covered(chosen(s, order, n + 1), x) == (covered(chosen(s, order, n), x) || s[order[n] as int].0
            <= x < s[order[n] as int].1),
{
    let a = chosen(s, order, n);
    let b = chosen(s, order, n + 1);
    if covered(a, x) {
        let i = choose|i: int| 0 <= i < a.len() && (#[trigger] a[i]).0 <= x < a[i].1;
        assert(b[i] == a[i]);
    }
    if covered(b, x) {
        let i = choose|i: int| 0 <= i < b.len() && (#[trigger] b[i]).0 <= x < b[i].1;
        if i < n {
            assert(a[i] == b[i]);
        }
    }
    if s[order[n] as int].0 <= x < s[order[n] as int].1 {
        assert(b[n].0 <= x < b[n].1);
    }
}

/// The total length of the intervals within `lo..hi`, where what several
/// cover counts once.
pub fn merged_duration(gaps: &Vec<(i64, i64)>, lo: i64, hi: i64) -> (d: i64)
    requires
        hi - lo <= i64::MAX,
    ensures
        d == union_len(gaps@, lo as int, hi as int),
        0 <= d,
        hi >= lo ==> d <= hi - lo,
{
    let ghost s = gaps@;
    if hi <= lo {
        return 0;
    }
    let mut froms: Vec<i64> = Vec::new();
    let mut i: usize = 0;
    while i < gaps.len()
        invariant
            s == gaps@,
            i <= s.len(),
            froms@ =~= Seq::new(i as nat, |k: int| s[k].0),
        decreases s.len() - i,
    {
        froms.push(gaps[i].0);
        i = i + 1;
    }
    let order = sort_order(&froms);
    let ghost p0 = |x: int| covered(chosen(s, order@, 0), x);
    let mut total: i64 = 0;
    let mut from: i64 = lo;
    let mut to: i64 = lo;
    let mut n: usize = 0;
    proof {
        lemma_count_none(p0, lo as int, lo as int);
    }
    while n < order.len()
        invariant
            s == gaps@,
            hi - lo <= i64::MAX,
            froms@ =~= Seq::new(s.len(), |k: int| s[k].0),
            stably_sorted(froms@, order@),
            n <= order@.len(),
            lo <= from <= to <= hi,
            0 <= total <= from - lo,
            total == union_len(chosen(s, order@, n as int), lo as int, from as int),
            forall|x: int|
                from <= x < hi ==> (#[trigger] covered(chosen(s, order@, n as int), x) <==> x < to),
            forall|k: int|
                n <= k < order@.len() ==> from <= s[#[trigger] order@[k] as int].0 || from == lo,
        decreases order@.len() - n,
    {
        let ghost c0 = chosen(s, order@, n as int);
        let ghost c1 = chosen(s, order@, n + 1);
        let g_from: i64 = gaps[order[n]].0;
        let g_to: i64 = gaps[order[n]].1;
        assert forall|x: int| #[trigger] covered(c1, x) == (covered(c0, x) || g_from <= x
            < g_to) by {
            lemma_chosen_next(s, order@, n as int, x);
        }
        assert forall|k: int| n < k < order@.len() implies g_from <= s[#[trigger] order@[k] as int].0
            by {
            assert(comes_first(froms@, order@[n as int] as int, order@[k] as int));
        }
        if g_to > g_from {
            let f: i64 = clamp(g_from, lo, hi);
            let t: i64 = clamp(g_to, lo, hi);
            assert(from <= s[order@[n as int] as int].0 || from == lo);
            assert(from <= f);
            if f > to {
                proof {
                    let q0 = |x: int| covered(c0, x);
                    let q1 = |x: int| covered(c1, x);
                    lemma_count_split(q0, lo as int, from as int, to as int);
                    lemma_count_split(q0, lo as int, to as int, f as int);
                    lemma_count_all(q0, from as int, to as int);
                    lemma_count_none(q0, to as int, f as int);
                    assert forall|x: int| lo <= x < f implies #[trigger] q1(x) == q0(x) by {
                        assert(covered(c1, x) == (covered(c0, x) || g_from <= x < g_to));
                    }
                    lemma_count_same(q1, q0, lo as int, f as int);
                }
                total = total + (to - from);
                from = f;
                to = t;
            } else {
                proof {
                    let q0 = |x: int| covered(c0, x);
                    let q1 = |x: int| covered(c1, x);
                    assert forall|x: int| lo <= x < from implies #[trigger] q1(x) == q0(x) by {
                        assert(covered(c1, x) == (covered(c0, x) || g_from <= x < g_to));
                    }
                    lemma_count_same(q1, q0, lo as int, from as int);
                }
                if t > to {
                    to = t;
                }
            }
        } else {
            proof {
                let q0 = |x: int| covered(c0, x);
                let q1 = |x: int| covered(c1, x);
                assert forall|x: int| lo <= x < from implies #[trigger] q1(x) == q0(x) by {
                    assert(covered(c1, x) == (covered(c0, x) || g_from <= x < g_to));
                }
                lemma_count_same(q1, q0, lo as int, from as int);
            }
        }
        assert forall|x: int| from <= x < hi implies (#[trigger] covered(c1, x) <==> x < to) by {
            assert(covered(c1, x) == (covered(c0, x) || g_from <= x < g_to));
        }
        n = n + 1;
    }
    proof {
        let c = chosen(s, order@, n as int);
        let q = |x: int| covered(c, x);
        let p = |x: int| covered(s, x);
        lemma_count_split(q, lo as int, from as int, hi as int);
        lemma_count_split(q, from as int, to as int, hi as int);
        lemma_count_all(q, from as int, to as int);
        lemma_count_none(q, to as int, hi as int);
        assert forall|x: int| lo <= x < hi implies #[trigger] q(x) == p(x) by {
            lemma_chosen_all(s, froms@, order@, x);
        }
        lemma_count_same(q, p, lo as int, hi as int);
    }
    total + (to - from)
}

/// Covering twice is covering once: adding an interval that the others cover
/// already leaves the length unchanged.
pub proof fn law_union_idempotent(s: Seq<(i64, i64)>, extra: (i64, i64), lo: int, hi: int)
    requires
        forall|x: int| extra.0 <= x < extra.1 ==> #[trigger] covered(s, x),
    ensures
        union_len(s.push(extra), lo, hi) == union_len(s, lo, hi),
{
    let t = s.push(extra);
    let p = |x: int| covered(t, x);
    let q = |x: int| covered(s, x);
    assert forall|x: int| lo <= x < hi implies #[trigger] p(x) == q(x) by {
        if covered(t, x) {
            let i = choose|i: int| 0 <= i < t.len() && (#[trigger] t[i]).0 <= x < t[i].1;
            if i < s.len() {
                assert(s[i].0 <= x < s[i].1);
            }
        }
        if covered(s, x) {
            let i = choose|i: int| 0 <= i < s.len() && (#[trigger] s[i]).0 <= x < s[i].1;
            assert(t[i].0 <= x < t[i].1);
        }
    }
    lemma_count_same(p, q, lo, hi);
}

/// One interval covers as many instants of a span as it shares with it.
pub proof fn law_union_of_one(a: i64, b: i64, lo: int, hi: int)
    requires
        lo <= hi,
    ensures
        lo <= a <= b <= hi ==> union_len(seq![(a, b)], lo, hi) == b - a,
        a <= lo && hi <= b ==> union_len(seq![(a, b)], lo, hi) == hi - lo,
        b <= lo || hi <= a || b <= a ==> union_len(seq![(a, b)], lo, hi) == 0,
        union_len(Seq::<(i64, i64)>::empty(), lo, hi) == 0,
{
    let s = seq![(a, b)];
    let p = |x: int| covered(s, x);
    assert forall|x: int| #[trigger] p(x) == (a <= x < b) by {
        if a <= x < b {
            assert(s[0].0 <= x < s[0].1);
        }
    }
    if lo <= a <= b <= hi {
        lemma_count_split(p, lo, a as int, hi);
        lemma_count_split(p, a as int, b as int, hi);
        lemma_count_none(p, lo, a as int);
        lemma_count_all(p, a as int, b as int);
        lemma_count_none(p, b as int, hi);
    }
    if a <= lo && hi <= b {
        lemma_count_all(p, lo, hi);
    }
    if b <= lo || hi <= a || b <= a {
        lemma_count_none(p, lo, hi);
    }
    let e = Seq::<(i64, i64)>::empty();
    lemma_count_none(|x: int| covered(e, x), lo, hi);
}

/// An interval that touches no other adds its whole length.
pub proof fn law_union_adds(s: Seq<(i64, i64)>, a: i64, b: i64, lo: int, hi: int)
    requires
        lo <= a <= b <= hi,
        forall|x: int| a <= x < b ==> !#[trigger] covered(s, x),
    ensures
        union_len(s.push((a, b)), lo, hi) == union_len(s, lo, hi) + (b - a),
{
    let t = s.push((a, b));
    let p = |x: int| covered(t, x);
    let q = |x: int| covered(s, x);
    assert forall|x: int| #[trigger] p(x) == (q(x) || a <= x < b) by {
        if covered(t, x) {
            let i = choose|i: int| 0 <= i < t.len() && (#[trigger] t[i]).0 <= x < t[i].1;
            if i < s.len() {
                assert(s[i].0 <= x < s[i].1);
            }
        }
        if covered(s, x) {
            let i = choose|i: int| 0 <= i < s.len() && (#[trigger] s[i]).0 <= x < s[i].1;
            assert(t[i].0 <= x < t[i].1);
        }
        if a <= x < b {
            assert(t[s.len() as int].0 <= x < t[s.len() as int].1);
        }
    }
    lemma_count_split(p, lo, a as int, hi);
    lemma_count_split(p, a as int, b as int, hi);
    lemma_count_split(q, lo, a as int, hi);
    lemma_count_split(q, a as int, b as int, hi);
    assert forall|x: int| a <= x < b implies !#[trigger] q(x) by {
        assert(!covered(s, x));
    }
    lemma_count_all(p, a as int, b as int);
    lemma_count_none(q, a as int, b as int);
    lemma_count_same(p, q, lo, a as int);
    lemma_count_same(p, q, b as int, hi);
}

} // verus!
