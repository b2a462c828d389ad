//! Materialization is reproducible: two runs over the same logs, in whatever
//! order and however often each is named, come to the same.
use vstd::prelude::*;
use crate::event::SymbolMeta;
use crate::feature_store::{has_day, parted_by_day, row_date, rows_on, DayRows, FeatureRow};
use crate::materialize::{
    among, canonical, canonical_paths_of, feature_names, file_group, files_of_groups, group_files,
    group_of, group_rows, groups_in_order, holds_place, interned, interned_all, is_place,
    key_sorted, key_sorted_by, law_log_order_is_irrelevant, law_text_order_is_irrelevant,
    local_key, merges_before, row_key, total_rows, update_row, FeatureFile, FeatureUpdate, GroupId,
    MaterializeStats, Place, SymbolKey,
};
use crate::ordered::{listed, Key, Pair};
use crate::text::{before, lemma_before_total, views};

verus! {

// ---------------------------------------------------------------------------
// Sorted lists
// ---------------------------------------------------------------------------

/// Each element comes before all behind it.
spec fn sorted_by<T>(s: Seq<T>, lt: spec_fn(T, T) -> bool) -> bool {
    forall|i: int, j: int| 0 <= i < j < s.len() ==> lt(#[trigger] s[i], #[trigger] s[j])
}

/// Two lists of the same elements, sorted by one order, are the same.
proof fn lemma_sorted_unique<T>(a: Seq<T>, b: Seq<T>, lt: spec_fn(T, T) -> bool)
    requires
        forall|x: T, y: T| #[trigger] lt(x, y) ==> x != y && !lt(y, x),
        sorted_by(a, lt),
        sorted_by(b, lt),
        forall|x: T| #[trigger] a.contains(x) <==> b.contains(x),
    ensures
        a == b,
    decreases a.len(),
{
    if a.len() == 0 {
        if b.len() > 0 {
            assert(b.contains(b[0]));
            assert(a.contains(b[0]));
        }
        assert(a =~= b);
    } else {
        let (x, n) = (a.last(), a.len() - 1);
        assert(a[n] == x);
        assert(a.contains(x));
        let j = b.index_of(x);
        let (y, m) = (b.last(), b.len() - 1);
        assert(b[m] == y);
        assert(b.contains(y));
        assert(a.contains(y));
        let i = a.index_of(y);
        if x != y {
            assert(lt(a[i], a[n]));
            assert(lt(b[j], b[m]));
        }
        let (a0, b0) = (a.drop_last(), b.drop_last());
        assert forall|z: T| #[trigger] a0.contains(z) <==> b0.contains(z) by {
            if a0.contains(z) {
                let k = a0.index_of(z);
                assert(a[k] == z);
                assert(lt(a[k], a[n]));
                assert(a.contains(z));
                let h = b.index_of(z);
                assert(b0[h] == z);
            }
            if b0.contains(z) {
                let k = b0.index_of(z);
                assert(b[k] == z);
                assert(lt(b[k], b[m]));
                assert(a.contains(z));
                let h = a.index_of(z);
                assert(a0[h] == z);
            }
        }
        assert forall|i: int, j: int| 0 <= i < j < a0.len() implies lt(
            #[trigger] a0[i],
            #[trigger] a0[j],
        ) by {
            assert(lt(a[i], a[j]));
        }
        assert forall|i: int, j: int| 0 <= i < j < b0.len() implies lt(
            #[trigger] b0[i],
            #[trigger] b0[j],
        ) by {
            assert(lt(b[i], b[j]));
        }
        lemma_sorted_unique(a0, b0, lt);
        assert(a =~= a0.push(x));
        assert(b =~= b0.push(x));
    }
}

// ---------------------------------------------------------------------------
// The merged stream
// ---------------------------------------------------------------------------

/// `merged` are the places of all events of the sources, in merged order.
pub open spec fn is_merge(sources: Seq<Vec<(i64, u64)>>, merged: Seq<Place>) -> bool {
    &&& forall|i: int| 0 <= i < merged.len() ==> is_place(sources, #[trigger] merged[i])
    &&& forall|i: int, j: int|
        0 <= i < j < merged.len() ==> merges_before(
            sources,
            #[trigger] merged[i],
            #[trigger] merged[j],
        )
    &&& forall|p: Place| #[trigger] is_place(sources, p) ==> holds_place(merged, p)
}

/// Sources that say the same.
pub open spec fn same_sources(a: Seq<Vec<(i64, u64)>>, b: Seq<Vec<(i64, u64)>>) -> bool {
    a.len() == b.len() && forall|i: int| 0 <= i < a.len() ==> (#[trigger] a[i])@ == b[i]@
}

/// There is one merged stream of the same sources.
pub proof fn law_merge_is_unique(
    a: Seq<Vec<(i64, u64)>>,
    b: Seq<Vec<(i64, u64)>>,
    x: Seq<Place>,
    y: Seq<Place>,
)
    requires
        same_sources(a, b),
        is_merge(a, x),
        is_merge(b, y),
    ensures
        x == y,
{
    let lt = |p: Place, q: Place| is_place(a, p) && is_place(a, q) && merges_before(a, p, q);
    assert forall|p: Place, q: Place| #[trigger] lt(p, q) implies p != q && !lt(q, p) by {}
    assert forall|p: Place| is_place(a, p) == #[trigger] is_place(b, p) by {
        if p.0 < a.len() {
            assert(a[p.0 as int]@ == b[p.0 as int]@);
        }
    }
    assert forall|i: int, j: int| 0 <= i < j < x.len() implies lt(
        #[trigger] x[i],
        #[trigger] x[j],
    ) by {
        assert(is_place(a, x[i]) && is_place(a, x[j]));
        assert(merges_before(a, x[i], x[j]));
    }
    assert forall|i: int, j: int| 0 <= i < j < y.len() implies lt(
        #[trigger] y[i],
        #[trigger] y[j],
    ) by {
        assert(is_place(b, y[i]) && is_place(b, y[j]));
        assert(merges_before(b, y[i], y[j]));
        assert(a[y[i].0 as int]@ == b[y[i].0 as int]@);
        assert(a[y[j].0 as int]@ == b[y[j].0 as int]@);
    }
    assert forall|p: Place| #[trigger] x.contains(p) <==> y.contains(p) by {
        if x.contains(p) {
            let i = x.index_of(p);
            assert(is_place(a, x[i]));
            assert(is_place(b, p));
            assert(holds_place(y, p));
        }
        if y.contains(p) {
            let i = y.index_of(p);
            assert(is_place(b, y[i]));
            assert(is_place(a, p));
            assert(holds_place(x, p));
        }
    }
    lemma_sorted_unique(x, y, lt);
}

// ---------------------------------------------------------------------------
// The files
// ---------------------------------------------------------------------------

/// Updates that say the same, one by one.
pub open spec fn same_updates(a: Seq<FeatureUpdate>, b: Seq<FeatureUpdate>) -> bool {
    a.len() == b.len() && forall|i: int|
        0 <= i < a.len() ==> group_of(#[trigger] a[i]) == group_of(b[i]) && update_row(a[i])
            == update_row(b[i])
}

/// Files that say the same: feature, venue, symbol, version, day and rows.
pub open spec fn same_file(a: FeatureFile, b: FeatureFile) -> bool {
    file_group(a) == file_group(b) && a.date@ == b.date@ && a.rows@ == b.rows@
}

/// Lists of files that say the same, one by one.
pub open spec fn same_files(a: Seq<FeatureFile>, b: Seq<FeatureFile>) -> bool {
    a.len() == b.len() && forall|i: int| 0 <= i < a.len() ==> same_file(#[trigger] a[i], b[i])
}

proof fn lemma_same_group_rows(a: Seq<FeatureUpdate>, b: Seq<FeatureUpdate>, g: GroupId)
    requires
        same_updates(a, b),
    ensures
        group_rows(a, g) == group_rows(b, g),
    decreases a.len(),
{
    if a.len() > 0 {
        let (a0, b0) = (a.drop_last(), b.drop_last());
        assert forall|i: int| 0 <= i < a0.len() implies group_of(#[trigger] a0[i]) == group_of(
            b0[i],
        ) && update_row(a0[i]) == update_row(b0[i]) by {
            assert(group_of(a[i]) == group_of(b[i]));
        }
        lemma_same_group_rows(a0, b0, g);
        let n = a.len() - 1;
        assert(group_of(a[n]) == group_of(b[n]));
    }
}

proof fn lemma_key_sorted_unique(rows: Seq<FeatureRow>, x: Seq<FeatureRow>, y: Seq<FeatureRow>)
    requires
        key_sorted(rows, x),
        key_sorted(rows, y),
    ensures
        x == y,
{
    let p = choose|order: Seq<usize>| key_sorted_by(rows, x, order);
    let q = choose|order: Seq<usize>| key_sorted_by(rows, y, order);
    let lt = |i: usize, j: usize|
        <Pair<Pair<i64, u64>, u32> as Key>::precedes(
            row_key(rows[i as int]),
            row_key(rows[j as int]),
        ) || (row_key(rows[i as int]) == row_key(rows[j as int]) && i < j);
    assert forall|i: usize, j: usize| #[trigger] lt(i, j) implies i != j && !lt(j, i) by {
        <Pair<Pair<i64, u64>, u32> as Key>::order(row_key(rows[i as int]), row_key(rows[j as int]));
        <Pair<Pair<i64, u64>, u32> as Key>::order(row_key(rows[j as int]), row_key(rows[i as int]));
    }
    lemma_order_sorted(rows, x, p, lt);
    lemma_order_sorted(rows, y, q, lt);
    assert forall|i: usize| #[trigger] p.contains(i) <==> q.contains(i) by {
        if p.contains(i) {
            let k = p.index_of(i);
            assert(p[k] < rows.len());
            assert(listed(q, i as int));
        }
        if q.contains(i) {
            let k = q.index_of(i);
            assert(q[k] < rows.len());
            assert(listed(p, i as int));
        }
    }
    lemma_sorted_unique(p, q, lt);
    assert forall|i: int| 0 <= i < x.len() implies x[i] == y[i] by {
        assert(p[i] < rows.len() && q[i] < rows.len());
    }
    assert(x =~= y);
}

proof fn lemma_order_sorted(
    rows: Seq<FeatureRow>,
    sorted: Seq<FeatureRow>,
    order: Seq<usize>,
    lt: spec_fn(usize, usize) -> bool,
)
    requires
        key_sorted_by(rows, sorted, order),
        forall|i: usize, j: usize| #[trigger]
            lt(i, j) == (<Pair<Pair<i64, u64>, u32> as Key>::precedes(
                row_key(rows[i as int]),
                row_key(rows[j as int]),
            ) || (row_key(rows[i as int]) == row_key(rows[j as int]) && i < j)),
    ensures
        sorted_by(order, lt),
{
    assert forall|i: int, j: int| 0 <= i < j < order.len() implies lt(
        #[trigger] order[i],
        #[trigger] order[j],
    ) by {
        assert(order[i] < rows.len() && sorted[i] == rows[order[i] as int]);
        assert(order[j] < rows.len() && sorted[j] == rows[order[j] as int]);
    }
}

/// The dates of days.
spec fn dates_in(days: Seq<DayRows>) -> Seq<Seq<char>> {
    Seq::new(days.len(), |i: int| days[i].date@)
}

proof fn lemma_row_on_date(rows: Seq<FeatureRow>, date: Seq<char>) -> (k: int)
    requires
        rows_on(rows, date).len() > 0,
    ensures
        0 <= k < rows.len(),
        row_date(rows, k) == date,
    decreases rows.len(),
{
    let n = rows.len() - 1;
    if row_date(rows, n) == date {
        n
    } else {
        let k = lemma_row_on_date(rows.drop_last(), date);
        assert(rows.drop_last()[k] == rows[k]);
        k
    }
}

proof fn lemma_dates_agree(rows: Seq<FeatureRow>, x: Seq<DayRows>, y: Seq<DayRows>, d: Seq<char>)
    requires
        parted_by_day(rows, x),
        parted_by_day(rows, y),
        dates_in(x).contains(d),
    ensures
        dates_in(y).contains(d),
{
    let i = dates_in(x).index_of(d);
    assert(x[i].rows@ == rows_on(rows, x[i].date@));
    let k = lemma_row_on_date(rows, d);
    assert(has_day(y, row_date(rows, k)));
    let j = choose|j: int| 0 <= j < y.len() && (#[trigger] y[j]).date@ == d;
    assert(dates_in(y)[j] == d);
}

proof fn lemma_parted_unique(rows: Seq<FeatureRow>, x: Seq<DayRows>, y: Seq<DayRows>)
    requires
        parted_by_day(rows, x),
        parted_by_day(rows, y),
    ensures
        x.len() == y.len(),
        forall|i: int|
            0 <= i < x.len() ==> (#[trigger] x[i]).date@ == y[i].date@ && x[i].rows@ == y[i].rows@,
{
    let lt = |a: Seq<char>, b: Seq<char>| before(a, b);
    assert forall|a: Seq<char>, b: Seq<char>| #[trigger] lt(a, b) implies a != b && !lt(b, a) by {
        lemma_before_total(a, b);
    }
    let (p, q) = (dates_in(x), dates_in(y));
    assert forall|i: int, j: int| 0 <= i < j < p.len() implies lt(
        #[trigger] p[i],
        #[trigger] p[j],
    ) by {
        assert(before(x[i].date@, x[j].date@));
    }
    assert forall|i: int, j: int| 0 <= i < j < q.len() implies lt(
        #[trigger] q[i],
        #[trigger] q[j],
    ) by {
        assert(before(y[i].date@, y[j].date@));
    }
    assert forall|d: Seq<char>| #[trigger] p.contains(d) <==> q.contains(d) by {
        if p.contains(d) {
            lemma_dates_agree(rows, x, y, d);
        }
        if q.contains(d) {
            lemma_dates_agree(rows, y, x, d);
        }
    }
    lemma_sorted_unique(p, q, lt);
    assert forall|i: int| 0 <= i < x.len() implies (#[trigger] x[i]).date@ == y[i].date@
        && x[i].rows@ == y[i].rows@ by {
        assert(p[i] == q[i]);
        assert(x[i].rows@ == rows_on(rows, x[i].date@));
        assert(y[i].rows@ == rows_on(rows, y[i].date@));
    }
}

proof fn lemma_group_files_unique(
    f: Seq<FeatureFile>,
    a: Seq<FeatureUpdate>,
    h: Seq<FeatureFile>,
    b: Seq<FeatureUpdate>,
    g: GroupId,
)
    requires
        same_updates(a, b),
        group_files(f, a, g),
        group_files(h, b, g),
    ensures
        same_files(f, h),
{
    lemma_same_group_rows(a, b, g);
    let (s, d) = choose|sorted: Seq<FeatureRow>, days: Seq<DayRows>|
        #![trigger parted_by_day(sorted, days)]
        {
            &&& key_sorted(group_rows(a, g), sorted)
            &&& parted_by_day(sorted, days)
            &&& f.len() == days.len()
            &&& forall|i: int|
                0 <= i < f.len() ==> file_group(#[trigger] f[i]) == g && f[i].date@
                    == days[i].date@ && f[i].rows@ == days[i].rows@
        };
    let (t, e) = choose|sorted: Seq<FeatureRow>, days: Seq<DayRows>|
        #![trigger parted_by_day(sorted, days)]
        {
            &&& key_sorted(group_rows(b, g), sorted)
            &&& parted_by_day(sorted, days)
            &&& h.len() == days.len()
            &&& forall|i: int|
                0 <= i < h.len() ==> file_group(#[trigger] h[i]) == g && h[i].date@
                    == days[i].date@ && h[i].rows@ == days[i].rows@
        };
    lemma_key_sorted_unique(group_rows(a, g), s, t);
    lemma_parted_unique(s, d, e);
    assert forall|i: int| 0 <= i < f.len() implies same_file(#[trigger] f[i], h[i]) by {
        assert(file_group(f[i]) == g);
        assert(file_group(h[i]) == g);
        assert(d[i].date@ == e[i].date@);
    }
}

proof fn lemma_files_unique(
    f: Seq<FeatureFile>,
    a: Seq<FeatureUpdate>,
    h: Seq<FeatureFile>,
    b: Seq<FeatureUpdate>,
    groups: Seq<GroupId>,
)
    requires
        same_updates(a, b),
        files_of_groups(f, a, groups),
        files_of_groups(h, b, groups),
    ensures
        same_files(f, h),
    decreases groups.len(),
{
    if groups.len() > 0 {
        let c = choose|cut: int|
            #![trigger f.take(cut)]
            0 <= cut <= f.len() && files_of_groups(f.take(cut), a, groups.drop_last())
                && group_files(f.skip(cut), a, groups.last());
        let e = choose|cut: int|
            #![trigger h.take(cut)]
            0 <= cut <= h.len() && files_of_groups(h.take(cut), b, groups.drop_last())
                && group_files(h.skip(cut), b, groups.last());
        lemma_files_unique(f.take(c), a, h.take(e), b, groups.drop_last());
        lemma_group_files_unique(f.skip(c), a, h.skip(e), b, groups.last());
        assert forall|i: int| 0 <= i < f.len() implies same_file(#[trigger] f[i], h[i]) by {
            if i < c {
                assert(same_file(f.take(c)[i], h.take(e)[i]));
            } else {
                assert(same_file(f.skip(c)[i - c], h.skip(e)[i - c]));
            }
        }
    }
}

/// The same updates come to the same files.
pub proof fn law_files_follow_updates(
    f: Seq<FeatureFile>,
    a: Seq<FeatureUpdate>,
    p: Seq<GroupId>,
    h: Seq<FeatureFile>,
    b: Seq<FeatureUpdate>,
    q: Seq<GroupId>,
)
    requires
        same_updates(a, b),
        groups_in_order(a, p),
        files_of_groups(f, a, p),
        groups_in_order(b, q),
        files_of_groups(h, b, q),
    ensures
        same_files(f, h),
{
    let lt = |x: GroupId, y: GroupId|
        <Pair<Pair<String, u32>, Pair<u32, u32>> as Key>::precedes(x, y);
    assert forall|x: GroupId, y: GroupId| #[trigger] lt(x, y) implies x != y && !lt(y, x) by {
        <Pair<Pair<String, u32>, Pair<u32, u32>> as Key>::order(x, y);
    }
    assert forall|g: GroupId| #[trigger] p.contains(g) <==> q.contains(g) by {
        if p.contains(g) {
            let i = choose|i: int| 0 <= i < a.len() && group_of(#[trigger] a[i]) == g;
            assert(group_of(b[i]) == g);
        }
        if q.contains(g) {
            let i = choose|i: int| 0 <= i < b.len() && group_of(#[trigger] b[i]) == g;
            assert(group_of(a[i]) == g);
        }
    }
    lemma_sorted_unique(p, q, lt);
    lemma_files_unique(f, a, h, b, p);
}

// ---------------------------------------------------------------------------
// Whole runs
// ---------------------------------------------------------------------------

/// What lies outside a run: what each log holds, what the feature engine makes
/// of a merged stream, and how a table of symbols is hashed.
pub struct World {
    /// The receive times and sequence numbers of a log's events.
    pub times: spec_fn(Seq<char>) -> Seq<(i64, u64)>,
    /// The symbol of each of a log's events.
    pub symbols: spec_fn(Seq<char>) -> Seq<SymbolKey>,
    /// The feature values of a merged stream: groups and rows.
    pub features: spec_fn(Seq<Seq<char>>, Seq<Place>, Seq<SymbolKey>) -> Seq<(GroupId, FeatureRow)>,
    /// The feature values that were no numbers.
    pub suppressed: spec_fn(Seq<Seq<char>>, Seq<Place>, Seq<SymbolKey>) -> u64,
    /// The hash of a table of symbols.
    pub hash: spec_fn(Seq<SymbolKey>) -> Seq<char>,
}

/// A table with more symbols, in order.
pub open spec fn with_symbols(t: Seq<SymbolKey>, keys: Seq<SymbolKey>) -> Seq<SymbolKey>
    decreases keys.len(),
{
    if keys.len() == 0 {
        t
    } else {
        interned(with_symbols(t, keys.drop_last()), keys.last())
    }
}

/// The shared table of the logs, one behind the other.
pub open spec fn table_of(w: World, logs: Seq<Seq<char>>) -> Seq<SymbolKey>
    decreases logs.len(),
{
    if logs.len() == 0 {
        Seq::empty()
    } else {
        with_symbols(table_of(w, logs.drop_last()), (w.symbols)(logs.last()))
    }
}

/// A run: what each of its steps came to.
pub struct RunTrace {
    pub logs: Seq<Seq<char>>,
    pub table: Seq<SymbolKey>,
    pub sources: Seq<Vec<(i64, u64)>>,
    pub merged: Seq<Place>,
    pub updates: Seq<FeatureUpdate>,
    pub groups: Seq<GroupId>,
    pub files: Seq<FeatureFile>,
    pub stats: MaterializeStats,
}

/// The updates say what the feature engine made.
pub open spec fn updates_are(
    updates: Seq<FeatureUpdate>,
    made: Seq<(GroupId, FeatureRow)>,
) -> bool {
    updates.len() == made.len() && forall|i: int|
        0 <= i < updates.len() ==> group_of(#[trigger] updates[i]) == made[i].0 && update_row(
            updates[i],
        ) == made[i].1
}

/// `t` is a run over the logs that `paths` name.
pub open spec fn is_run_of(t: RunTrace, paths: Seq<Seq<char>>, w: World) -> bool {
    &&& canonical_paths_of(paths, t.logs)
    &&& t.table == table_of(w, t.logs)
    &&& t.sources.len() == t.logs.len()
    &&& forall|i: int| 0 <= i < t.logs.len() ==> (#[trigger] t.sources[i])@ == (w.times)(t.logs[i])
    &&& is_merge(t.sources, t.merged)
    &&& updates_are(t.updates, (w.features)(t.logs, t.merged, t.table))
    &&& groups_in_order(t.updates, t.groups)
    &&& files_of_groups(t.files, t.updates, t.groups)
    &&& t.stats.events_read == t.merged.len()
    &&& t.stats.updates == t.updates.len()
    &&& t.stats.nan_suppressed == (w.suppressed)(t.logs, t.merged, t.table)
    &&& t.stats.rows_written == total_rows(t.files)
    &&& t.stats.files_written == t.files.len()
    &&& canonical(feature_names(t.files), views(t.stats.features@))
    &&& t.stats.symbols == t.table.len()
    &&& t.stats.symbols_hash@ == (w.hash)(t.table)
}

/// Statistics that say the same.
pub open spec fn same_stats(a: MaterializeStats, b: MaterializeStats) -> bool {
    &&& a.events_read == b.events_read
    &&& a.updates == b.updates
    &&& a.rows_written == b.rows_written
    &&& a.files_written == b.files_written
    &&& a.nan_suppressed == b.nan_suppressed
    &&& views(a.features@) == views(b.features@)
    &&& a.symbols == b.symbols
    &&& a.symbols_hash@ == b.symbols_hash@
}

proof fn lemma_same_totals(a: Seq<FeatureFile>, b: Seq<FeatureFile>)
    requires
        same_files(a, b),
    ensures
        total_rows(a) == total_rows(b),
        feature_names(a) == feature_names(b),
    decreases a.len(),
{
    if a.len() > 0 {
        let n = a.len() - 1;
        assert(same_file(a[n], b[n]));
        assert forall|i: int| 0 <= i < a.drop_last().len() implies same_file(
            #[trigger] a.drop_last()[i],
            b.drop_last()[i],
        ) by {
            assert(same_file(a[i], b[i]));
        }
        lemma_same_totals(a.drop_last(), b.drop_last());
    }
    assert forall|i: int| 0 <= i < a.len() implies feature_names(a)[i] == feature_names(b)[i] by {
        assert(same_file(a[i], b[i]));
    }
    assert(feature_names(a) =~= feature_names(b));
}

/// Two runs over the same set of logs, in whatever order and however often
/// each log is named, have the same symbol ids, the same merged stream, the
/// same files and the same statistics.
pub proof fn law_same_logs_same_run(
    a: RunTrace,
    b: RunTrace,
    p: Seq<Seq<char>>,
    q: Seq<Seq<char>>,
    w: World,
)
    requires
        forall|s: Seq<char>| #[trigger] among(p, s) <==> among(q, s),
        is_run_of(a, p, w),
        is_run_of(b, q, w),
    ensures
        a.table == b.table,
        a.merged == b.merged,
        same_files(a.files, b.files),
        same_stats(a.stats, b.stats),
{
    law_log_order_is_irrelevant(p, q, a.logs, b.logs);
    assert(same_sources(a.sources, b.sources)) by {
        assert forall|i: int| 0 <= i < a.sources.len() implies (#[trigger] a.sources[i])@
            == b.sources[i]@ by {
            assert(b.sources[i]@ == (w.times)(b.logs[i]));
        }
    }
    law_merge_is_unique(a.sources, b.sources, a.merged, b.merged);
    assert(same_updates(a.updates, b.updates)) by {
        assert forall|i: int| 0 <= i < a.updates.len() implies group_of(#[trigger] a.updates[i])
            == group_of(b.updates[i]) && update_row(a.updates[i]) == update_row(b.updates[i]) by {
            assert(group_of(b.updates[i]) == (w.features)(b.logs, b.merged, b.table)[i].0);
        }
    }
    law_files_follow_updates(a.files, a.updates, a.groups, b.files, b.updates, b.groups);
    lemma_same_totals(a.files, b.files);
    law_text_order_is_irrelevant(
        feature_names(a.files),
        feature_names(b.files),
        views(a.stats.features@),
        views(b.stats.features@),
    );
}

/// The shared table grows by a log's symbols as remapping its events makes it
/// grow.
pub proof fn law_remapping_grows_table(
    t: Seq<SymbolKey>,
    metas: Seq<SymbolMeta>,
    ids: Seq<u32>,
)
    ensures
        interned_all(t, metas, ids) == with_symbols(
            t,
            Seq::new(ids.len(), |i: int| local_key(metas, ids[i])),
        ),
    decreases ids.len(),
{
    let keys = Seq::new(ids.len(), |i: int| local_key(metas, ids[i]));
    if ids.len() > 0 {
        law_remapping_grows_table(t, metas, ids.drop_last());
        assert(keys.drop_last() =~= Seq::new(
            ids.drop_last().len(),
            |i: int| local_key(metas, ids.drop_last()[i]),
        ));
    }
}

} // verus!
