//! Offline materialization: which logs are read, how their symbols and events
//! are brought together, and which feature files come of it.
use vstd::prelude::*;
use crate::event::{slug_of, SymbolId, SymbolMeta, Venue};
use crate::feature_store::{part_by_day, parted_by_day, DayRows, FeatureRow};
use crate::layout::{code_of, venue_code};
use crate::number::Real;
use crate::ordered::{
    comes_first, group_positions, grouped, lemma_pos, lemma_positions, listed, occurs, positions,
    sort_order, stably_sorted, Key, Pair, SortedMap,
};
use crate::text::{
    before, dec, join_path, joined, push_dec, push_text, same, split_on, split_text, to_chars, views,
};

verus! {

/// Bytes of logs that one run reads unless told otherwise.
pub const DEFAULT_MAX_BACKFILL_BYTES: u64 = 17_179_869_184;

/// What a run did.
#[derive(Debug)]
pub struct MaterializeStats {
    pub events_read: u64,
    pub updates: u64,
    pub rows_written: u64,
    pub files_written: u64,
    pub nan_suppressed: u64,
    /// The features with at least one row, in order.
    pub features: Vec<String>,
    pub symbols: usize,
    pub symbols_hash: String,
}

/// One row of the symbol table's snapshot.
#[derive(Debug)]
pub struct SymbolRow {
    pub id: u32,
    pub venue: String,
    pub venue_symbol: String,
}

// ---------------------------------------------------------------------------
// Inputs
// ---------------------------------------------------------------------------

/// Whether `s` is among the texts.
pub open spec fn among(v: Seq<Seq<char>>, s: Seq<char>) -> bool {
    exists|i: int| 0 <= i < v.len() && #[trigger] v[i] == s
}

/// `canon` lists the texts of `all` in order, each once.
pub open spec fn canonical(all: Seq<Seq<char>>, canon: Seq<Seq<char>>) -> bool {
    &&& forall|i: int, j: int|
        0 <= i < j < canon.len() ==> before(#[trigger] canon[i], #[trigger] canon[j])
    &&& forall|s: Seq<char>| #[trigger] among(canon, s) <==> among(all, s)
}

/// The texts in order, each once.
pub fn canonical_texts(all: &Vec<String>) -> (canon: Vec<String>)
    ensures
        canonical(views(all@), views(canon@)),
{
    let mut set: SortedMap<String, ()> = SortedMap::new();
    let ghost v = views(all@);
    let mut i: usize = 0;
    while i < all.len()
        invariant
            i <= all@.len(),
            v == views(all@),
            set.wf(),
            forall|s: Seq<char>| #[trigger]
                set.map().dom().contains(s) <==> among(v.take(i as int), s),
        decreases all@.len() - i,
    {
        let ghost m0 = set.map();
        set.set(all[i].clone(), ());
        proof {
            assert forall|s: Seq<char>| #[trigger] set.map().dom().contains(s) <==> among(
                v.take(i + 1),
                s,
            ) by {
                if among(v.take(i + 1), s) {
                    let k = choose|k: int| 0 <= k < i + 1 && #[trigger] v.take(i + 1)[k] == s;
                    if k < i {
                        assert(v.take(i as int)[k] == s);
                        assert(among(v.take(i as int), s));
                    }
                }
                if among(v.take(i as int), s) {
                    let k = choose|k: int| 0 <= k < i && #[trigger] v.take(i as int)[k] == s;
                    assert(v.take(i + 1)[k] == s);
                }
                assert(v.take(i + 1)[i as int] == all@[i as int]@);
            }
        }
        i = i + 1;
    }
    assert(v.take(i as int) =~= v);
    let ghost entries = set.entries@;
    let ghost m = set.map();
    let mut canon: Vec<String> = Vec::new();
    let mut k: usize = 0;
    while k < set.entries.len()
        invariant
            k <= set.entries@.len(),
            entries == set.entries@,
            canon@.len() == k,
            forall|x: int| 0 <= x < k ==> (#[trigger] canon@[x])@ == entries[x].0@,
        decreases set.entries@.len() - k,
    {
        canon.push(set.entries[k].0.clone());
        k = k + 1;
    }
    proof {
        let c = views(canon@);
        assert forall|i: int, j: int| 0 <= i < j < c.len() implies before(
            #[trigger] c[i],
            #[trigger] c[j],
        ) by {
            assert(String::precedes(entries[i].0.id(), entries[j].0.id()));
        }
        assert forall|s: Seq<char>| #[trigger] among(c, s) <==> among(v, s) by {
            if among(c, s) {
                let i = choose|i: int| 0 <= i < c.len() && #[trigger] c[i] == s;
                lemma_pos(entries, i);
                assert(m.dom().contains(s));
            }
            if among(v, s) {
                assert(m.dom().contains(s));
                let i = crate::ordered::key_pos(entries, s);
                assert(c[i] == s);
            }
        }
    }
    canon
}

/// The parts of a path that count, of its pieces between slashes: not those
/// that are empty, nor a `.` but at the very beginning.
pub open spec fn counted_parts(pieces: Seq<Seq<char>>) -> Seq<Seq<char>>
    decreases pieces.len(),
{
    if pieces.len() == 0 {
        Seq::empty()
    } else {
        let before = counted_parts(pieces.drop_last());
        if pieces.last().len() > 0 && (pieces.last() != "."@ || pieces.len() == 1) {
            before.push(pieces.last())
        } else {
            before
        }
    }
}

/// The components of a path: whether it begins at the root, and its parts.
pub open spec fn components_of(path: Seq<char>) -> (bool, Seq<Seq<char>>) {
    (path.len() > 0 && path[0] == '/', counted_parts(split_on(path, '/')))
}

/// Paths with the same components. A repeated or trailing `/` and an inner `.`
/// make no difference; a `..` does.
pub open spec fn same_path(a: Seq<char>, b: Seq<char>) -> bool {
    components_of(a) == components_of(b)
}

/// Whether an earlier text of the list spells the same path.
pub open spec fn spelled_before(all: Seq<Seq<char>>, s: Seq<char>) -> bool {
    exists|i: int| 0 <= i < all.len() && before(#[trigger] all[i], s) && same_path(all[i], s)
}

/// `canon` lists the paths of `all` in order, each once: of several spellings
/// of a path, the one that comes first in order.
pub open spec fn canonical_paths_of(all: Seq<Seq<char>>, canon: Seq<Seq<char>>) -> bool {
    &&& forall|i: int, j: int|
        0 <= i < j < canon.len() ==> before(#[trigger] canon[i], #[trigger] canon[j])
    &&& forall|s: Seq<char>| #[trigger]
        among(canon, s) <==> among(all, s) && !spelled_before(all, s)
}

/// The components of a path.
fn path_components(path: &str) -> (r: (bool, Vec<String>))
    ensures
        (r.0, views(r.1@)) == components_of(path@),
{
    let chars = to_chars(path);
    let rooted = chars.len() > 0 && chars[0] == '/';
    let pieces = split_text(path, '/');
    let ghost p = views(pieces@);
    let mut parts: Vec<String> = Vec::new();
    let mut i: usize = 0;
    assert(views(parts@) =~= counted_parts(p.take(0)));
    while i < pieces.len()
        invariant
            i <= pieces@.len(),
            p == views(pieces@),
            views(parts@) == counted_parts(p.take(i as int)),
        decreases pieces@.len() - i,
    {
        let piece = &pieces[i];
        assert(p.take(i + 1).drop_last() =~= p.take(i as int));
        assert(p.take(i + 1).last() == piece@);
        let ghost before = parts@;
        if !same(piece.as_str(), "") && (i == 0 || !same(piece.as_str(), ".")) {
            parts.push(piece.clone());
            assert(views(parts@) =~= views(before).push(piece@));
        }
        proof {
            reveal_strlit("");
            if piece@.len() == 0 {
                assert(piece@ =~= ""@);
            }
        }
        i = i + 1;
    }
    assert(p.take(i as int) =~= p);
    (rooted, parts)
}

fn same_texts(a: &Vec<String>, b: &Vec<String>) -> (r: bool)
    ensures
        r == (views(a@) == views(b@)),
{
    if a.len() != b.len() {
        assert(views(a@).len() != views(b@).len());
        return false;
    }
    let mut i: usize = 0;
    while i < a.len()
        invariant
            i <= a@.len(),
            a@.len() == b@.len(),
            forall|k: int| 0 <= k < i ==> (#[trigger] a@[k])@ == b@[k]@,
        decreases a@.len() - i,
    {
        if !same(a[i].as_str(), b[i].as_str()) {
            assert(views(a@)[i as int] != views(b@)[i as int]);
            return false;
        }
        i = i + 1;
    }
    assert(views(a@) =~= views(b@));
    true
}

/// The paths in order, each once. Two spellings with the same components are
/// one path, of which the first in order stays.
pub fn canonical_paths(all: &Vec<String>) -> (canon: Vec<String>)
    ensures
        canonical_paths_of(views(all@), views(canon@)),
{
    let texts = canonical_texts(all);
    let ghost v = views(all@);
    let ghost t = views(texts@);
    let mut parts: Vec<(bool, Vec<String>)> = Vec::new();
    let mut canon: Vec<String> = Vec::new();
    let mut i: usize = 0;
    while i < texts.len()
        invariant
            i <= texts@.len(),
            t == views(texts@),
            canonical(v, t),
            parts@.len() == i,
            forall|k: int|
                0 <= k < i ==> ((#[trigger] parts@[k]).0, views(parts@[k].1@)) == components_of(
                    t[k],
                ),
            forall|x: int, y: int|
                0 <= x < y < canon@.len() ==> before(
                    (#[trigger] canon@[x])@,
                    (#[trigger] canon@[y])@,
                ),
            forall|x: int|
                0 <= x < canon@.len() ==> among(t.take(i as int), (#[trigger] canon@[x])@),
            forall|s: Seq<char>| #[trigger]
                among(views(canon@), s) <==> among(t.take(i as int), s) && !spelled_before(
                    t.take(i as int),
                    s,
                ),
        decreases texts@.len() - i,
    {
        let own = path_components(texts[i].as_str());
        let mut known = false;
        let mut k: usize = 0;
        while k < i && !known
            invariant
                k <= i,
                i < texts@.len(),
                t == views(texts@),
                parts@.len() == i,
                (own.0, views(own.1@)) == components_of(t[i as int]),
                forall|k: int|
                    0 <= k < i ==> ((#[trigger] parts@[k]).0, views(parts@[k].1@))
                        == components_of(t[k]),
                known <==> exists|m: int| 0 <= m < k && #[trigger] same_path(t[m], t[i as int]),
            decreases i - k + if known {
                0int
            } else {
                1int
            },
        {
            let here = own.0 == parts[k].0 && same_texts(&own.1, &parts[k].1);
            assert(here == same_path(t[k as int], t[i as int]));
            known = here;
            k = k + 1;
        }
        let ghost c0 = views(canon@);
        let ghost old_canon = canon@;
        if !known {
            canon.push(texts[i].clone());
        }
        proof {
            if known {
                assert(views(canon@) =~= c0);
            } else {
                assert(views(canon@) =~= c0.push(t[i as int]));
            }
            lemma_next_path(t, c0, i as int, known, views(canon@));
            assert forall|x: int, y: int| 0 <= x < y < canon@.len() implies before(
                (#[trigger] canon@[x])@,
                (#[trigger] canon@[y])@,
            ) by {
                if y >= c0.len() {
                    assert(among(t.take(i as int), old_canon[x]@));
                    let m = choose|m: int| 0 <= m < i && #[trigger] t.take(i as int)[m]
                        == old_canon[x]@;
                    assert(before(t[m], t[i as int]));
                } else {
                    assert(before(old_canon[x]@, old_canon[y]@));
                }
            }
            assert forall|x: int| 0 <= x < canon@.len() implies among(
                t.take(i + 1),
                (#[trigger] canon@[x])@,
            ) by {
                if x < c0.len() {
                    assert(among(t.take(i as int), old_canon[x]@));
                    let m = choose|m: int| 0 <= m < i && #[trigger] t.take(i as int)[m]
                        == old_canon[x]@;
                    assert(t.take(i + 1)[m] == old_canon[x]@);
                } else {
                    assert(t.take(i + 1)[i as int] == t[i as int]);
                }
            }
        }
        parts.push(own);
        i = i + 1;
    }
    proof {
        assert(t.take(i as int) =~= t);
        let c = views(canon@);
        assert forall|x: int, y: int| 0 <= x < y < c.len() implies before(
            #[trigger] c[x],
            #[trigger] c[y],
        ) by {
            assert(before(canon@[x]@, canon@[y]@));
        }
        assert forall|s: Seq<char>| #[trigger]
            among(c, s) <==> among(v, s) && !spelled_before(v, s) by {
            assert(among(t, s) <==> among(v, s));
            if spelled_before(v, s) {
                let m = choose|m: int| 0 <= m < v.len() && before(#[trigger] v[m], s) && same_path(
                    v[m],
                    s,
                );
                assert(among(v, v[m]));
                assert(among(t, v[m]));
                let n = choose|n: int| 0 <= n < t.len() && #[trigger] t[n] == v[m];
                assert(before(t[n], s) && same_path(t[n], s));
            }
            if spelled_before(t, s) {
                let m = choose|m: int| 0 <= m < t.len() && before(#[trigger] t[m], s) && same_path(
                    t[m],
                    s,
                );
                assert(among(t, t[m]));
                assert(among(v, t[m]));
                let n = choose|n: int| 0 <= n < v.len() && #[trigger] v[n] == t[m];
                assert(before(v[n], s) && same_path(v[n], s));
            }
        }
    }
    canon
}

/// What the next text of an ordered list does to its paths.
proof fn lemma_next_path(
    t: Seq<Seq<char>>,
    c: Seq<Seq<char>>,
    i: int,
    known: bool,
    next: Seq<Seq<char>>,
)
    requires
        0 <= i < t.len(),
        forall|x: int, y: int| 0 <= x < y < t.len() ==> before(#[trigger] t[x], #[trigger] t[y]),
        forall|s: Seq<char>| #[trigger]
            among(c, s) <==> among(t.take(i), s) && !spelled_before(t.take(i), s),
        known <==> exists|m: int| 0 <= m < i && #[trigger] same_path(t[m], t[i]),
        known ==> next == c,
        !known ==> next == c.push(t[i]),
    ensures
        forall|s: Seq<char>| #[trigger]
            among(next, s) <==> among(t.take(i + 1), s) && !spelled_before(t.take(i + 1), s),
{
    let (a, b) = (t.take(i), t.take(i + 1));
    let u = t[i];
    assert(b[i] == u);
    assert forall|s: Seq<char>| #[trigger] among(next, s) <==> among(b, s) && !spelled_before(b, s) by {
        if among(a, s) {
            let m = choose|m: int| 0 <= m < a.len() && #[trigger] a[m] == s;
            assert(b[m] == s);
            assert(before(t[m], t[i]));
            crate::text::lemma_before_total(t[m], t[i]);
            if spelled_before(b, s) {
                let n = choose|n: int| 0 <= n < b.len() && before(#[trigger] b[n], s) && same_path(
                    b[n],
                    s,
                );
                assert(n != i);
                assert(a[n] == b[n]);
            }
            if spelled_before(a, s) {
                let n = choose|n: int| 0 <= n < a.len() && before(#[trigger] a[n], s) && same_path(
                    a[n],
                    s,
                );
                assert(b[n] == a[n]);
            }
        }
        if among(b, s) && !among(a, s) {
            let m = choose|m: int| 0 <= m < b.len() && #[trigger] b[m] == s;
            if m < i {
                assert(a[m] == s);
            }
            assert(s == u);
        }
        if s == u {
            if among(a, u) {
                let m = choose|m: int| 0 <= m < a.len() && #[trigger] a[m] == u;
                assert(before(t[m], t[i]));
                crate::text::lemma_before_total(t[m], t[i]);
            }
            if known {
                let m = choose|m: int| 0 <= m < i && #[trigger] same_path(t[m], t[i]);
                assert(before(t[m], t[i]));
                assert(b[m] == t[m]);
                assert(spelled_before(b, u));
            } else if spelled_before(b, u) {
                let n = choose|n: int| 0 <= n < b.len() && before(#[trigger] b[n], u) && same_path(
                    b[n],
                    u,
                );
                crate::text::lemma_before_total(b[n], u);
                assert(n < i);
                assert(same_path(t[n], t[i]));
            }
        }
        if among(c, s) {
            let m = choose|m: int| 0 <= m < c.len() && #[trigger] c[m] == s;
            assert(next[m] == s);
        }
        if among(next, s) && !among(c, s) {
            let m = choose|m: int| 0 <= m < next.len() && #[trigger] next[m] == s;
            if m < c.len() {
                assert(c[m] == s);
            }
            assert(s == u);
        }
        if !known {
            assert(next[c.len() as int] == u);
        }
    }
}

/// The logs that are read: in order, each once, whatever order they were
/// given in and however each is spelled. An empty set is refused.
pub fn canonical_logs(logs: &Vec<String>) -> (r: Result<Vec<String>, String>)
    ensures
        match r {
            Ok(canon) => logs@.len() > 0 && canonical_paths_of(views(logs@), views(canon@)),
            Err(e) => logs@.len() == 0 && e@ == "materialize: log set is empty"@,
        },
{
    if logs.len() == 0 {
        return Err("materialize: log set is empty".to_owned());
    }
    Ok(canonical_paths(logs))
}

/// Two lists of the same texts have the same canonical form.
pub proof fn law_text_order_is_irrelevant(
    a: Seq<Seq<char>>,
    b: Seq<Seq<char>>,
    ca: Seq<Seq<char>>,
    cb: Seq<Seq<char>>,
)
    requires
        forall|s: Seq<char>| #[trigger] among(a, s) <==> among(b, s),
        canonical(a, ca),
        canonical(b, cb),
    ensures
        ca == cb,
{
    assert forall|s: Seq<char>| #[trigger] among(ca, s) <==> among(cb, s) by {
        assert(among(ca, s) <==> among(a, s));
        assert(among(cb, s) <==> among(b, s));
    }
    lemma_canonical_unique(ca, cb);
}

/// What is read depends on the set of logs only: two lists of the same texts
/// name the same logs, in the same order.
pub proof fn law_log_order_is_irrelevant(
    a: Seq<Seq<char>>,
    b: Seq<Seq<char>>,
    ca: Seq<Seq<char>>,
    cb: Seq<Seq<char>>,
)
    requires
        forall|s: Seq<char>| #[trigger] among(a, s) <==> among(b, s),
        canonical_paths_of(a, ca),
        canonical_paths_of(b, cb),
    ensures
        ca == cb,
{
    assert forall|s: Seq<char>| #[trigger] among(ca, s) <==> among(cb, s) by {
        assert(among(ca, s) <==> among(a, s) && !spelled_before(a, s));
        assert(among(cb, s) <==> among(b, s) && !spelled_before(b, s));
        if spelled_before(a, s) {
            lemma_spelled_in_both(a, b, s);
        }
        if spelled_before(b, s) {
            lemma_spelled_in_both(b, a, s);
        }
    }
    lemma_canonical_unique(ca, cb);
}

proof fn lemma_spelled_in_both(a: Seq<Seq<char>>, b: Seq<Seq<char>>, s: Seq<char>)
    requires
        forall|s: Seq<char>| #[trigger] among(a, s) <==> among(b, s),
        spelled_before(a, s),
    ensures
        spelled_before(b, s),
{
    let m = choose|m: int| 0 <= m < a.len() && before(#[trigger] a[m], s) && same_path(a[m], s);
    assert(among(a, a[m]));
    assert(among(b, a[m]));
    let n = choose|n: int| 0 <= n < b.len() && #[trigger] b[n] == a[m];
    assert(before(b[n], s) && same_path(b[n], s));
}

/// Whether one of the paths has the components of `s`.
pub open spec fn names_path(canon: Seq<Seq<char>>, s: Seq<char>) -> bool {
    exists|i: int| 0 <= i < canon.len() && same_path(#[trigger] canon[i], s)
}

/// No log is read twice, and none is left out: no two of the canonical paths
/// have the same components, and each path that was given has the components
/// of one of them.
pub proof fn law_each_log_once(all: Seq<Seq<char>>, canon: Seq<Seq<char>>)
    requires
        canonical_paths_of(all, canon),
    ensures
        forall|i: int, j: int|
            0 <= i < j < canon.len() ==> !same_path(#[trigger] canon[i], #[trigger] canon[j]),
        forall|k: int| 0 <= k < all.len() ==> names_path(canon, #[trigger] all[k]),
{
    assert forall|i: int, j: int| 0 <= i < j < canon.len() implies !same_path(
        #[trigger] canon[i],
        #[trigger] canon[j],
    ) by {
        assert(among(canon, canon[i]));
        assert(among(canon, canon[j]));
        assert(among(all, canon[i]));
        let m = choose|m: int| 0 <= m < all.len() && #[trigger] all[m] == canon[i];
        assert(before(canon[i], canon[j]));
        if same_path(canon[i], canon[j]) {
            assert(before(all[m], canon[j]) && same_path(all[m], canon[j]));
            assert(spelled_before(all, canon[j]));
        }
    }
    assert forall|k: int| 0 <= k < all.len() implies names_path(canon, #[trigger] all[k]) by {
        let s = lemma_first_spelling(all, all, k);
        assert(among(canon, s));
        let i = choose|i: int| 0 <= i < canon.len() && #[trigger] canon[i] == s;
        assert(same_path(canon[i], all[k]));
    }
}

/// The first spelling of a path: a text of the list with its components that
/// no text of `rest` comes before.
proof fn lemma_first_spelling(all: Seq<Seq<char>>, rest: Seq<Seq<char>>, k: int) -> (s: Seq<char>)
    requires
        0 <= k < all.len(),
        forall|i: int| 0 <= i < rest.len() ==> among(all, #[trigger] rest[i]),
    ensures
        among(all, s),
        same_path(s, all[k]),
        !spelled_before(rest, s),
    decreases rest.len(),
{
    if rest.len() == 0 {
        assert(all[k] == all[k]);
        all[k]
    } else {
        let front = rest.drop_last();
        assert forall|i: int| 0 <= i < front.len() implies among(all, #[trigger] front[i]) by {
            assert(among(all, rest[i]));
        }
        let s = lemma_first_spelling(all, front, k);
        let u = rest.last();
        assert(among(all, rest[rest.len() - 1]));
        if before(u, s) && same_path(u, s) {
            if spelled_before(rest, u) {
                let n = choose|n: int| 0 <= n < rest.len() && before(#[trigger] rest[n], u)
                    && same_path(rest[n], u);
                crate::text::lemma_before_total(rest[n], u);
                assert(n < front.len());
                assert(front[n] == rest[n]);
                crate::text::lemma_before_transitive(rest[n], u, s);
                assert(spelled_before(front, s));
            }
            u
        } else {
            if spelled_before(rest, s) {
                let n = choose|n: int| 0 <= n < rest.len() && before(#[trigger] rest[n], s)
                    && same_path(rest[n], s);
                assert(n < front.len());
                assert(front[n] == rest[n]);
            }
            s
        }
    }
}

proof fn lemma_canonical_unique(x: Seq<Seq<char>>, y: Seq<Seq<char>>)
    requires
        forall|i: int, j: int| 0 <= i < j < x.len() ==> before(#[trigger] x[i], #[trigger] x[j]),
        forall|i: int, j: int| 0 <= i < j < y.len() ==> before(#[trigger] y[i], #[trigger] y[j]),
        forall|s: Seq<char>| #[trigger] among(x, s) <==> among(y, s),
    ensures
        x == y,
    decreases x.len(),
{
    if x.len() == 0 {
        if y.len() > 0 {
            assert(y[0] == y[0]);
            assert(among(y, y[0]));
            assert(among(x, y[0]));
        }
        assert(x =~= y);
    } else {
        let a = x.last();
        assert(x[x.len() - 1] == a);
        assert(among(x, a));
        assert(among(y, a));
        let b = y.last();
        assert(y[y.len() - 1] == b);
        assert(among(y, b));
        assert(among(x, b));
        let i = choose|i: int| 0 <= i < x.len() && #[trigger] x[i] == b;
        let j = choose|j: int| 0 <= j < y.len() && #[trigger] y[j] == a;
        crate::text::lemma_before_total(a, b);
        if a != b {
            assert(i < x.len() - 1);
            assert(before(x[i], x[x.len() - 1]));
            assert(j < y.len() - 1);
            assert(before(y[j], y[y.len() - 1]));
            crate::text::lemma_before_total(b, a);
        }
        let x0 = x.drop_last();
        let y0 = y.drop_last();
        assert forall|s: Seq<char>| #[trigger] among(x0, s) <==> among(y0, s) by {
            lemma_among_drop(x, s);
            lemma_among_drop(y, s);
        }
        assert forall|i: int, j: int| 0 <= i < j < x0.len() implies before(
            #[trigger] x0[i],
            #[trigger] x0[j],
        ) by {
            assert(before(x[i], x[j]));
        }
        assert forall|i: int, j: int| 0 <= i < j < y0.len() implies before(
            #[trigger] y0[i],
            #[trigger] y0[j],
        ) by {
            assert(before(y[i], y[j]));
        }
        lemma_canonical_unique(x0, y0);
        assert(x =~= x0.push(a));
        assert(y =~= y0.push(a));
    }
}

proof fn lemma_among_drop(x: Seq<Seq<char>>, s: Seq<char>)
    requires
        x.len() > 0,
        forall|i: int, j: int| 0 <= i < j < x.len() ==> before(#[trigger] x[i], #[trigger] x[j]),
    ensures
        among(x.drop_last(), s) <==> among(x, s) && s != x.last(),
{
    let x0 = x.drop_last();
    if among(x0, s) {
        let i = choose|i: int| 0 <= i < x0.len() && #[trigger] x0[i] == s;
        assert(x[i] == s);
        assert(before(x[i], x[x.len() - 1]));
        crate::text::lemma_before_total(x[i], x.last());
    }
    if among(x, s) && s != x.last() {
        let i = choose|i: int| 0 <= i < x.len() && #[trigger] x[i] == s;
        assert(x0[i] == s);
    }
}

/// The summed sizes.
pub open spec fn total_size(sizes: Seq<u64>) -> nat
    decreases sizes.len(),
{
    if sizes.len() == 0 {
        0
    } else {
        total_size(sizes.drop_last()) + sizes.last() as nat
    }
}

proof fn lemma_total_size(sizes: Seq<u64>, k: int)
    requires
        0 <= k <= sizes.len(),
    ensures
        total_size(sizes.take(k)) <= total_size(sizes),
    decreases sizes.len(),
{
    if k < sizes.len() {
        assert(sizes.drop_last().take(k) =~= sizes.take(k));
        lemma_total_size(sizes.drop_last(), k);
    } else {
        assert(sizes.take(k) =~= sizes);
    }
}

/// The cap of a run.
pub open spec fn cap_of(max_bytes: Option<u64>) -> u64 {
    match max_bytes {
        Some(n) => n,
        None => DEFAULT_MAX_BACKFILL_BYTES,
    }
}

/// The refusal of logs that are too large.
pub open spec fn too_large_text(total: nat, cap: u64) -> Seq<char> {
    "materialize: input corpus is "@ + dec(total) + " bytes (cap "@ + dec(cap as nat)
        + "); this run loads every event into RAM and would likely OOM. Slice per day (--log data/raw/<date>_*.log) or raise MP_MATERIALIZE_MAX_BYTES for a deliberate large run (a streaming merge is future work)."@
}

/// Refuses logs whose sizes sum to more than the cap, before any is read.
pub fn check_corpus(sizes: &Vec<u64>, max_bytes: Option<u64>) -> (r: Result<(), String>)
    requires
        total_size(sizes@) <= u64::MAX,
    ensures
        match r {
            Ok(_) => total_size(sizes@) <= cap_of(max_bytes),
            Err(e) => total_size(sizes@) > cap_of(max_bytes) && e@ == too_large_text(
                total_size(sizes@),
                cap_of(max_bytes),
            ),
        },
{
    let mut total: u64 = 0;
    let mut i: usize = 0;
    assert(sizes@.take(0).len() == 0);
    while i < sizes.len()
        invariant
            i <= sizes@.len(),
            total_size(sizes@) <= u64::MAX,
            total == total_size(sizes@.take(i as int)),
        decreases sizes@.len() - i,
    {
        proof {
            assert(sizes@.take(i + 1).drop_last() =~= sizes@.take(i as int));
            lemma_total_size(sizes@, i + 1);
        }
        total = total + sizes[i];
        i = i + 1;
    }
    assert(sizes@.take(i as int) =~= sizes@);
    let cap: u64 = match max_bytes {
        Some(n) => n,
        None => DEFAULT_MAX_BACKFILL_BYTES,
    };
    if total > cap {
        let mut s = "materialize: input corpus is ".to_owned();
        push_dec(&mut s, total);
        push_text(&mut s, " bytes (cap ");
        push_dec(&mut s, cap);
        push_text(
            &mut s,
            "); this run loads every event into RAM and would likely OOM. Slice per day (--log data/raw/<date>_*.log) or raise MP_MATERIALIZE_MAX_BYTES for a deliberate large run (a streaming merge is future work).",
        );
        return Err(s);
    }
    Ok(())
}

// ---------------------------------------------------------------------------
// The shared symbol table
// ---------------------------------------------------------------------------

/// A venue's symbol.
pub type SymbolKey = (Venue, Seq<char>);

/// Symbols by id: the id of a symbol is its position.
pub struct SymbolTable {
    pub metas: Vec<SymbolMeta>,
}

/// The position of a symbol, or the length of the list.
pub open spec fn symbol_pos(t: Seq<SymbolKey>, k: SymbolKey) -> int
    decreases t.len(),
{
    if t.len() == 0 || t[0] == k {
        0
    } else {
        1 + symbol_pos(t.skip(1), k)
    }
}

/// The list with the symbol in it: as it is, or with the symbol at its end.
pub open spec fn interned(t: Seq<SymbolKey>, k: SymbolKey) -> Seq<SymbolKey> {
    if symbol_pos(t, k) < t.len() {
        t
    } else {
        t.push(k)
    }
}

proof fn lemma_symbol_pos(t: Seq<SymbolKey>, k: SymbolKey)
    ensures
        0 <= symbol_pos(t, k) <= t.len(),
        symbol_pos(t, k) < t.len() ==> t[symbol_pos(t, k)] == k,
        forall|i: int| 0 <= i < symbol_pos(t, k) ==> t[i] != k,
    decreases t.len(),
{
    if t.len() > 0 && t[0] != k {
        lemma_symbol_pos(t.skip(1), k);
        assert forall|i: int| 0 <= i < symbol_pos(t, k) implies t[i] != k by {
            if i > 0 {
                assert(t.skip(1)[i - 1] == t[i]);
            }
        }
    }
}

/// A symbol keeps its position when others are added.
proof fn lemma_pos_stable(t: Seq<SymbolKey>, k: SymbolKey, other: SymbolKey)
    requires
        symbol_pos(t, k) < t.len(),
    ensures
        symbol_pos(interned(t, other), k) == symbol_pos(t, k),
    decreases t.len(),
{
    lemma_push_pos(t, k, other);
}

proof fn lemma_push_pos(t: Seq<SymbolKey>, k: SymbolKey, other: SymbolKey)
    ensures
        symbol_pos(t, k) < t.len() ==> symbol_pos(t.push(other), k) == symbol_pos(t, k),
        symbol_pos(t, k) == t.len() && other == k ==> symbol_pos(t.push(other), k) == t.len(),
    decreases t.len(),
{
    if t.len() > 0 && t[0] != k {
        lemma_push_pos(t.skip(1), k, other);
        assert(t.push(other).skip(1) =~= t.skip(1).push(other));
    } else if t.len() == 0 {
        assert(t.push(other)[0] == other);
    } else {
        assert(t.push(other)[0] == k);
    }
}

impl SymbolTable {
    /// The symbols by id.
    pub open spec fn keys(&self) -> Seq<SymbolKey> {
        Seq::new(
            self.metas@.len(),
            |i: int| (self.metas@[i].venue, self.metas@[i].venue_symbol@),
        )
    }

    /// Ids are positions.
    pub open spec fn wf(&self) -> bool {
        forall|i: int| 0 <= i < self.metas@.len() ==> (#[trigger] self.metas@[i]).symbol_id.0 == i
    }

    /// An empty table.
    pub fn new() -> (t: SymbolTable)
        ensures
            t.wf(),
            t.keys() == Seq::<SymbolKey>::empty(),
    {
        let t = SymbolTable { metas: Vec::new() };
        assert(t.keys() =~= Seq::<SymbolKey>::empty());
        t
    }

    /// The id of the symbol, which is added if it is new.
    pub fn intern(&mut self, venue: Venue, symbol: &str) -> (id: SymbolId)
        requires
            old(self).wf(),
            old(self).metas@.len() < u32::MAX,
        ensures
            final(self).wf(),
            final(self).keys() == interned(old(self).keys(), (venue, symbol@)),
            id.0 == symbol_pos(old(self).keys(), (venue, symbol@)),
            id.0 < final(self).keys().len(),
    {
        let ghost t = self.keys();
        let ghost k = (venue, symbol@);
        let mut i: usize = 0;
        assert(t.skip(0) =~= t);
        while i < self.metas.len()
            invariant
                i <= self.metas@.len(),
                *self == *old(self),
                self.wf(),
                t == self.keys(),
                k == (venue, symbol@),
                self.metas@.len() < u32::MAX,
                symbol_pos(t, k) == i + symbol_pos(t.skip(i as int), k),
            decreases self.metas@.len() - i,
        {
            assert(t.skip(i as int)[0] == t[i as int]);
            assert(t.skip(i as int).skip(1) =~= t.skip(i + 1));
            if self.metas[i].venue == venue && same(self.metas[i].venue_symbol.as_str(), symbol) {
                return SymbolId(i as u32);
            }
            i = i + 1;
        }
        let id = SymbolId(i as u32);
        self.metas.push(SymbolMeta { symbol_id: id, venue, venue_symbol: symbol.to_owned() });
        assert(self.keys() =~= t.push(k));
        id
    }
}

/// The table after interning the symbols of a log's events, in order.
pub open spec fn interned_all(
    t: Seq<SymbolKey>,
    metas: Seq<SymbolMeta>,
    ids: Seq<u32>,
) -> Seq<SymbolKey>
    decreases ids.len(),
{
    if ids.len() == 0 {
        t
    } else {
        let m = metas[ids.last() as int];
        interned(interned_all(t, metas, ids.drop_last()), (m.venue, m.venue_symbol@))
    }
}

/// The first id without an entry in the log's own table.
pub open spec fn first_unknown(metas: Seq<SymbolMeta>, ids: Seq<u32>) -> Option<u32>
    decreases ids.len(),
{
    if ids.len() == 0 {
        None
    } else if first_unknown(metas, ids.drop_last()) is Some {
        first_unknown(metas, ids.drop_last())
    } else if ids.last() >= metas.len() {
        Some(ids.last())
    } else {
        None
    }
}

/// The symbol of an event in a log's own table.
pub open spec fn local_key(metas: Seq<SymbolMeta>, id: u32) -> SymbolKey {
    (metas[id as int].venue, metas[id as int].venue_symbol@)
}

/// The shared ids of a log's events: each event's symbol in the log's own
/// table, interned into the shared one. Refused when a symbol has no entry.
pub fn remap_symbols(
    table: &mut SymbolTable,
    metas: &Vec<SymbolMeta>,
    ids: &Vec<u32>,
    path: &str,
) -> (r: Result<Vec<SymbolId>, String>)
    requires
        old(table).wf(),
        old(table).metas@.len() + ids@.len() < u32::MAX,
    ensures
        final(table).wf(),
        match r {
            Ok(shared) => first_unknown(metas@, ids@) is None && final(table).keys()
                == interned_all(old(table).keys(), metas@, ids@) && shared@.len() == ids@.len()
                && forall|i: int|
                0 <= i < ids@.len() ==> (#[trigger] shared@[i]).0 == symbol_pos(
                    final(table).keys(),
                    local_key(metas@, ids@[i]),
                ) && shared@[i].0 < final(table).keys().len(),
            Err(e) => first_unknown(metas@, ids@) is Some && e@ == path@ + ": symbol id "@ + dec(
                first_unknown(metas@, ids@)->0 as nat,
            ) + " has no metadata (corrupt log?)"@,
        },
{
    let ghost t0 = table.keys();
    let mut shared: Vec<SymbolId> = Vec::new();
    let mut i: usize = 0;
    assert(ids@.take(0).len() == 0);
    while i < ids.len()
        invariant
            i <= ids@.len(),
            table.wf(),
            old(table).metas@.len() + ids@.len() < u32::MAX,
            t0 == old(table).keys(),
            table.metas@.len() <= old(table).metas@.len() + i,
            first_unknown(metas@, ids@.take(i as int)) is None,
            table.keys() == interned_all(t0, metas@, ids@.take(i as int)),
            shared@.len() == i,
            forall|k: int|
                0 <= k < i ==> (#[trigger] shared@[k]).0 == symbol_pos(
                    table.keys(),
                    local_key(metas@, ids@[k]),
                ) && shared@[k].0 < table.keys().len(),
        decreases ids@.len() - i,
    {
        let id: u32 = ids[i];
        let ghost prefix = ids@.take(i as int);
        assert(ids@.take(i + 1).drop_last() =~= prefix);
        if (id as usize) >= metas.len() {
            proof {
                lemma_first_unknown_stays(metas@, ids@, i + 1);
            }
            let mut s = path.to_owned();
            push_text(&mut s, ": symbol id ");
            push_dec(&mut s, id as u64);
            push_text(&mut s, " has no metadata (corrupt log?)");
            return Err(s);
        }
        let ghost before = table.keys();
        assert(forall|k: int|
            0 <= k < i ==> (#[trigger] shared@[k]).0 == symbol_pos(
                before,
                local_key(metas@, ids@[k]),
            ) && shared@[k].0 < before.len());
        let m = &metas[id as usize];
        let s = table.intern(m.venue, m.venue_symbol.as_str());
        proof {
            let key = local_key(metas@, id);
            lemma_symbol_pos(before, key);
            lemma_push_pos(before, key, key);
            assert forall|k: int| 0 <= k < i implies (#[trigger] shared@[k]).0 == symbol_pos(
                table.keys(),
                local_key(metas@, ids@[k]),
            ) && shared@[k].0 < table.keys().len() by {
                assert(shared@[k].0 == symbol_pos(before, local_key(metas@, ids@[k])));
                lemma_pos_stable(before, local_key(metas@, ids@[k]), key);
            }
        }
        shared.push(s);
        i = i + 1;
    }
    assert(ids@.take(i as int) =~= ids@);
    Ok(shared)
}

proof fn lemma_first_unknown_stays(metas: Seq<SymbolMeta>, ids: Seq<u32>, k: int)
    requires
        0 <= k <= ids.len(),
        first_unknown(metas, ids.take(k)) is Some,
    ensures
        first_unknown(metas, ids) == first_unknown(metas, ids.take(k)),
    decreases ids.len(),
{
    if k < ids.len() {
        assert(ids.drop_last().take(k) =~= ids.take(k));
        lemma_first_unknown_stays(metas, ids.drop_last(), k);
    } else {
        assert(ids.take(k) =~= ids);
    }
}

/// The same venue and symbol has one id in the shared table, and two symbols
/// never share one.
pub proof fn law_shared_ids_identify(t: Seq<SymbolKey>, a: SymbolKey, b: SymbolKey)
    requires
        symbol_pos(t, a) < t.len(),
        symbol_pos(t, b) < t.len(),
    ensures
        symbol_pos(t, a) == symbol_pos(t, b) <==> a == b,
{
    lemma_symbol_pos(t, a);
    lemma_symbol_pos(t, b);
}

/// The rows of the symbol table's snapshot, in id order.
pub fn symbol_rows(table: &SymbolTable) -> (rows: Vec<SymbolRow>)
    requires
        table.wf(),
    ensures
        rows@.len() == table.metas@.len(),
        forall|i: int|
            0 <= i < rows@.len() ==> (#[trigger] rows@[i]).id == i && rows@[i].venue@ == slug_of(
                table.keys()[i].0,
            ) && rows@[i].venue_symbol@ == table.keys()[i].1,
{
    let mut rows: Vec<SymbolRow> = Vec::new();
    let mut i: usize = 0;
    while i < table.metas.len()
        invariant
            i <= table.metas@.len(),
            table.wf(),
            rows@.len() == i,
            forall|k: int|
                0 <= k < i ==> (#[trigger] rows@[k]).id == k && rows@[k].venue@ == slug_of(
                    table.keys()[k].0,
                ) && rows@[k].venue_symbol@ == table.keys()[k].1,
        decreases table.metas@.len() - i,
    {
        let m = &table.metas[i];
        assert(table.metas@[i as int].symbol_id.0 == i);
        rows.push(
            SymbolRow {
                id: m.symbol_id.0,
                venue: m.venue.slug().to_owned(),
                venue_symbol: m.venue_symbol.clone(),
            },
        );
        i = i + 1;
    }
    rows
}

/// Whether the snapshot file is to be written: yes where there is none, no
/// where it is there already, and refused where other bytes stand under its
/// hash.
pub fn write_symbols_snapshot(existing: &Option<Vec<u8>>, json: &Vec<u8>, path: &str) -> (r: Result<
    bool,
    String,
>)
    ensures
        match r {
            Ok(write) => (existing matches Some(b) ==> b@ == json@) && write == (existing is None),
            Err(e) => (existing matches Some(b) && b@ != json@) && e@
                == "symbols snapshot hash collision at "@ + path@
                + " (different content under the same hash — W-6)"@,
        },
{
    match existing {
        None => Ok(true),
        Some(b) => {
            if same_bytes(b, json) {
                return Ok(false);
            }
            let mut s = "symbols snapshot hash collision at ".to_owned();
            push_text(&mut s, path);
            push_text(&mut s, " (different content under the same hash — W-6)");
            Err(s)
        },
    }
}

fn same_bytes(a: &Vec<u8>, b: &Vec<u8>) -> (r: bool)
    ensures
        r == (a@ == b@),
{
    if a.len() != b.len() {
        return false;
    }
    let mut i: usize = 0;
    while i < a.len()
        invariant
            i <= a@.len(),
            a@.len() == b@.len(),
            forall|k: int| 0 <= k < i ==> a@[k] == b@[k],
        decreases a@.len() - i,
    {
        if a[i] != b[i] {
            return false;
        }
        i = i + 1;
    }
    assert(a@ =~= b@);
    true
}

/// `{root}/symbols/{hash}.json`.
pub fn symbols_file(root: &str, hash: &str) -> (s: String)
    ensures
        s@ == joined(joined(root@, "symbols"@), hash@ + ".json"@),
{
    join_path(
        join_path(root, "symbols").as_str(),
        crate::layout::glued(hash, ".json").as_str(),
    )
}

// ---------------------------------------------------------------------------
// Merging events
// ---------------------------------------------------------------------------

/// Where an event stands: the source, and the position in it.
pub type Place = (usize, usize);

/// Whether `p` is the place of an event.
pub open spec fn is_place(sources: Seq<Vec<(i64, u64)>>, p: Place) -> bool {
    p.0 < sources.len() && p.1 < sources[p.0 as int]@.len()
}

/// Whether the event at `a` comes before the event at `b`: by receive time,
/// then sequence number, then source, then position.
pub open spec fn merges_before(sources: Seq<Vec<(i64, u64)>>, a: Place, b: Place) -> bool {
    let x = sources[a.0 as int]@[a.1 as int];
    let y = sources[b.0 as int]@[b.1 as int];
    x.0 < y.0 || (x.0 == y.0 && (x.1 < y.1 || (x.1 == y.1 && (a.0 < b.0 || (a.0 == b.0 && a.1
        < b.1)))))
}

/// Whether the list holds the place.
pub open spec fn holds_place(v: Seq<Place>, p: Place) -> bool {
    exists|i: int| 0 <= i < v.len() && #[trigger] v[i] == p
}

/// The places of all events of the sources, in the order of one merged
/// stream. Each source gives its events' receive times and sequence numbers.
pub fn merge_sorted_events(sources: &Vec<Vec<(i64, u64)>>) -> (merged: Vec<Place>)
    ensures
        forall|i: int| 0 <= i < merged@.len() ==> is_place(sources@, #[trigger] merged@[i]),
        forall|i: int, j: int|
            0 <= i < j < merged@.len() ==> merges_before(
                sources@,
                #[trigger] merged@[i],
                #[trigger] merged@[j],
            ),
        forall|p: Place| #[trigger] is_place(sources@, p) ==> holds_place(merged@, p),
{
    let mut keys: Vec<Pair<i64, u64>> = Vec::new();
    let mut places: Vec<Place> = Vec::new();
    let mut s: usize = 0;
    while s < sources.len()
        invariant
            s <= sources@.len(),
            keys@.len() == places@.len(),
            forall|k: int|
                0 <= k < places@.len() ==> is_place(sources@, #[trigger] places@[k])
                    && places@[k].0 < s,
            forall|k: int|
                0 <= k < keys@.len() ==> (#[trigger] keys@[k]).id()
                    == sources@[places@[k].0 as int]@[places@[k].1 as int],
            forall|a: int, b: int|
                0 <= a < b < places@.len() ==> place_order(
                    #[trigger] places@[a],
                    #[trigger] places@[b],
                ),
            forall|p: Place| #[trigger]
                is_place(sources@, p) && p.0 < s ==> holds_place(places@, p),
        decreases sources@.len() - s,
    {
        let mut i: usize = 0;
        while i < sources[s].len()
            invariant
                s < sources@.len(),
                i <= sources@[s as int]@.len(),
                keys@.len() == places@.len(),
                forall|k: int|
                    0 <= k < places@.len() ==> is_place(sources@, #[trigger] places@[k]) && (
                    places@[k].0 < s || (places@[k].0 == s && places@[k].1 < i)),
                forall|k: int|
                    0 <= k < keys@.len() ==> (#[trigger] keys@[k]).id()
                        == sources@[places@[k].0 as int]@[places@[k].1 as int],
                forall|a: int, b: int|
                    0 <= a < b < places@.len() ==> place_order(
                        #[trigger] places@[a],
                        #[trigger] places@[b],
                    ),
                forall|p: Place| #[trigger]
                    is_place(sources@, p) && (p.0 < s || (p.0 == s && p.1 < i)) ==> holds_place(
                        places@,
                        p,
                    ),
            decreases sources@[s as int]@.len() - i,
        {
            let ghost before = places@;
            let (t, q) = sources[s][i];
            keys.push(Pair { a: t, b: q });
            places.push((s, i));
            proof {
                assert forall|p: Place| #[trigger]
                    is_place(sources@, p) && (p.0 < s || (p.0 == s && p.1 < i + 1)) implies
                    holds_place(places@, p) by {
                    if p.0 < s || p.1 < i {
                        assert(holds_place(before, p));
                        let k = choose|k: int| 0 <= k < before.len() && #[trigger] before[k] == p;
                        assert(places@[k] == p);
                    } else {
                        assert(places@[before.len() as int] == p);
                    }
                }
            }
            i = i + 1;
        }
        s = s + 1;
    }
    let order = sort_order(&keys);
    let mut merged: Vec<Place> = Vec::new();
    let mut j: usize = 0;
    while j < order.len()
        invariant
            j <= order@.len(),
            keys@.len() == places@.len(),
            stably_sorted(keys@, order@),
            merged@.len() == j,
            forall|k: int| 0 <= k < j ==> #[trigger] merged@[k] == places@[order@[k] as int],
        decreases order@.len() - j,
    {
        merged.push(places[order[j]]);
        j = j + 1;
    }
    proof {
        assert forall|i: int, j: int| 0 <= i < j < merged@.len() implies merges_before(
            sources@,
            #[trigger] merged@[i],
            #[trigger] merged@[j],
        ) by {
            let (p, q) = (order@[i] as int, order@[j] as int);
            assert(comes_first(keys@, p, q));
            assert(keys@[p].id() == sources@[places@[p].0 as int]@[places@[p].1 as int]);
            assert(keys@[q].id() == sources@[places@[q].0 as int]@[places@[q].1 as int]);
            if keys@[p].id() == keys@[q].id() {
                assert(place_order(places@[p], places@[q]));
            }
        }
        assert forall|p: Place| #[trigger] is_place(sources@, p) implies holds_place(
            merged@,
            p,
        ) by {
            assert(holds_place(places@, p));
            let k = choose|k: int| 0 <= k < places@.len() && #[trigger] places@[k] == p;
            assert(listed(order@, k));
            let i = choose|i: int| 0 <= i < order@.len() && #[trigger] order@[i] == k;
            assert(merged@[i] == p);
        }
        assert forall|i: int| 0 <= i < merged@.len() implies is_place(
            sources@,
            #[trigger] merged@[i],
        ) by {
            assert(is_place(sources@, places@[order@[i] as int]));
        }
    }
    merged
}

/// Source by source, position by position.
spec fn place_order(a: Place, b: Place) -> bool {
    a.0 < b.0 || (a.0 == b.0 && a.1 < b.1)
}

// ---------------------------------------------------------------------------
// Feature files
// ---------------------------------------------------------------------------

/// A feature value as the engine emitted it.
#[derive(Debug)]
pub struct FeatureUpdate {
    pub name: String,
    pub venue: Venue,
    pub symbol: u32,
    pub ver: u16,
    pub ts_ns: i64,
    pub value: Real,
}

/// One file of a run.
#[derive(Debug)]
pub struct FeatureFile {
    pub feature: String,
    pub venue: Venue,
    pub symbol_id: u32,
    pub ver: u16,
    pub date: String,
    pub rows: Vec<FeatureRow>,
}

/// What files are grouped by: feature, venue, symbol and version.
pub type GroupId = ((Seq<char>, u32), (u32, u32));

/// The group of an update.
pub open spec fn group_of(u: FeatureUpdate) -> GroupId {
    ((u.name@, code_of(u.venue) as u32), (u.symbol, u.ver as u32))
}

/// The group of a file.
pub open spec fn file_group(f: FeatureFile) -> GroupId {
    ((f.feature@, code_of(f.venue) as u32), (f.symbol_id, f.ver as u32))
}

/// The row of an update. Rows number venues by their place, from 0.
pub open spec fn update_row(u: FeatureUpdate) -> FeatureRow {
    FeatureRow {
        symbol_id: u.symbol,
        venue_code: (code_of(u.venue) - 1) as u16,
        ts_ns: u.ts_ns,
        value: u.value,
        ver: u.ver,
    }
}

/// The rows of a group, in the order of the updates.
pub open spec fn group_rows(updates: Seq<FeatureUpdate>, g: GroupId) -> Seq<FeatureRow>
    decreases updates.len(),
{
    if updates.len() == 0 {
        Seq::empty()
    } else {
        let b = group_rows(updates.drop_last(), g);
        if group_of(updates.last()) == g {
            b.push(update_row(updates.last()))
        } else {
            b
        }
    }
}

/// The sort key of a row: time, then the value's bits, then the version.
pub open spec fn row_key(r: FeatureRow) -> ((i64, u64), u32) {
    ((r.ts_ns, r.value.bits), r.ver as u32)
}

/// `sorted` are the rows at the positions `order`, which sort them by key.
pub open spec fn key_sorted_by(
    rows: Seq<FeatureRow>,
    sorted: Seq<FeatureRow>,
    order: Seq<usize>,
) -> bool {
    &&& sorted.len() == rows.len()
    &&& order.len() == rows.len()
    &&& forall|i: int|
        0 <= i < order.len() ==> (#[trigger] order[i]) < rows.len() && sorted[i]
            == rows[order[i] as int]
    &&& forall|p: int| 0 <= p < rows.len() ==> #[trigger] listed(order, p)
    &&& forall|i: int, j: int|
        #![trigger sorted[i], sorted[j]]
        0 <= i < j < sorted.len() ==> <Pair<Pair<i64, u64>, u32> as Key>::precedes(
            row_key(sorted[i]),
            row_key(sorted[j]),
        ) || (row_key(sorted[i]) == row_key(sorted[j]) && order[i] < order[j])
}

/// `sorted` are the rows by time, then the value's bits, then the version.
pub open spec fn key_sorted(rows: Seq<FeatureRow>, sorted: Seq<FeatureRow>) -> bool {
    exists|order: Seq<usize>| key_sorted_by(rows, sorted, order)
}

fn sort_rows(rows: &Vec<FeatureRow>) -> (sorted: Vec<FeatureRow>)
    ensures
        key_sorted(rows@, sorted@),
{
    let mut keys: Vec<Pair<Pair<i64, u64>, u32>> = Vec::new();
    let mut i: usize = 0;
    while i < rows.len()
        invariant
            i <= rows@.len(),
            keys@.len() == i,
            forall|k: int| 0 <= k < i ==> (#[trigger] keys@[k]).id() == row_key(rows@[k]),
        decreases rows@.len() - i,
    {
        keys.push(
            Pair { a: Pair { a: rows[i].ts_ns, b: rows[i].value.bits }, b: rows[i].ver as u32 },
        );
        i = i + 1;
    }
    let order = sort_order(&keys);
    let mut sorted: Vec<FeatureRow> = Vec::new();
    let mut j: usize = 0;
    while j < order.len()
        invariant
            j <= order@.len(),
            keys@.len() == rows@.len(),
            stably_sorted(keys@, order@),
            sorted@.len() == j,
            forall|k: int| 0 <= k < j ==> #[trigger] sorted@[k] == rows@[order@[k] as int],
        decreases order@.len() - j,
    {
        sorted.push(rows[order[j]]);
        j = j + 1;
    }
    proof {
        let o = order@;
        assert forall|i: int, j: int|
            #![trigger sorted@[i], sorted@[j]]
            0 <= i < j < sorted@.len() implies <Pair<Pair<i64, u64>, u32> as Key>::precedes(
            row_key(sorted@[i]),
            row_key(sorted@[j]),
        ) || (row_key(sorted@[i]) == row_key(sorted@[j]) && o[i] < o[j]) by {
            assert(comes_first(keys@, o[i] as int, o[j] as int));
            assert(keys@[o[i] as int].id() == row_key(rows@[o[i] as int]));
            assert(keys@[o[j] as int].id() == row_key(rows@[o[j] as int]));
        }
        assert forall|i: int| 0 <= i < o.len() implies (#[trigger] o[i]) < rows@.len()
            && sorted@[i] == rows@[o[i] as int] by {}
        assert(key_sorted_by(rows@, sorted@, o));
    }
    sorted
}

/// `files` are the files of one group: its sorted rows parted by day.
pub open spec fn group_files(
    files: Seq<FeatureFile>,
    updates: Seq<FeatureUpdate>,
    g: GroupId,
) -> bool {
    exists|sorted: Seq<FeatureRow>, days: Seq<DayRows>|
        #![trigger parted_by_day(sorted, days)]
        {
            &&& key_sorted(group_rows(updates, g), sorted)
            &&& parted_by_day(sorted, days)
            &&& files.len() == days.len()
            &&& forall|i: int|
                0 <= i < files.len() ==> file_group(#[trigger] files[i]) == g && files[i].date@
                    == days[i].date@ && files[i].rows@ == days[i].rows@
        }
}

/// `files` are the files of the groups, one group behind the other.
pub open spec fn files_of_groups(
    files: Seq<FeatureFile>,
    updates: Seq<FeatureUpdate>,
    groups: Seq<GroupId>,
) -> bool
    decreases groups.len(),
{
    if groups.len() == 0 {
        files.len() == 0
    } else {
        exists|cut: int|
            #![trigger files.take(cut)]
            0 <= cut <= files.len() && files_of_groups(
                files.take(cut),
                updates,
                groups.drop_last(),
            ) && group_files(files.skip(cut), updates, groups.last())
    }
}

/// `groups` are the groups of the updates, in order.
pub open spec fn groups_in_order(updates: Seq<FeatureUpdate>, groups: Seq<GroupId>) -> bool {
    &&& forall|i: int, j: int|
        0 <= i < j < groups.len() ==> <Pair<Pair<String, u32>, Pair<u32, u32>> as Key>::precedes(
            #[trigger] groups[i],
            #[trigger] groups[j],
        )
    &&& forall|g: GroupId| #[trigger]
        groups.contains(g) <==> exists|i: int|
            0 <= i < updates.len() && group_of(#[trigger] updates[i]) == g
}

proof fn lemma_group_rows(
    updates: Seq<FeatureUpdate>,
    keys: Seq<Pair<Pair<String, u32>, Pair<u32, u32>>>,
    g: GroupId,
)
    requires
        keys.len() == updates.len(),
        updates.len() <= usize::MAX,
        forall|i: int| 0 <= i < keys.len() ==> (#[trigger] keys[i]).id() == group_of(updates[i]),
    ensures
        group_rows(updates, g) == Seq::new(
            positions(keys, g).len(),
            |i: int| update_row(updates[positions(keys, g)[i] as int]),
        ),
    decreases updates.len(),
{
    if updates.len() > 0 {
        let u0 = updates.drop_last();
        let k0 = keys.drop_last();
        assert forall|i: int| 0 <= i < k0.len() implies (#[trigger] k0[i]).id() == group_of(
            u0[i],
        ) by {
            assert(keys[i].id() == group_of(updates[i]));
        }
        lemma_group_rows(u0, k0, g);
        lemma_positions(k0, g);
        let p0 = positions(k0, g);
        let p = positions(keys, g);
        assert(keys[keys.len() - 1].id() == group_of(updates.last()));
        let want = Seq::new(p.len(), |i: int| update_row(updates[p[i] as int]));
        let b = Seq::new(p0.len(), |i: int| update_row(u0[p0[i] as int]));
        assert forall|i: int| 0 <= i < p0.len() implies want[i] == #[trigger] b[i] by {
            assert(p[i] == p0[i]);
            assert(p0[i] < k0.len());
        }
        if keys.last().id() == g {
            assert(want =~= b.push(update_row(updates.last())));
        } else {
            assert(want =~= b);
        }
    } else {
        assert(group_rows(updates, g) =~= Seq::new(
            positions(keys, g).len(),
            |i: int| update_row(updates[positions(keys, g)[i] as int]),
        ));
    }
}

/// The files of a run: the updates grouped by feature, venue, symbol and
/// version, each group's rows sorted and parted by the day on which each
/// happened.
pub fn feature_files(updates: &Vec<FeatureUpdate>) -> (files: Vec<FeatureFile>)
    ensures
        exists|groups: Seq<GroupId>| #[trigger]
            groups_in_order(updates@, groups) && files_of_groups(files@, updates@, groups),
{
    let total: usize = updates.len();
    let mut keys: Vec<Pair<Pair<String, u32>, Pair<u32, u32>>> = Vec::new();
    let mut i: usize = 0;
    while i < total
        invariant
            i <= total,
            total == updates@.len(),
            keys@.len() == i,
            forall|k: int| 0 <= k < i ==> (#[trigger] keys@[k]).id() == group_of(updates@[k]),
        decreases total - i,
    {
        let u = &updates[i];
        keys.push(
            Pair {
                a: Pair { a: u.name.clone(), b: venue_code(u.venue) as u32 },
                b: Pair { a: u.symbol, b: u.ver as u32 },
            },
        );
        i = i + 1;
    }
    let ghost all = keys@;
    let grp = group_positions(keys);
    let ghost entries = grp.entries@;
    let ghost groups: Seq<GroupId> = Seq::new(entries.len(), |i: int| entries[i].0.id());
    let mut files: Vec<FeatureFile> = Vec::new();
    let mut g: usize = 0;
    assert(groups.take(0).len() == 0);
    while g < grp.entries.len()
        invariant
            g <= entries.len(),
            entries == grp.entries@,
            groups == Seq::new(entries.len(), |i: int| entries[i].0.id()),
            grouped(all, grp),
            all.len() == updates@.len(),
            all.len() == total,
            forall|k: int| 0 <= k < all.len() ==> (#[trigger] all[k]).id() == group_of(updates@[k]),
            files_of_groups(files@, updates@, groups.take(g as int)),
        decreases entries.len() - g,
    {
        let entry = &grp.entries[g];
        let ghost id = entry.0.id();
        let ghost members = entry.1@;
        proof {
            lemma_pos(entries, g as int);
            assert(grp.map().dom().contains(id));
            assert(grp.map()[id]@ == positions(all, id));
            lemma_positions(all, id);
            lemma_group_rows(updates@, all, id);
            assert(occurs(all, id));
            assert(members.len() > 0);
        }
        assert forall|x: int| 0 <= x < members.len() implies (#[trigger] members[x])
            < updates@.len() && group_of(updates@[members[x] as int]) == id by {
            assert(positions(all, id)[x] < all.len());
            assert(all[members[x] as int].id() == id);
        }
        let mut rows: Vec<FeatureRow> = Vec::new();
        let mut m: usize = 0;
        while m < entry.1.len()
            invariant
                m <= members.len(),
                members == entry.1@,
                forall|x: int| 0 <= x < members.len() ==> (#[trigger] members[x]) < updates@.len(),
                rows@ =~= Seq::new(m as nat, |x: int| update_row(updates@[members[x] as int])),
            decreases members.len() - m,
        {
            let u = &updates[entry.1[m]];
            rows.push(
                FeatureRow {
                    symbol_id: u.symbol,
                    venue_code: venue_code(u.venue) - 1,
                    ts_ns: u.ts_ns,
                    value: u.value,
                    ver: u.ver,
                },
            );
            m = m + 1;
        }
        assert(rows@ =~= group_rows(updates@, id));
        let sorted = sort_rows(&rows);
        let days = part_by_day(&sorted);
        let ghost all_days = days@;
        let first = &updates[entry.1[0]];
        assert(group_of(*first) == id);
        let ghost f0 = files@;
        for day in it: days
            invariant
                it.seq() == all_days,
                group_of(*first) == id,
                files@.len() == f0.len() + it.index(),
                files@.take(f0.len() as int) =~= f0,
                forall|k: int|
                    0 <= k < it.index() ==> file_group(#[trigger] files@[f0.len() + k]) == id
                        && files@[f0.len() + k].date@ == all_days[k].date@
                        && files@[f0.len() + k].rows@ == all_days[k].rows@,
        {
            let DayRows { date, rows: day_rows } = day;
            files.push(
                FeatureFile {
                    feature: first.name.clone(),
                    venue: first.venue,
                    symbol_id: first.symbol,
                    ver: first.ver,
                    date,
                    rows: day_rows,
                },
            );
        }
        proof {
            let cut = f0.len() as int;
            let part = files@.skip(cut);
            assert(parted_by_day(sorted@, all_days));
            assert forall|i: int| 0 <= i < part.len() implies file_group(#[trigger] part[i]) == id
                && part[i].date@ == all_days[i].date@ && part[i].rows@ == all_days[i].rows@ by {
                assert(part[i] == files@[cut + i]);
            }
            assert(group_files(part, updates@, id));
            assert(groups.take(g + 1).drop_last() =~= groups.take(g as int));
            assert(groups.take(g + 1).last() == id);
            assert(files@.take(cut) =~= f0);
            assert(files_of_groups(files@, updates@, groups.take(g + 1)));
        }
        g = g + 1;
    }
    proof {
        assert(groups.take(g as int) =~= groups);
        assert forall|i: int, j: int| 0 <= i < j < groups.len() implies <Pair<
            Pair<String, u32>,
            Pair<u32, u32>,
        > as Key>::precedes(#[trigger] groups[i], #[trigger] groups[j]) by {
            assert(<Pair<Pair<String, u32>, Pair<u32, u32>> as Key>::precedes(
                entries[i].0.id(),
                entries[j].0.id(),
            ));
        }
        assert forall|x: GroupId| #[trigger] groups.contains(x) <==> exists|i: int|
            0 <= i < updates@.len() && group_of(#[trigger] updates@[i]) == x by {
            if groups.contains(x) {
                let i = choose|i: int| 0 <= i < groups.len() && groups[i] == x;
                lemma_pos(entries, i);
                assert(grp.map().dom().contains(x));
                assert(occurs(all, x));
                let k = choose|k: int| 0 <= k < all.len() && (#[trigger] all[k]).id() == x;
                assert(group_of(updates@[k]) == x);
            }
            if exists|i: int| 0 <= i < updates@.len() && group_of(#[trigger] updates@[i]) == x {
                let i = choose|i: int|
                    0 <= i < updates@.len() && group_of(#[trigger] updates@[i]) == x;
                assert(all[i].id() == x);
                assert(occurs(all, x));
                assert(grp.map().dom().contains(x));
                let k = crate::ordered::key_pos(entries, x);
                assert(groups[k] == x);
            }
        }
        assert(groups_in_order(updates@, groups));
    }
    files
}

/// The summed number of rows.
pub open spec fn total_rows(files: Seq<FeatureFile>) -> nat
    decreases files.len(),
{
    if files.len() == 0 {
        0
    } else {
        total_rows(files.drop_last()) + files.last().rows@.len()
    }
}

/// The names of the files' features.
pub open spec fn feature_names(files: Seq<FeatureFile>) -> Seq<Seq<char>> {
    Seq::new(files.len(), |i: int| files[i].feature@)
}

/// What a run comes to.
pub fn materialize_stats(
    files: &Vec<FeatureFile>,
    events_read: u64,
    updates: u64,
    nan_suppressed: u64,
    symbols: usize,
    symbols_hash: &str,
) -> (s: MaterializeStats)
    requires
        total_rows(files@) <= u64::MAX,
    ensures
        s.events_read == events_read,
        s.updates == updates,
        s.nan_suppressed == nan_suppressed,
        s.rows_written == total_rows(files@),
        s.files_written == files@.len(),
        canonical(feature_names(files@), views(s.features@)),
        s.symbols == symbols,
        s.symbols_hash@ == symbols_hash@,
{
    let mut names: Vec<String> = Vec::new();
    let mut rows: u64 = 0;
    let mut i: usize = 0;
    assert(files@.take(0).len() == 0);
    while i < files.len()
        invariant
            i <= files@.len(),
            total_rows(files@) <= u64::MAX,
            rows == total_rows(files@.take(i as int)),
            names@.len() == i,
            forall|k: int| 0 <= k < i ==> (#[trigger] names@[k])@ == files@[k].feature@,
        decreases files@.len() - i,
    {
        proof {
            assert(files@.take(i + 1).drop_last() =~= files@.take(i as int));
            lemma_total_rows(files@, i + 1);
        }
        names.push(files[i].feature.clone());
        rows = rows + files[i].rows.len() as u64;
        i = i + 1;
    }
    assert(files@.take(i as int) =~= files@);
    assert(views(names@) =~= feature_names(files@));
    MaterializeStats {
        events_read,
        updates,
        rows_written: rows,
        files_written: files.len() as u64,
        nan_suppressed,
        features: canonical_texts(&names),
        symbols,
        symbols_hash: symbols_hash.to_owned(),
    }
}

proof fn lemma_total_rows(files: Seq<FeatureFile>, k: int)
    requires
        0 <= k <= files.len(),
    ensures
        total_rows(files.take(k)) <= total_rows(files),
    decreases files.len(),
{
    if k < files.len() {
        assert(files.drop_last().take(k) =~= files.take(k));
        lemma_total_rows(files.drop_last(), k);
    } else {
        assert(files.take(k) =~= files);
    }
}

/// The size of a corpus is that of all its logs.
pub proof fn law_total_size(a: Seq<u64>, b: Seq<u64>)
    ensures
        total_size(a + b) == total_size(a) + total_size(b),
        a.len() == 1 ==> total_size(a) == a[0],
        a.len() == 0 ==> total_size(a) == 0,
    decreases b.len(),
{
    if a.len() == 1 {
        assert(a.drop_last().len() == 0);
        assert(total_size(a.drop_last()) == 0);
    }
    if b.len() == 0 {
        assert(a + b =~= a);
    } else {
        law_total_size(a, b.drop_last());
        assert((a + b).drop_last() =~= a + b.drop_last());
    }
}

/// The cap is as given, and sixteen gibibytes where none is.
pub proof fn law_size_cap(n: u64)
    ensures
        cap_of(Some(n)) == n,
        cap_of(None) == 16 * 1024 * 1024 * 1024,
{
}

/// A symbol has the number of its first place in the table. A new one goes to
/// the end, a known one changes nothing.
pub proof fn law_symbol_numbers(t: Seq<SymbolKey>, k: SymbolKey, i: int)
    ensures
        0 <= i < t.len() && t[i] == k && (forall|j: int| 0 <= j < i ==> #[trigger] t[j] != k)
            ==> symbol_pos(t, k) == i,
        t.contains(k) ==> interned(t, k) == t,
        !t.contains(k) ==> symbol_pos(t, k) == t.len() && interned(t, k) == t.push(k),
    decreases t.len(),
{
    if t.len() > 0 && t[0] != k {
        let s = t.skip(1);
        assert(forall|j: int| 0 <= j < s.len() ==> s[j] == t[j + 1]);
        law_symbol_numbers(s, k, i - 1);
        if t.contains(k) {
            let x = t.index_of(k);
            assert(s[x - 1] == k);
        }
        if s.contains(k) {
            let x = s.index_of(k);
            assert(t[x + 1] == k);
        }
        lemma_pos_bounded(s, k);
    } else if t.len() > 0 {
        assert(t.contains(k));
    }
}

proof fn lemma_pos_bounded(t: Seq<SymbolKey>, k: SymbolKey)
    ensures
        0 <= symbol_pos(t, k) <= t.len(),
        symbol_pos(t, k) < t.len() <==> t.contains(k),
    decreases t.len(),
{
    if t.len() > 0 && t[0] != k {
        let s = t.skip(1);
        lemma_pos_bounded(s, k);
        if t.contains(k) {
            let x = t.index_of(k);
            assert(s[x - 1] == k);
        }
        if s.contains(k) {
            let x = s.index_of(k);
            assert(t[x + 1] == k);
        }
    } else if t.len() > 0 {
        assert(t[0] == k);
    }
}

/// A log is refused for the first of its symbols that its header does not
/// have.
pub proof fn law_first_unknown(metas: Seq<SymbolMeta>, ids: Seq<u32>, i: int)
    ensures
        0 <= i < ids.len() && ids[i] >= metas.len() && (forall|k: int|
            0 <= k < i ==> #[trigger] ids[k] < metas.len()) ==> first_unknown(metas, ids) == Some(
            ids[i],
        ),
        (forall|k: int| 0 <= k < ids.len() ==> #[trigger] ids[k] < metas.len()) ==> first_unknown(
            metas,
            ids,
        ) is None,
    decreases ids.len(),
{
    if ids.len() > 0 {
        let t = ids.drop_last();
        let n = ids.len() - 1;
        assert(forall|k: int| 0 <= k < t.len() ==> t[k] == ids[k]);
        assert(ids[n] == ids.last());
        law_first_unknown(metas, t, i);
        if i == n && (forall|k: int| 0 <= k < i ==> #[trigger] ids[k] < metas.len()) {
            assert forall|k: int| 0 <= k < t.len() implies #[trigger] t[k] < metas.len() by {
                assert(t[k] == ids[k]);
            }
        }
    }
}

/// Logs are merged by time received, then by sequence number, then by the
/// order of the logs and of the events in each.
pub proof fn law_merge_order(sources: Seq<Vec<(i64, u64)>>, a: Place, b: Place)
    ensures
        sources[a.0 as int]@[a.1 as int].0 < sources[b.0 as int]@[b.1 as int].0 ==> merges_before(
            sources,
            a,
            b,
        ) && !merges_before(sources, b, a),
        sources[a.0 as int]@[a.1 as int].0 == sources[b.0 as int]@[b.1 as int].0
            && sources[a.0 as int]@[a.1 as int].1 < sources[b.0 as int]@[b.1 as int].1
            ==> merges_before(sources, a, b) && !merges_before(sources, b, a),
        sources[a.0 as int]@[a.1 as int] == sources[b.0 as int]@[b.1 as int] && a.0 < b.0
            ==> merges_before(sources, a, b) && !merges_before(sources, b, a),
        sources[a.0 as int]@[a.1 as int] == sources[b.0 as int]@[b.1 as int] && a.0 == b.0 && a.1
            < b.1 ==> merges_before(sources, a, b) && !merges_before(sources, b, a),
{
}

/// A group has a row for each update of its feature, venue, symbol and
/// version, in order, and for no other.
pub proof fn law_group_rows(updates: Seq<FeatureUpdate>, g: GroupId)
    ensures
        ({
            let own = updates.filter(
                |u: FeatureUpdate|
                    u.name@ == g.0.0 && code_of(u.venue) == g.0.1 && u.symbol == g.1.0 && u.ver
                        == g.1.1,
            );
            let rows = group_rows(updates, g);
            &&& rows.len() == own.len()
            &&& forall|i: int|
                0 <= i < own.len() ==> {
                    &&& (#[trigger] rows[i]).symbol_id == own[i].symbol
                    &&& rows[i].ts_ns == own[i].ts_ns
                    &&& rows[i].value == own[i].value
                    &&& rows[i].ver == own[i].ver
                    &&& rows[i].venue_code + 1 == code_of(own[i].venue)
                }
        }),
    decreases updates.len(),
{
    reveal(Seq::filter);
    if updates.len() > 0 {
        law_group_rows(updates.drop_last(), g);
    }
}

/// The rows of all files together.
pub proof fn law_total_rows(a: Seq<FeatureFile>, b: Seq<FeatureFile>)
    ensures
        total_rows(a + b) == total_rows(a) + total_rows(b),
        a.len() == 1 ==> total_rows(a) == a[0].rows@.len(),
        a.len() == 0 ==> total_rows(a) == 0,
    decreases b.len(),
{
    if a.len() == 1 {
        assert(a.drop_last().len() == 0);
        assert(total_rows(a.drop_last()) == 0);
    }
    if b.len() == 0 {
        assert(a + b =~= a);
    } else {
        law_total_rows(a, b.drop_last());
        assert((a + b).drop_last() =~= a + b.drop_last());
    }
}

/// Rows are put in order of time, then of the bits of their value, then of
/// their version.
pub proof fn law_rows_by_key(
    rows: Seq<FeatureRow>,
    sorted: Seq<FeatureRow>,
    order: Seq<usize>,
    i: int,
    j: int,
)
    requires
        key_sorted_by(rows, sorted, order),
        0 <= i < j < sorted.len(),
    ensures
        sorted[i].ts_ns <= sorted[j].ts_ns,
        sorted[i].ts_ns == sorted[j].ts_ns ==> sorted[i].value.bits <= sorted[j].value.bits,
        sorted[i].ts_ns == sorted[j].ts_ns && sorted[i].value.bits == sorted[j].value.bits
            ==> sorted[i].ver <= sorted[j].ver,
{
}

/// Two spellings of a path are one path where they have the same parts and
/// both start at the root or neither does; a doubled separator and a dot in
/// between make no difference.
pub proof fn law_same_path(a: Seq<char>, b: Seq<char>)
    ensures
        same_path(a, a),
        same_path(a, b) ==> same_path(b, a),
        same_path(a, b) <==> counted_parts(split_on(a, '/')) == counted_parts(split_on(b, '/')) && (
        (a.len() > 0 && a[0] == '/') <==> (b.len() > 0 && b[0] == '/')),
{
}

/// An empty part counts for nothing, nor does a dot behind another part;
/// every other part counts.
pub proof fn law_counted_parts(pieces: Seq<Seq<char>>, x: Seq<char>)
    ensures
        x.len() == 0 ==> counted_parts(pieces.push(x)) == counted_parts(pieces),
        x == "."@ && pieces.len() > 0 ==> counted_parts(pieces.push(x)) == counted_parts(pieces),
        x.len() > 0 && x != "."@ ==> counted_parts(pieces.push(x)) == counted_parts(pieces).push(x),
{
    assert(pieces.push(x).drop_last() =~= pieces);
}

} // verus!
