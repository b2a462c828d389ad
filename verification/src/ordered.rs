//! A map kept as a list sorted by key, for keys with a strict total order.
use vstd::prelude::*;
use crate::text::{before, lemma_before_total, lemma_before_transitive, text_before};

verus! {

/// Keys with a strict total order on what they stand for.
pub trait Key: Sized {
    /// What a key stands for.
    type Id;

    spec fn id(&self) -> Self::Id;

    spec fn precedes(a: Self::Id, b: Self::Id) -> bool;

    proof fn order(a: Self::Id, b: Self::Id)
        ensures
            Self::precedes(a, b) || Self::precedes(b, a) || a == b,
            Self::precedes(a, b) ==> !Self::precedes(b, a) && a != b,
    ;

    proof fn chain(a: Self::Id, b: Self::Id, c: Self::Id)
        requires
            Self::precedes(a, b),
            Self::precedes(b, c),
        ensures
            Self::precedes(a, c),
    ;

    fn less(&self, other: &Self) -> (r: bool)
        ensures
            r == Self::precedes(self.id(), other.id()),
    ;
}

impl Key for String {
    type Id = Seq<char>;

    open spec fn id(&self) -> Seq<char> {
        self@
    }

    open spec fn precedes(a: Seq<char>, b: Seq<char>) -> bool {
        before(a, b)
    }

    proof fn order(a: Seq<char>, b: Seq<char>) {
        lemma_before_total(a, b);
    }

    proof fn chain(a: Seq<char>, b: Seq<char>, c: Seq<char>) {
        lemma_before_transitive(a, b, c);
    }

    fn less(&self, other: &Self) -> (r: bool) {
        text_before(self.as_str(), other.as_str())
    }
}

impl Key for u32 {
    type Id = u32;

    open spec fn id(&self) -> u32 {
        *self
    }

    open spec fn precedes(a: u32, b: u32) -> bool {
        a < b
    }

    proof fn order(a: u32, b: u32) {
    }

    proof fn chain(a: u32, b: u32, c: u32) {
    }

    fn less(&self, other: &Self) -> (r: bool) {
        *self < *other
    }
}

impl Key for i64 {
    type Id = i64;

    open spec fn id(&self) -> i64 {
        *self
    }

    open spec fn precedes(a: i64, b: i64) -> bool {
        a < b
    }

    proof fn order(a: i64, b: i64) {
    }

    proof fn chain(a: i64, b: i64, c: i64) {
    }

    fn less(&self, other: &Self) -> (r: bool) {
        *self < *other
    }
}

impl Key for u64 {
    type Id = u64;

    open spec fn id(&self) -> u64 {
        *self
    }

    open spec fn precedes(a: u64, b: u64) -> bool {
        a < b
    }

    proof fn order(a: u64, b: u64) {
    }

    proof fn chain(a: u64, b: u64, c: u64) {
    }

    fn less(&self, other: &Self) -> (r: bool) {
        *self < *other
    }
}

impl Key for u128 {
    type Id = u128;

    open spec fn id(&self) -> u128 {
        *self
    }

    open spec fn precedes(a: u128, b: u128) -> bool {
        a < b
    }

    proof fn order(a: u128, b: u128) {
    }

    proof fn chain(a: u128, b: u128, c: u128) {
    }

    fn less(&self, other: &Self) -> (r: bool) {
        *self < *other
    }
}

/// A pair ordered by its first part, then by its second.
#[derive(Debug)]
pub struct Pair<A, B> {
    pub a: A,
    pub b: B,
}

impl<A: Key, B: Key> Key for Pair<A, B> {
    type Id = (A::Id, B::Id);

    open spec fn id(&self) -> (A::Id, B::Id) {
        (self.a.id(), self.b.id())
    }

    open spec fn precedes(x: (A::Id, B::Id), y: (A::Id, B::Id)) -> bool {
        A::precedes(x.0, y.0) || (x.0 == y.0 && B::precedes(x.1, y.1))
    }

    proof fn order(x: (A::Id, B::Id), y: (A::Id, B::Id)) {
        A::order(x.0, y.0);
        A::order(y.0, x.0);
        B::order(x.1, y.1);
        B::order(y.1, x.1);
    }

    proof fn chain(x: (A::Id, B::Id), y: (A::Id, B::Id), z: (A::Id, B::Id)) {
        A::order(x.0, y.0);
        A::order(y.0, z.0);
        if A::precedes(x.0, y.0) && A::precedes(y.0, z.0) {
            A::chain(x.0, y.0, z.0);
        } else if x.0 == y.0 && y.0 == z.0 {
            B::chain(x.1, y.1, z.1);
        }
    }

    fn less(&self, other: &Self) -> (r: bool) {
        proof {
            A::order(self.a.id(), other.a.id());
            A::order(other.a.id(), self.a.id());
        }
        if self.a.less(&other.a) {
            true
        } else if other.a.less(&self.a) {
            false
        } else {
            self.b.less(&other.b)
        }
    }
}

/// A map as a list of entries with strictly increasing keys.
#[derive(Debug)]
pub struct SortedMap<K, V> {
    pub entries: Vec<(K, V)>,
}

/// Keys strictly increase along `s`.
pub open spec fn increasing<K: Key, V>(s: Seq<(K, V)>) -> bool {
    forall|i: int, j: int|
        0 <= i < j < s.len() ==> K::precedes(#[trigger] s[i].0.id(), #[trigger] s[j].0.id())
}

/// Whether `s` has an entry for `k`.
pub open spec fn has_key<K: Key, V>(s: Seq<(K, V)>, k: K::Id) -> bool {
    exists|i: int| 0 <= i < s.len() && (#[trigger] s[i]).0.id() == k
}

/// The position of the entry for `k` in `s`.
pub open spec fn key_pos<K: Key, V>(s: Seq<(K, V)>, k: K::Id) -> int {
    choose|i: int| 0 <= i < s.len() && (#[trigger] s[i]).0.id() == k
}

/// What `s` maps its keys to.
pub open spec fn contents<K: Key, V>(s: Seq<(K, V)>) -> Map<K::Id, V> {
    Map::new(|k: K::Id| has_key(s, k), |k: K::Id| s[key_pos(s, k)].1)
}

/// Entries with increasing keys: each key has one position.
pub proof fn lemma_pos<K: Key, V>(s: Seq<(K, V)>, i: int)
    requires
        increasing(s),
        0 <= i < s.len(),
    ensures
        has_key(s, s[i].0.id()),
        key_pos(s, s[i].0.id()) == i,
        contents(s).dom().contains(s[i].0.id()),
        contents(s)[s[i].0.id()] == s[i].1,
{
    let k = s[i].0.id();
    assert(s[i].0.id() == k);
    let j = key_pos(s, k);
    assert(0 <= j < s.len() && s[j].0.id() == k);
    K::order(k, k);
    if i < j {
        assert(K::precedes(s[i].0.id(), s[j].0.id()));
    }
    if j < i {
        assert(K::precedes(s[j].0.id(), s[i].0.id()));
    }
}

impl<K: Key, V> SortedMap<K, V> {
    pub open spec fn wf(&self) -> bool {
        increasing(self.entries@)
    }

    /// The map that the entries stand for.
    pub open spec fn map(&self) -> Map<K::Id, V> {
        contents(self.entries@)
    }

    /// An empty map.
    pub fn new() -> (m: Self)
        ensures
            m.wf(),
            m.map() == Map::<K::Id, V>::empty(),
            m.entries@.len() == 0,
    {
        let m = SortedMap { entries: Vec::new() };
        assert(m.map() =~= Map::<K::Id, V>::empty());
        m
    }

    /// Number of keys.
    pub fn len(&self) -> (n: usize)
        ensures
            n == self.entries@.len(),
    {
        self.entries.len()
    }

    /// Where `k` stands, or where it would be put in.
    pub fn find(&self, k: &K) -> (r: Result<usize, usize>)
        requires
            self.wf(),
        ensures
            match r {
                Ok(i) => i < self.entries@.len() && self.entries@[i as int].0.id() == k.id()
                    && self.map().dom().contains(k.id()) && self.map()[k.id()]
                    == self.entries@[i as int].1,
                Err(i) => i <= self.entries@.len() && !self.map().dom().contains(k.id()) && (forall|
                    j: int,
                |
                    0 <= j < i ==> K::precedes(#[trigger] self.entries@[j].0.id(), k.id())) && (
                forall|j: int|
                    i <= j < self.entries@.len() ==> K::precedes(
                        k.id(),
                        #[trigger] self.entries@[j].0.id(),
                    )),
            },
    {
        let mut i: usize = 0;
        while i < self.entries.len()
            invariant
                self.wf(),
                i <= self.entries@.len(),
                forall|j: int|
                    0 <= j < i ==> K::precedes(#[trigger] self.entries@[j].0.id(), k.id()),
            decreases self.entries@.len() - i,
        {
            let ghost e = self.entries@[i as int].0.id();
            proof {
                K::order(e, k.id());
                K::order(k.id(), e);
            }
            if self.entries[i].0.less(k) {
                i = i + 1;
            } else if k.less(&self.entries[i].0) {
                proof {
                    assert forall|j: int| i <= j < self.entries@.len() implies K::precedes(
                        k.id(),
                        #[trigger] self.entries@[j].0.id(),
                    ) by {
                        if j > i {
                            K::chain(k.id(), e, self.entries@[j].0.id());
                        }
                    }
                    self.lemma_absent(i as int, k.id());
                }
                return Err(i);
            } else {
                proof {
                    lemma_pos(self.entries@, i as int);
                }
                return Ok(i);
            }
        }
        proof {
            self.lemma_absent(i as int, k.id());
        }
        Err(i)
    }

    proof fn lemma_absent(&self, i: int, k: K::Id)
        requires
            0 <= i <= self.entries@.len(),
            forall|j: int| 0 <= j < i ==> K::precedes(#[trigger] self.entries@[j].0.id(), k),
            forall|j: int|
                i <= j < self.entries@.len() ==> K::precedes(k, #[trigger] self.entries@[j].0.id()),
        ensures
            !self.map().dom().contains(k),
    {
        if has_key(self.entries@, k) {
            let j = key_pos(self.entries@, k);
            K::order(k, k);
            if j < i {
                assert(K::precedes(self.entries@[j].0.id(), k));
            } else {
                assert(K::precedes(k, self.entries@[j].0.id()));
            }
        }
    }

    /// Whether `k` has an entry.
    pub fn contains(&self, k: &K) -> (r: bool)
        requires
            self.wf(),
        ensures
            r == self.map().dom().contains(k.id()),
    {
        match self.find(k) {
            Ok(_) => true,
            Err(_) => false,
        }
    }

    /// The value for `k`, if there is one.
    pub fn get(&self, k: &K) -> (r: Option<&V>)
        requires
            self.wf(),
        ensures
            match r {
                Some(v) => self.map().dom().contains(k.id()) && *v == self.map()[k.id()],
                None => !self.map().dom().contains(k.id()),
            },
    {
        match self.find(k) {
            Ok(i) => Some(&self.entries[i].1),
            Err(_) => None,
        }
    }

    /// Puts `v` at the free place `i` of the key `k`.
    pub fn put_at(&mut self, i: usize, k: K, v: V)
        requires
            old(self).wf(),
            i <= old(self).entries@.len(),
            forall|j: int|
                0 <= j < i ==> K::precedes(#[trigger] old(self).entries@[j].0.id(), k.id()),
            forall|j: int|
                i <= j < old(self).entries@.len() ==> K::precedes(
                    k.id(),
                    #[trigger] old(self).entries@[j].0.id(),
                ),
        ensures
            final(self).wf(),
            final(self).entries@ == old(self).entries@.insert(i as int, (k, v)),
            final(self).map() == old(self).map().insert(k.id(), v),
    {
        let ghost s = self.entries@;
        let ghost t = s.insert(i as int, (k, v));
        proof {
            self.lemma_absent(i as int, k.id());
        }
        self.entries.insert(i, (k, v));
        proof {
            assert(self.entries@ == t);
            assert forall|a: int, b: int| 0 <= a < b < t.len() implies K::precedes(
                #[trigger] t[a].0.id(),
                #[trigger] t[b].0.id(),
            ) by {
                let a0 = if a < i {
                    a
                } else {
                    a - 1
                };
                let b0 = if b < i {
                    b
                } else {
                    b - 1
                };
                if a != i {
                    assert(t[a] == s[a0]);
                }
                if b != i {
                    assert(t[b] == s[b0]);
                }
                if a != i && b != i {
                    assert(K::precedes(s[a0].0.id(), s[b0].0.id()));
                }
            }
            lemma_contents_insert(s, i as int, (k, v));
        }
    }

    /// Maps `k` to `v`, in place of what it was mapped to before.
    pub fn set(&mut self, k: K, v: V)
        requires
            old(self).wf(),
        ensures
            final(self).wf(),
            final(self).map() == old(self).map().insert(k.id(), v),
    {
        match self.find(&k) {
            Ok(i) => {
                self.replace_at(i, k, v);
            },
            Err(i) => {
                self.put_at(i, k, v);
            },
        }
    }

    /// Gives the entry at `i` the value `v` under an equal key.
    pub fn replace_at(&mut self, i: usize, k: K, v: V)
        requires
            old(self).wf(),
            i < old(self).entries@.len(),
            old(self).entries@[i as int].0.id() == k.id(),
        ensures
            final(self).wf(),
            final(self).entries@ == old(self).entries@.update(i as int, (k, v)),
            final(self).map() == old(self).map().insert(k.id(), v),
    {
        let ghost s = self.entries@;
        let ghost t = s.update(i as int, (k, v));
        self.entries.set(i, (k, v));
        proof {
            assert(self.entries@ == t);
            lemma_contents_update(s, i as int, (k, v));
        }
    }

    /// Takes the entry at `i` out.
    pub fn remove_at(&mut self, i: usize) -> (e: (K, V))
        requires
            old(self).wf(),
            i < old(self).entries@.len(),
        ensures
            final(self).wf(),
            e == old(self).entries@[i as int],
            final(self).entries@ == old(self).entries@.remove(i as int),
            final(self).map() == old(self).map().remove(e.0.id()),
    {
        let ghost s = self.entries@;
        let ghost t = s.remove(i as int);
        let e = self.entries.remove(i);
        proof {
            assert(self.entries@ == t);
            assert forall|a: int, b: int| 0 <= a < b < t.len() implies K::precedes(
                #[trigger] t[a].0.id(),
                #[trigger] t[b].0.id(),
            ) by {
                let a0 = if a < i {
                    a
                } else {
                    a + 1
                };
                let b0 = if b < i {
                    b
                } else {
                    b + 1
                };
                assert(t[a] == s[a0] && t[b] == s[b0]);
                assert(K::precedes(s[a0].0.id(), s[b0].0.id()));
            }
            lemma_contents_remove(s, i as int);
        }
        e
    }
}

// ---------------------------------------------------------------------------
// Stable sorting
// ---------------------------------------------------------------------------

/// Whether position `a` comes before position `b` when the positions of
/// `keys` are sorted by key, equal keys keeping their order.
pub open spec fn comes_first<K: Key>(keys: Seq<K>, a: int, b: int) -> bool {
    K::precedes(keys[a].id(), keys[b].id()) || (keys[a].id() == keys[b].id() && a < b)
}

/// `order` lists the positions of `keys` sorted by key, equal keys keeping
/// their order.
pub open spec fn stably_sorted<K: Key>(keys: Seq<K>, order: Seq<usize>) -> bool {
    &&& order.len() == keys.len()
    &&& forall|i: int| 0 <= i < order.len() ==> (#[trigger] order[i]) < keys.len()
    &&& forall|i: int, j: int|
        0 <= i < j < order.len() ==> comes_first(
            keys,
            #[trigger] order[i] as int,
            #[trigger] order[j] as int,
        )
    &&& forall|p: int| 0 <= p < keys.len() ==> #[trigger] listed(order, p)
}

/// Whether `order` holds the position `p`.
pub open spec fn listed(order: Seq<usize>, p: int) -> bool {
    exists|i: int| 0 <= i < order.len() && #[trigger] order[i] == p
}

proof fn lemma_comes_first_chain<K: Key>(keys: Seq<K>, a: int, b: int, c: int)
    requires
        comes_first(keys, a, b),
        comes_first(keys, b, c),
    ensures
        comes_first(keys, a, c),
{
    if K::precedes(keys[a].id(), keys[b].id()) && K::precedes(keys[b].id(), keys[c].id()) {
        K::chain(keys[a].id(), keys[b].id(), keys[c].id());
    }
}

/// `order` lists the positions `lo..hi` of `keys` sorted by key, equal keys
/// keeping their order.
spec fn sorted_part<K: Key>(keys: Seq<K>, order: Seq<usize>, lo: int, hi: int) -> bool {
    &&& order.len() == hi - lo
    &&& forall|i: int| 0 <= i < order.len() ==> lo <= (#[trigger] order[i]) < hi
    &&& forall|i: int, j: int|
        0 <= i < j < order.len() ==> comes_first(
            keys,
            #[trigger] order[i] as int,
            #[trigger] order[j] as int,
        )
    &&& forall|p: int| lo <= p < hi ==> #[trigger] listed(order, p)
}

/// The sorted positions of two neighbouring parts, put together.
fn merge_parts<K: Key>(keys: &Vec<K>, a: &Vec<usize>, b: &Vec<usize>, Ghost(lo): Ghost<int>, Ghost(
    mid,
): Ghost<int>, Ghost(hi): Ghost<int>) -> (order: Vec<usize>)
    requires
        0 <= lo <= mid <= hi <= keys@.len(),
        hi <= usize::MAX,
        sorted_part(keys@, a@, lo, mid),
        sorted_part(keys@, b@, mid, hi),
    ensures
        sorted_part(keys@, order@, lo, hi),
{
    let ghost s = keys@;
    let mut order: Vec<usize> = Vec::new();
    let mut i: usize = 0;
    let mut j: usize = 0;
    while i < a.len() || j < b.len()
        invariant
            s == keys@,
            0 <= lo <= mid <= hi <= s.len(),
            sorted_part(s, a@, lo, mid),
            sorted_part(s, b@, mid, hi),
            i <= a@.len(),
            j <= b@.len(),
            order@.len() == i + j,
            forall|k: int| 0 <= k < order@.len() ==> lo <= (#[trigger] order@[k]) < hi,
            forall|x: int, y: int|
                0 <= x < y < order@.len() ==> comes_first(
                    s,
                    #[trigger] order@[x] as int,
                    #[trigger] order@[y] as int,
                ),
            forall|x: int, y: int|
                0 <= x < order@.len() && i <= y < a@.len() ==> comes_first(
                    s,
                    #[trigger] order@[x] as int,
                    #[trigger] a@[y] as int,
                ),
            forall|x: int, y: int|
                0 <= x < order@.len() && j <= y < b@.len() ==> comes_first(
                    s,
                    #[trigger] order@[x] as int,
                    #[trigger] b@[y] as int,
                ),
            forall|k: int| 0 <= k < i ==> listed(order@, #[trigger] a@[k] as int),
            forall|k: int| 0 <= k < j ==> listed(order@, #[trigger] b@[k] as int),
        decreases a@.len() - i + b@.len() - j,
    {
        let ghost o0 = order@;
        let take_b = j < b.len() && (i >= a.len() || keys[b[j]].less(&keys[a[i]]));
        if take_b {
            let p: usize = b[j];
            proof {
                assert forall|y: int| i <= y < a@.len() implies comes_first(
                    s,
                    p as int,
                    #[trigger] a@[y] as int,
                ) by {
                    if y > i {
                        assert(comes_first(s, a@[i as int] as int, a@[y] as int));
                        lemma_comes_first_chain(
                            s,
                            p as int,
                            a@[i as int] as int,
                            a@[y] as int,
                        );
                    }
                }
            }
            order.push(p);
            j = j + 1;
        } else {
            let p: usize = a[i];
            proof {
                assert forall|y: int| j <= y < b@.len() implies comes_first(
                    s,
                    p as int,
                    #[trigger] b@[y] as int,
                ) by {
                    K::order(s[p as int].id(), s[b@[j as int] as int].id());
                    K::order(s[b@[j as int] as int].id(), s[p as int].id());
                    assert(comes_first(s, p as int, b@[j as int] as int));
                    if y > j {
                        lemma_comes_first_chain(
                            s,
                            p as int,
                            b@[j as int] as int,
                            b@[y] as int,
                        );
                    }
                }
            }
            order.push(p);
            i = i + 1;
        }
        proof {
            assert forall|q: int| #[trigger] listed(o0, q) implies listed(order@, q) by {
                let k = choose|k: int| 0 <= k < o0.len() && #[trigger] o0[k] == q;
                assert(order@[k] == q);
            }
            assert(listed(order@, order@[o0.len() as int] as int));
            assert forall|k: int| 0 <= k < i implies listed(order@, #[trigger] a@[k] as int) by {
                if take_b || k < i - 1 {
                    assert(listed(o0, a@[k] as int));
                }
            }
            assert forall|k: int| 0 <= k < j implies listed(order@, #[trigger] b@[k] as int) by {
                if !take_b || k < j - 1 {
                    assert(listed(o0, b@[k] as int));
                }
            }
        }
    }
    proof {
        assert forall|p: int| lo <= p < hi implies #[trigger] listed(order@, p) by {
            if p < mid {
                assert(listed(a@, p));
                let k = choose|k: int| 0 <= k < a@.len() && #[trigger] a@[k] == p;
                assert(listed(order@, a@[k] as int));
            } else {
                assert(listed(b@, p));
                let k = choose|k: int| 0 <= k < b@.len() && #[trigger] b@[k] == p;
                assert(listed(order@, b@[k] as int));
            }
        }
    }
    order
}

/// The positions `lo..hi` of `keys` sorted by key.
fn sort_part<K: Key>(keys: &Vec<K>, lo: usize, hi: usize) -> (order: Vec<usize>)
    requires
        lo <= hi <= keys@.len(),
    ensures
        sorted_part(keys@, order@, lo as int, hi as int),
    decreases hi - lo,
{
    let mut order: Vec<usize> = Vec::new();
    if hi - lo == 1 {
        order.push(lo);
        assert(order@[0] == lo);
    } else if hi - lo > 1 {
        let mid: usize = lo + (hi - lo) / 2;
        let a = sort_part(keys, lo, mid);
        let b = sort_part(keys, mid, hi);
        return merge_parts(
            keys,
            &a,
            &b,
            Ghost(lo as int),
            Ghost(mid as int),
            Ghost(hi as int),
        );
    }
    order
}

/// The positions of `keys` sorted by key, equal keys keeping their order.
pub fn sort_order<K: Key>(keys: &Vec<K>) -> (order: Vec<usize>)
    ensures
        stably_sorted(keys@, order@),
{
    let order = sort_part(keys, 0, keys.len());
    assert forall|p: int| 0 <= p < keys@.len() implies #[trigger] listed(order@, p) by {}
    order
}

// ---------------------------------------------------------------------------
// Grouping
// ---------------------------------------------------------------------------

/// The positions at which `keys` holds the key `k`, in order.
pub open spec fn positions<K: Key>(keys: Seq<K>, k: K::Id) -> Seq<usize>
    decreases keys.len(),
{
    if keys.len() == 0 {
        Seq::empty()
    } else if keys.last().id() == k {
        positions(keys.drop_last(), k).push((keys.len() - 1) as usize)
    } else {
        positions(keys.drop_last(), k)
    }
}

/// Whether `k` is among `keys`.
pub open spec fn occurs<K: Key>(keys: Seq<K>, k: K::Id) -> bool {
    exists|i: int| 0 <= i < keys.len() && (#[trigger] keys[i]).id() == k
}

/// `groups` maps each key of `keys` to the positions at which it stands.
pub open spec fn grouped<K: Key>(keys: Seq<K>, groups: SortedMap<K, Vec<usize>>) -> bool {
    &&& groups.wf()
    &&& forall|k: K::Id| #[trigger] groups.map().dom().contains(k) <==> occurs(keys, k)
    &&& forall|k: K::Id|
        groups.map().dom().contains(k) ==> (#[trigger] groups.map()[k])@ == positions(keys, k)
}

/// Positions are in range and ascend.
pub proof fn lemma_positions<K: Key>(keys: Seq<K>, k: K::Id)
    requires
        keys.len() <= usize::MAX,
    ensures
        forall|i: int|
            0 <= i < positions(keys, k).len() ==> (#[trigger] positions(keys, k)[i]) < keys.len()
                && keys[positions(keys, k)[i] as int].id() == k,
        forall|i: int, j: int|
            0 <= i < j < positions(keys, k).len() ==> positions(keys, k)[i] < positions(keys, k)[j],
        occurs(keys, k) ==> positions(keys, k).len() > 0,
    decreases keys.len(),
{
    if keys.len() > 0 {
        lemma_positions(keys.drop_last(), k);
        if occurs(keys, k) && keys.last().id() != k {
            let i = choose|i: int| 0 <= i < keys.len() && (#[trigger] keys[i]).id() == k;
            assert(keys.drop_last()[i].id() == k);
        }
        assert forall|i: int| 0 <= i < positions(keys, k).len() implies (#[trigger] positions(
            keys,
            k,
        )[i]) < keys.len() && keys[positions(keys, k)[i] as int].id() == k by {
            let before = positions(keys.drop_last(), k);
            if i < before.len() {
                assert(positions(keys, k)[i] == before[i]);
                assert(keys.drop_last()[before[i] as int] == keys[before[i] as int]);
            }
        }
        assert forall|i: int, j: int| 0 <= i < j < positions(keys, k).len() implies positions(
            keys,
            k,
        )[i] < positions(keys, k)[j] by {
            let before = positions(keys.drop_last(), k);
            assert(positions(keys, k)[i] == before[i]);
            if j < before.len() {
                assert(positions(keys, k)[j] == before[j]);
            }
        }
    }
}

/// The positions of each key among `keys`, keys in order.
pub fn group_positions<K: Key>(keys: Vec<K>) -> (groups: SortedMap<K, Vec<usize>>)
    ensures
        grouped(keys@, groups),
{
    let ghost all = keys@;
    let total: usize = keys.len();
    let mut groups: SortedMap<K, Vec<usize>> = SortedMap::new();
    let mut n: usize = 0;
    for key in it: keys
        invariant
            it.seq() == all,
            n == it.index(),
            grouped(all.take(n as int), groups),
            all.len() == total,
    {
        let ghost k0 = key.id();
        let ghost m0 = groups.map();
        let ghost prefix = all.take(n as int);
        let ghost next = all.take(n + 1);
        assert(next.drop_last() =~= prefix);
        assert(next.last() == key);
        match groups.find(&key) {
            Ok(i) => {
                let (k, mut list) = groups.remove_at(i);
                list.push(n);
                let ghost gone = groups.map();
                assert(gone =~= m0.remove(k0));
                assert(list@ == positions(next, k0));
                groups.set(k, list);
                assert(groups.map() =~= m0.insert(k0, list));
            },
            Err(i) => {
                let mut list: Vec<usize> = Vec::new();
                list.push(n);
                proof {
                    lemma_positions_absent(prefix, k0);
                    assert(list@ =~= positions(next, k0));
                }
                groups.put_at(i, key, list);
            },
        }
        proof {
            assert forall|k: K::Id| #[trigger] groups.map().dom().contains(k) <==> occurs(
                next,
                k,
            ) by {
                if occurs(next, k) {
                    let i = choose|i: int| 0 <= i < next.len() && (#[trigger] next[i]).id() == k;
                    if i < prefix.len() {
                        assert(prefix[i].id() == k);
                        assert(occurs(prefix, k));
                        assert(m0.dom().contains(k));
                    }
                }
                if m0.dom().contains(k) {
                    assert(occurs(prefix, k));
                    let i = choose|i: int|
                        0 <= i < prefix.len() && (#[trigger] prefix[i]).id() == k;
                    assert(next[i].id() == k);
                }
                assert(next[n as int].id() == k0);
            }
            assert forall|k: K::Id| groups.map().dom().contains(k) implies (
            #[trigger] groups.map()[k])@ == positions(next, k) by {
                if k != k0 {
                    assert(m0.dom().contains(k));
                    assert(groups.map()[k] == m0[k]);
                }
            }
        }
        n = n + 1;
    }
    assert(all.take(n as int) =~= all);
    groups
}

proof fn lemma_positions_absent<K: Key>(keys: Seq<K>, k: K::Id)
    requires
        !occurs(keys, k),
    ensures
        positions(keys, k).len() == 0,
    decreases keys.len(),
{
    if keys.len() > 0 {
        assert(keys[keys.len() - 1].id() != k);
        assert forall|i: int| 0 <= i < keys.drop_last().len() implies (
        #[trigger] keys.drop_last()[i]).id() != k by {
            assert(keys[i].id() != k);
        }
        lemma_positions_absent(keys.drop_last(), k);
    }
}

/// Numbers in non-decreasing order.
pub open spec fn ascending(s: Seq<i64>) -> bool {
    forall|i: int, j: int| 0 <= i <= j < s.len() ==> s[i] <= s[j]
}

/// Sorts numbers.
pub fn sort_numbers(v: &Vec<i64>) -> (r: Vec<i64>)
    ensures
        ascending(r@),
        r@.to_multiset() == v@.to_multiset(),
        r@.len() == v@.len(),
{
    broadcast use vstd::seq_lib::group_to_multiset_ensures;

    let mut r: Vec<i64> = Vec::new();
    let mut n: usize = 0;
    assert(v@.take(0) =~= r@);
    while n < v.len()
        invariant
            n <= v.len(),
            r@.len() == n,
            ascending(r@),
            r@.to_multiset() == v@.take(n as int).to_multiset(),
        decreases v.len() - n,
    {
        let x: i64 = v[n];
        let mut at: usize = n;
        while at > 0 && x < r[at - 1]
            invariant
                at <= n,
                r@.len() == n,
                forall|i: int| at <= i < n ==> x < r@[i],
            ensures
                at > 0 ==> r@[at - 1] <= x,
            decreases at,
        {
            at = at - 1;
        }
        let ghost before = r@;
        r.insert(at, x);
        proof {
            vstd::seq_lib::to_multiset_insert(before, at as int, x);
            assert(v@.take(n + 1) =~= v@.take(n as int).push(x));
            vstd::seq_lib::to_multiset_insert(v@.take(n as int), n as int, x);
            assert(v@.take(n as int).insert(n as int, x) =~= v@.take(n as int).push(x));
            assert forall|i: int, j: int| 0 <= i <= j < r@.len() implies r@[i] <= r@[j] by {
                let i0 = if i < at {
                    i
                } else {
                    i - 1
                };
                let j0 = if j < at {
                    j
                } else {
                    j - 1
                };
                if i != at && j != at {
                    assert(before[i0] <= before[j0]);
                } else if i < at {
                    assert(before[i] <= before[at - 1]);
                }
            }
        }
        n = n + 1;
    }
    assert(v@.take(n as int) =~= v@);
    r
}

proof fn lemma_contents_insert<K: Key, V>(s: Seq<(K, V)>, i: int, e: (K, V))
    requires
        increasing(s),
        increasing(s.insert(i, e)),
        0 <= i <= s.len(),
        !contents(s).dom().contains(e.0.id()),
    ensures
        contents(s.insert(i, e)) == contents(s).insert(e.0.id(), e.1),
{
    let t = s.insert(i, e);
    let m = contents(s).insert(e.0.id(), e.1);
    assert forall|k: K::Id| #[trigger] contents(t).dom().contains(k) <==> m.dom().contains(k) by {
        if has_key(t, k) {
            let j = key_pos(t, k);
            if j < i {
                assert(s[j] == t[j]);
                assert(has_key(s, k));
            } else if j > i {
                assert(s[j - 1] == t[j]);
                assert(has_key(s, k));
            }
        }
        if has_key(s, k) {
            let j = key_pos(s, k);
            if j < i {
                assert(t[j] == s[j]);
            } else {
                assert(t[j + 1] == s[j]);
            }
        }
        assert(t[i] == e);
    }
    assert forall|k: K::Id| contents(t).dom().contains(k) implies #[trigger] contents(t)[k]
        == m[k] by {
        let j = key_pos(t, k);
        lemma_pos(t, j);
        if j < i {
            lemma_pos(s, j);
            assert(t[j] == s[j]);
        } else if j > i {
            lemma_pos(s, j - 1);
            assert(t[j] == s[j - 1]);
        } else {
            assert(t[i] == e);
        }
    }
    assert(contents(t) =~= m);
}

proof fn lemma_contents_update<K: Key, V>(s: Seq<(K, V)>, i: int, e: (K, V))
    requires
        increasing(s),
        0 <= i < s.len(),
        s[i].0.id() == e.0.id(),
    ensures
        increasing(s.update(i, e)),
        contents(s.update(i, e)) == contents(s).insert(e.0.id(), e.1),
{
    let t = s.update(i, e);
    let m = contents(s).insert(e.0.id(), e.1);
    assert forall|a: int| 0 <= a < t.len() implies (#[trigger] t[a]).0.id() == s[a].0.id() by {}
    assert forall|a: int, b: int| 0 <= a < b < t.len() implies K::precedes(
        #[trigger] t[a].0.id(),
        #[trigger] t[b].0.id(),
    ) by {
        assert(K::precedes(s[a].0.id(), s[b].0.id()));
    }
    assert forall|k: K::Id| #[trigger] contents(t).dom().contains(k) <==> m.dom().contains(k) by {
        if has_key(t, k) {
            let j = key_pos(t, k);
            assert(s[j].0.id() == k);
        }
        if has_key(s, k) {
            let j = key_pos(s, k);
            assert(t[j].0.id() == k);
        }
        assert(t[i] == e);
    }
    assert forall|k: K::Id| contents(t).dom().contains(k) implies #[trigger] contents(t)[k]
        == m[k] by {
        let j = key_pos(t, k);
        lemma_pos(t, j);
        lemma_pos(s, j);
        lemma_pos(s, i);
    }
    assert(contents(t) =~= m);
}

proof fn lemma_contents_remove<K: Key, V>(s: Seq<(K, V)>, i: int)
    requires
        increasing(s),
        increasing(s.remove(i)),
        0 <= i < s.len(),
    ensures
        contents(s.remove(i)) == contents(s).remove(s[i].0.id()),
{
    let t = s.remove(i);
    let m = contents(s).remove(s[i].0.id());
    assert forall|k: K::Id| #[trigger] contents(t).dom().contains(k) <==> m.dom().contains(k) by {
        lemma_pos(s, i);
        if has_key(t, k) {
            let j = key_pos(t, k);
            let j0 = if j < i {
                j
            } else {
                j + 1
            };
            assert(s[j0] == t[j]);
            lemma_pos(s, j0);
        }
        if m.dom().contains(k) {
            let j = key_pos(s, k);
            lemma_pos(s, j);
            if j < i {
                assert(t[j] == s[j]);
            } else {
                assert(t[j - 1] == s[j]);
            }
        }
    }
    assert forall|k: K::Id| contents(t).dom().contains(k) implies #[trigger] contents(t)[k]
        == m[k] by {
        let j = key_pos(t, k);
        lemma_pos(t, j);
        let j0 = if j < i {
            j
        } else {
            j + 1
        };
        assert(s[j0] == t[j]);
        lemma_pos(s, j0);
    }
    assert(contents(t) =~= m);
}

/// Numbers precede larger numbers, texts those that follow in the order of
/// texts, and pairs go by their first parts and then by their second.
pub proof fn law_keys_ascend(a: i64, b: i64, x: u32, y: u32, s: Seq<char>, t: Seq<char>)
    ensures
        <i64 as Key>::precedes(a, b) <==> a < b,
        <u32 as Key>::precedes(x, y) <==> x < y,
        <String as Key>::precedes(s, t) <==> crate::text::before(s, t),
        <Pair<i64, u32> as Key>::precedes((a, x), (b, y)) <==> a < b || (a == b && x < y),
        <Pair<String, u32> as Key>::precedes((s, x), (t, y)) <==> crate::text::before(s, t) || (s
            == t && x < y),
{
}

/// Wide numbers precede larger ones.
pub proof fn law_wide_keys_ascend(a: u64, b: u64, x: u128, y: u128)
    ensures
        <u64 as Key>::precedes(a, b) <==> a < b,
        <u128 as Key>::precedes(x, y) <==> x < y,
{
}

/// Sorting puts no key before a smaller one, keeps the order of equal keys,
/// and lists each position once.
pub proof fn law_stable_sort<K: Key>(keys: Seq<K>, order: Seq<usize>, i: int, j: int, p: int)
    requires
        stably_sorted(keys, order),
        0 <= i < j < order.len(),
        0 <= p < keys.len(),
    ensures
        order.len() == keys.len(),
        order[i] != order[j],
        !K::precedes(keys[order[j] as int].id(), keys[order[i] as int].id()),
        keys[order[i] as int].id() == keys[order[j] as int].id() ==> order[i] < order[j],
        exists|x: int| 0 <= x < order.len() && #[trigger] order[x] == p,
{
    let (a, b) = (keys[order[i] as int].id(), keys[order[j] as int].id());
    K::order(a, b);
    assert(comes_first(keys, order[i] as int, order[j] as int));
    assert(listed(order, p));
}

} // verus!
