//! Strictly ascending listings of key sets, and the two key orders in use: byte strings and
//! coordinate pairs, both lexicographic.
use vstd::prelude::*;
use vstd::relations::sorted_by;

verus! {

/// `q` lists exactly the keys of `keys`, each once, in the order `before`.
pub open spec fn is_listing<K>(q: Seq<K>, keys: Set<K>, before: spec_fn(K, K) -> bool) -> bool {
    &&& sorted_by(q, before)
    &&& forall|k: K| #[trigger] q.contains(k) <==> keys.contains(k)
}

/// The keys of `keys` in the order `before`.
pub open spec fn listing<K>(keys: Set<K>, before: spec_fn(K, K) -> bool) -> Seq<K> {
    choose|q: Seq<K>| is_listing(q, keys, before)
}

/// A strict order: nothing comes before itself, and "before" chains.
pub open spec fn strict_order<K>(before: spec_fn(K, K) -> bool) -> bool {
    &&& forall|a: K| !(#[trigger] before(a, a))
    &&& forall|a: K, b: K, c: K|
        #[trigger] before(a, b) && #[trigger] before(b, c) ==> before(a, c)
}

/// A set has at most one listing.
pub proof fn listing_unique<K>(p: Seq<K>, q: Seq<K>, keys: Set<K>, before: spec_fn(K, K) -> bool)
    requires
        strict_order(before),
        is_listing(p, keys, before),
        is_listing(q, keys, before),
    ensures
        p == q,
    decreases p.len(),
{
    if p.len() == 0 {
        if q.len() > 0 {
            assert(q.contains(q[0]));
            assert(p.contains(q[0]));
        }
        assert(p =~= q);
    } else {
        assert(p.contains(p[0]));
        assert(q.contains(p[0]));
        let j = choose|j: int| 0 <= j < q.len() && q[j] == p[0];
        assert(q.contains(q[0]));
        assert(p.contains(q[0]));
        let i = choose|i: int| 0 <= i < p.len() && p[i] == q[0];
        if j > 0 {
            assert(before(q[0], q[j]));
            assert(i > 0);
            assert(before(p[0], p[i]));
            assert(before(p[0], p[0]));
        }
        assert(p[0] == q[0]);
        let p1 = p.drop_first();
        let q1 = q.drop_first();
        let rest = keys.remove(p[0]);
        assert forall|k: K| #[trigger] p1.contains(k) <==> rest.contains(k) by {
            tail_contains(p, keys, before, k);
        }
        assert forall|k: K| #[trigger] q1.contains(k) <==> rest.contains(k) by {
            tail_contains(q, keys, before, k);
        }
        assert forall|a: int, b: int| 0 <= a < b < p1.len() implies #[trigger] before(
            p1[a],
            p1[b],
        ) by {
            assert(before(p[a + 1], p[b + 1]));
        }
        assert forall|a: int, b: int| 0 <= a < b < q1.len() implies #[trigger] before(
            q1[a],
            q1[b],
        ) by {
            assert(before(q[a + 1], q[b + 1]));
        }
        listing_unique(p1, q1, rest, before);
        assert(p =~= seq![p[0]] + p1);
        assert(q =~= seq![q[0]] + q1);
    }
}

proof fn tail_contains<K>(q: Seq<K>, keys: Set<K>, before: spec_fn(K, K) -> bool, k: K)
    requires
        strict_order(before),
        is_listing(q, keys, before),
        q.len() > 0,
    ensures
        q.drop_first().contains(k) <==> (keys.contains(k) && k != q[0]),
{
    let t = q.drop_first();
    if t.contains(k) {
        let i = choose|i: int| 0 <= i < t.len() && t[i] == k;
        assert(q[i + 1] == k);
        assert(q.contains(k));
        assert(before(q[0], q[i + 1]));
    }
    if keys.contains(k) && k != q[0] {
        assert(q.contains(k));
        let i = choose|i: int| 0 <= i < q.len() && q[i] == k;
        assert(t[i - 1] == k);
    }
}

/// A listing found in any way is the listing.
pub proof fn listing_is<K>(q: Seq<K>, keys: Set<K>, before: spec_fn(K, K) -> bool)
    requires
        strict_order(before),
        is_listing(q, keys, before),
    ensures
        listing(keys, before) == q,
{
    listing_unique(listing(keys, before), q, keys, before);
}

/// The listing of an empty set is empty.
pub proof fn listing_of_empty<K>(keys: Set<K>, before: spec_fn(K, K) -> bool)
    requires
        strict_order(before),
        forall|k: K| !keys.contains(k),
    ensures
        listing(keys, before) == Seq::<K>::empty(),
{
    assert(is_listing(Seq::<K>::empty(), keys, before));
    listing_is(Seq::<K>::empty(), keys, before);
}

/// A finite set has a listing, where the order compares any two keys.
pub proof fn listing_exists<K>(keys: Set<K>, before: spec_fn(K, K) -> bool)
    requires
        strict_order(before),
        forall|a: K, b: K| a == b || #[trigger] before(a, b) || before(b, a),
        keys.finite(),
    ensures
        is_listing(listing(keys, before), keys, before),
    decreases keys.len(),
{
    if keys.len() == 0 {
        assert(is_listing(Seq::<K>::empty(), keys, before));
    } else {
        let k = keys.choose();
        let rest = keys.remove(k);
        listing_exists(rest, before);
        let q = listing(rest, before);
        let at = insert_place(q, k, before, q.len());
        assert forall|a: int| 0 <= a < q.len() implies #[trigger] q[a] != k by {
            assert(q.contains(q[a]));
        }
        let p = q.insert(at, k);
        assert forall|a: int, b: int| 0 <= a < b < p.len() implies #[trigger] before(p[a], p[b]) by {
            if a != at && b != at {
                let a0 = if a > at { a - 1 } else { a };
                let b0 = if b > at { b - 1 } else { b };
                assert(before(q[a0], q[b0]));
            } else if a == at {
                let b0 = b - 1;
                assert(!before(q[b0], k));
                assert(before(k, q[b0]) || before(q[b0], k) || q[b0] == k);
            }
        }
        assert forall|c: K| #[trigger] p.contains(c) <==> keys.contains(c) by {
            if p.contains(c) {
                let i = choose|i: int| 0 <= i < p.len() && p[i] == c;
                if i != at {
                    let i0 = if i > at { i - 1 } else { i };
                    assert(q[i0] == c);
                    assert(q.contains(c));
                }
            }
            if keys.contains(c) {
                if c == k {
                    assert(p[at] == c);
                } else {
                    assert(q.contains(c));
                    let i0 = choose|i0: int| 0 <= i0 < q.len() && q[i0] == c;
                    let i = if i0 >= at { i0 + 1 } else { i0 };
                    assert(p[i] == c);
                }
            }
        }
        assert(is_listing(p, keys, before));
    }
}

/// The number of leading keys that come before `k`, among the first `n`.
proof fn insert_place<K>(q: Seq<K>, k: K, before: spec_fn(K, K) -> bool, n: nat) -> (at: int)
    requires
        strict_order(before),
        sorted_by(q, before),
        n <= q.len(),
    ensures
        0 <= at <= n,
        forall|a: int| 0 <= a < at ==> before(#[trigger] q[a], k),
        forall|a: int| at <= a < n ==> !before(#[trigger] q[a], k),
    decreases n,
{
    if n == 0 {
        0
    } else if before(q[n - 1], k) {
        assert forall|a: int| 0 <= a < n implies before(#[trigger] q[a], k) by {
            if a < n - 1 {
                assert(before(q[a], q[n - 1]));
            }
        }
        n as int
    } else {
        insert_place(q, k, before, (n - 1) as nat)
    }
}

// ---- byte strings ----

/// `a` sorts before `b`: at the first byte that differs, or because `a` ends there.
pub open spec fn bytes_before(a: Seq<u8>, b: Seq<u8>) -> bool
    decreases a.len(),
{
    if b.len() == 0 {
        false
    } else if a.len() == 0 {
        true
    } else if a[0] != b[0] {
        a[0] < b[0]
    } else {
        bytes_before(a.drop_first(), b.drop_first())
    }
}

pub open spec fn byte_order() -> spec_fn(Seq<u8>, Seq<u8>) -> bool {
    |a: Seq<u8>, b: Seq<u8>| bytes_before(a, b)
}

pub proof fn bytes_before_irreflexive(a: Seq<u8>)
    ensures
        !bytes_before(a, a),
    decreases a.len(),
{
    if a.len() > 0 {
        bytes_before_irreflexive(a.drop_first());
    }
}

proof fn bytes_before_transitive(a: Seq<u8>, b: Seq<u8>, c: Seq<u8>)
    requires
        bytes_before(a, b),
        bytes_before(b, c),
    ensures
        bytes_before(a, c),
    decreases a.len(),
{
    if a.len() > 0 && a[0] == b[0] && b[0] == c[0] {
        bytes_before_transitive(a.drop_first(), b.drop_first(), c.drop_first());
    }
}

/// Of two byte strings that differ, one sorts before the other.
pub proof fn bytes_before_total(a: Seq<u8>, b: Seq<u8>)
    ensures
        a == b || bytes_before(a, b) || bytes_before(b, a),
    decreases a.len(),
{
    if a.len() == 0 || b.len() == 0 {
        if a.len() == b.len() {
            assert(a =~= b);
        }
    } else if a[0] == b[0] {
        bytes_before_total(a.drop_first(), b.drop_first());
        if a.drop_first() == b.drop_first() {
            assert(a =~= seq![a[0]] + a.drop_first());
            assert(b =~= seq![b[0]] + b.drop_first());
        }
    }
}

pub proof fn byte_order_strict()
    ensures
        strict_order(byte_order()),
{
    let before = byte_order();
    assert forall|a: Seq<u8>| !(#[trigger] before(a, a)) by {
        bytes_before_irreflexive(a);
    }
    assert forall|a: Seq<u8>, b: Seq<u8>, c: Seq<u8>| #[trigger]
        before(a, b) && #[trigger] before(b, c) implies before(a, c) by {
        bytes_before_transitive(a, b, c);
    }
}

/// Equal first `n` bytes decide nothing: what follows does.
pub(crate) proof fn bytes_before_skip(a: Seq<u8>, b: Seq<u8>, n: int)
    requires
        0 <= n <= a.len(),
        n <= b.len(),
        forall|i: int| 0 <= i < n ==> a[i] == b[i],
    ensures
        bytes_before(a, b) == bytes_before(a.skip(n), b.skip(n)),
    decreases n,
{
    if n == 0 {
        assert(a.skip(0) =~= a);
        assert(b.skip(0) =~= b);
    } else {
        let a1 = a.drop_first();
        let b1 = b.drop_first();
        assert(forall|i: int| 0 <= i < n - 1 ==> a1[i] == a[i + 1] && b1[i] == b[i + 1]);
        bytes_before_skip(a1, b1, n - 1);
        assert(a1.skip(n - 1) =~= a.skip(n));
        assert(b1.skip(n - 1) =~= b.skip(n));
    }
}

/// Where one of two keys stands to the other.
#[derive(Clone, Copy, Debug, PartialEq, Eq)]
pub enum Standing {
    Before,
    Same,
    After,
}

/// Compares two byte strings lexicographically.
pub fn stand_bytes(a: &[u8], b: &[u8]) -> (r: Standing)
    ensures
        match r {
            Standing::Before => bytes_before(a@, b@),
            Standing::Same => a@ == b@,
            Standing::After => bytes_before(b@, a@),
        },
{
    let mut i: usize = 0;
    while i < a.len() && i < b.len()
        invariant
            i <= a@.len(),
            i <= b@.len(),
            forall|j: int| 0 <= j < i ==> a@[j] == b@[j],
        decreases a@.len() - i,
    {
        if a[i] != b[i] {
            proof {
                bytes_before_skip(a@, b@, i as int);
                bytes_before_skip(b@, a@, i as int);
            }
            return if a[i] < b[i] {
                Standing::Before
            } else {
                Standing::After
            };
        }
        i += 1;
    }
    proof {
        bytes_before_skip(a@, b@, i as int);
        bytes_before_skip(b@, a@, i as int);
    }
    if i < b.len() {
        Standing::Before
    } else if i < a.len() {
        Standing::After
    } else {
        assert(a@ =~= b@);
        Standing::Same
    }
}

// ---- coordinate pairs ----

/// `a` sorts before `b`: by the first coordinate, then by the second.
pub open spec fn pair_before(a: (i64, i64), b: (i64, i64)) -> bool {
    a.0 < b.0 || (a.0 == b.0 && a.1 < b.1)
}

pub open spec fn pair_order() -> spec_fn((i64, i64), (i64, i64)) -> bool {
    |a: (i64, i64), b: (i64, i64)| pair_before(a, b)
}

pub proof fn pair_order_strict()
    ensures
        strict_order(pair_order()),
{
}

// ---- the last item of each key ----

/// The map that a list of key-value pairs stands for: a later pair replaces an earlier one.
pub open spec fn last_map<K, V>(pairs: Seq<(K, V)>) -> Map<K, V>
    decreases pairs.len(),
{
    if pairs.len() == 0 {
        Map::empty()
    } else {
        last_map(pairs.drop_last()).insert(pairs.last().0, pairs.last().1)
    }
}

/// The map holds finitely many keys: those of the pairs.
pub proof fn last_map_dom<K, V>(pairs: Seq<(K, V)>)
    ensures
        last_map(pairs).dom().finite(),
        forall|k: K| #[trigger]
            last_map(pairs).dom().contains(k) <==> exists|i: int|
                0 <= i < pairs.len() && (#[trigger] pairs[i]).0 == k,
    decreases pairs.len(),
{
    if pairs.len() > 0 {
        let rest = pairs.drop_last();
        last_map_dom(rest);
        assert forall|k: K| #[trigger] last_map(pairs).dom().contains(k) <==> exists|i: int|
            0 <= i < pairs.len() && (#[trigger] pairs[i]).0 == k by {
            if last_map(rest).dom().contains(k) {
                let i = choose|i: int| 0 <= i < rest.len() && (#[trigger] rest[i]).0 == k;
                assert(pairs[i].0 == k);
            }
            if exists|i: int| 0 <= i < pairs.len() && (#[trigger] pairs[i]).0 == k {
                let i = choose|i: int| 0 <= i < pairs.len() && (#[trigger] pairs[i]).0 == k;
                if i < rest.len() {
                    assert(rest[i].0 == k);
                }
            }
        }
    }
}

/// The value at a key is that of its last pair.
pub proof fn last_map_value<K, V>(pairs: Seq<(K, V)>, i: int)
    requires
        0 <= i < pairs.len(),
        forall|j: int| i < j < pairs.len() ==> (#[trigger] pairs[j]).0 != pairs[i].0,
    ensures
        last_map(pairs).dom().contains(pairs[i].0),
        last_map(pairs)[pairs[i].0] == pairs[i].1,
    decreases pairs.len(),
{
    if i < pairs.len() - 1 {
        let rest = pairs.drop_last();
        assert(pairs[pairs.len() - 1].0 != pairs[i].0);
        last_map_value(rest, i);
    }
}

/// Position `i` holds the last occurrence of its key.
pub open spec fn is_last<K>(keys: Seq<K>, i: int) -> bool {
    &&& 0 <= i < keys.len()
    &&& forall|j: int| i < j < keys.len() ==> #[trigger] keys[j] != keys[i]
}

/// The keys at the positions `idx`.
pub open spec fn keys_at<K>(keys: Seq<K>, idx: Seq<usize>) -> Seq<K> {
    Seq::new(idx.len(), |a: int| keys[idx[a] as int])
}

/// `idx` lists, in the order of the keys, the position of the last occurrence of each key.
pub open spec fn is_index<K>(idx: Seq<usize>, keys: Seq<K>, before: spec_fn(K, K) -> bool) -> bool {
    &&& forall|a: int| 0 <= a < idx.len() ==> is_last(keys, #[trigger] idx[a] as int)
    &&& sorted_by(keys_at(keys, idx), before)
    &&& forall|j: int| 0 <= j < keys.len() ==> keys_at(keys, idx).contains(#[trigger] keys[j])
}

/// The first components.
pub open spec fn firsts<K, V>(pairs: Seq<(K, V)>) -> Seq<K> {
    Seq::new(pairs.len(), |i: int| pairs[i].0)
}

/// An index of the keys of `pairs` lists the keys of their map, and points to their values.
pub proof fn index_of_map<K, V>(
    idx: Seq<usize>,
    pairs: Seq<(K, V)>,
    before: spec_fn(K, K) -> bool,
)
    requires
        is_index(idx, firsts(pairs), before),
    ensures
        is_listing(keys_at(firsts(pairs), idx), last_map(pairs).dom(), before),
        forall|a: int|
            0 <= a < idx.len() ==> last_map(pairs)[pairs[#[trigger] idx[a] as int].0]
                == pairs[idx[a] as int].1,
{
    let keys = firsts(pairs);
    let q = keys_at(keys, idx);
    last_map_dom(pairs);
    assert forall|k: K| #[trigger] q.contains(k) <==> last_map(pairs).dom().contains(k) by {
        if q.contains(k) {
            let a = choose|a: int| 0 <= a < q.len() && q[a] == k;
            assert(is_last(keys, idx[a] as int));
            assert(pairs[idx[a] as int].0 == k);
        }
        if last_map(pairs).dom().contains(k) {
            let i = choose|i: int| 0 <= i < pairs.len() && (#[trigger] pairs[i]).0 == k;
            assert(keys[i] == k);
        }
    }
    assert forall|a: int| 0 <= a < idx.len() implies last_map(pairs)[pairs[#[trigger] idx[a] as int].0]
        == pairs[idx[a] as int].1 by {
        let i = idx[a] as int;
        assert(is_last(keys, i));
        assert forall|j: int| i < j < pairs.len() implies (#[trigger] pairs[j]).0 != pairs[i].0 by {
            assert(keys[j] != keys[i]);
        }
        last_map_value(pairs, i);
    }
}

/// Items that are ordered and found by a key.
pub trait Keyed: Sized {
    type Key;

    /// The item's key.
    spec fn key(&self) -> Self::Key;

    /// The order of the keys.
    spec fn order() -> spec_fn(Self::Key, Self::Key) -> bool;

    proof fn order_is_strict()
        ensures
            strict_order(Self::order()),
    ;

    /// Compares the keys of two items.
    fn stand(&self, other: &Self) -> (r: Standing)
        ensures
            match r {
                Standing::Before => Self::order()(self.key(), other.key()),
                Standing::Same => self.key() == other.key(),
                Standing::After => Self::order()(other.key(), self.key()),
            },
    ;
}

/// The keys of the items.
pub open spec fn keys_of<T: Keyed>(items: Seq<T>) -> Seq<T::Key> {
    Seq::new(items.len(), |i: int| items[i].key())
}

/// The positions of the last item of each key, in the order of the keys.
pub fn last_index<T: Keyed>(items: &Vec<T>) -> (idx: Vec<usize>)
    ensures
        is_index(idx@, keys_of(items@), T::order()),
{
    let mut idx: Vec<usize> = Vec::new();
    let mut n: usize = 0;
    proof {
        T::order_is_strict();
        assert(keys_of(items@).take(0) =~= Seq::empty());
    }
    while n < items.len()
        invariant
            n <= items@.len(),
            strict_order(T::order()),
            is_index(idx@, keys_of(items@).take(n as int), T::order()),
        decreases items@.len() - n,
    {
        proof {
            let sofar = keys_of(items@).take(n as int);
            assert forall|a: int| 0 <= a < idx@.len() implies #[trigger] idx@[a] < n by {
                assert(is_last(sofar, idx@[a] as int));
            }
            assert(keys_at(keys_of(items@), idx@) =~= keys_at(sofar, idx@));
        }
        let (at, found) = find_place(items, &idx, n, &items[n]);
        let ghost keys = keys_of(items@);
        let ghost old_idx = idx@;
        if found {
            idx.set(at, n);
        } else {
            idx.insert(at, n);
        }
        proof {
            index_step(keys, old_idx, idx@, n, at as int, found, T::order());
        }
        n += 1;
    }
    assert(keys_of(items@).take(n as int) =~= keys_of(items@));
    idx
}

/// Where the key of `item` stands, or would stand, among the items at the positions `idx`,
/// which are in the order of their keys and below `n`; and whether it stands there.
pub fn find_place<T: Keyed>(items: &Vec<T>, idx: &Vec<usize>, n: usize, item: &T) -> (r: (usize, bool))
    requires
        n <= items@.len(),
        forall|a: int| 0 <= a < idx@.len() ==> #[trigger] idx@[a] < n,
        sorted_by(keys_at(keys_of(items@), idx@), T::order()),
    ensures
        r.0 <= idx@.len(),
        forall|a: int|
            0 <= a < r.0 ==> T::order()(
                #[trigger] keys_at(keys_of(items@), idx@)[a],
                item.key(),
            ),
        r.1 ==> r.0 < idx@.len() && keys_at(keys_of(items@), idx@)[r.0 as int] == item.key(),
        forall|a: int|
            r.0 <= a < idx@.len() && (r.1 ==> a > r.0) ==> T::order()(
                item.key(),
                #[trigger] keys_at(keys_of(items@), idx@)[a],
            ),
{
    let ghost q = keys_at(keys_of(items@), idx@);
    let ghost before = T::order();
    proof {
        T::order_is_strict();
    }
    let mut lo: usize = 0;
    let mut hi: usize = idx.len();
    while lo < hi
        invariant
            lo <= hi <= idx@.len(),
            n <= items@.len(),
            forall|a: int| 0 <= a < idx@.len() ==> #[trigger] idx@[a] < n,
            q == keys_at(keys_of(items@), idx@),
            before == T::order(),
            strict_order(before),
            sorted_by(q, before),
            forall|a: int| 0 <= a < lo ==> before(#[trigger] q[a], item.key()),
            forall|a: int| hi <= a < q.len() ==> before(item.key(), #[trigger] q[a]),
        decreases hi - lo,
    {
        let mid: usize = lo + (hi - lo) / 2;
        let ghost pivot = q[mid as int];
        assert(idx@[mid as int] < n);
        match items[idx[mid]].stand(item) {
            Standing::Before => {
                assert forall|a: int| 0 <= a < mid + 1 implies before(#[trigger] q[a], item.key()) by {
                    if a < mid {
                        assert(before(q[a], pivot));
                    }
                }
                lo = mid + 1;
            },
            Standing::Same => {
                assert forall|a: int| 0 <= a < mid implies before(#[trigger] q[a], item.key()) by {
                    assert(before(q[a], pivot));
                }
                assert forall|a: int| mid < a < q.len() implies before(item.key(), #[trigger] q[a]) by {
                    assert(before(pivot, q[a]));
                }
                return (mid, true);
            },
            Standing::After => {
                assert forall|a: int| mid <= a < q.len() implies before(item.key(), #[trigger] q[a]) by {
                    if mid < a {
                        assert(before(pivot, q[a]));
                    }
                }
                hi = mid;
            },
        }
    }
    (lo, false)
}

/// Taking in position `n` keeps the index an index.
proof fn index_step<K>(
    keys: Seq<K>,
    old_idx: Seq<usize>,
    new_idx: Seq<usize>,
    n: usize,
    at: int,
    found: bool,
    before: spec_fn(K, K) -> bool,
)
    requires
        strict_order(before),
        n < keys.len(),
        is_index(old_idx, keys.take(n as int), before),
        0 <= at <= old_idx.len(),
        forall|a: int| 0 <= a < at ==> before(#[trigger] keys_at(keys, old_idx)[a], keys[n as int]),
        found ==> at < old_idx.len() && keys_at(keys, old_idx)[at] == keys[n as int],
        forall|a: int|
            at <= a < old_idx.len() && (found ==> a > at) ==> before(
                keys[n as int],
                #[trigger] keys_at(keys, old_idx)[a],
            ),
        new_idx == (if found {
            old_idx.update(at, n)
        } else {
            old_idx.insert(at, n)
        }),
    ensures
        is_index(new_idx, keys.take(n + 1), before),
{
    let k0 = keys.take(n as int);
    let k1 = keys.take(n + 1);
    let q0 = keys_at(k0, old_idx);
    let q = keys_at(keys, old_idx);
    let q1 = keys_at(k1, new_idx);
    assert forall|a: int| 0 <= a < old_idx.len() implies #[trigger] q0[a] == q[a] && old_idx[a] < n by {
        assert(is_last(k0, old_idx[a] as int));
    }
    // Where the entries of the new index come from.
    assert forall|a: int| 0 <= a < new_idx.len() implies {
        if a == at {
            new_idx[a] == n && #[trigger] q1[a] == keys[n as int]
        } else {
            let b = if !found && a > at { a - 1 } else { a };
            0 <= b < old_idx.len() && new_idx[a] == old_idx[b] && q1[a] == q[b]
        }
    } by {
        if a != at {
            let b = if !found && a > at { a - 1 } else { a };
            assert(is_last(k0, old_idx[b] as int));
        }
    }
    assert forall|a: int| 0 <= a < new_idx.len() implies is_last(k1, #[trigger] new_idx[a] as int) by {
        assert(q1[a] == q1[a]);
        if a != at {
            let b = if !found && a > at { a - 1 } else { a };
            assert(is_last(k0, old_idx[b] as int));
            assert(q[b] != keys[n as int]) by {
                if b < at {
                    assert(before(q[b], keys[n as int]));
                } else {
                    assert(before(keys[n as int], q[b]));
                }
            }
            assert forall|j: int| new_idx[a] < j < k1.len() implies #[trigger] k1[j] != k1[new_idx[a] as int] by {
                if j < n {
                    assert(k0[j] != k0[old_idx[b] as int]);
                }
            }
        }
    }
    assert forall|a: int, c: int| 0 <= a < c < q1.len() implies #[trigger] before(q1[a], q1[c]) by {
        assert(q1[a] == q1[a] && q1[c] == q1[c]);
        if a == at {
            let d = if !found { c - 1 } else { c };
            assert(before(keys[n as int], q[d]));
        } else if c == at {
            assert(before(q[a], keys[n as int]));
        } else {
            let b = if !found && a > at { a - 1 } else { a };
            let d = if !found && c > at { c - 1 } else { c };
            assert(before(q0[b], q0[d]));
        }
    }
    assert forall|j: int| 0 <= j < k1.len() implies q1.contains(#[trigger] k1[j]) by {
        assert(q1[at] == keys[n as int]);
        if j < n {
            assert(q0.contains(k0[j]));
            let b = choose|b: int| 0 <= b < q0.len() && q0[b] == k0[j];
            if found && b == at {
                assert(q1[at] == k1[j]);
            } else {
                let a = if !found && b >= at { b + 1 } else { b };
                assert(q1[a] == k1[j]);
            }
        } else {
            assert(q1[at] == k1[j]);
        }
    }
}

// ---- keys that another list has, or has not ----

/// Those of `q` that meet `p`, in their order.
pub open spec fn select<K>(q: Seq<K>, p: spec_fn(K) -> bool) -> Seq<K>
    decreases q.len(),
{
    if q.len() == 0 {
        Seq::empty()
    } else if p(q.last()) {
        select(q.drop_last(), p).push(q.last())
    } else {
        select(q.drop_last(), p)
    }
}

/// What is selected is what meets `p`.
pub proof fn select_contains<K>(q: Seq<K>, p: spec_fn(K) -> bool)
    ensures
        forall|k: K| #[trigger] select(q, p).contains(k) <==> q.contains(k) && p(k),
    decreases q.len(),
{
    let s = select(q, p);
    if q.len() > 0 {
        let rest = q.drop_last();
        let t = select(rest, p);
        select_contains(rest, p);
        assert forall|k: K| #[trigger] s.contains(k) <==> q.contains(k) && p(k) by {
            if s.contains(k) {
                let i = choose|i: int| 0 <= i < s.len() && s[i] == k;
                if i < t.len() {
                    assert(t[i] == k);
                    assert(t.contains(k));
                    let j = choose|j: int| 0 <= j < rest.len() && rest[j] == k;
                    assert(q[j] == k);
                } else {
                    assert(q[q.len() - 1] == k);
                }
            }
            if q.contains(k) && p(k) {
                let j = choose|j: int| 0 <= j < q.len() && q[j] == k;
                if j < rest.len() {
                    assert(rest[j] == k);
                    assert(t.contains(k));
                    let i = choose|i: int| 0 <= i < t.len() && t[i] == k;
                    assert(s[i] == k);
                } else {
                    assert(s[s.len() - 1] == k);
                }
            }
        }
    }
}

/// Selecting from a listing lists the keys that meet `p`.
pub proof fn select_is_listing<K>(
    q: Seq<K>,
    keys: Set<K>,
    before: spec_fn(K, K) -> bool,
    p: spec_fn(K) -> bool,
)
    requires
        is_listing(q, keys, before),
    ensures
        is_listing(select(q, p), keys.filter(p), before),
{
    select_contains(q, p);
    select_sorted(q, before, p);
    assert forall|k: K| #[trigger] select(q, p).contains(k) <==> keys.filter(p).contains(k) by {
        assert(q.contains(k) <==> keys.contains(k));
    }
}

proof fn select_sorted<K>(q: Seq<K>, before: spec_fn(K, K) -> bool, p: spec_fn(K) -> bool)
    requires
        sorted_by(q, before),
    ensures
        sorted_by(select(q, p), before),
    decreases q.len(),
{
    if q.len() > 0 {
        let rest = q.drop_last();
        let s = select(q, p);
        let t = select(rest, p);
        assert forall|a: int, b: int| 0 <= a < b < rest.len() implies #[trigger] before(
            rest[a],
            rest[b],
        ) by {
            assert(before(q[a], q[b]));
        }
        select_sorted(rest, before, p);
        select_contains(rest, p);
        assert forall|a: int, b: int| 0 <= a < b < s.len() implies #[trigger] before(s[a], s[b]) by {
            if b < t.len() {
                assert(before(t[a], t[b]));
            } else {
                assert(t.contains(t[a]));
                let j = choose|j: int| 0 <= j < rest.len() && rest[j] == t[a];
                assert(before(q[j], q[q.len() - 1]));
            }
        }
    }
}

/// The positions of items whose key `others` lack, or have.
pub open spec fn by_presence<T: Keyed>(
    items: Seq<T>,
    others: Seq<T>,
    present: bool,
) -> spec_fn(usize) -> bool {
    |i: usize| keys_of(others).contains(items[i as int].key()) == present
}

/// Selecting positions by their key selects the keys.
pub proof fn select_positions<K>(keys: Seq<K>, idx: Seq<usize>, p: spec_fn(K) -> bool)
    ensures
        keys_at(keys, select(idx, |i: usize| p(keys[i as int]))) == select(keys_at(keys, idx), p),
    decreases idx.len(),
{
    let by_key = |i: usize| p(keys[i as int]);
    if idx.len() > 0 {
        select_positions(keys, idx.drop_last(), p);
        assert(keys_at(keys, idx).drop_last() =~= keys_at(keys, idx.drop_last()));
        if by_key(idx.last()) {
            let sofar = select(idx.drop_last(), by_key);
            assert(keys_at(keys, sofar.push(idx.last())) =~= keys_at(keys, sofar).push(
                keys[idx.last() as int],
            ));
        }
    } else {
        assert(keys_at(keys, select(idx, by_key)) =~= select(keys_at(keys, idx), p));
    }
}

/// The position in `others` of the last item with the key of `item`.
pub fn find_key<T: Keyed>(others: &Vec<T>, other_idx: &Vec<usize>, item: &T) -> (r: Option<usize>)
    requires
        is_index(other_idx@, keys_of(others@), T::order()),
    ensures
        match r {
            Some(j) => is_last(keys_of(others@), j as int) && others@[j as int].key() == item.key(),
            None => !keys_of(others@).contains(item.key()),
        },
{
    let ghost keys = keys_of(others@);
    let ghost q = keys_at(keys, other_idx@);
    proof {
        T::order_is_strict();
        assert forall|a: int| 0 <= a < other_idx@.len() implies #[trigger] other_idx@[a] < others@.len() by {
            assert(is_last(keys, other_idx@[a] as int));
        }
    }
    let (at, found) = find_place(others, other_idx, others.len(), item);
    if found {
        assert(is_last(keys, other_idx@[at as int] as int));
        Some(other_idx[at])
    } else {
        proof {
            if keys.contains(item.key()) {
                let j = choose|j: int| 0 <= j < keys.len() && keys[j] == item.key();
                assert(q.contains(keys[j]));
                let a = choose|a: int| 0 <= a < q.len() && q[a] == keys[j];
                assert(T::order()(q[a], item.key()) || T::order()(item.key(), q[a]));
            }
        }
        None
    }
}

/// The positions, out of `idx`, of the items whose key no item of `others` has.
pub fn missing_from<T: Keyed>(
    items: &Vec<T>,
    idx: &Vec<usize>,
    others: &Vec<T>,
    other_idx: &Vec<usize>,
) -> (r: Vec<usize>)
    requires
        is_index(idx@, keys_of(items@), T::order()),
        is_index(other_idx@, keys_of(others@), T::order()),
    ensures
        r@ == select(idx@, by_presence(items@, others@, false)),
{
    let ghost lacking = by_presence(items@, others@, false);
    let mut out: Vec<usize> = Vec::new();
    let mut i: usize = 0;
    while i < idx.len()
        invariant
            i <= idx@.len(),
            is_index(idx@, keys_of(items@), T::order()),
            is_index(other_idx@, keys_of(others@), T::order()),
            lacking == by_presence(items@, others@, false),
            out@ == select(idx@.take(i as int), lacking),
        decreases idx@.len() - i,
    {
        assert(is_last(keys_of(items@), idx@[i as int] as int));
        assert(idx@.take(i + 1).drop_last() =~= idx@.take(i as int));
        let at: usize = idx[i];
        match find_key(others, other_idx, &items[at]) {
            Some(j) => {
                assert(keys_of(others@)[j as int] == items@[at as int].key());
            },
            None => out.push(at),
        }
        i += 1;
    }
    assert(idx@.take(i as int) =~= idx@);
    out
}

/// The positions, out of `idx`, of the items whose key an item of `others` has too, each with
/// the position of the last such item.
pub fn shared_with<T: Keyed>(
    items: &Vec<T>,
    idx: &Vec<usize>,
    others: &Vec<T>,
    other_idx: &Vec<usize>,
) -> (r: Vec<(usize, usize)>)
    requires
        is_index(idx@, keys_of(items@), T::order()),
        is_index(other_idx@, keys_of(others@), T::order()),
    ensures
        firsts(r@) == select(idx@, by_presence(items@, others@, true)),
        forall|a: int|
            0 <= a < r@.len() ==> is_last(keys_of(others@), (#[trigger] r@[a]).1 as int)
                && others@[r@[a].1 as int].key() == items@[r@[a].0 as int].key(),
{
    let ghost having = by_presence(items@, others@, true);
    let mut out: Vec<(usize, usize)> = Vec::new();
    let mut i: usize = 0;
    assert(firsts(out@) =~= Seq::empty());
    while i < idx.len()
        invariant
            i <= idx@.len(),
            is_index(idx@, keys_of(items@), T::order()),
            is_index(other_idx@, keys_of(others@), T::order()),
            having == by_presence(items@, others@, true),
            firsts(out@) == select(idx@.take(i as int), having),
            forall|a: int|
                0 <= a < out@.len() ==> is_last(keys_of(others@), (#[trigger] out@[a]).1 as int)
                    && others@[out@[a].1 as int].key() == items@[out@[a].0 as int].key(),
        decreases idx@.len() - i,
    {
        assert(is_last(keys_of(items@), idx@[i as int] as int));
        assert(idx@.take(i + 1).drop_last() =~= idx@.take(i as int));
        let at: usize = idx[i];
        let ghost before = firsts(out@);
        if let Some(j) = find_key(others, other_idx, &items[at]) {
            assert(keys_of(others@)[j as int] == items@[at as int].key());
            out.push((at, j));
            assert(firsts(out@) =~= before.push(at));
        }
        i += 1;
    }
    assert(idx@.take(i as int) =~= idx@);
    out
}

} // verus!
