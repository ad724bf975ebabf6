//! Laws of the canonical encoding, byte by byte.
use vstd::prelude::*;

use crate::blockhash::{canonical, canonical_entries, canonical_items, packed, sorted_keys};
use crate::blockhash_laws::sorted_keys_listed;
use crate::bytes::{be_bytes, be_bytes_len};
use crate::bytes_laws::{bytes_by_place, four, value_is_the_weighted_sum, written_number_reads_back};
use crate::nbt::NbtModel;
use crate::order::{
    byte_order, byte_order_strict, bytes_before, bytes_before_skip, is_listing, listing_is, listing_of_empty,
};

verus! {

/// `a` sorts before `b` by their first `n` bytes, which agree, and by what comes there: `a` ends,
/// or its byte is the smaller.
pub open spec fn sorts_before_at(a: Seq<u8>, b: Seq<u8>, n: int) -> bool {
    &&& 0 <= n <= a.len()
    &&& n < b.len()
    &&& forall|i: int| 0 <= i < n ==> a[i] == b[i]
    &&& n < a.len() ==> a[n] < b[n]
}

/// Byte strings sort by the first byte that differs, and a start of another before it.
pub proof fn byte_strings_sort_by_first_difference(a: Seq<u8>, b: Seq<u8>, n: int)
    requires
        sorts_before_at(a, b, n),
    ensures
        bytes_before(a, b),
        !bytes_before(b, a),
{
    bytes_before_skip(a, b, n);
    bytes_before_skip(b, a, n);
}

/// Numbers: a byte that tells the type, and the number in two's complement, the most significant
/// byte first.
pub proof fn numbers_are_encoded_by_place(a: i8, b: i16, c: i32, d: u32)
    ensures
        canonical(NbtModel::Byte(a)) == seq![0x01u8, (a as int % 0x100) as u8],
        canonical(NbtModel::Short(b)) == seq![0x02u8, (b as int / 0x100 % 0x100) as u8, (b as int % 0x100) as u8],
        canonical(NbtModel::Int(c)) == seq![
            0x03u8,
            (c as int / 0x100_0000 % 0x100) as u8,
            (c as int / 0x1_0000 % 0x100) as u8,
            (c as int / 0x100 % 0x100) as u8,
            (c as int % 0x100) as u8,
        ],
        canonical(NbtModel::Float(d)) == seq![
            0x05u8,
            (d as int / 0x100_0000 % 0x100) as u8,
            (d as int / 0x1_0000 % 0x100) as u8,
            (d as int / 0x100 % 0x100) as u8,
            (d as int % 0x100) as u8,
        ],
{
    bytes_by_place(a as int);
    bytes_by_place(b as int);
    bytes_by_place(c as int);
    bytes_by_place(d as int);
    assert(canonical(NbtModel::Byte(a)) =~= seq![0x01u8, (a as int % 0x100) as u8]);
    assert(canonical(NbtModel::Short(b)) =~= seq![
        0x02u8,
        (b as int / 0x100 % 0x100) as u8,
        (b as int % 0x100) as u8,
    ]);
    assert(canonical(NbtModel::Int(c)) =~= seq![
        0x03u8,
        (c as int / 0x100_0000 % 0x100) as u8,
        (c as int / 0x1_0000 % 0x100) as u8,
        (c as int / 0x100 % 0x100) as u8,
        (c as int % 0x100) as u8,
    ]);
    assert(canonical(NbtModel::Float(d)) =~= seq![
        0x05u8,
        (d as int / 0x100_0000 % 0x100) as u8,
        (d as int / 0x1_0000 % 0x100) as u8,
        (d as int / 0x100 % 0x100) as u8,
        (d as int % 0x100) as u8,
    ]);
}

/// Four written bytes are the number they were, less multiples of 256 to the fourth.
proof fn four_of_written(v: int, c: Seq<u8>, p: int)
    requires
        0 <= p,
        p + 4 <= c.len(),
        c.subrange(p, p + 4) == be_bytes(v, 4),
    ensures
        four(c, p) == v % 0x1_0000_0000,
{
    value_is_the_weighted_sum(c, p);
    written_number_reads_back(v, 4);
}

/// Numbers of 64 bits: the type, and eight bytes whose number is that of the value.
pub proof fn long_numbers_are_encoded_by_place(a: i64, b: u64)
    ensures
        ({
            let c = canonical(NbtModel::Long(a));
            &&& c.len() == 9
            &&& c[0] == 4
            &&& four(c, 1) * 0x1_0000_0000 + four(c, 5) == a as int % 0x1_0000_0000_0000_0000
        }),
        ({
            let c = canonical(NbtModel::Double(b));
            &&& c.len() == 9
            &&& c[0] == 6
            &&& four(c, 1) * 0x1_0000_0000 + four(c, 5) == b
        }),
{
    let c = canonical(NbtModel::Long(a));
    be_bytes_len(a as int, 8);
    be_bytes_len(b as int, 8);
    assert(c.subrange(1, 9) =~= be_bytes(a as int, 8));
    eight_of_written(a as int, c, 1);
    let d = canonical(NbtModel::Double(b));
    assert(d.subrange(1, 9) =~= be_bytes(b as int, 8));
    eight_of_written(b as int, d, 1);
}

proof fn eight_of_written(v: int, c: Seq<u8>, p: int)
    requires
        0 <= p,
        p + 8 <= c.len(),
        c.subrange(p, p + 8) == be_bytes(v, 8),
    ensures
        four(c, p) * 0x1_0000_0000 + four(c, p + 4) == v % 0x1_0000_0000_0000_0000,
{
    be_bytes_len(v, 8);
    bytes_by_place(v);
    let w = v / 0x1_0000_0000;
    be_bytes_len(w, 4);
    be_bytes_len(v, 4);
    assert(c.subrange(p, p + 4) =~= be_bytes(w, 4)) by {
        assert forall|j: int| 0 <= j < 4 implies c.subrange(p, p + 4)[j] == be_bytes(w, 4)[j] by {
            assert(be_bytes(v, 8)[j] == be_bytes(w, 4)[j]);
            assert(c.subrange(p, p + 8)[j] == c[p + j]);
        }
    }
    assert(c.subrange(p + 4, p + 8) =~= be_bytes(v, 4)) by {
        assert forall|j: int| 0 <= j < 4 implies c.subrange(p + 4, p + 8)[j] == be_bytes(v, 4)[j] by {
            assert(be_bytes(v, 8)[j + 4] == be_bytes(v, 4)[j]);
            assert(c.subrange(p, p + 8)[j + 4] == c[p + 4 + j]);
        }
    }
    four_of_written(w, c, p);
    four_of_written(v, c, p + 4);
    assert(v / 0x1_0000_0000 % 0x1_0000_0000 * 0x1_0000_0000 + v % 0x1_0000_0000 == v % 0x1_0000_0000_0000_0000);
}

/// Strings: the type, the number of bytes, and the bytes.
pub proof fn strings_are_encoded_by_place(s: Seq<u8>)
    ensures
        ({
            let c = canonical(NbtModel::String(s));
            &&& c.len() == 5 + s.len()
            &&& c[0] == 7
            &&& four(c, 1) == s.len() as int % 0x1_0000_0000
            &&& forall|i: int| 0 <= i < s.len() ==> #[trigger] c[5 + i] == s[i]
        }),
{
    let c = canonical(NbtModel::String(s));
    be_bytes_len(s.len() as int, 4);
    assert(c.subrange(1, 5) =~= be_bytes(s.len() as int, 4));
    four_of_written(s.len() as int, c, 1);
    assert forall|i: int| 0 <= i < s.len() implies #[trigger] c[5 + i] == s[i] by {}
}

/// The bytes of number `i` among those that stand one after the other.
proof fn packed_at(values: Seq<int>, width: nat, i: int)
    requires
        0 <= i < values.len(),
    ensures
        packed(values, width).len() == values.len() * width,
        0 <= i * width,
        i * width + width <= values.len() * width,
        packed(values, width).subrange(i * width, i * width + width) == be_bytes(values[i], width),
    decreases values.len(),
{
    let n = values.len() as int;
    let rest = values.drop_last();
    packed_length(values, width);
    packed_length(rest, width);
    be_bytes_len(values.last(), width);
    assert((n - 1) * width + width == n * width) by (nonlinear_arith);
    assert(0 <= i * width && i * width + width <= n * width) by (nonlinear_arith)
        requires
            0 <= i < n,
    ;
    let all = packed(values, width);
    if i < n - 1 {
        packed_at(rest, width, i);
        assert(all.subrange(i * width, i * width + width) =~= packed(rest, width).subrange(
            i * width,
            i * width + width,
        ));
    } else {
        assert(all.subrange(i * width, i * width + width) =~= be_bytes(values[i], width));
    }
}

proof fn packed_length(values: Seq<int>, width: nat)
    ensures
        packed(values, width).len() == values.len() * width,
    decreases values.len(),
{
    if values.len() > 0 {
        packed_length(values.drop_last(), width);
        be_bytes_len(values.last(), width);
        let n = values.len() as int;
        assert((n - 1) * width + width == n * width) by (nonlinear_arith);
    } else {
        assert(0 * width == 0) by (nonlinear_arith);
    }
}

/// Arrays: the type, the number of items, and the items, of one, four or eight bytes.
pub proof fn arrays_are_encoded_by_place(a: Seq<i8>, b: Seq<i32>, d: Seq<i64>, i: int)
    ensures
        ({
            let c = canonical(NbtModel::ByteArray(a));
            &&& c.len() == 5 + a.len()
            &&& c[0] == 8
            &&& four(c, 1) == a.len() as int % 0x1_0000_0000
            &&& 0 <= i < a.len() ==> c[5 + i] == a[i] as int % 0x100
        }),
        ({
            let c = canonical(NbtModel::IntArray(b));
            &&& c.len() == 5 + 4 * b.len()
            &&& c[0] == 9
            &&& four(c, 1) == b.len() as int % 0x1_0000_0000
            &&& 0 <= i < b.len() ==> four(c, 5 + 4 * i) == b[i] as int % 0x1_0000_0000
        }),
        ({
            let c = canonical(NbtModel::LongArray(d));
            &&& c.len() == 5 + 8 * d.len()
            &&& c[0] == 10
            &&& four(c, 1) == d.len() as int % 0x1_0000_0000
            &&& 0 <= i < d.len() ==> four(c, 5 + 8 * i) * 0x1_0000_0000 + four(c, 9 + 8 * i) == d[i] as int
                % 0x1_0000_0000_0000_0000
        }),
{
    let p = Seq::new(a.len(), |i: int| a[i] as int);
    let q = Seq::new(b.len(), |i: int| b[i] as int);
    let r = Seq::new(d.len(), |i: int| d[i] as int);
    packed_length(p, 1);
    packed_length(q, 4);
    packed_length(r, 8);
    let c = canonical(NbtModel::ByteArray(a));
    be_bytes_len(a.len() as int, 4);
    assert(c.subrange(1, 5) =~= be_bytes(a.len() as int, 4));
    four_of_written(a.len() as int, c, 1);
    if 0 <= i < a.len() {
        packed_at(p, 1, i);
        bytes_by_place(p[i]);
        let all = packed(p, 1);
        assert(all.subrange(i * 1, i * 1 + 1)[0] == all[i]);
        assert(c[5 + i] == all[i]);
    }
    let c = canonical(NbtModel::IntArray(b));
    be_bytes_len(b.len() as int, 4);
    assert(c.subrange(1, 5) =~= be_bytes(b.len() as int, 4));
    four_of_written(b.len() as int, c, 1);
    if 0 <= i < b.len() {
        packed_at(q, 4, i);
        assert(c.subrange(5 + 4 * i, 5 + 4 * i + 4) =~= packed(q, 4).subrange(i * 4, i * 4 + 4));
        four_of_written(q[i], c, 5 + 4 * i);
    }
    let c = canonical(NbtModel::LongArray(d));
    be_bytes_len(d.len() as int, 4);
    assert(c.subrange(1, 5) =~= be_bytes(d.len() as int, 4));
    four_of_written(d.len() as int, c, 1);
    if 0 <= i < d.len() {
        packed_at(r, 8, i);
        assert(c.subrange(5 + 8 * i, 5 + 8 * i + 8) =~= packed(r, 8).subrange(i * 8, i * 8 + 8));
        eight_of_written(r[i], c, 5 + 8 * i);
    }
}

proof fn items_of_a_start(items: Seq<NbtModel>, v: NbtModel, n: nat)
    requires
        n <= items.len(),
    ensures
        canonical_items(items.push(v), n) == canonical_items(items, n),
    decreases n,
{
    if n > 0 {
        items_of_a_start(items, v, (n - 1) as nat);
        assert(items.push(v)[n - 1] == items[n - 1]);
    }
}

/// Lists: the type and the number of items, then the encodings of the items in turn. One item
/// more adds its encoding at the end.
pub proof fn lists_are_encoded_item_by_item(items: Seq<NbtModel>, v: NbtModel)
    ensures
        canonical(NbtModel::List(Seq::empty())) == seq![0x0Bu8, 0, 0, 0, 0],
        ({
            let c = canonical(NbtModel::List(items));
            let d = canonical(NbtModel::List(items.push(v)));
            &&& c.len() >= 5
            &&& c[0] == 11
            &&& four(c, 1) == items.len() as int % 0x1_0000_0000
            &&& d.skip(5) == c.skip(5) + canonical(v)
        }),
{
    bytes_by_place(0);
    assert(canonical(NbtModel::List(Seq::empty())) =~= seq![0x0Bu8, 0, 0, 0, 0]);
    let c = canonical(NbtModel::List(items));
    let d = canonical(NbtModel::List(items.push(v)));
    let n = items.len();
    be_bytes_len(n as int, 4);
    be_bytes_len(n as int + 1, 4);
    assert(c.subrange(1, 5) =~= be_bytes(n as int, 4));
    four_of_written(n as int, c, 1);
    items_of_a_start(items, v, n);
    assert(c.skip(5) =~= canonical_items(items, n));
    assert(d.skip(5) =~= canonical_items(items.push(v), n + 1));
    assert(items.push(v)[n as int] == v);
    assert(d.skip(5) =~= c.skip(5) + canonical(v));
}

proof fn entries_of_a_start(m: Map<Seq<u8>, NbtModel>, k: Seq<u8>, v: NbtModel, keys: Seq<Seq<u8>>, n: nat)
    requires
        n <= keys.len(),
        m.dom().finite(),
        !m.dom().contains(k),
        forall|i: int| 0 <= i < keys.len() ==> m.dom().contains(#[trigger] keys[i]),
    ensures
        canonical_entries(m.insert(k, v), keys.push(k), n) == canonical_entries(m, keys, n),
    decreases n,
{
    if n > 0 {
        entries_of_a_start(m, k, v, keys, (n - 1) as nat);
        assert(m.dom().contains(keys[n - 1]));
        assert(keys.push(k)[n - 1] == keys[n - 1]);
        assert(m.insert(k, v).dom() =~= m.dom().insert(k));
    }
}

/// Compounds: the type and the number of entries, then the entries in the order of their keys,
/// each the length of its key, the key and the encoding of the value. An entry whose key sorts
/// behind all others is added at the end.
pub proof fn compounds_are_encoded_entry_by_entry(m: Map<Seq<u8>, NbtModel>, k: Seq<u8>, v: NbtModel)
    requires
        m.dom().finite(),
        forall|j: Seq<u8>| #[trigger] m.dom().contains(j) ==> exists|n: int| sorts_before_at(j, k, n),
    ensures
        canonical(NbtModel::Compound(Map::empty())) == seq![0x0Cu8, 0, 0, 0, 0],
        ({
            let c = canonical(NbtModel::Compound(m));
            let d = canonical(NbtModel::Compound(m.insert(k, v)));
            let e = d.skip(c.len() as int);
            &&& c.len() >= 5
            &&& c[0] == 12
            &&& four(c, 1) == m.dom().len() as int % 0x1_0000_0000
            &&& d.skip(5) == c.skip(5) + e
            &&& e.len() == 4 + k.len() + canonical(v).len()
            &&& four(e, 0) == k.len() as int % 0x1_0000_0000
            &&& e.subrange(4, 4 + k.len() as int) == k
            &&& e.skip(4 + k.len() as int) == canonical(v)
        }),
{
    bytes_by_place(0);
    byte_order_strict();
    let none = Map::<Seq<u8>, NbtModel>::empty();
    listing_of_empty(none.dom(), byte_order());
    assert(canonical(NbtModel::Compound(none)) =~= seq![0x0Cu8, 0, 0, 0, 0]);
    let keys = sorted_keys(m);
    sorted_keys_listed(m);
    assert forall|i: int| 0 <= i < keys.len() implies m.dom().contains(#[trigger] keys[i]) by {
        assert(keys.contains(keys[i]));
    }
    let before = byte_order();
    assert forall|j: Seq<u8>| #[trigger] m.dom().contains(j) implies before(j, k) && j != k by {
        let n = choose|n: int| sorts_before_at(j, k, n);
        byte_strings_sort_by_first_difference(j, k, n);
    }
    let more = m.insert(k, v);
    let next = keys.push(k);
    assert(is_listing(next, more.dom(), before)) by {
        assert forall|a: int, b: int| 0 <= a < b < next.len() implies #[trigger] before(next[a], next[b]) by {
            assert(m.dom().contains(keys[a]));
            if b < keys.len() {
                assert(before(keys[a], keys[b]));
            }
        }
        assert forall|j: Seq<u8>| #[trigger] next.contains(j) <==> more.dom().contains(j) by {
            if next.contains(j) {
                let i = choose|i: int| 0 <= i < next.len() && next[i] == j;
                if i < keys.len() {
                    assert(m.dom().contains(keys[i]));
                }
            }
            if more.dom().contains(j) {
                if j == k {
                    assert(next[keys.len() as int] == k);
                } else {
                    assert(keys.contains(j));
                    let i = choose|i: int| 0 <= i < keys.len() && keys[i] == j;
                    assert(next[i] == j);
                }
            }
        }
    }
    listing_is(next, more.dom(), before);
    assert(sorted_keys(more) == next);
    let c = canonical(NbtModel::Compound(m));
    let d = canonical(NbtModel::Compound(more));
    let n = keys.len();
    be_bytes_len(n as int, 4);
    be_bytes_len(n as int + 1, 4);
    be_bytes_len(k.len() as int, 4);
    assert(c.subrange(1, 5) =~= be_bytes(n as int, 4));
    four_of_written(n as int, c, 1);
    assert(!m.dom().contains(k));
    entries_of_a_start(m, k, v, keys, n);
    assert(next[n as int] == k);
    assert(more.dom() =~= m.dom().insert(k));
    assert(c.skip(5) =~= canonical_entries(m, keys, n));
    let e = d.skip(c.len() as int);
    let entry = be_bytes(k.len() as int, 4) + k + canonical(v);
    assert(canonical_entries(more, next, n + 1) =~= canonical_entries(m, keys, n) + entry);
    assert(d.skip(5) =~= canonical_entries(m, keys, n) + entry);
    assert(e =~= entry);
    assert(e.subrange(0, 4) =~= be_bytes(k.len() as int, 4));
    four_of_written(k.len() as int, e, 0);
    assert(e.subrange(4, 4 + k.len() as int) =~= k);
    assert(e.skip((4 + k.len()) as int) =~= canonical(v));
}

} // verus!
