//! Laws of the canonical encoding and of the hash modes.
use vstd::prelude::*;

use crate::blockhash::{
    block_entities_key, block_states_key, canonical, canonical_entries, canonical_items, canonical_key, counted, field_or,
    all_section_blocks, kept, mode_hash, packed, section_blocks, sections_key, sorted_keys, HashMode,
};
use crate::bytes::{be_bytes, be_bytes_injective, be_bytes_len, pow256};
use crate::hash::chunk_hash;
use crate::nbt::{distinct_keys, nbt_in, NbtModel};
use crate::order::{
    byte_order, byte_order_strict, bytes_before_total, is_listing, last_map, last_map_dom, last_map_value,
    listing_exists,
};

verus! {

/// All lengths in `v` fit in the 32 bits that the encoding gives them, and its compounds are
/// finite.
pub open spec fn encodable(v: NbtModel) -> bool
    decreases v,
{
    match v {
        NbtModel::String(s) => s.len() < 0x1_0000_0000,
        NbtModel::ByteArray(a) => a.len() < 0x1_0000_0000,
        NbtModel::IntArray(a) => a.len() < 0x1_0000_0000,
        NbtModel::LongArray(a) => a.len() < 0x1_0000_0000,
        NbtModel::List(items) => {
            &&& items.len() < 0x1_0000_0000
            &&& forall|i: int| 0 <= i < items.len() ==> encodable(#[trigger] items[i])
        },
        NbtModel::Compound(m) => {
            &&& m.dom().finite()
            &&& m.dom().len() < 0x1_0000_0000
            &&& forall|k: Seq<u8>| #[trigger]
                m.dom().contains(k) ==> k.len() < 0x1_0000_0000 && encodable(m[k])
        },
        _ => true,
    }
}

/// Equal strings that start with parts of one length have equal parts.
proof fn split_equal(a: Seq<u8>, x: Seq<u8>, b: Seq<u8>, y: Seq<u8>)
    requires
        a + x == b + y,
        a.len() == b.len(),
    ensures
        a == b,
        x == y,
{
    assert((a + x).take(a.len() as int) =~= a);
    assert((b + y).take(b.len() as int) =~= b);
    assert((a + x).skip(a.len() as int) =~= x);
    assert((b + y).skip(b.len() as int) =~= y);
}

/// Equal strings that start with the low `n` bytes of close numbers have those numbers equal.
proof fn split_number(v: int, x: Seq<u8>, w: int, y: Seq<u8>, n: nat)
    requires
        be_bytes(v, n) + x == be_bytes(w, n) + y,
        -pow256(n) < v - w < pow256(n),
    ensures
        v == w,
        x == y,
{
    be_bytes_len(v, n);
    be_bytes_len(w, n);
    split_equal(be_bytes(v, n), x, be_bytes(w, n), y);
    be_bytes_injective(v, w, n);
}

proof fn packed_len(values: Seq<int>, width: nat)
    ensures
        packed(values, width).len() == values.len() * width,
    decreases values.len(),
{
    if values.len() > 0 {
        packed_len(values.drop_last(), width);
        be_bytes_len(values.last(), width);
        let n = values.len();
        assert((n - 1) * width + width == n * width) by (nonlinear_arith)
            requires
                n > 0,
        ;
    } else {
        assert(0 * width == 0);
    }
}

proof fn packed_injective(a: Seq<int>, b: Seq<int>, width: nat)
    requires
        a.len() == b.len(),
        packed(a, width) == packed(b, width),
        forall|i: int| 0 <= i < a.len() ==> -pow256(width) < #[trigger] a[i] - b[i] < pow256(width),
    ensures
        a == b,
    decreases a.len(),
{
    if a.len() > 0 {
        let a0 = a.drop_last();
        let b0 = b.drop_last();
        packed_len(a0, width);
        packed_len(b0, width);
        split_equal(packed(a0, width), be_bytes(a.last(), width), packed(b0, width), be_bytes(b.last(), width));
        assert(-pow256(width) < a[a.len() - 1] - b[a.len() - 1] < pow256(width));
        be_bytes_injective(a.last(), b.last(), width);
        assert forall|i: int| 0 <= i < a0.len() implies -pow256(width) < #[trigger] a0[i] - b0[i] < pow256(width) by {
            assert(-pow256(width) < a[i] - b[i] < pow256(width));
        }
        packed_injective(a0, b0, width);
        assert(a =~= a0.push(a.last()));
        assert(b =~= b0.push(b.last()));
    } else {
        assert(a =~= b);
    }
}

/// The keys of a finite compound are listed, each once.
pub proof fn sorted_keys_listed(m: Map<Seq<u8>, NbtModel>)
    requires
        m.dom().finite(),
    ensures
        is_listing(sorted_keys(m), m.dom(), byte_order()),
        sorted_keys(m).len() == m.dom().len(),
{
    byte_order_strict();
    let before = byte_order();
    assert forall|a: Seq<u8>, b: Seq<u8>| a == b || #[trigger] before(a, b) || before(b, a) by {
        bytes_before_total(a, b);
    }
    listing_exists(m.dom(), before);
    let q = sorted_keys(m);
    assert(q.no_duplicates()) by {
        assert forall|i: int, j: int| 0 <= i < j < q.len() implies q[i] != q[j] by {
            assert(before(q[i], q[j]));
        }
    }
    q.unique_seq_to_set();
    assert(q.to_set() =~= m.dom());
}

/// A counted encoding gives away its length and leaves its payload.
proof fn split_counted(tag: u8, n: nat, p: Seq<u8>, x: Seq<u8>, k: nat, q: Seq<u8>, y: Seq<u8>)
    requires
        counted(tag, n, p) + x == counted(tag, k, q) + y,
        n < 0x1_0000_0000,
        k < 0x1_0000_0000,
    ensures
        n == k,
        p + x == q + y,
{
    reveal_with_fuel(pow256, 5);
    assert(counted(tag, n, p) + x =~= seq![tag] + (be_bytes(n as int, 4) + (p + x)));
    assert(counted(tag, k, q) + y =~= seq![tag] + (be_bytes(k as int, 4) + (q + y)));
    split_equal(seq![tag], be_bytes(n as int, 4) + (p + x), seq![tag], be_bytes(k as int, 4) + (q + y));
    split_number(n as int, p + x, k as int, q + y, 4);
}

/// No encoding is the start of another: what follows it can be told apart, and the value too.
proof fn canonical_prefix_free(a: NbtModel, x: Seq<u8>, b: NbtModel, y: Seq<u8>)
    requires
        encodable(a),
        encodable(b),
        canonical(a) + x == canonical(b) + y,
    ensures
        a == b,
        x == y,
    decreases a, 0nat,
{
    reveal_with_fuel(pow256, 9);
    assert((canonical(a) + x)[0] == canonical(a)[0]);
    assert((canonical(b) + y)[0] == canonical(b)[0]);
    match (a, b) {
        (NbtModel::Byte(v), NbtModel::Byte(w)) => split_scalar(0x01, v as int, x, w as int, y, 1),
        (NbtModel::Short(v), NbtModel::Short(w)) => split_scalar(0x02, v as int, x, w as int, y, 2),
        (NbtModel::Int(v), NbtModel::Int(w)) => split_scalar(0x03, v as int, x, w as int, y, 4),
        (NbtModel::Long(v), NbtModel::Long(w)) => split_scalar(0x04, v as int, x, w as int, y, 8),
        (NbtModel::Float(v), NbtModel::Float(w)) => split_scalar(0x05, v as int, x, w as int, y, 4),
        (NbtModel::Double(v), NbtModel::Double(w)) => split_scalar(0x06, v as int, x, w as int, y, 8),
        (NbtModel::String(s), NbtModel::String(t)) => {
            split_counted(0x07, s.len(), s, x, t.len(), t, y);
            split_equal(s, x, t, y);
        },
        (NbtModel::ByteArray(s), NbtModel::ByteArray(t)) => {
            let p = Seq::new(s.len(), |i: int| s[i] as int);
            let q = Seq::new(t.len(), |i: int| t[i] as int);
            split_counted(0x08, s.len(), packed(p, 1), x, t.len(), packed(q, 1), y);
            packed_len(p, 1);
            packed_len(q, 1);
            split_equal(packed(p, 1), x, packed(q, 1), y);
            packed_injective(p, q, 1);
            assert forall|i: int| 0 <= i < s.len() implies s[i] == t[i] by {
                assert(p[i] == q[i]);
            }
            assert(s =~= t);
        },
        (NbtModel::IntArray(s), NbtModel::IntArray(t)) => {
            let p = Seq::new(s.len(), |i: int| s[i] as int);
            let q = Seq::new(t.len(), |i: int| t[i] as int);
            split_counted(0x09, s.len(), packed(p, 4), x, t.len(), packed(q, 4), y);
            packed_len(p, 4);
            packed_len(q, 4);
            split_equal(packed(p, 4), x, packed(q, 4), y);
            packed_injective(p, q, 4);
            assert forall|i: int| 0 <= i < s.len() implies s[i] == t[i] by {
                assert(p[i] == q[i]);
            }
            assert(s =~= t);
        },
        (NbtModel::LongArray(s), NbtModel::LongArray(t)) => {
            let p = Seq::new(s.len(), |i: int| s[i] as int);
            let q = Seq::new(t.len(), |i: int| t[i] as int);
            split_counted(0x0A, s.len(), packed(p, 8), x, t.len(), packed(q, 8), y);
            packed_len(p, 8);
            packed_len(q, 8);
            split_equal(packed(p, 8), x, packed(q, 8), y);
            packed_injective(p, q, 8);
            assert forall|i: int| 0 <= i < s.len() implies s[i] == t[i] by {
                assert(p[i] == q[i]);
            }
            assert(s =~= t);
        },
        (NbtModel::List(s), NbtModel::List(t)) => {
            split_counted(0x0B, s.len(), canonical_items(s, s.len()), x, t.len(), canonical_items(t, t.len()), y);
            items_prefix_free(s, x, t, y, s.len());
            assert(s =~= t);
        },
        (NbtModel::Compound(m), NbtModel::Compound(k)) => {
            let p = sorted_keys(m);
            let q = sorted_keys(k);
            sorted_keys_listed(m);
            sorted_keys_listed(k);
            split_counted(
                0x0C,
                p.len(),
                canonical_entries(m, p, p.len()),
                x,
                q.len(),
                canonical_entries(k, q, q.len()),
                y,
            );
            assert forall|i: int| 0 <= i < p.len() implies m.dom().contains(#[trigger] p[i]) by {
                assert(p.contains(p[i]));
            }
            assert forall|i: int| 0 <= i < q.len() implies k.dom().contains(#[trigger] q[i]) by {
                assert(q.contains(q[i]));
            }
            entries_prefix_free(m, p, x, k, q, y, p.len());
            assert(p =~= q);
            assert(m.dom() =~= k.dom()) by {
                assert forall|c: Seq<u8>| m.dom().contains(c) == k.dom().contains(c) by {
                    assert(p.contains(c) == m.dom().contains(c));
                    assert(q.contains(c) == k.dom().contains(c));
                }
            }
            assert forall|c: Seq<u8>| #[trigger] m.dom().contains(c) implies m[c] == k[c] by {
                assert(p.contains(c));
                let i = choose|i: int| 0 <= i < p.len() && p[i] == c;
                assert(m[p[i]] == k[p[i]]);
            }
            assert(m =~= k);
        },
        _ => {},
    }
}

proof fn split_scalar(tag: u8, v: int, x: Seq<u8>, w: int, y: Seq<u8>, n: nat)
    requires
        seq![tag] + be_bytes(v, n) + x == seq![tag] + be_bytes(w, n) + y,
        -pow256(n) < v - w < pow256(n),
    ensures
        v == w,
        x == y,
{
    assert(seq![tag] + be_bytes(v, n) + x =~= seq![tag] + (be_bytes(v, n) + x));
    assert(seq![tag] + be_bytes(w, n) + y =~= seq![tag] + (be_bytes(w, n) + y));
    split_equal(seq![tag], be_bytes(v, n) + x, seq![tag], be_bytes(w, n) + y);
    split_number(v, x, w, y, n);
}

proof fn items_prefix_free(s: Seq<NbtModel>, x: Seq<u8>, t: Seq<NbtModel>, y: Seq<u8>, n: nat)
    requires
        n <= s.len(),
        n <= t.len(),
        forall|i: int| 0 <= i < s.len() ==> encodable(#[trigger] s[i]),
        forall|i: int| 0 <= i < t.len() ==> encodable(#[trigger] t[i]),
        canonical_items(s, n) + x == canonical_items(t, n) + y,
    ensures
        forall|i: int| 0 <= i < n ==> s[i] == t[i],
        x == y,
    decreases s, n,
{
    if n == 0 {
        assert(canonical_items(s, n) + x =~= x);
        assert(canonical_items(t, n) + y =~= y);
    } else {
        let m = (n - 1) as nat;
        let c = canonical(s[n - 1]);
        let d = canonical(t[n - 1]);
        assert(canonical_items(s, n) + x =~= canonical_items(s, m) + (c + x));
        assert(canonical_items(t, n) + y =~= canonical_items(t, m) + (d + y));
        items_prefix_free(s, c + x, t, d + y, m);
        canonical_prefix_free(s[n - 1], x, t[n - 1], y);
    }
}

proof fn entries_prefix_free(
    m: Map<Seq<u8>, NbtModel>,
    p: Seq<Seq<u8>>,
    x: Seq<u8>,
    k: Map<Seq<u8>, NbtModel>,
    q: Seq<Seq<u8>>,
    y: Seq<u8>,
    n: nat,
)
    requires
        encodable(NbtModel::Compound(m)),
        encodable(NbtModel::Compound(k)),
        n <= p.len(),
        n <= q.len(),
        forall|i: int| 0 <= i < p.len() ==> m.dom().contains(#[trigger] p[i]),
        forall|i: int| 0 <= i < q.len() ==> k.dom().contains(#[trigger] q[i]),
        canonical_entries(m, p, n) + x == canonical_entries(k, q, n) + y,
    ensures
        forall|i: int| 0 <= i < n ==> p[i] == q[i] && m[p[i]] == k[q[i]],
        x == y,
    decreases m, n,
{
    if n == 0 {
        assert(canonical_entries(m, p, n) + x =~= x);
        assert(canonical_entries(k, q, n) + y =~= y);
    } else {
        let l = (n - 1) as nat;
        let a = p[n - 1];
        let b = q[n - 1];
        let c = canonical(m[a]);
        let d = canonical(k[b]);
        assert(m.dom().contains(a) && k.dom().contains(b));
        assert(canonical_entries(m, p, n) + x =~= canonical_entries(m, p, l) + (canonical_key(a) + (c + x)));
        assert(canonical_entries(k, q, n) + y =~= canonical_entries(k, q, l) + (canonical_key(b) + (d + y)));
        entries_prefix_free(m, p, canonical_key(a) + (c + x), k, q, canonical_key(b) + (d + y), l);
        reveal_with_fuel(pow256, 5);
        assert(canonical_key(a) + (c + x) =~= be_bytes(a.len() as int, 4) + (a + (c + x)));
        assert(canonical_key(b) + (d + y) =~= be_bytes(b.len() as int, 4) + (b + (d + y)));
        split_number(a.len() as int, a + (c + x), b.len() as int, b + (d + y), 4);
        split_equal(a, c + x, b, d + y);
        canonical_prefix_free(m[a], x, k[b], y);
    }
}

/// Values whose lengths fit in 32 bits have different encodings where they differ: in type, in
/// content or in structure. So the hash of the encoding tells them apart up to collisions.
pub proof fn canonical_is_injective(a: NbtModel, b: NbtModel)
    requires
        encodable(a),
        encodable(b),
        canonical(a) == canonical(b),
    ensures
        a == b,
{
    canonical_prefix_free(a, Seq::empty(), b, Seq::empty());
}

/// The order in which a compound's entries are written leaves no trace: the same entries in
/// any order stand for the same value, and have the same encoding.
pub proof fn entry_order_is_irrelevant(a: Seq<(Seq<u8>, NbtModel)>, b: Seq<(Seq<u8>, NbtModel)>)
    requires
        distinct_keys(a),
        distinct_keys(b),
        forall|e: (Seq<u8>, NbtModel)| a.contains(e) == b.contains(e),
    ensures
        last_map(a) == last_map(b),
        canonical(NbtModel::Compound(last_map(a))) == canonical(NbtModel::Compound(last_map(b))),
{
    assert forall|k: Seq<u8>| last_map(a).dom().contains(k) == last_map(b).dom().contains(k) by {
        if last_map(a).dom().contains(k) {
            entry_carries_over(a, b, k);
        }
        if last_map(b).dom().contains(k) {
            entry_carries_over(b, a, k);
        }
    }
    assert forall|k: Seq<u8>| #[trigger] last_map(a).dom().contains(k) implies last_map(a)[k]
        == last_map(b)[k] by {
        entry_carries_over(a, b, k);
    }
    assert(last_map(a) =~= last_map(b));
}

proof fn entry_carries_over(a: Seq<(Seq<u8>, NbtModel)>, b: Seq<(Seq<u8>, NbtModel)>, k: Seq<u8>)
    requires
        distinct_keys(a),
        distinct_keys(b),
        forall|e: (Seq<u8>, NbtModel)| a.contains(e) == b.contains(e),
        last_map(a).dom().contains(k),
    ensures
        last_map(b).dom().contains(k),
        last_map(b)[k] == last_map(a)[k],
{
    last_map_dom(a);
    let i = choose|i: int| 0 <= i < a.len() && (#[trigger] a[i]).0 == k;
    assert(a.contains(a[i]));
    let j = choose|j: int| 0 <= j < b.len() && b[j] == a[i];
    last_map_value(a, i);
    last_map_value(b, j);
}

/// The blocks mode looks at the sections' `block_states` alone: chunks that parse, and whose
/// sections agree there, have the same hash, whatever else they hold.
pub proof fn blocks_hash_ignores_the_rest(
    raw_a: Seq<u8>,
    a: Map<Seq<u8>, NbtModel>,
    raw_b: Seq<u8>,
    b: Map<Seq<u8>, NbtModel>,
)
    requires
        nbt_in(raw_a) == Some(NbtModel::Compound(a)),
        nbt_in(raw_b) == Some(NbtModel::Compound(b)),
        same_blocks(a, b),
    ensures
        mode_hash(raw_a, HashMode::Blocks) == mode_hash(raw_b, HashMode::Blocks),
{
    same_blocks_kept(a, b);
}

/// The mode for blocks and block entities looks at `block_entities` too, and at nothing else:
/// chunks that parse, and agree in both, have the same hash.
pub proof fn entities_hash_ignores_the_rest(
    raw_a: Seq<u8>,
    a: Map<Seq<u8>, NbtModel>,
    raw_b: Seq<u8>,
    b: Map<Seq<u8>, NbtModel>,
)
    requires
        nbt_in(raw_a) == Some(NbtModel::Compound(a)),
        nbt_in(raw_b) == Some(NbtModel::Compound(b)),
        same_blocks(a, b),
        same_field(a, b, block_entities_key()),
    ensures
        mode_hash(raw_a, HashMode::BlocksAndEntities) == mode_hash(
            raw_b,
            HashMode::BlocksAndEntities,
        ),
{
    same_blocks_kept(a, b);
}

/// Two compounds hold the same at `key`, or nothing.
pub open spec fn same_field(a: Map<Seq<u8>, NbtModel>, b: Map<Seq<u8>, NbtModel>, key: Seq<u8>) -> bool {
    a.dom().contains(key) == b.dom().contains(key) && (a.dom().contains(key) ==> a[key] == b[key])
}

/// Two sections hold the same `block_states`, or none, or are both no compounds.
pub open spec fn same_section_blocks(a: NbtModel, b: NbtModel) -> bool {
    match (a, b) {
        (NbtModel::Compound(m), NbtModel::Compound(k)) => same_field(m, k, block_states_key()),
        (NbtModel::Compound(_), _) => false,
        (_, NbtModel::Compound(_)) => false,
        _ => true,
    }
}

/// Two chunks hold equally many sections, and the same `block_states` in each.
pub open spec fn same_blocks(a: Map<Seq<u8>, NbtModel>, b: Map<Seq<u8>, NbtModel>) -> bool {
    match (
        field_or(a, sections_key(), NbtModel::List(Seq::empty())),
        field_or(b, sections_key(), NbtModel::List(Seq::empty())),
    ) {
        (NbtModel::List(s), NbtModel::List(t)) => {
            &&& s.len() == t.len()
            &&& forall|i: int| 0 <= i < s.len() ==> same_section_blocks(#[trigger] s[i], t[i])
        },
        (NbtModel::List(_), _) => false,
        (_, NbtModel::List(_)) => false,
        _ => true,
    }
}

proof fn same_blocks_kept(a: Map<Seq<u8>, NbtModel>, b: Map<Seq<u8>, NbtModel>)
    requires
        same_blocks(a, b),
    ensures
        all_section_blocks(field_or(a, sections_key(), NbtModel::List(Seq::empty())))
            == all_section_blocks(field_or(b, sections_key(), NbtModel::List(Seq::empty()))),
{
    let x = field_or(a, sections_key(), NbtModel::List(Seq::empty()));
    let y = field_or(b, sections_key(), NbtModel::List(Seq::empty()));
    if let (NbtModel::List(s), NbtModel::List(t)) = (x, y) {
        assert forall|i: int| 0 <= i < s.len() implies section_blocks(s[i]) == section_blocks(t[i]) by {
            assert(same_section_blocks(s[i], t[i]));
        }
        assert(all_section_blocks(x)->List_0 =~= all_section_blocks(y)->List_0);
    }
}

/// The finer modes see all that they keep: where that differs, and is of a size the encoding
/// can count, different bytes are hashed.
pub proof fn different_content_shows(a: NbtModel, b: NbtModel, mode: HashMode)
    requires
        mode != HashMode::Raw,
        encodable(kept(a, mode)),
        encodable(kept(b, mode)),
        kept(a, mode) != kept(b, mode),
    ensures
        canonical(kept(a, mode)) != canonical(kept(b, mode)),
{
    if canonical(kept(a, mode)) == canonical(kept(b, mode)) {
        canonical_is_injective(kept(a, mode), kept(b, mode));
    }
}

/// The raw mode looks at all bytes and at nothing else.
pub proof fn raw_hash_is_of_all_bytes(raw: Seq<u8>)
    ensures
        mode_hash(raw, HashMode::Raw) == chunk_hash(raw),
{
}

/// An empty chunk hashes to zeros in every mode.
pub proof fn empty_chunk_hashes_to_zeros(mode: HashMode)
    ensures
        mode_hash(Seq::empty(), mode) == Seq::new(16, |i: int| 0u8),
{
}

/// Bytes that do not parse are hashed as they are, as in the raw mode.
pub proof fn unparsed_chunk_hashes_raw(raw: Seq<u8>, mode: HashMode)
    requires
        nbt_in(raw) is None,
    ensures
        mode_hash(raw, mode) == mode_hash(raw, HashMode::Raw),
{
}

} // verus!
