//! Chunk hashes of a chosen grain: the raw bytes, the blocks, or the blocks and block entities.
//!
//! The two finer grains parse the chunk's NBT, keep only the chosen fields, and hash a canonical
//! encoding of what was kept, so that entities, light, biomes and timestamps leave no trace.
use vstd::prelude::*;
use vstd::utf8::encode_utf8;

use crate::bytes::{be_bytes, push_all, push_be_signed, push_be_unsigned};
use crate::hash::{chunk_hash, hash_chunk, Hash128};
use crate::nbt::{entry_models, fastnbt_parsed, item_models, nbt_in, parse_nbt, utf8_bytes, Nbt, NbtModel};
use crate::order::{
    byte_order, byte_order_strict, bytes_before_irreflexive, firsts, index_of_map, is_index, is_last, keys_at, keys_of,
    last_index, last_map, last_map_dom, listing, listing_is, stand_bytes, Keyed, Standing,
};

verus! {

/// What of a chunk is hashed.
#[derive(Clone, Copy, Debug, PartialEq, Eq, Structural)]
pub enum HashMode {
    /// All raw bytes: any change shows.
    Raw,
    /// Only `sections[].block_states`.
    Blocks,
    /// The blocks, and `block_entities`.
    BlocksAndEntities,
}

impl HashMode {
    /// The mode's name.
    pub fn name(&self) -> (r: &'static str)
        ensures
            r@ == match *self {
                HashMode::Raw => "raw"@,
                HashMode::Blocks => "blocks"@,
                HashMode::BlocksAndEntities => "blocks+entities"@,
            },
    {
        match self {
            HashMode::Raw => "raw",
            HashMode::Blocks => "blocks",
            HashMode::BlocksAndEntities => "blocks+entities",
        }
    }
}

// ---- the canonical encoding ----

/// The numbers one after the other, each in `width` bytes.
pub open spec fn packed(values: Seq<int>, width: nat) -> Seq<u8>
    decreases values.len(),
{
    if values.len() == 0 {
        Seq::empty()
    } else {
        packed(values.drop_last(), width) + be_bytes(values.last(), width)
    }
}

/// A tag, a 32-bit length, and what it counts.
pub open spec fn counted(tag: u8, len: nat, payload: Seq<u8>) -> Seq<u8> {
    seq![tag] + be_bytes(len as int, 4) + payload
}

/// The keys of a compound in the order of their bytes.
pub open spec fn sorted_keys(m: Map<Seq<u8>, NbtModel>) -> Seq<Seq<u8>> {
    listing(m.dom(), byte_order())
}

/// The canonical encoding: each value behind a tag of its type, numbers big-endian, lengths
/// in front, compounds in the order of their keys.
pub open spec fn canonical(v: NbtModel) -> Seq<u8>
    decreases v, 0nat,
{
    match v {
        NbtModel::Byte(x) => seq![0x01u8] + be_bytes(x as int, 1),
        NbtModel::Short(x) => seq![0x02u8] + be_bytes(x as int, 2),
        NbtModel::Int(x) => seq![0x03u8] + be_bytes(x as int, 4),
        NbtModel::Long(x) => seq![0x04u8] + be_bytes(x as int, 8),
        NbtModel::Float(b) => seq![0x05u8] + be_bytes(b as int, 4),
        NbtModel::Double(b) => seq![0x06u8] + be_bytes(b as int, 8),
        NbtModel::String(s) => counted(0x07, s.len(), s),
        NbtModel::ByteArray(a) => counted(
            0x08,
            a.len(),
            packed(Seq::new(a.len(), |i: int| a[i] as int), 1),
        ),
        NbtModel::IntArray(a) => counted(
            0x09,
            a.len(),
            packed(Seq::new(a.len(), |i: int| a[i] as int), 4),
        ),
        NbtModel::LongArray(a) => counted(
            0x0A,
            a.len(),
            packed(Seq::new(a.len(), |i: int| a[i] as int), 8),
        ),
        NbtModel::List(items) => counted(0x0B, items.len(), canonical_items(items, items.len())),
        NbtModel::Compound(m) => counted(
            0x0C,
            sorted_keys(m).len(),
            canonical_entries(m, sorted_keys(m), sorted_keys(m).len()),
        ),
    }
}

/// The encodings of the first `n` items.
pub open spec fn canonical_items(items: Seq<NbtModel>, n: nat) -> Seq<u8>
    decreases items, n,
{
    if n == 0 || n > items.len() {
        Seq::empty()
    } else {
        canonical_items(items, (n - 1) as nat) + canonical(items[n - 1])
    }
}

/// A key as the encoding writes it: its length and its bytes.
pub open spec fn canonical_key(k: Seq<u8>) -> Seq<u8> {
    be_bytes(k.len() as int, 4) + k
}

/// The encodings of the entries of `m` at the first `n` of `keys`.
pub open spec fn canonical_entries(m: Map<Seq<u8>, NbtModel>, keys: Seq<Seq<u8>>, n: nat) -> Seq<u8>
    decreases m, n,
{
    if n == 0 || n > keys.len() || !m.dom().finite() || !m.dom().contains(keys[n - 1]) {
        Seq::empty()
    } else {
        canonical_entries(m, keys, (n - 1) as nat) + canonical_key(keys[n - 1]) + canonical(
            m[keys[n - 1]],
        )
    }
}

impl Keyed for (Vec<u8>, Nbt) {
    type Key = Seq<u8>;

    open spec fn key(&self) -> Seq<u8> {
        self.0@
    }

    open spec fn order() -> spec_fn(Seq<u8>, Seq<u8>) -> bool {
        byte_order()
    }

    proof fn order_is_strict() {
        byte_order_strict();
    }

    fn stand(&self, other: &Self) -> (r: Standing) {
        stand_bytes(self.0.as_slice(), other.0.as_slice())
    }
}

/// Encodes `v` as bytes that depend on its content alone, not on the order of its entries.
pub fn canonical_bytes(v: &Nbt) -> (r: Vec<u8>)
    ensures
        r@ == canonical(v@),
{
    let mut buf: Vec<u8> = Vec::new();
    write_canonical(v, &mut buf);
    assert(buf@ =~= canonical(v@));
    buf
}

fn write_canonical(v: &Nbt, buf: &mut Vec<u8>)
    ensures
        final(buf)@ == old(buf)@ + canonical(v@),
    decreases v,
{
    let ghost start = buf@;
    match v {
        Nbt::Byte(x) => {
            buf.push(0x01);
            push_be_signed(buf, *x as i64, 1);
        },
        Nbt::Short(x) => {
            buf.push(0x02);
            push_be_signed(buf, *x as i64, 2);
        },
        Nbt::Int(x) => {
            buf.push(0x03);
            push_be_signed(buf, *x as i64, 4);
        },
        Nbt::Long(x) => {
            buf.push(0x04);
            push_be_signed(buf, *x, 8);
        },
        Nbt::Float(b) => {
            buf.push(0x05);
            push_be_unsigned(buf, *b as u64, 4);
        },
        Nbt::Double(b) => {
            buf.push(0x06);
            push_be_unsigned(buf, *b, 8);
        },
        Nbt::String(s) => {
            write_count(buf, 0x07, s.len());
            push_all(buf, s.as_slice());
        },
        Nbt::ByteArray(a) => {
            write_count(buf, 0x08, a.len());
            let ghost head = buf@;
            let ghost all = Seq::new(a@.len(), |i: int| a@[i] as int);
            let mut i: usize = 0;
            while i < a.len()
                invariant
                    i <= a@.len(),
                    all == Seq::new(a@.len(), |i: int| a@[i] as int),
                    buf@ == head + packed(all.take(i as int), 1),
                decreases a@.len() - i,
            {
                push_be_signed(buf, a[i] as i64, 1);
                i += 1;
                proof {
                    packed_step(all, i as int, 1);
                }
            }
            assert(all.take(i as int) =~= all);
        },
        Nbt::IntArray(a) => {
            write_count(buf, 0x09, a.len());
            let ghost head = buf@;
            let ghost all = Seq::new(a@.len(), |i: int| a@[i] as int);
            let mut i: usize = 0;
            while i < a.len()
                invariant
                    i <= a@.len(),
                    all == Seq::new(a@.len(), |i: int| a@[i] as int),
                    buf@ == head + packed(all.take(i as int), 4),
                decreases a@.len() - i,
            {
                push_be_signed(buf, a[i] as i64, 4);
                i += 1;
                proof {
                    packed_step(all, i as int, 4);
                }
            }
            assert(all.take(i as int) =~= all);
        },
        Nbt::LongArray(a) => {
            write_count(buf, 0x0A, a.len());
            let ghost head = buf@;
            let ghost all = Seq::new(a@.len(), |i: int| a@[i] as int);
            let mut i: usize = 0;
            while i < a.len()
                invariant
                    i <= a@.len(),
                    all == Seq::new(a@.len(), |i: int| a@[i] as int),
                    buf@ == head + packed(all.take(i as int), 8),
                decreases a@.len() - i,
            {
                push_be_signed(buf, a[i], 8);
                i += 1;
                proof {
                    packed_step(all, i as int, 8);
                }
            }
            assert(all.take(i as int) =~= all);
        },
        Nbt::List(items) => {
            write_count(buf, 0x0B, items.len());
            let ghost head = buf@;
            let ghost models = item_models(items@);
            let mut i: usize = 0;
            while i < items.len()
                invariant
                    i <= items@.len(),
                    *v == Nbt::List(*items),
                    models == item_models(items@),
                    buf@ == head + canonical_items(models, i as nat),
                decreases items@.len() - i,
            {
                assert(decreases_to!(*v => v->List_0));
                assert(decreases_to!(items@ => items@[i as int]));
                write_canonical(&items[i], buf);
                i += 1;
                assert(buf@ =~= head + canonical_items(models, i as nat));
            }
        },
        Nbt::Compound(entries) => {
            buf.push(0x0C);
            let idx = last_index(entries);
            let ghost pairs = entry_models(entries@);
            let ghost m = last_map(pairs);
            let ghost keys = keys_at(keys_of(entries@), idx@);
            proof {
                assert(keys_of(entries@) =~= firsts(pairs));
                index_of_map(idx@, pairs, byte_order());
                byte_order_strict();
                listing_is(keys, m.dom(), byte_order());
                last_map_dom(pairs);
            }
            push_be_unsigned(buf, idx.len() as u64, 4);
            let ghost head = buf@;
            let mut i: usize = 0;
            while i < idx.len()
                invariant
                    i <= idx@.len(),
                    *v == Nbt::Compound(*entries),
                    pairs == entry_models(entries@),
                    m == last_map(pairs),
                    m.dom().finite(),
                    keys == keys_at(keys_of(entries@), idx@),
                    keys_of(entries@) == firsts(pairs),
                    is_index(idx@, firsts(pairs), byte_order()),
                    buf@ == head + canonical_entries(m, keys, i as nat),
                decreases idx@.len() - i,
            {
                let at: usize = idx[i];
                proof {
                    index_of_map(idx@, pairs, byte_order());
                    assert(is_last(firsts(pairs), idx@[i as int] as int));
                    assert(keys.contains(keys[i as int]));
                }
                let entry = &entries[at];
                push_be_unsigned(buf, entry.0.len() as u64, 4);
                push_all(buf, entry.0.as_slice());
                assert(decreases_to!(*v => v->Compound_0));
                assert(decreases_to!(entries@ => entries@[at as int]));
                assert(decreases_to!(entries@[at as int] => entries@[at as int].1));
                write_canonical(&entry.1, buf);
                i += 1;
                assert(buf@ =~= head + canonical_entries(m, keys, i as nat));
            }
        },
    }
    assert(buf@ =~= start + canonical(v@));
}

/// Appends a tag and a 32-bit length.
fn write_count(buf: &mut Vec<u8>, tag: u8, len: usize)
    ensures
        final(buf)@ == old(buf)@ + seq![tag] + be_bytes(len as int, 4),
{
    buf.push(tag);
    push_be_unsigned(buf, len as u64, 4);
    assert(buf@ =~= old(buf)@ + seq![tag] + be_bytes(len as int, 4));
}

proof fn packed_step(all: Seq<int>, i: int, width: nat)
    requires
        0 < i <= all.len(),
    ensures
        packed(all.take(i), width) == packed(all.take(i - 1), width) + be_bytes(all[i - 1], width),
{
    assert(all.take(i).drop_last() =~= all.take(i - 1));
}

// ---- what the finer modes keep ----

pub open spec fn sections_key() -> Seq<u8> {
    encode_utf8("sections"@)
}

pub open spec fn block_states_key() -> Seq<u8> {
    encode_utf8("block_states"@)
}

pub open spec fn block_entities_key() -> Seq<u8> {
    encode_utf8("block_entities"@)
}

/// The value at `key`, or `missing` where there is none.
pub open spec fn field_or(m: Map<Seq<u8>, NbtModel>, key: Seq<u8>, missing: NbtModel) -> NbtModel {
    if m.dom().contains(key) {
        m[key]
    } else {
        missing
    }
}

/// A section reduced to its `block_states`: an empty compound stands for missing ones, and an
/// empty list for a section that is no compound.
pub open spec fn section_blocks(section: NbtModel) -> NbtModel {
    match section {
        NbtModel::Compound(m) => NbtModel::Compound(
            Map::empty().insert(
                block_states_key(),
                field_or(m, block_states_key(), NbtModel::Compound(Map::empty())),
            ),
        ),
        _ => NbtModel::List(Seq::empty()),
    }
}

/// All sections reduced to their `block_states`.
pub open spec fn all_section_blocks(sections: NbtModel) -> NbtModel {
    match sections {
        NbtModel::List(items) => NbtModel::List(
            Seq::new(items.len(), |i: int| section_blocks(items[i])),
        ),
        _ => NbtModel::List(Seq::empty()),
    }
}

/// What `mode` keeps of a chunk's root.
pub open spec fn kept(root: NbtModel, mode: HashMode) -> NbtModel {
    match root {
        NbtModel::Compound(m) => {
            let sections = field_or(m, sections_key(), NbtModel::List(Seq::empty()));
            let blocks = Map::empty().insert(sections_key(), all_section_blocks(sections));
            if mode == HashMode::BlocksAndEntities {
                let entities = field_or(m, block_entities_key(), NbtModel::List(Seq::empty()));
                NbtModel::Compound(blocks.insert(block_entities_key(), entities))
            } else {
                NbtModel::Compound(blocks)
            }
        },
        _ => NbtModel::Compound(Map::empty()),
    }
}

/// The hash of a chunk whose bytes parse to `parsed`.
pub open spec fn parsed_hash(raw: Seq<u8>, parsed: Option<NbtModel>, mode: HashMode) -> Seq<u8> {
    if raw.len() == 0 || mode == HashMode::Raw {
        chunk_hash(raw)
    } else {
        match parsed {
            Some(root) => chunk_hash(canonical(kept(root, mode))),
            None => chunk_hash(raw),
        }
    }
}

/// The hash of a chunk's bytes in the given mode.
pub open spec fn mode_hash(raw: Seq<u8>, mode: HashMode) -> Seq<u8> {
    parsed_hash(raw, nbt_in(raw), mode)
}

/// `found` is what `m` holds at `key`.
pub open spec fn is_field(found: Option<Nbt>, m: Map<Seq<u8>, NbtModel>, key: Seq<u8>) -> bool {
    match found {
        Some(value) => m.dom().contains(key) && m[key] == value@,
        None => !m.dom().contains(key),
    }
}

/// Parts the entries of a compound into the value at `key` and the rest.
fn take_field(entries: Vec<(Vec<u8>, Nbt)>, key: &[u8]) -> (r: (Option<Nbt>, Vec<(Vec<u8>, Nbt)>))
    ensures
        is_field(r.0, last_map(entry_models(entries@)), key@),
        last_map(entry_models(r.1@)) == last_map(entry_models(entries@)).remove(key@),
{
    let ghost all = entries@;
    let mut found: Option<Nbt> = None;
    let mut rest: Vec<(Vec<u8>, Nbt)> = Vec::new();
    assert(entry_models(rest@) =~= Seq::empty());
    assert(entry_models(all.take(0)) =~= Seq::empty());
    assert(last_map(entry_models(rest@)) =~= last_map(entry_models(all.take(0))).remove(key@));
    for entry in it: entries
        invariant
            it.seq() == all,
            is_field(found, last_map(entry_models(all.take(it.index()))), key@),
            last_map(entry_models(rest@)) == last_map(entry_models(all.take(it.index()))).remove(
                key@,
            ),
    {
        let ghost n = it.index();
        let ghost m0 = last_map(entry_models(all.take(n)));
        let ghost m1 = last_map(entry_models(all.take(n + 1)));
        let ghost old_rest = rest@;
        proof {
            assert(entry == all[n]);
            assert(entry_models(all.take(n + 1)).drop_last() =~= entry_models(all.take(n)));
            assert(m1 == m0.insert(entry.0@, entry.1@));
        }
        match stand_bytes(entry.0.as_slice(), key) {
            Standing::Same => {
                found = Some(entry.1);
                assert(m1.remove(key@) =~= m0.remove(key@));
            },
            _ => {
                proof {
                    bytes_before_irreflexive(key@);
                }
                rest.push(entry);
                assert(entry_models(rest@).drop_last() =~= entry_models(old_rest));
                assert(m1.remove(key@) =~= m0.remove(key@).insert(entry.0@, entry.1@));
            },
        }
    }
    assert(all.take(all.len() as int) =~= all);
    (found, rest)
}

/// Reduces a section to its `block_states`.
fn extract_section(section: Nbt) -> (r: Nbt)
    ensures
        r@ == section_blocks(section@),
{
    match section {
        Nbt::Compound(entries) => {
            let (found, _) = take_field(entries, "block_states".as_bytes());
            let states = match found {
                Some(states) => states,
                None => empty_compound(),
            };
            single_entry("block_states", states)
        },
        _ => empty_list(),
    }
}

fn empty_list() -> (r: Nbt)
    ensures
        r@ == NbtModel::List(Seq::empty()),
{
    let items: Vec<Nbt> = Vec::new();
    assert(item_models(items@) =~= Seq::empty());
    Nbt::List(items)
}

fn empty_compound() -> (r: Nbt)
    ensures
        r@ == NbtModel::Compound(Map::empty()),
{
    let entries: Vec<(Vec<u8>, Nbt)> = Vec::new();
    assert(entry_models(entries@) =~= Seq::empty());
    Nbt::Compound(entries)
}

/// A compound with one entry.
fn single_entry(key: &str, value: Nbt) -> (r: Nbt)
    ensures
        r@ == NbtModel::Compound(Map::empty().insert(encode_utf8(key@), value@)),
{
    let entries: Vec<(Vec<u8>, Nbt)> = vec![(utf8_bytes(key), value)];
    proof {
        let pairs = entry_models(entries@);
        assert(pairs.drop_last() =~= Seq::empty());
        assert(last_map(pairs) == last_map(pairs.drop_last()).insert(encode_utf8(key@), value@));
    }
    Nbt::Compound(entries)
}

/// Reduces every section to its `block_states`.
fn extract_sections_blocks(sections: Nbt) -> (r: Nbt)
    ensures
        r@ == all_section_blocks(sections@),
{
    match sections {
        Nbt::List(list) => {
            let ghost all = list@;
            let mut out: Vec<Nbt> = Vec::with_capacity(list.len());
            for section in it: list
                invariant
                    it.seq() == all,
                    out@.len() == it.index(),
                    forall|j: int|
                        0 <= j < out@.len() ==> (#[trigger] out@[j])@ == section_blocks(all[j]@),
            {
                out.push(extract_section(section));
            }
            proof {
                let items = item_models(all);
                assert(item_models(out@) =~= Seq::new(items.len(), |i: int| section_blocks(items[i])));
            }
            Nbt::List(out)
        },
        _ => empty_list(),
    }
}

/// Reduces a chunk's root to what `mode` keeps.
pub fn extract(root: Nbt, mode: HashMode) -> (r: Nbt)
    ensures
        r@ == kept(root@, mode),
{
    match root {
        Nbt::Compound(entries) => {
            let ghost m = last_map(entry_models(entries@));
            let (found, rest) = take_field(entries, "sections".as_bytes());
            let sections = match found {
                Some(sections) => sections,
                None => empty_list(),
            };
            let blocks = extract_sections_blocks(sections);
            let mut out: Vec<(Vec<u8>, Nbt)> = vec![(utf8_bytes("sections"), blocks)];
            let ghost first = entry_models(out@);
            proof {
                assert(first.drop_last() =~= Seq::empty());
                assert(last_map(first) == last_map(first.drop_last()).insert(
                    sections_key(),
                    blocks@,
                ));
            }
            if mode == HashMode::BlocksAndEntities {
                let (found, _) = take_field(rest, "block_entities".as_bytes());
                let entities = match found {
                    Some(entities) => entities,
                    None => empty_list(),
                };
                proof {
                    keys_differ();
                }
                out.push((utf8_bytes("block_entities"), entities));
                proof {
                    let both = entry_models(out@);
                    assert(both.drop_last() =~= first);
                    assert(last_map(both) == last_map(first).insert(
                        block_entities_key(),
                        entities@,
                    ));
                }
            }
            Nbt::Compound(out)
        },
        _ => empty_compound(),
    }
}

proof fn keys_differ()
    ensures
        sections_key() != block_entities_key(),
{
    reveal_strlit("sections");
    reveal_strlit("block_entities");
    vstd::utf8::is_ascii_chars_encode_utf8("sections"@);
    vstd::utf8::is_ascii_chars_encode_utf8("block_entities"@);
    assert(sections_key().len() == 8);
    assert(block_entities_key().len() == 14);
}

/// The hash of a chunk whose bytes `raw` were parsed to `parsed`.
pub fn hash_parsed_chunk(raw: &[u8], parsed: Option<Nbt>, mode: HashMode) -> (r: Hash128)
    ensures
        r@ == parsed_hash(
            raw@,
            match parsed {
                Some(root) => Some(root@),
                None => None,
            },
            mode,
        ),
{
    if raw.is_empty() || mode == HashMode::Raw {
        return hash_chunk(raw);
    }
    match parsed {
        Some(root) => hash_canonical(&extract(root, mode)),
        None => hash_chunk(raw),
    }
}

/// Computes the hash of a chunk's uncompressed NBT bytes in the given mode.
///
/// An empty chunk hashes to all zeros. Bytes that do not parse are hashed as they are.
pub fn hash_chunk_with_mode(raw: &[u8], mode: HashMode) -> (r: Hash128)
    ensures
        r@ == mode_hash(raw@, mode),
        mode != HashMode::Raw ==> nbt_in(raw@) == fastnbt_parsed(raw@),
{
    if mode == HashMode::Raw {
        return hash_chunk(raw);
    }
    hash_parsed_chunk(raw, parse_nbt(raw), mode)
}

/// The hash of the canonical encoding of `v`.
fn hash_canonical(v: &Nbt) -> (r: Hash128)
    ensures
        r@ == chunk_hash(canonical(v@)),
{
    let bytes = canonical_bytes(v);
    hash_chunk(bytes.as_slice())
}

} // verus!
