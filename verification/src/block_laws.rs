//! Laws of the hash modes, over the chunks that are parsed: what is kept of them, and what shows.
use vstd::prelude::*;
use vstd::utf8::encode_utf8;

use crate::blockhash::{canonical, kept, mode_hash, parsed_hash, HashMode};
use crate::blockhash_laws::{canonical_is_injective, encodable};
use crate::bytes::{be_bytes_len, be_value};
use crate::bytes_laws::fitting_number_reads_back;
use crate::hash::{chunk_hash, joined, joined_len, region_hash, xxh3_128, Hash128};
use crate::nbt::{fastnbt_parsed, NbtModel};

verus! {

// ---- digests ----

/// A chunk hash is 16 bytes: zeros for an empty chunk, else the number of its digest.
pub proof fn chunk_hash_is_the_digest(raw: Seq<u8>)
    ensures
        chunk_hash(raw).len() == 16,
        raw.len() == 0 ==> forall|i: int| 0 <= i < 16 ==> #[trigger] chunk_hash(raw)[i] == 0,
        raw.len() > 0 ==> be_value(chunk_hash(raw)) == xxh3_128(raw),
{
    be_bytes_len(xxh3_128(raw) as int, 16);
    fitting_number_reads_back(xxh3_128(raw) as int);
}

/// The hashes of a region stand one after the other, 16 bytes each, and the region's hash is the
/// number of their digest.
pub proof fn region_hash_is_the_digest(hashes: Seq<Hash128>, i: int, j: int)
    ensures
        joined(hashes).len() == 16 * hashes.len(),
        0 <= i < hashes.len() && 0 <= j < 16 ==> joined(hashes)[16 * i + j] == hashes[i]@[j],
        region_hash(hashes).len() == 16,
        be_value(region_hash(hashes)) == xxh3_128(joined(hashes)),
{
    joined_len(hashes);
    joined_at(hashes, i, j);
    be_bytes_len(xxh3_128(joined(hashes)) as int, 16);
    fitting_number_reads_back(xxh3_128(joined(hashes)) as int);
}

proof fn joined_at(hashes: Seq<Hash128>, i: int, j: int)
    ensures
        0 <= i < hashes.len() && 0 <= j < 16 ==> joined(hashes)[16 * i + j] == hashes[i]@[j],
    decreases hashes.len(),
{
    if 0 <= i < hashes.len() && 0 <= j < 16 {
        joined_len(hashes.drop_last());
        if i < hashes.len() - 1 {
            joined_at(hashes.drop_last(), i, j);
        }
    }
}

/// Digests that are different numbers are different hashes.
pub proof fn different_digests_are_different_hashes(a: Seq<u8>, b: Seq<u8>)
    requires
        a.len() > 0,
        b.len() > 0,
        xxh3_128(a) != xxh3_128(b),
    ensures
        chunk_hash(a) != chunk_hash(b),
{
    chunk_hash_is_the_digest(a);
    chunk_hash_is_the_digest(b);
}

// ---- what is kept ----

/// A root that is no compound keeps nothing.
pub proof fn other_root_keeps_nothing(root: NbtModel, mode: HashMode)
    requires
        !(root is Compound),
    ensures
        kept(root, mode) is Compound,
        forall|k: Seq<u8>| !(#[trigger] kept(root, mode)->Compound_0.dom().contains(k)),
{
}

/// Of a chunk is kept the field `sections`, and `block_entities` in the mode that is named for
/// them, and nothing else. Where there are no block entities, an empty list is kept.
pub proof fn fields_that_are_kept(a: Map<Seq<u8>, NbtModel>, mode: HashMode, k: Seq<u8>)
    requires
        mode != HashMode::Raw,
    ensures
        kept(NbtModel::Compound(a), mode) is Compound,
        ({
            let out = kept(NbtModel::Compound(a), mode)->Compound_0;
            let entities = encode_utf8("block_entities"@);
            &&& out.dom().contains(k) <==> k == encode_utf8("sections"@) || (k == entities && mode
                == HashMode::BlocksAndEntities)
            &&& mode == HashMode::BlocksAndEntities && a.dom().contains(entities) ==> out[entities] == a[entities]
            &&& mode == HashMode::BlocksAndEntities && !a.dom().contains(entities) ==> out[entities]
                == NbtModel::List(Seq::empty())
        }),
{
}

/// Of the sections is kept a list, as long as they are: of each section that is a compound, its
/// `block_states` just as they are, or an empty compound where it has none, and nothing else; of
/// any other section, an empty list. Where there are no sections, or no list of them, it is empty.
pub proof fn sections_that_are_kept(a: Map<Seq<u8>, NbtModel>, mode: HashMode, i: int)
    ensures
        kept(NbtModel::Compound(a), mode) is Compound,
        ({
            let sections = encode_utf8("sections"@);
            let states = encode_utf8("block_states"@);
            let out = kept(NbtModel::Compound(a), mode)->Compound_0[sections];
            &&& out is List
            &&& !a.dom().contains(sections) || !(a[sections] is List) ==> out->List_0.len() == 0
            &&& a.dom().contains(sections) && a[sections] is List ==> {
                let before = a[sections]->List_0;
                let after = out->List_0;
                &&& after.len() == before.len()
                &&& 0 <= i < before.len() && before[i] is Compound ==> {
                    &&& after[i] is Compound
                    &&& forall|k: Seq<u8>| #[trigger]
                        after[i]->Compound_0.dom().contains(k) <==> k == states
                    &&& before[i]->Compound_0.dom().contains(states) ==> after[i]->Compound_0[states]
                        == before[i]->Compound_0[states]
                    &&& !before[i]->Compound_0.dom().contains(states) ==> after[i]->Compound_0[states]
                        == NbtModel::Compound(Map::empty())
                }
                &&& 0 <= i < before.len() && !(before[i] is Compound) ==> after[i] == NbtModel::List(
                    Seq::empty(),
                )
            }
        }),
{
    key_lengths();
}

proof fn key_lengths()
    ensures
        encode_utf8("sections"@).len() == 8,
        encode_utf8("block_states"@).len() == 12,
        encode_utf8("block_entities"@).len() == 14,
{
    reveal_strlit("sections");
    reveal_strlit("block_states");
    reveal_strlit("block_entities");
    vstd::utf8::is_ascii_chars_encode_utf8("sections"@);
    vstd::utf8::is_ascii_chars_encode_utf8("block_states"@);
    vstd::utf8::is_ascii_chars_encode_utf8("block_entities"@);
}

// ---- what shows ----

/// The sections of a chunk: none where it has no list of them.
pub open spec fn sections_in(a: Map<Seq<u8>, NbtModel>) -> Seq<NbtModel> {
    if a.dom().contains(encode_utf8("sections"@)) && a[encode_utf8("sections"@)] is List {
        a[encode_utf8("sections"@)]->List_0
    } else {
        Seq::empty()
    }
}

/// The `block_states` of a section, an empty compound where it has none; `None` for a section that
/// is no compound.
pub open spec fn states_in(section: NbtModel) -> Option<NbtModel> {
    if !(section is Compound) {
        None
    } else if section->Compound_0.dom().contains(encode_utf8("block_states"@)) {
        Some(section->Compound_0[encode_utf8("block_states"@)])
    } else {
        Some(NbtModel::Compound(Map::empty()))
    }
}

/// The block entities of a chunk, an empty list where it has none.
pub open spec fn entities_in(a: Map<Seq<u8>, NbtModel>) -> NbtModel {
    if a.dom().contains(encode_utf8("block_entities"@)) {
        a[encode_utf8("block_entities"@)]
    } else {
        NbtModel::List(Seq::empty())
    }
}

/// Two chunks have equally many sections, with the same `block_states` in each.
pub open spec fn agree_in_blocks(a: Map<Seq<u8>, NbtModel>, b: Map<Seq<u8>, NbtModel>) -> bool {
    &&& sections_in(a).len() == sections_in(b).len()
    &&& forall|i: int|
        0 <= i < sections_in(a).len() ==> states_in(#[trigger] sections_in(a)[i]) == states_in(sections_in(b)[i])
}

/// Two chunks agree in all that `mode` looks at.
pub open spec fn agree_for(mode: HashMode, a: Map<Seq<u8>, NbtModel>, b: Map<Seq<u8>, NbtModel>) -> bool {
    agree_in_blocks(a, b) && (mode == HashMode::BlocksAndEntities ==> entities_in(a) == entities_in(b))
}

/// Just what a mode looks at shows. Of two chunks that parse to compounds, the finer modes hash
/// the same bytes where these agree in their sections' `block_states`, and in their block entities
/// for the mode that is named for them; where they differ there, different bytes are hashed. `r.0`
/// and `r.1` are these bytes.
pub proof fn just_the_blocks_show(
    raw_a: Seq<u8>,
    a: Map<Seq<u8>, NbtModel>,
    raw_b: Seq<u8>,
    b: Map<Seq<u8>, NbtModel>,
    mode: HashMode,
) -> (r: (Seq<u8>, Seq<u8>))
    requires
        mode != HashMode::Raw,
        raw_a.len() > 0,
        raw_b.len() > 0,
        fastnbt_parsed(raw_a) == Some(NbtModel::Compound(a)),
        fastnbt_parsed(raw_b) == Some(NbtModel::Compound(b)),
        encodable(NbtModel::Compound(a)),
        encodable(NbtModel::Compound(b)),
    ensures
        r.0 == r.1 <==> agree_for(mode, a, b),
        r.0.len() > 0 && r.1.len() > 0,
        mode_hash(raw_a, mode) == chunk_hash(r.0),
        mode_hash(raw_b, mode) == chunk_hash(r.1),
        agree_for(mode, a, b) ==> mode_hash(raw_a, mode) == mode_hash(raw_b, mode),
        xxh3_128(r.0) != xxh3_128(r.1) ==> mode_hash(raw_a, mode) != mode_hash(raw_b, mode),
{
    let p = kept(NbtModel::Compound(a), mode);
    let q = kept(NbtModel::Compound(b), mode);
    let x = canonical(p);
    let y = canonical(q);
    kept_agrees(a, b, mode);
    kept_is_encodable(a, mode);
    kept_is_encodable(b, mode);
    if x == y {
        canonical_is_injective(p, q);
    }
    if xxh3_128(x) != xxh3_128(y) {
        different_digests_are_different_hashes(x, y);
    }
    (x, y)
}

/// What is kept is the same just where two chunks agree.
proof fn kept_agrees(a: Map<Seq<u8>, NbtModel>, b: Map<Seq<u8>, NbtModel>, mode: HashMode)
    requires
        mode != HashMode::Raw,
    ensures
        kept(NbtModel::Compound(a), mode) == kept(NbtModel::Compound(b), mode) <==> agree_for(mode, a, b),
{
    key_lengths();
    let sections = encode_utf8("sections"@);
    let states = encode_utf8("block_states"@);
    let entities = encode_utf8("block_entities"@);
    let p = kept(NbtModel::Compound(a), mode)->Compound_0;
    let q = kept(NbtModel::Compound(b), mode)->Compound_0;
    let s = p[sections]->List_0;
    let t = q[sections]->List_0;
    sections_that_are_kept(a, mode, 0);
    sections_that_are_kept(b, mode, 0);
    fields_that_are_kept(a, mode, entities);
    fields_that_are_kept(b, mode, entities);
    assert(s.len() == sections_in(a).len());
    assert(t.len() == sections_in(b).len());
    if p == q {
        assert forall|i: int| 0 <= i < sections_in(a).len() implies states_in(#[trigger] sections_in(a)[i])
            == states_in(sections_in(b)[i]) by {
            sections_that_are_kept(a, mode, i);
            sections_that_are_kept(b, mode, i);
            assert(s[i] == t[i]);
        }
    }
    if agree_for(mode, a, b) {
        assert forall|i: int| 0 <= i < s.len() implies s[i] == t[i] by {
            sections_that_are_kept(a, mode, i);
            sections_that_are_kept(b, mode, i);
            assert(states_in(sections_in(a)[i]) == states_in(sections_in(b)[i]));
            if sections_in(a)[i] is Compound {
                assert(s[i]->Compound_0 =~= t[i]->Compound_0);
            }
        }
        assert(s =~= t);
        assert forall|k: Seq<u8>| #[trigger] p.dom().contains(k) == q.dom().contains(k) by {
            fields_that_are_kept(a, mode, k);
            fields_that_are_kept(b, mode, k);
        }
        assert forall|k: Seq<u8>| #[trigger] p.dom().contains(k) implies p[k] == q[k] by {
            fields_that_are_kept(a, mode, k);
        }
        assert(p =~= q);
    }
}

/// Chunks that parse and agree in what a mode looks at have the same hash, whatever else they hold.
pub proof fn same_blocks_same_hash(
    raw_a: Seq<u8>,
    a: Map<Seq<u8>, NbtModel>,
    raw_b: Seq<u8>,
    b: Map<Seq<u8>, NbtModel>,
    mode: HashMode,
)
    requires
        mode != HashMode::Raw,
        raw_a.len() > 0,
        raw_b.len() > 0,
        fastnbt_parsed(raw_a) == Some(NbtModel::Compound(a)),
        fastnbt_parsed(raw_b) == Some(NbtModel::Compound(b)),
        agree_for(mode, a, b),
    ensures
        mode_hash(raw_a, mode) == mode_hash(raw_b, mode),
{
    kept_agrees(a, b, mode);
}

/// A block that changed shows: where two chunks that parse have a section at the same place, and
/// its `block_states` differ, the finer modes hash different bytes.
pub proof fn changed_block_states_show(
    raw_a: Seq<u8>,
    a: Map<Seq<u8>, NbtModel>,
    raw_b: Seq<u8>,
    b: Map<Seq<u8>, NbtModel>,
    mode: HashMode,
    i: int,
) -> (r: (Seq<u8>, Seq<u8>))
    requires
        mode != HashMode::Raw,
        raw_a.len() > 0,
        raw_b.len() > 0,
        fastnbt_parsed(raw_a) == Some(NbtModel::Compound(a)),
        fastnbt_parsed(raw_b) == Some(NbtModel::Compound(b)),
        encodable(NbtModel::Compound(a)),
        encodable(NbtModel::Compound(b)),
        0 <= i < sections_in(a).len(),
        i < sections_in(b).len(),
        states_in(sections_in(a)[i]) != states_in(sections_in(b)[i]),
    ensures
        r.0 != r.1,
        r.0.len() > 0 && r.1.len() > 0,
        mode_hash(raw_a, mode) == chunk_hash(r.0),
        mode_hash(raw_b, mode) == chunk_hash(r.1),
{
    just_the_blocks_show(raw_a, a, raw_b, b, mode)
}

/// What is kept of a chunk whose lengths fit has lengths that fit.
proof fn kept_is_encodable(a: Map<Seq<u8>, NbtModel>, mode: HashMode)
    requires
        encodable(NbtModel::Compound(a)),
    ensures
        encodable(kept(NbtModel::Compound(a), mode)),
{
    key_lengths();
    let sections = encode_utf8("sections"@);
    let states = encode_utf8("block_states"@);
    let entities = encode_utf8("block_entities"@);
    let out = kept(NbtModel::Compound(a), mode)->Compound_0;
    let none = NbtModel::List(Seq::empty());
    let bare = NbtModel::Compound(Map::empty());
    assert(encodable(none));
    assert(Map::<Seq<u8>, NbtModel>::empty().dom() =~= Set::empty());
    assert(encodable(bare));
    sections_that_are_kept(a, mode, 0);
    let list = out[sections]->List_0;
    assert forall|i: int| 0 <= i < list.len() implies encodable(#[trigger] list[i]) by {
        let before = a[sections]->List_0;
        sections_that_are_kept(a, mode, i);
        assert(a.dom().contains(sections));
        assert(encodable(a[sections]));
        assert(encodable(before[i]));
        if before[i] is Compound {
            let n = list[i]->Compound_0;
            let m = before[i]->Compound_0;
            assert(n.dom() =~= Set::empty().insert(states));
            if m.dom().contains(states) {
                assert(encodable(m[states]));
            }
            assert(encodable(n[states]));
            assert(encodable(NbtModel::Compound(n)));
        }
    }
    assert(list.len() < 0x1_0000_0000) by {
        if list.len() > 0 {
            assert(a.dom().contains(sections));
            assert(encodable(a[sections]));
        }
    }
    assert(encodable(out[sections]));
    if mode == HashMode::BlocksAndEntities {
        fields_that_are_kept(a, mode, entities);
        if a.dom().contains(entities) {
            assert(encodable(a[entities]));
        }
        assert(encodable(out[entities]));
        assert(out.dom() =~= Set::empty().insert(sections).insert(entities));
    } else {
        assert(out.dom() =~= Set::empty().insert(sections));
    }
}

/// What a chunk hashes to: nothing parsed is looked at in the raw mode; in the finer ones bytes
/// that do not parse are hashed as they are, and of those that do, the encoding of what is kept.
/// An empty chunk hashes to zeros in every mode.
pub proof fn hash_of_each_mode(raw: Seq<u8>, mode: HashMode)
    ensures
        mode_hash(raw, mode).len() == 16,
        raw.len() == 0 ==> forall|i: int| 0 <= i < 16 ==> #[trigger] mode_hash(raw, mode)[i] == 0,
        raw.len() > 0 && (mode == HashMode::Raw || fastnbt_parsed(raw) is None) ==> be_value(
            mode_hash(raw, mode),
        ) == xxh3_128(raw),
        raw.len() > 0 && mode != HashMode::Raw ==> (fastnbt_parsed(raw) matches Some(root) ==> be_value(
            mode_hash(raw, mode),
        ) == xxh3_128(canonical(kept(root, mode)))),
{
    chunk_hash_is_the_digest(raw);
    if let Some(root) = fastnbt_parsed(raw) {
        chunk_hash_is_the_digest(canonical(kept(root, mode)));
    }
}

/// The same of a chunk that was parsed before: what it was parsed to is looked at in the finer
/// modes alone, and not where the chunk is empty.
pub proof fn hash_of_a_parsed_chunk(raw: Seq<u8>, parsed: Option<NbtModel>, mode: HashMode)
    ensures
        parsed_hash(raw, parsed, mode).len() == 16,
        raw.len() == 0 ==> forall|i: int| 0 <= i < 16 ==> #[trigger] parsed_hash(raw, parsed, mode)[i] == 0,
        raw.len() > 0 && (mode == HashMode::Raw || parsed is None) ==> be_value(
            parsed_hash(raw, parsed, mode),
        ) == xxh3_128(raw),
        raw.len() > 0 && mode != HashMode::Raw ==> (parsed matches Some(root) ==> be_value(
            parsed_hash(raw, parsed, mode),
        ) == xxh3_128(canonical(kept(root, mode)))),
{
    chunk_hash_is_the_digest(raw);
    if let Some(root) = parsed {
        chunk_hash_is_the_digest(canonical(kept(root, mode)));
    }
}

} // verus!
