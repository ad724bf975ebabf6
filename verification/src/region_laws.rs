//! Laws of the hashes of a region, over the chunks in its slots.
use vstd::prelude::*;

use crate::archive::{ChunkModel, RegionModel};
use crate::block_laws::{agree_for, hash_of_each_mode, region_hash_is_the_digest, same_blocks_same_hash};
use crate::blockhash::{mode_hash, HashMode};
use crate::bytes::be_value;
use crate::hash::{as_hash, joined, region_hash, xxh3_128, Hash128};
use crate::nbt::{fastnbt_parsed, NbtModel};
use crate::scan::{chunk_hashes, region_hashes, slot_hashes};
use crate::scan_laws::{all_chunks_are_recorded, same_slots_same_hashes, slot_record};

verus! {

/// Sixteen bytes are the bytes of a hash.
pub proof fn sixteen_bytes_are_a_hash(bytes: Seq<u8>)
    requires
        bytes.len() == 16,
    ensures
        as_hash(bytes)@ == bytes,
{
    let h: Hash128 = [
        bytes[0], bytes[1], bytes[2], bytes[3], bytes[4], bytes[5], bytes[6], bytes[7], bytes[8], bytes[9], bytes[10],
        bytes[11], bytes[12], bytes[13], bytes[14], bytes[15],
    ];
    assert(h@ =~= bytes);
}

/// 1024 chunks at their places: slot `i` is column `i % 32` of row `i / 32`. The region itself
/// is at coordinates of 32 bits.
pub open spec fn fills_its_place(region: RegionModel) -> bool {
    &&& i32::MIN <= region.x <= i32::MAX
    &&& i32::MIN <= region.z <= i32::MAX
    &&& region.chunks.len() == 1024
    &&& forall|i: int|
        0 <= i < 1024 ==> (#[trigger] region.chunks[i]).x == 32 * region.x + i % 32 && region.chunks[i].z == 32
            * region.z + i / 32
}

/// Each chunk is recorded with its own coordinates and its own hash, in the mode that was asked
/// for; a slot that is empty is not recorded.
pub proof fn chunk_is_recorded_in_its_mode(region: RegionModel, mode: HashMode, i: int) -> (n: int)
    requires
        fills_its_place(region),
        0 <= i < 1024,
        region.chunks[i].raw.len() > 0,
    ensures
        0 <= n < region_hashes(region, mode).chunks.len(),
        region_hashes(region, mode).chunks[n].x == 32 * region.x + i % 32,
        region_hashes(region, mode).chunks[n].z == 32 * region.z + i / 32,
        region_hashes(region, mode).chunks[n].hash@ == mode_hash(region.chunks[i].raw, mode),
{
    let c = slot_record(region, mode, i);
    all_chunks_are_recorded(region, mode, c);
    let records = region_hashes(region, mode).chunks;
    assert(records.contains(c));
    hash_of_each_mode(region.chunks[i].raw, mode);
    sixteen_bytes_are_a_hash(mode_hash(region.chunks[i].raw, mode));
    choose|n: int| 0 <= n < records.len() && records[n] == c
}

/// Each record is of a chunk: of a slot that is not empty, at its coordinates, with its hash in
/// the mode that was asked for.
pub proof fn record_is_of_a_chunk(region: RegionModel, mode: HashMode, n: int) -> (i: int)
    requires
        fills_its_place(region),
        0 <= n < region_hashes(region, mode).chunks.len(),
    ensures
        0 <= i < 1024,
        region.chunks[i].raw.len() > 0,
        region_hashes(region, mode).chunks[n].x == 32 * region.x + i % 32,
        region_hashes(region, mode).chunks[n].z == 32 * region.z + i / 32,
        region_hashes(region, mode).chunks[n].hash@ == mode_hash(region.chunks[i].raw, mode),
{
    let c = region_hashes(region, mode).chunks[n];
    assert(region_hashes(region, mode).chunks.contains(c));
    all_chunks_are_recorded(region, mode, c);
    let i = choose|i: int|
        0 <= i < 1024 && (#[trigger] region.chunks[i]).raw.len() > 0 && slot_record(region, mode, i) == c;
    hash_of_each_mode(region.chunks[i].raw, mode);
    sixteen_bytes_are_a_hash(mode_hash(region.chunks[i].raw, mode));
    i
}

/// The records come in the order of the slots, by rows: no place is recorded twice.
pub proof fn records_come_by_rows(region: RegionModel, mode: HashMode, m: int, n: int)
    requires
        fills_its_place(region),
        0 <= m < n < region_hashes(region, mode).chunks.len(),
    ensures
        ({
            let a = region_hashes(region, mode).chunks[m];
            let b = region_hashes(region, mode).chunks[n];
            a.z < b.z || (a.z == b.z && a.x < b.x)
        }),
{
    crate::scan_laws::chunk_hashes_are_distinct(region, mode, m, n);
}

/// Of however many slots a region has, one more that is not empty is recorded behind the others,
/// with its own coordinates and its own hash in the mode that was asked for; an empty one changes
/// nothing.
pub proof fn slots_are_recorded_one_by_one(chunks: Seq<ChunkModel>, c: ChunkModel, mode: HashMode)
    requires
        i64::MIN <= c.x <= i64::MAX,
        i64::MIN <= c.z <= i64::MAX,
    ensures
        chunk_hashes(Seq::empty(), mode).len() == 0,
        c.raw.len() == 0 ==> chunk_hashes(chunks.push(c), mode) == chunk_hashes(chunks, mode),
        c.raw.len() > 0 ==> {
            let all = chunk_hashes(chunks.push(c), mode);
            &&& all.len() == chunk_hashes(chunks, mode).len() + 1
            &&& all.drop_last() == chunk_hashes(chunks, mode)
            &&& all.last().x == c.x
            &&& all.last().z == c.z
            &&& all.last().hash@ == mode_hash(c.raw, mode)
        },
{
    assert(chunks.push(c).drop_last() =~= chunks);
    if c.raw.len() > 0 {
        hash_of_each_mode(c.raw, mode);
        sixteen_bytes_are_a_hash(mode_hash(c.raw, mode));
        assert(chunk_hashes(chunks.push(c), mode).drop_last() =~= chunk_hashes(chunks, mode));
    }
}

/// The hash of a region is the digest of the hashes of its slots in their order, however many
/// there are, each in the mode that was asked for, and empty slots included. `s` is what is
/// digested.
pub proof fn region_hash_is_of_its_slots(region: RegionModel, mode: HashMode) -> (s: Seq<u8>)
    requires
        i32::MIN <= region.x <= i32::MAX,
        i32::MIN <= region.z <= i32::MAX,
    ensures
        region_hashes(region, mode).x == region.x,
        region_hashes(region, mode).z == region.z,
        region_hashes(region, mode).chunks == chunk_hashes(region.chunks, mode),
        s.len() == 16 * region.chunks.len(),
        forall|i: int|
            0 <= i < region.chunks.len() ==> s.subrange(16 * i, 16 * i + 16) == mode_hash(
                (#[trigger] region.chunks[i]).raw,
                mode,
            ),
        be_value(region_hashes(region, mode).hash@) == xxh3_128(s),
{
    let hashes = slot_hashes(region.chunks, mode);
    let s = joined(hashes);
    region_hash_is_the_digest(hashes, 0, 0);
    sixteen_bytes_are_a_hash(region_hash(hashes));
    assert forall|i: int| 0 <= i < region.chunks.len() implies s.subrange(16 * i, 16 * i + 16) == mode_hash(
        (#[trigger] region.chunks[i]).raw,
        mode,
    ) by {
        let h = mode_hash(region.chunks[i].raw, mode);
        hash_of_each_mode(region.chunks[i].raw, mode);
        sixteen_bytes_are_a_hash(h);
        assert forall|j: int| 0 <= j < 16 implies s.subrange(16 * i, 16 * i + 16)[j] == h[j] by {
            region_hash_is_the_digest(hashes, i, j);
        }
        assert(s.subrange(16 * i, 16 * i + 16) =~= h);
    }
    s
}

/// Two slots hold the same as far as `mode` looks: both are empty, or their chunks parse and agree
/// in what the mode keeps, or they are the same bytes.
pub open spec fn same_for(mode: HashMode, a: Seq<u8>, b: Seq<u8>) -> bool {
    a == b || (mode != HashMode::Raw && a.len() > 0 && b.len() > 0 && match (
        fastnbt_parsed(a),
        fastnbt_parsed(b),
    ) {
        (Some(NbtModel::Compound(m)), Some(NbtModel::Compound(k))) => agree_for(mode, m, k),
        _ => false,
    })
}

/// A region keeps its hashes while its blocks stay: where two regions at one place hold, slot by
/// slot, chunks that agree in what the mode keeps, their hashes and all chunk hashes are equal.
pub proof fn unchanged_blocks_keep_the_hashes(a: RegionModel, b: RegionModel, mode: HashMode)
    requires
        fills_its_place(a),
        fills_its_place(b),
        a.x == b.x,
        a.z == b.z,
        forall|i: int| 0 <= i < 1024 ==> same_for(mode, (#[trigger] a.chunks[i]).raw, b.chunks[i].raw),
    ensures
        region_hashes(a, mode).hash == region_hashes(b, mode).hash,
        region_hashes(a, mode).chunks == region_hashes(b, mode).chunks,
{
    assert forall|i: int| 0 <= i < 1024 implies slot_hashes(a.chunks, mode)[i] == slot_hashes(b.chunks, mode)[i]
        by {
        let p = a.chunks[i].raw;
        let q = b.chunks[i].raw;
        assert(same_for(mode, p, q));
        if p != q {
            let m = fastnbt_parsed(p)->Some_0->Compound_0;
            let k = fastnbt_parsed(q)->Some_0->Compound_0;
            same_blocks_same_hash(p, m, q, k, mode);
        }
    }
    assert(slot_hashes(a.chunks, mode) =~= slot_hashes(b.chunks, mode));
    assert forall|i: int| 0 <= i < 1024 implies ((#[trigger] a.chunks[i]).raw.len() == 0) == (
    b.chunks[i].raw.len() == 0) by {
        assert(same_for(mode, a.chunks[i].raw, b.chunks[i].raw));
    }
    same_slots_same_hashes(a, b, mode);
}

/// A change in one slot shows: where the hashes of a slot differ, the regions digest different
/// bytes, `r.0` and `r.1`.
pub proof fn changed_slot_shows(a: RegionModel, b: RegionModel, mode: HashMode, i: int) -> (r: (
    Seq<u8>,
    Seq<u8>,
))
    requires
        fills_its_place(a),
        fills_its_place(b),
        0 <= i < 1024,
        mode_hash(a.chunks[i].raw, mode) != mode_hash(b.chunks[i].raw, mode),
    ensures
        r.0 != r.1,
        be_value(region_hashes(a, mode).hash@) == xxh3_128(r.0),
        be_value(region_hashes(b, mode).hash@) == xxh3_128(r.1),
{
    let s = region_hash_is_of_its_slots(a, mode);
    let t = region_hash_is_of_its_slots(b, mode);
    assert(s.subrange(16 * i, 16 * i + 16) == mode_hash(a.chunks[i].raw, mode));
    assert(t.subrange(16 * i, 16 * i + 16) == mode_hash(b.chunks[i].raw, mode));
    (s, t)
}

} // verus!
