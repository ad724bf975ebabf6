//! Laws of the way from region files to a snapshot.
use vstd::prelude::*;

use crate::anvil::{
    anvil_region, anvil_slot, external_of, externals_among, is_external, needed_externals, ExternalChunk,
};
use crate::archive::{gathered, is_whole, RegionModel};
use crate::blockhash::HashMode;
use crate::cli::ArchiveFormatArg;
use crate::compare::{chunk_map, keyed_chunks, region_coords_of};
use crate::order::{last_map_dom, last_map_value, pair_before, select, select_contains};
use crate::scan::{
    chunk_hashes, file_region, is_sorted_form, read_faults, read_regions, region_hashes, regions_at, slot_hash,
    slot_hashes, takes_name,
};
use crate::snapshot::{ChunkHash, RegionHash, RegionHashModel};
use crate::util::name_coords;

verus! {

// ---- one region ----

/// A region is known by its slots: where all slots have the same hashes, and the same ones are
/// empty, the region has the same hash, and the same chunk hashes.
pub proof fn same_slots_same_hashes(a: RegionModel, b: RegionModel, mode: HashMode)
    requires
        is_whole(a),
        is_whole(b),
        a.x == b.x,
        a.z == b.z,
        slot_hashes(a.chunks, mode) == slot_hashes(b.chunks, mode),
        forall|i: int|
            0 <= i < 1024 ==> ((#[trigger] a.chunks[i]).raw.len() == 0) == (b.chunks[i].raw.len() == 0),
    ensures
        region_hashes(a, mode) == region_hashes(b, mode),
{
    assert forall|i: int| 0 <= i < 1024 implies slot_hash(a.chunks[i], mode) == slot_hash(
        b.chunks[i],
        mode,
    ) by {
        assert(slot_hashes(a.chunks, mode)[i] == slot_hashes(b.chunks, mode)[i]);
    }
    same_prefix(a, b, mode, 1024);
    assert(a.chunks.take(1024) =~= a.chunks);
    assert(b.chunks.take(1024) =~= b.chunks);
}

proof fn same_prefix(a: RegionModel, b: RegionModel, mode: HashMode, n: int)
    requires
        is_whole(a),
        is_whole(b),
        a.x == b.x,
        a.z == b.z,
        0 <= n <= 1024,
        forall|i: int|
            0 <= i < 1024 ==> slot_hash(#[trigger] a.chunks[i], mode) == slot_hash(b.chunks[i], mode),
        forall|i: int|
            0 <= i < 1024 ==> ((#[trigger] a.chunks[i]).raw.len() == 0) == (b.chunks[i].raw.len() == 0),
    ensures
        chunk_hashes(a.chunks.take(n), mode) == chunk_hashes(b.chunks.take(n), mode),
    decreases n,
{
    if n > 0 {
        same_prefix(a, b, mode, n - 1);
        assert(a.chunks.take(n).drop_last() =~= a.chunks.take(n - 1));
        assert(b.chunks.take(n).drop_last() =~= b.chunks.take(n - 1));
        assert(a.chunks.take(n).last() == a.chunks[n - 1]);
        assert(b.chunks.take(n).last() == b.chunks[n - 1]);
    } else {
        assert(a.chunks.take(n) =~= b.chunks.take(n));
    }
}

/// The chunks of a region come in the order of their index, so that no two of them have the
/// same coordinates, and none is empty.
pub proof fn chunk_hashes_are_distinct(region: RegionModel, mode: HashMode, i: int, j: int)
    requires
        is_whole(region),
        i32::MIN <= region.x <= i32::MAX,
        i32::MIN <= region.z <= i32::MAX,
        0 <= i < j < chunk_hashes(region.chunks, mode).len(),
    ensures
        ({
            let a = chunk_hashes(region.chunks, mode)[i];
            let b = chunk_hashes(region.chunks, mode)[j];
            (a.z, a.x) != (b.z, b.x) && (a.z < b.z || (a.z == b.z && a.x < b.x))
        }),
{
    ascending_prefix(region, mode, 1024);
    assert(region.chunks.take(1024) =~= region.chunks);
}

/// The index of a chunk inside its region.
spec fn index_of(c: ChunkHash, region: RegionModel) -> int {
    (c.z - region.z * 32) * 32 + (c.x - region.x * 32)
}

proof fn ascending_prefix(region: RegionModel, mode: HashMode, n: int)
    requires
        is_whole(region),
        i32::MIN <= region.x <= i32::MAX,
        i32::MIN <= region.z <= i32::MAX,
        0 <= n <= 1024,
    ensures
        ({
            let found = chunk_hashes(region.chunks.take(n), mode);
            &&& forall|i: int|
                0 <= i < found.len() ==> {
                    &&& 0 <= (#[trigger] found[i]).x - region.x * 32 < 32
                    &&& 0 <= index_of(found[i], region) < n
                }
            &&& forall|i: int, j: int|
                0 <= i < j < found.len() ==> index_of(#[trigger] found[i], region) < index_of(
                    #[trigger] found[j],
                    region,
                )
        }),
    decreases n,
{
    if n > 0 {
        ascending_prefix(region, mode, n - 1);
        let rest = region.chunks.take(n - 1);
        assert(region.chunks.take(n).drop_last() =~= rest);
        let c = region.chunks[n - 1];
        assert(region.chunks.take(n).last() == c);
        let prev = chunk_hashes(rest, mode);
        let found = chunk_hashes(region.chunks.take(n), mode);
        if c.raw.len() > 0 {
            assert(found.last().x == c.x && found.last().z == c.z);
            assert(index_of(found.last(), region) == n - 1);
            assert forall|i: int| 0 <= i < found.len() implies 0 <= (#[trigger] found[i]).x - region.x * 32
                < 32 && 0 <= index_of(found[i], region) < n by {
                if i < prev.len() {
                    assert(found[i] == prev[i]);
                }
            }
            assert forall|i: int, j: int| 0 <= i < j < found.len() implies index_of(
                #[trigger] found[i],
                region,
            ) < index_of(#[trigger] found[j], region) by {
                assert(found[i] == prev[i]);
                if j < prev.len() {
                    assert(found[j] == prev[j]);
                }
            }
        } else {
            assert(found == prev);
            assert forall|i: int| 0 <= i < found.len() implies 0 <= (#[trigger] found[i]).x - region.x * 32
                < 32 && 0 <= index_of(found[i], region) < n by {
                assert(found[i] == prev[i]);
            }
        }
    }
}

/// The hash record of slot `i`.
pub open spec fn slot_record(region: RegionModel, mode: HashMode, i: int) -> ChunkHash {
    ChunkHash {
        x: region.chunks[i].x as i64,
        z: region.chunks[i].z as i64,
        hash: slot_hash(region.chunks[i], mode),
    }
}

/// The records of a region are those of its slots that are not empty: all of them, and no
/// others.
pub proof fn all_chunks_are_recorded(region: RegionModel, mode: HashMode, c: ChunkHash)
    requires
        is_whole(region),
    ensures
        chunk_hashes(region.chunks, mode).contains(c) <==> exists|i: int|
            0 <= i < 1024 && (#[trigger] region.chunks[i]).raw.len() > 0 && slot_record(region, mode, i) == c,
{
    recorded_prefix(region, mode, 1024, c);
    assert(region.chunks.take(1024) =~= region.chunks);
}

proof fn recorded_prefix(region: RegionModel, mode: HashMode, n: int, c: ChunkHash)
    requires
        is_whole(region),
        0 <= n <= 1024,
    ensures
        chunk_hashes(region.chunks.take(n), mode).contains(c) <==> exists|i: int|
            0 <= i < n && (#[trigger] region.chunks[i]).raw.len() > 0 && slot_record(region, mode, i) == c,
    decreases n,
{
    let found = chunk_hashes(region.chunks.take(n), mode);
    if n > 0 {
        let prev = chunk_hashes(region.chunks.take(n - 1), mode);
        recorded_prefix(region, mode, n - 1, c);
        assert(region.chunks.take(n).drop_last() =~= region.chunks.take(n - 1));
        assert(region.chunks.take(n).last() == region.chunks[n - 1]);
        if found.contains(c) {
            let j = choose|j: int| 0 <= j < found.len() && found[j] == c;
            if j < prev.len() {
                assert(prev[j] == c);
                assert(prev.contains(c));
            } else {
                assert(slot_record(region, mode, n - 1) == c);
            }
        }
        if exists|i: int|
            0 <= i < n && (#[trigger] region.chunks[i]).raw.len() > 0 && slot_record(region, mode, i) == c {
            let i = choose|i: int|
                0 <= i < n && (#[trigger] region.chunks[i]).raw.len() > 0 && slot_record(region, mode, i) == c;
            if i < n - 1 {
                assert(prev.contains(c));
                let j = choose|j: int| 0 <= j < prev.len() && prev[j] == c;
                assert(found[j] == c);
            } else {
                assert(found[found.len() - 1] == c);
            }
        }
    }
}

/// A comparison finds each slot at its coordinates: there is a hash exactly for a slot that is
/// not empty, and it is the slot's.
pub proof fn slots_are_found(region: RegionModel, mode: HashMode, i: int)
    requires
        is_whole(region),
        i32::MIN <= region.x <= i32::MAX,
        i32::MIN <= region.z <= i32::MAX,
        0 <= i < 1024,
    ensures
        ({
            let found = chunk_map(chunk_hashes(region.chunks, mode));
            let k = (region.chunks[i].x as i64, region.chunks[i].z as i64);
            &&& found.dom().contains(k) <==> region.chunks[i].raw.len() > 0
            &&& found.dom().contains(k) ==> found[k] == slot_hash(region.chunks[i], mode)
        }),
{
    let records = chunk_hashes(region.chunks, mode);
    let pairs = keyed_chunks(records);
    let k = (region.chunks[i].x as i64, region.chunks[i].z as i64);
    let c = slot_record(region, mode, i);
    last_map_dom(pairs);
    if region.chunks[i].raw.len() > 0 {
        all_chunks_are_recorded(region, mode, c);
        assert(records.contains(c));
        let j = choose|j: int| 0 <= j < records.len() && records[j] == c;
        assert forall|l: int| j < l < pairs.len() implies (#[trigger] pairs[l]).0 != pairs[j].0 by {
            chunk_hashes_are_distinct(region, mode, j, l);
        }
        last_map_value(pairs, j);
    }
    if chunk_map(records).dom().contains(k) {
        let j = choose|j: int| 0 <= j < pairs.len() && (#[trigger] pairs[j]).0 == k;
        let d = records[j];
        assert(records.contains(d));
        all_chunks_are_recorded(region, mode, d);
        let l = choose|l: int|
            0 <= l < 1024 && (#[trigger] region.chunks[l]).raw.len() > 0 && slot_record(region, mode, l) == d;
        assert(region.chunks[l].x == region.chunks[i].x && region.chunks[l].z == region.chunks[i].z);
        assert(l == i);
    }
}

/// The place of a chunk inside its region, by which a report draws it, is that of its slot.
pub proof fn local_place_is_the_slot(region: RegionModel, i: int)
    requires
        is_whole(region),
        0 <= i < 1024,
    ensures
        region.chunks[i].x % 32 == i % 32,
        region.chunks[i].z % 32 == i / 32,
        (region.chunks[i].z % 32) * 32 + region.chunks[i].x % 32 == i,
{
}

/// A file whose name is not looked at gives the same region under any name.
pub proof fn name_does_not_matter(
    a: Seq<char>,
    b: Seq<char>,
    data: Seq<u8>,
    externals: Seq<ExternalChunk>,
    format: Option<ArchiveFormatArg>,
)
    requires
        !takes_name(data, format),
    ensures
        file_region(a, data, externals, format) == file_region(b, data, externals, format),
{
}

// ---- chunks in files of their own ----

/// The parser looks at no other files than those that were listed: where two sets of them say
/// the same of the listed chunks, the region is the same.
pub proof fn only_listed_externals_count(
    name: Seq<char>,
    data: Seq<u8>,
    a: Seq<ExternalChunk>,
    b: Seq<ExternalChunk>,
)
    requires
        forall|p: (int, int)| #[trigger]
            needed_externals(name, data).contains(p) ==> external_of(a, p.0, p.1) == external_of(
                b,
                p.0,
                p.1,
            ),
    ensures
        anvil_region(name, data, a) == anvil_region(name, data, b),
{
    if let Ok(region) = name_coords(name) {
        if data.len() >= 8192 {
            assert forall|p: (int, int)| #[trigger]
                externals_among(data, region, 1024).contains(p) implies external_of(a, p.0, p.1)
                == external_of(b, p.0, p.1) by {
                assert(needed_externals(name, data).contains(p));
            }
            same_slots(data, region, a, b, 1024);
        }
    }
}

proof fn same_slots(
    data: Seq<u8>,
    region: (int, int),
    a: Seq<ExternalChunk>,
    b: Seq<ExternalChunk>,
    n: nat,
)
    requires
        forall|p: (int, int)| #[trigger]
            externals_among(data, region, 1024).contains(p) ==> external_of(a, p.0, p.1)
                == external_of(b, p.0, p.1),
        n <= 1024,
    ensures
        gathered(|i: int| anvil_slot(data, region, a, i), n) == gathered(
            |i: int| anvil_slot(data, region, b, i),
            n,
        ),
    decreases n,
{
    if n > 0 {
        same_slots(data, region, a, b, (n - 1) as nat);
        if is_external(data, n - 1) {
            let p = (region.0 * 32 + (n - 1) % 32, region.1 * 32 + (n - 1) / 32);
            assert(externals_among(data, region, n).last() == p);
            assert(externals_among(data, region, n).contains(p));
            externals_stay(data, region, n, 1024, p);
        }
        assert(anvil_slot(data, region, a, n - 1) == anvil_slot(data, region, b, n - 1));
    }
}

proof fn externals_stay(data: Seq<u8>, region: (int, int), m: nat, n: nat, p: (int, int))
    requires
        m <= n,
        externals_among(data, region, m).contains(p),
    ensures
        externals_among(data, region, n).contains(p),
    decreases n - m,
{
    if m < n {
        externals_stay(data, region, m, (n - 1) as nat, p);
        let sofar = externals_among(data, region, (n - 1) as nat);
        let i = choose|i: int| 0 <= i < sofar.len() && sofar[i] == p;
        assert(externals_among(data, region, n)[i] == p);
    }
}

// ---- all regions ----

/// A file that cannot be read changes nothing of the others: with it or without it, the same
/// regions were read, and it adds its own fault to theirs.
pub proof fn failed_file_is_left_out<E>(
    before: Seq<Result<RegionHash, E>>,
    fault: E,
    after: Seq<Result<RegionHash, E>>,
)
    ensures
        read_regions(before.push(Err(fault)) + after) == read_regions(before + after),
        read_faults(before.push(Err(fault)) + after) == read_faults(before).push(fault) + read_faults(
            after,
        ),
    decreases after.len(),
{
    let with = before.push(Err::<RegionHash, E>(fault));
    if after.len() == 0 {
        assert(with + after =~= with);
        assert(before + after =~= before);
        assert(with.drop_last() =~= before);
        assert(read_faults(before).push(fault) + read_faults(after) =~= read_faults(before).push(fault));
    } else {
        let rest = after.drop_last();
        failed_file_is_left_out(before, fault, rest);
        assert((with + after).drop_last() =~= with + rest);
        assert((before + after).drop_last() =~= before + rest);
        assert((with + after).last() == after.last());
        assert((before + after).last() == after.last());
        assert(read_faults(with + after) =~= read_faults(before).push(fault) + read_faults(after));
    }
}

/// No two regions have the same coordinates.
pub open spec fn distinct_regions(regions: Seq<RegionHashModel>) -> bool {
    forall|i: int, j: int|
        0 <= i < j < regions.len() ==> region_coords_of(#[trigger] regions[i]) != region_coords_of(
            #[trigger] regions[j],
        )
}

/// The order in which the files were read leaves no trace: the same regions, no two at the
/// same coordinates, give the same snapshot.
pub proof fn reading_order_is_irrelevant(
    p: Seq<RegionHashModel>,
    q: Seq<RegionHashModel>,
    sorted_p: Seq<RegionHashModel>,
    sorted_q: Seq<RegionHashModel>,
)
    requires
        distinct_regions(p),
        distinct_regions(q),
        forall|r: RegionHashModel| p.contains(r) == q.contains(r),
        is_sorted_form(sorted_p, p),
        is_sorted_form(sorted_q, q),
    ensures
        sorted_p == sorted_q,
{
    assert forall|k: (i64, i64)| regions_at(sorted_p, k) == #[trigger] regions_at(sorted_q, k) by {
        assert(regions_at(sorted_p, k) == regions_at(p, k));
        same_at(p, q, k);
    }
    sorted_form_is_unique(sorted_p, sorted_q);
}

/// At most one region stands at given coordinates, and which one does not depend on the order.
proof fn same_at(p: Seq<RegionHashModel>, q: Seq<RegionHashModel>, k: (i64, i64))
    requires
        distinct_regions(p),
        distinct_regions(q),
        forall|r: RegionHashModel| p.contains(r) == q.contains(r),
    ensures
        regions_at(p, k) == regions_at(q, k),
{
    let at = |r: RegionHashModel| region_coords_of(r) == k;
    select_contains(p, at);
    select_contains(q, at);
    at_most_one(p, k);
    at_most_one(q, k);
    let s = regions_at(p, k);
    let t = regions_at(q, k);
    if s.len() > 0 {
        assert(s.contains(s[0]));
        assert(p.contains(s[0]) && q.contains(s[0]));
        assert(t.contains(s[0]));
    }
    if t.len() > 0 {
        assert(t.contains(t[0]));
        assert(p.contains(t[0]) && q.contains(t[0]));
        assert(s.contains(t[0]));
    }
    assert(s =~= t);
}

proof fn at_most_one(p: Seq<RegionHashModel>, k: (i64, i64))
    requires
        distinct_regions(p),
    ensures
        regions_at(p, k).len() <= 1,
    decreases p.len(),
{
    if p.len() > 0 {
        let at = |r: RegionHashModel| region_coords_of(r) == k;
        let rest = p.drop_last();
        assert forall|i: int, j: int| 0 <= i < j < rest.len() implies region_coords_of(
            #[trigger] rest[i],
        ) != region_coords_of(#[trigger] rest[j]) by {
            assert(region_coords_of(p[i]) != region_coords_of(p[j]));
        }
        at_most_one(rest, k);
        if at(p.last()) {
            select_contains(rest, at);
            let s = select(rest, at);
            if s.len() > 0 {
                assert(s.contains(s[0]));
                let i = choose|i: int| 0 <= i < rest.len() && rest[i] == s[0];
                assert(region_coords_of(p[i]) != region_coords_of(p[p.len() - 1]));
            }
        }
    }
}

/// The order of the coordinates, and of those at the same coordinates, fixes a list.
pub proof fn sorted_form_is_unique(s: Seq<RegionHashModel>, t: Seq<RegionHashModel>)
    requires
        forall|i: int, j: int|
            0 <= i < j < s.len() ==> !pair_before(
                region_coords_of(#[trigger] s[j]),
                region_coords_of(#[trigger] s[i]),
            ),
        forall|i: int, j: int|
            0 <= i < j < t.len() ==> !pair_before(
                region_coords_of(#[trigger] t[j]),
                region_coords_of(#[trigger] t[i]),
            ),
        forall|k: (i64, i64)| regions_at(s, k) == #[trigger] regions_at(t, k),
    ensures
        s == t,
    decreases s.len(),
{
    if s.len() == 0 {
        if t.len() > 0 {
            let k = region_coords_of(t.last());
            assert(regions_at(t, k).len() > 0);
            assert(regions_at(s, k).len() == 0);
        }
        assert(s =~= t);
    } else {
        let k = region_coords_of(s.last());
        assert(regions_at(s, k).len() > 0);
        assert(regions_at(t, k) == regions_at(s, k));
        assert(t.len() > 0);
        let l = region_coords_of(t.last());
        assert(regions_at(t, l).len() > 0);
        assert(regions_at(s, l) == regions_at(t, l));
        let at_k = |r: RegionHashModel| region_coords_of(r) == k;
        let at_l = |r: RegionHashModel| region_coords_of(r) == l;
        select_contains(t, at_k);
        select_contains(s, at_l);
        let u = regions_at(t, k)[0];
        assert(regions_at(t, k).contains(u));
        let i = choose|i: int| 0 <= i < t.len() && t[i] == u;
        let v = regions_at(s, l)[0];
        assert(regions_at(s, l).contains(v));
        let j = choose|j: int| 0 <= j < s.len() && s[j] == v;
        assert(!pair_before(l, k)) by {
            if i < t.len() - 1 {
                assert(!pair_before(region_coords_of(t[t.len() - 1]), region_coords_of(t[i])));
            }
        }
        assert(!pair_before(k, l)) by {
            if j < s.len() - 1 {
                assert(!pair_before(region_coords_of(s[s.len() - 1]), region_coords_of(s[j])));
            }
        }
        assert(k.0 == l.0 && k.1 == l.1);
        assert(k == l);
        assert(regions_at(s, k).last() == s.last());
        assert(regions_at(t, k).last() == t.last());
        let s1 = s.drop_last();
        let t1 = t.drop_last();
        assert forall|m: (i64, i64)| regions_at(s1, m) == #[trigger] regions_at(t1, m) by {
            assert(regions_at(s, m) == regions_at(t, m));
            if m == k {
                assert(regions_at(s1, m) =~= regions_at(s, m).drop_last());
                assert(regions_at(t1, m) =~= regions_at(t, m).drop_last());
            }
        }
        sorted_form_is_unique(s1, t1);
        assert(s =~= s1.push(s.last()));
        assert(t =~= t1.push(t.last()));
    }
}

} // verus!
