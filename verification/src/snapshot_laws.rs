//! Laws of snapshots: their order, their size, and their parts on disk.
use vstd::prelude::*;

use crate::compare::region_coords_of;
use crate::hash::Hash128;
use crate::order::select;
use crate::scan::{chunk_total, is_sorted_form, read_faults, read_regions, regions_at};
use crate::snapshot::{
    chunks_behind, offsets_fit, read_back, region_tuples, rkyv_restored, snapshot_of, RegionHash, RegionHashModel,
    SNAPSHOT_VERSION,
};

verus! {

// ---- order ----

/// Selecting leaves of each item as many as there are, or none.
proof fn select_counts<K>(q: Seq<K>, p: spec_fn(K) -> bool, r: K)
    ensures
        select(q, p).to_multiset().count(r) == if p(r) {
            q.to_multiset().count(r)
        } else {
            0
        },
    decreases q.len(),
{
    broadcast use vstd::seq_lib::group_to_multiset_ensures;

    if q.len() > 0 {
        let rest = q.drop_last();
        select_counts(rest, p, r);
        assert(q =~= rest.push(q.last()));
    }
}

/// A snapshot holds the regions that were read, each as often as it was, in ascending order of
/// `x`, and of `z` where `x` is the same.
pub proof fn sorted_regions_are_the_same_in_order(sorted: Seq<RegionHashModel>, regions: Seq<RegionHashModel>)
    requires
        is_sorted_form(sorted, regions),
    ensures
        sorted.to_multiset() == regions.to_multiset(),
        sorted.len() == regions.len(),
        forall|i: int, j: int|
            0 <= i < j < sorted.len() ==> (#[trigger] sorted[i]).x < (#[trigger] sorted[j]).x || (sorted[i].x
                == sorted[j].x && sorted[i].z <= sorted[j].z),
{
    broadcast use vstd::seq_lib::group_to_multiset_ensures;

    assert forall|r: RegionHashModel| #[trigger]
        sorted.to_multiset().count(r) == regions.to_multiset().count(r) by {
        let k = region_coords_of(r);
        let p = |s: RegionHashModel| region_coords_of(s) == k;
        select_counts(sorted, p, r);
        select_counts(regions, p, r);
        assert(regions_at(sorted, k) == regions_at(regions, k));
    }
    assert(sorted.to_multiset() =~= regions.to_multiset());
    assert(sorted.to_multiset().len() == sorted.len());
    assert(regions.to_multiset().len() == regions.len());
}

/// Regions at one place keep the order in which they were read: those at `(x, z)` are the same
/// sequence before and after.
pub proof fn regions_of_one_place_keep_their_order(
    sorted: Seq<RegionHashModel>,
    regions: Seq<RegionHashModel>,
    x: i32,
    z: i32,
)
    requires
        is_sorted_form(sorted, regions),
    ensures
        select(sorted, |r: RegionHashModel| r.x == x && r.z == z) == select(
            regions,
            |r: RegionHashModel| r.x == x && r.z == z,
        ),
{
    let k = (x as i64, z as i64);
    let p = |r: RegionHashModel| region_coords_of(r) == k;
    let q = |r: RegionHashModel| r.x == x && r.z == z;
    assert(regions_at(sorted, k) == regions_at(regions, k));
    same_selection(sorted, p, q);
    same_selection(regions, p, q);
}

proof fn same_selection(
    s: Seq<RegionHashModel>,
    p: spec_fn(RegionHashModel) -> bool,
    q: spec_fn(RegionHashModel) -> bool,
)
    requires
        forall|r: RegionHashModel| #[trigger] p(r) == q(r),
    ensures
        select(s, p) == select(s, q),
    decreases s.len(),
{
    if s.len() > 0 {
        same_selection(s.drop_last(), p, q);
        assert(p(s.last()) == q(s.last()));
    }
}

/// Files are read one by one: one more that was read adds its region behind the others, one that
/// was not adds its fault, and neither changes anything else.
pub proof fn outcomes_are_taken_one_by_one<E>(outcomes: Seq<Result<RegionHash, E>>, region: RegionHash, fault: E)
    ensures
        read_regions(Seq::<Result<RegionHash, E>>::empty()).len() == 0,
        read_faults(Seq::<Result<RegionHash, E>>::empty()).len() == 0,
        read_regions(outcomes.push(Ok(region))) == read_regions(outcomes).push(region),
        read_faults(outcomes.push(Ok(region))) == read_faults(outcomes),
        read_regions(outcomes.push(Err(fault))) == read_regions(outcomes),
        read_faults(outcomes.push(Err(fault))) == read_faults(outcomes).push(fault),
{
    assert(outcomes.push(Ok(region)).drop_last() =~= outcomes);
    assert(outcomes.push(Err(fault)).drop_last() =~= outcomes);
}

/// Where every file was read, the regions are those of the files, in their order.
pub proof fn all_files_read<E>(outcomes: Seq<Result<RegionHash, E>>)
    requires
        forall|i: int| 0 <= i < outcomes.len() ==> (#[trigger] outcomes[i]) is Ok,
    ensures
        read_faults(outcomes).len() == 0,
        read_regions(outcomes).len() == outcomes.len(),
        forall|i: int|
            0 <= i < outcomes.len() ==> (#[trigger] outcomes[i]) == Ok::<RegionHash, E>(read_regions(outcomes)[i]),
    decreases outcomes.len(),
{
    if outcomes.len() > 0 {
        let rest = outcomes.drop_last();
        assert forall|i: int| 0 <= i < rest.len() implies (#[trigger] rest[i]) is Ok by {
            assert(rest[i] == outcomes[i]);
        }
        all_files_read(rest);
        assert(outcomes[outcomes.len() - 1] is Ok);
        assert forall|i: int| 0 <= i < outcomes.len() implies (#[trigger] outcomes[i]) == Ok::<RegionHash, E>(
            read_regions(outcomes)[i],
        ) by {
            if i < rest.len() {
                assert(rest[i] == outcomes[i]);
            }
        }
    }
}

// ---- size ----

/// The count of chunks is the sum over the regions.
pub proof fn chunks_are_counted_region_by_region(regions: Seq<RegionHashModel>, r: RegionHashModel)
    ensures
        chunk_total(Seq::empty()) == 0,
        chunk_total(regions.push(r)) == chunk_total(regions) + r.chunks.len(),
{
    assert(regions.push(r).drop_last() =~= regions);
}

proof fn total_from_the_front(regions: Seq<RegionHashModel>)
    requires
        regions.len() > 0,
    ensures
        chunk_total(regions) == regions[0].chunks.len() + chunk_total(regions.drop_first()),
    decreases regions.len(),
{
    if regions.len() == 1 {
        assert(regions.drop_last() =~= Seq::empty());
        assert(regions.drop_first() =~= Seq::empty());
        reveal_with_fuel(chunk_total, 2);
    } else {
        total_from_the_front(regions.drop_last());
        assert(regions.drop_last().drop_first() =~= regions.drop_first().drop_last());
        assert(regions.drop_first().last() == regions.last());
    }
}

proof fn behind_is_the_total(regions: Seq<RegionHashModel>, k: int)
    requires
        0 <= k <= regions.len(),
    ensures
        chunks_behind(region_tuples(regions), k) == chunk_total(regions.skip(k)),
    decreases regions.len() - k,
{
    if k < regions.len() {
        behind_is_the_total(regions, k + 1);
        total_from_the_front(regions.skip(k));
        assert(regions.skip(k).drop_first() =~= regions.skip(k + 1));
    } else {
        assert(regions.skip(k) =~= Seq::empty());
    }
}

/// A snapshot can be written exactly where no part lies further than two gigabytes from what
/// points to it: a chunk and a region take 32 bytes each, all chunks stand before all regions, a
/// region points back to its own chunks from its byte 24, and the end, four bytes behind the
/// regions, to the first of them.
pub proof fn snapshot_fits_by_its_counts(regions: Seq<RegionHashModel>)
    ensures
        offsets_fit(region_tuples(regions)) <==> 32 * regions.len() + 4 <= 0x8000_0000 && forall|k: int|
            0 <= k < regions.len() ==> 32 * chunk_total(#[trigger] regions.skip(k)) + 32 * k + 24 <= 0x8000_0000,
{
    let tuples = region_tuples(regions);
    assert forall|k: int| 0 <= k < regions.len() implies #[trigger] chunks_behind(tuples, k) == chunk_total(
        regions.skip(k),
    ) by {
        behind_is_the_total(regions, k);
    }
    if offsets_fit(tuples) {
        assert forall|k: int| 0 <= k < regions.len() implies 32 * chunk_total(#[trigger] regions.skip(k)) + 32 * k
            + 24 <= 0x8000_0000 by {
            assert(32 * chunks_behind(tuples, k) + 32 * k + 24 <= 0x8000_0000);
        }
    } else if 32 * regions.len() + 4 <= 0x8000_0000 {
        let k = choose|k: int|
            0 <= k < regions.len() && 32 * (#[trigger] chunks_behind(tuples, k)) + 32 * k + 24 > 0x8000_0000;
        assert(32 * chunk_total(regions.skip(k)) + 32 * k + 24 > 0x8000_0000);
    }
}

// ---- parts on disk ----

/// What is written of a snapshot is its fields: of each region its coordinates and its hash, of
/// each chunk its coordinates and its hash.
pub proof fn parts_are_the_fields(regions: Seq<RegionHashModel>, i: int, j: int)
    ensures
        region_tuples(regions).len() == regions.len(),
        0 <= i < regions.len() ==> {
            let part = region_tuples(regions)[i];
            &&& part.0 == regions[i].x
            &&& part.1 == regions[i].z
            &&& part.2 == regions[i].hash
            &&& part.3.len() == regions[i].chunks.len()
            &&& 0 <= j < regions[i].chunks.len() ==> part.3[j].0 == regions[i].chunks[j].x && part.3[j].1
                == regions[i].chunks[j].z && part.3[j].2 == regions[i].chunks[j].hash
        },
{
}

/// What is read of a snapshot is its fields, in the same way.
pub proof fn fields_are_the_parts(
    version: u32,
    parts: Seq<(i32, i32, Hash128, Seq<(i64, i64, Hash128)>)>,
    i: int,
    j: int,
)
    ensures
        snapshot_of(version, parts).version == version,
        snapshot_of(version, parts).regions.len() == parts.len(),
        0 <= i < parts.len() ==> {
            let region = snapshot_of(version, parts).regions[i];
            &&& region.x == parts[i].0
            &&& region.z == parts[i].1
            &&& region.hash == parts[i].2
            &&& region.chunks.len() == parts[i].3.len()
            &&& 0 <= j < parts[i].3.len() ==> region.chunks[j].x == parts[i].3[j].0 && region.chunks[j].z
                == parts[i].3[j].1 && region.chunks[j].hash == parts[i].3[j].2
        },
{
}

/// Bytes hold the snapshot with the version and the parts that are restored from them, or none
/// where nothing is. A snapshot that is made is of version 1.
pub proof fn bytes_hold_what_is_restored(bytes: Seq<u8>)
    ensures
        SNAPSHOT_VERSION == 1,
        rkyv_restored(bytes) is None <==> read_back(bytes) is None,
        rkyv_restored(bytes) matches Some(parts) ==> {
            &&& read_back(bytes)->Some_0.version == parts.0
            &&& region_tuples(read_back(bytes)->Some_0.regions) == parts.1
        },
{
    if let Some(parts) = rkyv_restored(bytes) {
        let back = region_tuples(read_back(bytes)->Some_0.regions);
        assert forall|i: int| 0 <= i < parts.1.len() implies back[i] == parts.1[i] by {
            assert(back[i].3 =~= parts.1[i].3);
        }
        assert(back =~= parts.1);
    }
}

} // verus!
