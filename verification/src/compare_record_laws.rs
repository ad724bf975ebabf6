//! Laws of the comparison over the records of two snapshots: their coordinates and hashes.
use vstd::prelude::*;

use crate::compare::{
    all_changed_chunks, chunk_differences, chunk_map, comparison, keyed_chunks, keyed_regions, no_difference, only_in,
    region_map, rehashed_chunks, rehashed_regions, ChunkDiff, CompareModel, RegionDiffModel,
};
use crate::compare_laws::{
    chunk_differences_are_exact, comparison_is_consistent, lists, region_at_its_key, region_differences_are_exact,
};
use crate::order::{last_map, last_map_dom, last_map_value, pair_order};
use crate::snapshot::{ChunkHash, RegionHashModel, SnapshotModel};

verus! {

/// Position `i` holds the last region at its coordinates.
pub open spec fn last_region(regions: Seq<RegionHashModel>, i: int) -> bool {
    &&& 0 <= i < regions.len()
    &&& forall|j: int|
        i < j < regions.len() ==> !((#[trigger] regions[j]).x == regions[i].x && regions[j].z == regions[i].z)
}

/// No region stands at these coordinates.
pub open spec fn no_region_at(regions: Seq<RegionHashModel>, x: i32, z: i32) -> bool {
    forall|j: int| 0 <= j < regions.len() ==> !((#[trigger] regions[j]).x == x && regions[j].z == z)
}

/// Position `i` holds the last record at its coordinates.
pub open spec fn last_record(chunks: Seq<ChunkHash>, i: int) -> bool {
    &&& 0 <= i < chunks.len()
    &&& forall|j: int|
        i < j < chunks.len() ==> !((#[trigger] chunks[j]).x == chunks[i].x && chunks[j].z == chunks[i].z)
}

/// No record stands at these coordinates.
pub open spec fn no_record_at(chunks: Seq<ChunkHash>, x: i64, z: i64) -> bool {
    forall|j: int| 0 <= j < chunks.len() ==> !((#[trigger] chunks[j]).x == x && chunks[j].z == z)
}

/// A key of the map has a last pair, and the value is that pair's.
proof fn last_pair<V>(pairs: Seq<((i64, i64), V)>, k: (i64, i64)) -> (i: int)
    requires
        last_map(pairs).dom().contains(k),
    ensures
        0 <= i < pairs.len(),
        pairs[i].0 == k,
        last_map(pairs)[k] == pairs[i].1,
        forall|j: int| i < j < pairs.len() ==> (#[trigger] pairs[j]).0 != k,
    decreases pairs.len(),
{
    if pairs.last().0 == k {
        pairs.len() - 1
    } else {
        let rest = pairs.drop_last();
        let i = last_pair(rest, k);
        assert forall|j: int| i < j < pairs.len() implies (#[trigger] pairs[j]).0 != k by {
            if j < rest.len() {
                assert(rest[j].0 != k);
            }
        }
        i
    }
}

/// What the map of regions says of a place, over the regions themselves.
proof fn region_at(regions: Seq<RegionHashModel>, x: i32, z: i32)
    ensures
        region_map(regions).dom().contains((x as i64, z as i64)) <==> !no_region_at(regions, x, z),
        region_map(regions).dom().contains((x as i64, z as i64)) ==> exists|i: int|
            last_region(regions, i) && (#[trigger] regions[i]).x == x && regions[i].z == z
                && region_map(regions)[(x as i64, z as i64)] == regions[i],
        forall|i: int|
            last_region(regions, i) && (#[trigger] regions[i]).x == x && regions[i].z == z
                ==> region_map(regions).dom().contains((x as i64, z as i64)) && region_map(regions)[(
                x as i64,
                z as i64,
            )] == regions[i],
{
    let pairs = keyed_regions(regions);
    let k = (x as i64, z as i64);
    last_map_dom(pairs);
    if last_map(pairs).dom().contains(k) {
        let i = last_pair(pairs, k);
        assert forall|j: int| i < j < regions.len() implies !((#[trigger] regions[j]).x == regions[i].x
            && regions[j].z == regions[i].z) by {
            assert(pairs[j].0 != k);
        }
        assert(regions[i].x == x && regions[i].z == z);
        assert(last_region(regions, i));
    }
    if !no_region_at(regions, x, z) {
        let j = choose|j: int| 0 <= j < regions.len() && (#[trigger] regions[j]).x == x && regions[j].z == z;
        assert(pairs[j].0 == k);
    }
    assert forall|i: int|
        last_region(regions, i) && (#[trigger] regions[i]).x == x && regions[i].z == z implies region_map(
        regions,
    ).dom().contains(k) && region_map(regions)[k] == regions[i] by {
        assert forall|j: int| i < j < pairs.len() implies (#[trigger] pairs[j]).0 != pairs[i].0 by {
            assert(!(regions[j].x == regions[i].x && regions[j].z == regions[i].z));
        }
        last_map_value(pairs, i);
    }
}

/// What the map of chunks says of a place, over the records themselves.
proof fn record_at(chunks: Seq<ChunkHash>, x: i64, z: i64)
    ensures
        chunk_map(chunks).dom().contains((x, z)) <==> !no_record_at(chunks, x, z),
        chunk_map(chunks).dom().contains((x, z)) ==> exists|i: int|
            last_record(chunks, i) && (#[trigger] chunks[i]).x == x && chunks[i].z == z && chunk_map(
                chunks,
            )[(x, z)] == chunks[i].hash,
        forall|i: int|
            last_record(chunks, i) && (#[trigger] chunks[i]).x == x && chunks[i].z == z ==> chunk_map(
                chunks,
            ).dom().contains((x, z)) && chunk_map(chunks)[(x, z)] == chunks[i].hash,
{
    let pairs = keyed_chunks(chunks);
    let k = (x, z);
    last_map_dom(pairs);
    if last_map(pairs).dom().contains(k) {
        let i = last_pair(pairs, k);
        assert forall|j: int| i < j < chunks.len() implies !((#[trigger] chunks[j]).x == chunks[i].x
            && chunks[j].z == chunks[i].z) by {
            assert(pairs[j].0 != k);
        }
        assert(chunks[i].x == x && chunks[i].z == z);
        assert(last_record(chunks, i));
    }
    if !no_record_at(chunks, x, z) {
        let j = choose|j: int| 0 <= j < chunks.len() && (#[trigger] chunks[j]).x == x && chunks[j].z == z;
        assert(pairs[j].0 == k);
    }
    assert forall|i: int|
        last_record(chunks, i) && (#[trigger] chunks[i]).x == x && chunks[i].z == z implies chunk_map(
        chunks,
    ).dom().contains(k) && chunk_map(chunks)[k] == chunks[i].hash by {
        assert forall|j: int| i < j < pairs.len() implies (#[trigger] pairs[j]).0 != pairs[i].0 by {
            assert(!(chunks[j].x == chunks[i].x && chunks[j].z == chunks[i].z));
        }
        last_map_value(pairs, i);
    }
}

// ---- regions that one snapshot has ----

/// A region that only the new snapshot has is named as added, with its own coordinates, and with
/// each of its chunk records in turn: `x` first, then `z`, then the hash.
pub proof fn new_region_is_added(old_snapshot: SnapshotModel, new_snapshot: SnapshotModel, i: int) -> (n: int)
    requires
        last_region(new_snapshot.regions, i),
        no_region_at(old_snapshot.regions, new_snapshot.regions[i].x, new_snapshot.regions[i].z),
    ensures
        0 <= n < comparison(old_snapshot, new_snapshot).added.len(),
        ({
            let d = comparison(old_snapshot, new_snapshot).added[n];
            let region = new_snapshot.regions[i];
            &&& d is Added
            &&& d->Added_x == region.x
            &&& d->Added_z == region.z
            &&& d->Added_chunks.len() == region.chunks.len()
            &&& forall|j: int|
                0 <= j < region.chunks.len() ==> {
                    &&& (#[trigger] d->Added_chunks[j]).0 == region.chunks[j].x
                    &&& d->Added_chunks[j].1 == region.chunks[j].z
                    &&& d->Added_chunks[j].2 == region.chunks[j].hash
                }
        }),
{
    let region = new_snapshot.regions[i];
    let entries = Seq::new(
        region.chunks.len(),
        |j: int| (region.chunks[j].x, region.chunks[j].z, region.chunks[j].hash),
    );
    let d = RegionDiffModel::Added { x: region.x, z: region.z, chunks: entries };
    region_at(old_snapshot.regions, region.x, region.z);
    region_at(new_snapshot.regions, region.x, region.z);
    region_differences_are_exact(old_snapshot, new_snapshot, d);
    comparison_is_consistent(old_snapshot, new_snapshot);
    let c = comparison(old_snapshot, new_snapshot);
    assert(c.added.contains(d)) by {
        if c.removed.contains(d) {
            let m = choose|m: int| 0 <= m < c.removed.len() && c.removed[m] == d;
            assert(c.removed[m] is Removed);
        }
        if c.changed.contains(d) {
            let m = choose|m: int| 0 <= m < c.changed.len() && c.changed[m] == d;
            assert(c.changed[m] is Changed);
        }
    }
    choose|n: int| 0 <= n < c.added.len() && c.added[n] == d
}

/// A region that only the old snapshot has is named as removed, in the same way.
pub proof fn lost_region_is_removed(old_snapshot: SnapshotModel, new_snapshot: SnapshotModel, i: int) -> (n: int)
    requires
        last_region(old_snapshot.regions, i),
        no_region_at(new_snapshot.regions, old_snapshot.regions[i].x, old_snapshot.regions[i].z),
    ensures
        0 <= n < comparison(old_snapshot, new_snapshot).removed.len(),
        ({
            let d = comparison(old_snapshot, new_snapshot).removed[n];
            let region = old_snapshot.regions[i];
            &&& d is Removed
            &&& d->Removed_x == region.x
            &&& d->Removed_z == region.z
            &&& d->Removed_chunks.len() == region.chunks.len()
            &&& forall|j: int|
                0 <= j < region.chunks.len() ==> {
                    &&& (#[trigger] d->Removed_chunks[j]).0 == region.chunks[j].x
                    &&& d->Removed_chunks[j].1 == region.chunks[j].z
                    &&& d->Removed_chunks[j].2 == region.chunks[j].hash
                }
        }),
{
    let region = old_snapshot.regions[i];
    let entries = Seq::new(
        region.chunks.len(),
        |j: int| (region.chunks[j].x, region.chunks[j].z, region.chunks[j].hash),
    );
    let d = RegionDiffModel::Removed { x: region.x, z: region.z, chunks: entries };
    region_at(old_snapshot.regions, region.x, region.z);
    region_at(new_snapshot.regions, region.x, region.z);
    region_differences_are_exact(old_snapshot, new_snapshot, d);
    comparison_is_consistent(old_snapshot, new_snapshot);
    let c = comparison(old_snapshot, new_snapshot);
    assert(c.removed.contains(d)) by {
        if c.added.contains(d) {
            let m = choose|m: int| 0 <= m < c.added.len() && c.added[m] == d;
            assert(c.added[m] is Added);
        }
        if c.changed.contains(d) {
            let m = choose|m: int| 0 <= m < c.changed.len() && c.changed[m] == d;
            assert(c.changed[m] is Changed);
        }
    }
    choose|n: int| 0 <= n < c.removed.len() && c.removed[n] == d
}

/// What is named as added is a region that only the new snapshot has, and names its records.
pub proof fn added_region_is_new(old_snapshot: SnapshotModel, new_snapshot: SnapshotModel, n: int) -> (i: int)
    requires
        0 <= n < comparison(old_snapshot, new_snapshot).added.len(),
    ensures
        last_region(new_snapshot.regions, i),
        no_region_at(old_snapshot.regions, new_snapshot.regions[i].x, new_snapshot.regions[i].z),
        ({
            let d = comparison(old_snapshot, new_snapshot).added[n];
            let region = new_snapshot.regions[i];
            &&& d is Added
            &&& d->Added_x == region.x
            &&& d->Added_z == region.z
            &&& d->Added_chunks.len() == region.chunks.len()
            &&& forall|j: int|
                0 <= j < region.chunks.len() ==> {
                    &&& (#[trigger] d->Added_chunks[j]).0 == region.chunks[j].x
                    &&& d->Added_chunks[j].1 == region.chunks[j].z
                    &&& d->Added_chunks[j].2 == region.chunks[j].hash
                }
        }),
{
    let c = comparison(old_snapshot, new_snapshot);
    let d = c.added[n];
    assert(c.added.contains(d));
    region_differences_are_exact(old_snapshot, new_snapshot, d);
    comparison_is_consistent(old_snapshot, new_snapshot);
    region_at(old_snapshot.regions, d->Added_x, d->Added_z);
    region_at(new_snapshot.regions, d->Added_x, d->Added_z);
    let k = (d->Added_x as i64, d->Added_z as i64);
    choose|i: int|
        last_region(new_snapshot.regions, i) && (#[trigger] new_snapshot.regions[i]).x == d->Added_x
            && new_snapshot.regions[i].z == d->Added_z && region_map(new_snapshot.regions)[k]
            == new_snapshot.regions[i]
}

/// What is named as removed is a region that only the old snapshot has, and names its records.
pub proof fn removed_region_is_lost(old_snapshot: SnapshotModel, new_snapshot: SnapshotModel, n: int) -> (i: int)
    requires
        0 <= n < comparison(old_snapshot, new_snapshot).removed.len(),
    ensures
        last_region(old_snapshot.regions, i),
        no_region_at(new_snapshot.regions, old_snapshot.regions[i].x, old_snapshot.regions[i].z),
        ({
            let d = comparison(old_snapshot, new_snapshot).removed[n];
            let region = old_snapshot.regions[i];
            &&& d is Removed
            &&& d->Removed_x == region.x
            &&& d->Removed_z == region.z
            &&& d->Removed_chunks.len() == region.chunks.len()
            &&& forall|j: int|
                0 <= j < region.chunks.len() ==> {
                    &&& (#[trigger] d->Removed_chunks[j]).0 == region.chunks[j].x
                    &&& d->Removed_chunks[j].1 == region.chunks[j].z
                    &&& d->Removed_chunks[j].2 == region.chunks[j].hash
                }
        }),
{
    let c = comparison(old_snapshot, new_snapshot);
    let d = c.removed[n];
    assert(c.removed.contains(d));
    region_differences_are_exact(old_snapshot, new_snapshot, d);
    comparison_is_consistent(old_snapshot, new_snapshot);
    region_at(old_snapshot.regions, d->Removed_x, d->Removed_z);
    region_at(new_snapshot.regions, d->Removed_x, d->Removed_z);
    let k = (d->Removed_x as i64, d->Removed_z as i64);
    choose|i: int|
        last_region(old_snapshot.regions, i) && (#[trigger] old_snapshot.regions[i]).x == d->Removed_x
            && old_snapshot.regions[i].z == d->Removed_z && region_map(old_snapshot.regions)[k]
            == old_snapshot.regions[i]
}

// ---- regions that both have ----

/// `d` tells what happened to a chunk, over the records of the two regions: the last record at
/// a place counts.
pub open spec fn true_of_records(d: ChunkDiff, olds: Seq<ChunkHash>, news: Seq<ChunkHash>) -> bool {
    match d {
        ChunkDiff::Added { x, z, new_hash } => {
            &&& no_record_at(olds, x, z)
            &&& exists|j: int|
                last_record(news, j) && (#[trigger] news[j]).x == x && news[j].z == z && news[j].hash == new_hash
        },
        ChunkDiff::Removed { x, z, old_hash } => {
            &&& no_record_at(news, x, z)
            &&& exists|i: int|
                last_record(olds, i) && (#[trigger] olds[i]).x == x && olds[i].z == z && olds[i].hash == old_hash
        },
        ChunkDiff::Changed { x, z, old_hash, new_hash } => {
            &&& old_hash != new_hash
            &&& exists|i: int|
                last_record(olds, i) && (#[trigger] olds[i]).x == x && olds[i].z == z && olds[i].hash == old_hash
            &&& exists|j: int|
                last_record(news, j) && (#[trigger] news[j]).x == x && news[j].z == z && news[j].hash == new_hash
        },
    }
}

/// What is named of the chunks of a region is what happened to its records: all of it, and
/// nothing else.
pub proof fn chunk_differences_by_record(olds: Seq<ChunkHash>, news: Seq<ChunkHash>, d: ChunkDiff)
    ensures
        chunk_differences(chunk_map(olds), chunk_map(news)).contains(d) <==> true_of_records(d, olds, news),
{
    chunk_differences_are_exact(olds, news, d);
    match d {
        ChunkDiff::Added { x, z, .. } => {
            record_at(olds, x, z);
            record_at(news, x, z);
        },
        ChunkDiff::Removed { x, z, .. } => {
            record_at(olds, x, z);
            record_at(news, x, z);
        },
        ChunkDiff::Changed { x, z, .. } => {
            record_at(olds, x, z);
            record_at(news, x, z);
        },
    }
}

/// `d` holds both hashes of a region, and what happened to its records.
pub open spec fn tells_of(d: RegionDiffModel, o: RegionHashModel, w: RegionHashModel) -> bool {
    &&& d is Changed
    &&& d->Changed_old_hash == o.hash
    &&& d->Changed_new_hash == w.hash
    &&& forall|e: ChunkDiff| #[trigger]
        d->Changed_chunk_diffs.contains(e) <==> true_of_records(e, o.chunks, w.chunks)
}

/// A region that both have is named as changed exactly where its hash differs, with both hashes,
/// and with what happened to its records.
pub proof fn shared_region_changes_with_its_hash(
    old_snapshot: SnapshotModel,
    new_snapshot: SnapshotModel,
    i: int,
    j: int,
)
    requires
        last_region(old_snapshot.regions, i),
        last_region(new_snapshot.regions, j),
        old_snapshot.regions[i].x == new_snapshot.regions[j].x,
        old_snapshot.regions[i].z == new_snapshot.regions[j].z,
    ensures
        old_snapshot.regions[i].hash != new_snapshot.regions[j].hash <==> exists|n: int|
            {
                &&& 0 <= n < comparison(old_snapshot, new_snapshot).changed.len()
                &&& (#[trigger] comparison(old_snapshot, new_snapshot).changed[n])->Changed_x
                    == old_snapshot.regions[i].x
                &&& comparison(old_snapshot, new_snapshot).changed[n]->Changed_z == old_snapshot.regions[i].z
            },
        forall|n: int|
            0 <= n < comparison(old_snapshot, new_snapshot).changed.len() && (#[trigger] comparison(
                old_snapshot,
                new_snapshot,
            ).changed[n])->Changed_x == old_snapshot.regions[i].x && comparison(
                old_snapshot,
                new_snapshot,
            ).changed[n]->Changed_z == old_snapshot.regions[i].z ==> tells_of(
                comparison(old_snapshot, new_snapshot).changed[n],
                old_snapshot.regions[i],
                new_snapshot.regions[j],
            ),
{
    let c = comparison(old_snapshot, new_snapshot);
    let o = old_snapshot.regions[i];
    let w = new_snapshot.regions[j];
    region_at(old_snapshot.regions, o.x, o.z);
    region_at(new_snapshot.regions, o.x, o.z);
    comparison_is_consistent(old_snapshot, new_snapshot);
    let d = RegionDiffModel::Changed {
        x: o.x,
        z: o.z,
        old_hash: o.hash,
        new_hash: w.hash,
        chunk_diffs: chunk_differences(chunk_map(o.chunks), chunk_map(w.chunks)),
    };
    region_differences_are_exact(old_snapshot, new_snapshot, d);
    if o.hash != w.hash {
        assert(c.changed.contains(d)) by {
            if c.added.contains(d) {
                let m = choose|m: int| 0 <= m < c.added.len() && c.added[m] == d;
                assert(c.added[m] is Added);
            }
            if c.removed.contains(d) {
                let m = choose|m: int| 0 <= m < c.removed.len() && c.removed[m] == d;
                assert(c.removed[m] is Removed);
            }
        }
        let n = choose|n: int| 0 <= n < c.changed.len() && c.changed[n] == d;
        assert(c.changed[n] is Changed);
    }
    assert forall|n: int| 0 <= n < c.changed.len() && (#[trigger] c.changed[n])->Changed_x == o.x
        && c.changed[n]->Changed_z == o.z implies o.hash != w.hash && tells_of(c.changed[n], o, w) by {
        assert(c.changed.contains(c.changed[n]));
        region_differences_are_exact(old_snapshot, new_snapshot, c.changed[n]);
        assert(c.changed[n] is Changed);
        assert forall|d: ChunkDiff| #[trigger]
            c.changed[n]->Changed_chunk_diffs.contains(d) <==> true_of_records(d, o.chunks, w.chunks) by {
            chunk_differences_by_record(o.chunks, w.chunks, d);
        }
    }
}

/// What is named as changed is a region that both snapshots have.
pub proof fn changed_region_is_shared(old_snapshot: SnapshotModel, new_snapshot: SnapshotModel, n: int)
    requires
        0 <= n < comparison(old_snapshot, new_snapshot).changed.len(),
    ensures
        ({
            let d = comparison(old_snapshot, new_snapshot).changed[n];
            &&& d is Changed
            &&& !no_region_at(old_snapshot.regions, d->Changed_x, d->Changed_z)
            &&& !no_region_at(new_snapshot.regions, d->Changed_x, d->Changed_z)
        }),
{
    let c = comparison(old_snapshot, new_snapshot);
    let d = c.changed[n];
    assert(c.changed.contains(d));
    comparison_is_consistent(old_snapshot, new_snapshot);
    region_differences_are_exact(old_snapshot, new_snapshot, d);
    region_at(old_snapshot.regions, d->Changed_x, d->Changed_z);
    region_at(new_snapshot.regions, d->Changed_x, d->Changed_z);
}

// ---- the order of what is named ----

/// Each part names its regions in ascending order: by `x`, and by `z` where `x` is the same.
pub proof fn parts_are_in_order(old_snapshot: SnapshotModel, new_snapshot: SnapshotModel, i: int, j: int)
    requires
        0 <= i < j,
    ensures
        ({
            let c = comparison(old_snapshot, new_snapshot);
            &&& j < c.added.len() ==> c.added[i]->Added_x < c.added[j]->Added_x || (c.added[i]->Added_x
                == c.added[j]->Added_x && c.added[i]->Added_z < c.added[j]->Added_z)
            &&& j < c.removed.len() ==> c.removed[i]->Removed_x < c.removed[j]->Removed_x || (
            c.removed[i]->Removed_x == c.removed[j]->Removed_x && c.removed[i]->Removed_z
                < c.removed[j]->Removed_z)
            &&& j < c.changed.len() ==> c.changed[i]->Changed_x < c.changed[j]->Changed_x || (
            c.changed[i]->Changed_x == c.changed[j]->Changed_x && c.changed[i]->Changed_z
                < c.changed[j]->Changed_z)
        }),
{
    let a = region_map(old_snapshot.regions);
    let b = region_map(new_snapshot.regions);
    let c = comparison(old_snapshot, new_snapshot);
    last_map_dom(keyed_regions(old_snapshot.regions));
    last_map_dom(keyed_regions(new_snapshot.regions));
    lists(b, |k: (i64, i64)| !a.dom().contains(k));
    lists(a, |k: (i64, i64)| !b.dom().contains(k));
    lists(a, |k: (i64, i64)| b.dom().contains(k) && a[k].hash != b[k].hash);
    let added = only_in(b, a);
    let removed = only_in(a, b);
    let changed = rehashed_regions(a, b);
    let before = pair_order();
    if j < c.added.len() {
        assert(added.contains(added[i]) && added.contains(added[j]));
        region_at_its_key(new_snapshot.regions, added[i]);
        region_at_its_key(new_snapshot.regions, added[j]);
        assert(before(added[i], added[j]));
    }
    if j < c.removed.len() {
        assert(removed.contains(removed[i]) && removed.contains(removed[j]));
        region_at_its_key(old_snapshot.regions, removed[i]);
        region_at_its_key(old_snapshot.regions, removed[j]);
        assert(before(removed[i], removed[j]));
    }
    if j < c.changed.len() {
        assert(changed.contains(changed[i]) && changed.contains(changed[j]));
        region_at_its_key(old_snapshot.regions, changed[i]);
        region_at_its_key(old_snapshot.regions, changed[j]);
        assert(before(changed[i], changed[j]));
    }
}

/// The chunks of a region are named in order: those that were added, then those removed, then
/// those changed, and each of these by `x`, and by `z` where `x` is the same.
pub proof fn chunks_are_in_order(olds: Seq<ChunkHash>, news: Seq<ChunkHash>, i: int, j: int)
    requires
        0 <= i < j < chunk_differences(chunk_map(olds), chunk_map(news)).len(),
    ensures
        ({
            let all = chunk_differences(chunk_map(olds), chunk_map(news));
            match (all[i], all[j]) {
                (ChunkDiff::Added { x, z, .. }, ChunkDiff::Added { x: u, z: w, .. }) => x < u || (x == u && z < w),
                (ChunkDiff::Removed { x, z, .. }, ChunkDiff::Removed { x: u, z: w, .. }) => x < u || (x == u
                    && z < w),
                (ChunkDiff::Changed { x, z, .. }, ChunkDiff::Changed { x: u, z: w, .. }) => x < u || (x == u
                    && z < w),
                (ChunkDiff::Added { .. }, _) => true,
                (ChunkDiff::Removed { .. }, ChunkDiff::Changed { .. }) => true,
                _ => false,
            }
        }),
{
    let a = chunk_map(olds);
    let b = chunk_map(news);
    last_map_dom(keyed_chunks(olds));
    last_map_dom(keyed_chunks(news));
    lists(b, |k: (i64, i64)| !a.dom().contains(k));
    lists(a, |k: (i64, i64)| !b.dom().contains(k));
    lists(a, |k: (i64, i64)| b.dom().contains(k) && a[k] != b[k]);
    let added = only_in(b, a);
    let removed = only_in(a, b);
    let changed = rehashed_chunks(a, b);
    let before = pair_order();
    let n = added.len() + removed.len();
    if j < added.len() {
        assert(before(added[i], added[j]));
    } else if added.len() <= i && j < n {
        assert(before(removed[i - added.len()], removed[j - added.len()]));
    } else if n <= i {
        assert(before(changed[i - n], changed[j - n]));
    }
}

// ---- counts ----

/// The count of chunks is that of all entries: it is zero for no difference, and each region
/// adds as many as it names. A region that stands in a part of another kind adds none.
pub proof fn count_is_of_all_entries(c: CompareModel, d: RegionDiffModel)
    ensures
        all_changed_chunks(no_difference()) == 0,
        all_changed_chunks(CompareModel { added: c.added.push(d), ..c }) == all_changed_chunks(c) + (match d {
            RegionDiffModel::Added { chunks, .. } => chunks.len(),
            _ => 0,
        }),
        all_changed_chunks(CompareModel { removed: c.removed.push(d), ..c }) == all_changed_chunks(c) + (match d {
            RegionDiffModel::Removed { chunks, .. } => chunks.len(),
            _ => 0,
        }),
        all_changed_chunks(CompareModel { changed: c.changed.push(d), ..c }) == all_changed_chunks(c) + (match d {
            RegionDiffModel::Changed { chunk_diffs, .. } => chunk_diffs.len(),
            _ => 0,
        }),
{
    assert(c.added.push(d).drop_last() =~= c.added);
    assert(c.removed.push(d).drop_last() =~= c.removed);
    assert(c.changed.push(d).drop_last() =~= c.changed);
}

} // verus!
