//! Laws of the comparison.
use vstd::prelude::*;

use crate::compare::{
    chunk_differences, chunk_list, chunk_map, comparison, differences, keyed_chunks, keyed_regions, no_difference, only_in,
    region_coords_of, region_map, rehashed_chunks, rehashed_regions, ChunkDiff, CompareModel, RegionDiffModel,
};
use crate::hash::Hash128;
use crate::json_report::is_consistent;
use crate::order::{
    is_listing, last_map_dom, listing, listing_exists, listing_of_empty, pair_order, pair_order_strict, select,
};
use crate::snapshot::{ChunkHash, RegionHashModel, SnapshotModel};

verus! {

/// The maps of snapshots are finite, and any two keys can be compared: every listing is one.
pub(crate) proof fn lists<V>(m: Map<(i64, i64), V>, p: spec_fn((i64, i64)) -> bool)
    requires
        m.dom().finite(),
    ensures
        is_listing(listing(m.dom().filter(p), pair_order()), m.dom().filter(p), pair_order()),
{
    pair_order_strict();
    let before = pair_order();
    assert forall|a: (i64, i64), b: (i64, i64)| a == b || #[trigger] before(a, b) || before(b, a) by {
        if a.0 == b.0 && a.1 == b.1 {
            assert(a == b);
        }
    }
    m.dom().lemma_len_filter(p);
    listing_exists(m.dom().filter(p), before);
}

/// The regions that both snapshots have, with equal hashes.
pub open spec fn agree(a: Map<(i64, i64), RegionHashModel>, b: Map<(i64, i64), RegionHashModel>) -> bool {
    &&& a.dom() == b.dom()
    &&& forall|k: (i64, i64)| #[trigger] a.dom().contains(k) ==> a[k].hash == b[k].hash
}

/// No difference is found exactly where both snapshots have the same regions with the same
/// hashes.
pub proof fn no_difference_means_agreement(old_snapshot: SnapshotModel, new_snapshot: SnapshotModel)
    ensures
        comparison(old_snapshot, new_snapshot) == no_difference() <==> agree(
            region_map(old_snapshot.regions),
            region_map(new_snapshot.regions),
        ),
{
    let a = region_map(old_snapshot.regions);
    let b = region_map(new_snapshot.regions);
    last_map_dom(keyed_regions(old_snapshot.regions));
    last_map_dom(keyed_regions(new_snapshot.regions));
    let c = comparison(old_snapshot, new_snapshot);
    let not_in_a = |k: (i64, i64)| !a.dom().contains(k);
    let not_in_b = |k: (i64, i64)| !b.dom().contains(k);
    let rehashed = |k: (i64, i64)| b.dom().contains(k) && a[k].hash != b[k].hash;
    lists(b, not_in_a);
    lists(a, not_in_b);
    lists(a, rehashed);
    pair_order_strict();
    if agree(a, b) {
        listing_of_empty(b.dom().filter(not_in_a), pair_order());
        listing_of_empty(a.dom().filter(not_in_b), pair_order());
        listing_of_empty(a.dom().filter(rehashed), pair_order());
        assert(c.added =~= Seq::empty());
        assert(c.removed =~= Seq::empty());
        assert(c.changed =~= Seq::empty());
    }
    if c == no_difference() {
        assert(only_in(b, a).len() == c.added.len());
        assert(only_in(a, b).len() == c.removed.len());
        assert(rehashed_regions(a, b).len() == c.changed.len());
        assert forall|k: (i64, i64)| a.dom().contains(k) == b.dom().contains(k) by {
            if b.dom().contains(k) && !a.dom().contains(k) {
                assert(b.dom().filter(not_in_a).contains(k));
                assert(only_in(b, a).contains(k));
            }
            if a.dom().contains(k) && !b.dom().contains(k) {
                assert(a.dom().filter(not_in_b).contains(k));
                assert(only_in(a, b).contains(k));
            }
        }
        assert(a.dom() =~= b.dom());
        assert forall|k: (i64, i64)| #[trigger] a.dom().contains(k) implies a[k].hash == b[k].hash by {
            if a[k].hash != b[k].hash {
                assert(a.dom().filter(rehashed).contains(k));
                assert(rehashed_regions(a, b).contains(k));
            }
        }
    }
}

/// A snapshot does not differ from itself.
pub proof fn same_snapshot_has_no_difference(snapshot: SnapshotModel)
    ensures
        comparison(snapshot, snapshot) == no_difference(),
{
    no_difference_means_agreement(snapshot, snapshot);
}

/// Each region stands in the part of its kind.
pub proof fn comparison_is_consistent(old_snapshot: SnapshotModel, new_snapshot: SnapshotModel)
    ensures
        is_consistent(comparison(old_snapshot, new_snapshot)),
{
}

// ---- what is named ----

/// `d` tells what happened to a chunk.
pub open spec fn is_true_of(
    d: ChunkDiff,
    old_map: Map<(i64, i64), Hash128>,
    new_map: Map<(i64, i64), Hash128>,
) -> bool {
    match d {
        ChunkDiff::Added { x, z, new_hash } => {
            &&& !old_map.dom().contains((x, z))
            &&& new_map.dom().contains((x, z)) && new_map[(x, z)] == new_hash
        },
        ChunkDiff::Removed { x, z, old_hash } => {
            &&& old_map.dom().contains((x, z)) && old_map[(x, z)] == old_hash
            &&& !new_map.dom().contains((x, z))
        },
        ChunkDiff::Changed { x, z, old_hash, new_hash } => {
            &&& old_map.dom().contains((x, z)) && old_map[(x, z)] == old_hash
            &&& new_map.dom().contains((x, z)) && new_map[(x, z)] == new_hash
            &&& old_hash != new_hash
        },
    }
}

/// What is named of the chunks of a changed region is what happened to them: all of it, and
/// nothing else.
pub proof fn chunk_differences_are_exact(
    old_chunks: Seq<ChunkHash>,
    new_chunks: Seq<ChunkHash>,
    d: ChunkDiff,
)
    ensures
        chunk_differences(chunk_map(old_chunks), chunk_map(new_chunks)).contains(d) <==> is_true_of(
            d,
            chunk_map(old_chunks),
            chunk_map(new_chunks),
        ),
{
    let a = chunk_map(old_chunks);
    let b = chunk_map(new_chunks);
    last_map_dom(keyed_chunks(old_chunks));
    last_map_dom(keyed_chunks(new_chunks));
    let not_in_a = |k: (i64, i64)| !a.dom().contains(k);
    let not_in_b = |k: (i64, i64)| !b.dom().contains(k);
    let rehashed = |k: (i64, i64)| b.dom().contains(k) && a[k] != b[k];
    lists(b, not_in_a);
    lists(a, not_in_b);
    lists(a, rehashed);
    let added = only_in(b, a);
    let removed = only_in(a, b);
    let changed = rehashed_chunks(a, b);
    let all = chunk_differences(a, b);
    if all.contains(d) {
        let i = choose|i: int| 0 <= i < all.len() && all[i] == d;
        if i < added.len() {
            assert(added.contains(added[i]));
        } else if i < added.len() + removed.len() {
            assert(removed.contains(removed[i - added.len()]));
        } else {
            assert(changed.contains(changed[i - added.len() - removed.len()]));
        }
    }
    if is_true_of(d, a, b) {
        match d {
            ChunkDiff::Added { x, z, new_hash } => {
                assert(b.dom().filter(not_in_a).contains((x, z)));
                assert(added.contains((x, z)));
                let i = choose|i: int| 0 <= i < added.len() && added[i] == (x, z);
                assert(all[i] == d);
            },
            ChunkDiff::Removed { x, z, old_hash } => {
                assert(a.dom().filter(not_in_b).contains((x, z)));
                assert(removed.contains((x, z)));
                let i = choose|i: int| 0 <= i < removed.len() && removed[i] == (x, z);
                assert(all[added.len() + i] == d);
            },
            ChunkDiff::Changed { x, z, old_hash, new_hash } => {
                assert(a.dom().filter(rehashed).contains((x, z)));
                assert(changed.contains((x, z)));
                let i = choose|i: int| 0 <= i < changed.len() && changed[i] == (x, z);
                assert(all[added.len() + removed.len() + i] == d);
            },
        }
    }
}

/// The coordinates of the chunk that a difference is about.
pub open spec fn place_of_diff(d: ChunkDiff) -> (i64, i64) {
    match d {
        ChunkDiff::Added { x, z, .. } => (x, z),
        ChunkDiff::Removed { x, z, .. } => (x, z),
        ChunkDiff::Changed { x, z, .. } => (x, z),
    }
}

/// No chunk is named twice.
pub proof fn no_chunk_is_named_twice(
    old_chunks: Seq<ChunkHash>,
    new_chunks: Seq<ChunkHash>,
    i: int,
    j: int,
)
    requires
        0 <= i < j < chunk_differences(chunk_map(old_chunks), chunk_map(new_chunks)).len(),
    ensures
        ({
            let all = chunk_differences(chunk_map(old_chunks), chunk_map(new_chunks));
            place_of_diff(all[i]) != place_of_diff(all[j])
        }),
{
    let a = chunk_map(old_chunks);
    let b = chunk_map(new_chunks);
    let all = chunk_differences(a, b);
    last_map_dom(keyed_chunks(old_chunks));
    last_map_dom(keyed_chunks(new_chunks));
    lists(b, |k: (i64, i64)| !a.dom().contains(k));
    lists(a, |k: (i64, i64)| !b.dom().contains(k));
    lists(a, |k: (i64, i64)| b.dom().contains(k) && a[k] != b[k]);
    assert(all.contains(all[i]));
    assert(all.contains(all[j]));
    chunk_differences_are_exact(old_chunks, new_chunks, all[i]);
    chunk_differences_are_exact(old_chunks, new_chunks, all[j]);
    let added = only_in(b, a);
    let removed = only_in(a, b);
    let changed = rehashed_chunks(a, b);
    let before = pair_order();
    if j < added.len() {
        assert(before(added[i], added[j]));
    } else if added.len() <= i && j < added.len() + removed.len() {
        assert(before(removed[i - added.len()], removed[j - added.len()]));
    } else if added.len() + removed.len() <= i {
        let n = added.len() + removed.len();
        assert(before(changed[i - n], changed[j - n]));
    }
}

/// The chunk hashes after one difference.
pub open spec fn with_diff(m: Map<(i64, i64), Hash128>, d: ChunkDiff) -> Map<(i64, i64), Hash128> {
    match d {
        ChunkDiff::Added { x, z, new_hash } => m.insert((x, z), new_hash),
        ChunkDiff::Removed { x, z, .. } => m.remove((x, z)),
        ChunkDiff::Changed { x, z, new_hash, .. } => m.insert((x, z), new_hash),
    }
}

/// The chunk hashes after all differences.
pub open spec fn with_diffs(m: Map<(i64, i64), Hash128>, diffs: Seq<ChunkDiff>) -> Map<(i64, i64), Hash128>
    decreases diffs.len(),
{
    if diffs.len() == 0 {
        m
    } else {
        with_diff(with_diffs(m, diffs.drop_last()), diffs.last())
    }
}

/// Differences of other chunks leave a chunk as it is; the last one of the chunk decides it.
proof fn diffs_at(m: Map<(i64, i64), Hash128>, diffs: Seq<ChunkDiff>, k: (i64, i64))
    ensures
        (forall|i: int| 0 <= i < diffs.len() ==> place_of_diff(#[trigger] diffs[i]) != k) ==> {
            &&& with_diffs(m, diffs).dom().contains(k) == m.dom().contains(k)
            &&& m.dom().contains(k) ==> with_diffs(m, diffs)[k] == m[k]
        },
        forall|i: int|
            0 <= i < diffs.len() && place_of_diff(#[trigger] diffs[i]) == k && (forall|j: int|
                i < j < diffs.len() ==> place_of_diff(#[trigger] diffs[j]) != k) ==> {
                &&& with_diffs(m, diffs).dom().contains(k) == with_diff(m, diffs[i]).dom().contains(k)
                &&& with_diff(m, diffs[i]).dom().contains(k) ==> with_diffs(m, diffs)[k] == with_diff(
                    m,
                    diffs[i],
                )[k]
            },
    decreases diffs.len(),
{
    if diffs.len() > 0 {
        let rest = diffs.drop_last();
        diffs_at(m, rest, k);
        if forall|i: int| 0 <= i < diffs.len() ==> place_of_diff(#[trigger] diffs[i]) != k {
            assert forall|i: int| 0 <= i < rest.len() implies place_of_diff(#[trigger] rest[i]) != k by {
                assert(place_of_diff(diffs[i]) != k);
            }
            assert(place_of_diff(diffs[diffs.len() - 1]) != k);
        }
        assert forall|i: int|
            0 <= i < diffs.len() && place_of_diff(#[trigger] diffs[i]) == k && (forall|j: int|
                i < j < diffs.len() ==> place_of_diff(#[trigger] diffs[j]) != k) implies {
            &&& with_diffs(m, diffs).dom().contains(k) == with_diff(m, diffs[i]).dom().contains(k)
            &&& with_diff(m, diffs[i]).dom().contains(k) ==> with_diffs(m, diffs)[k] == with_diff(
                m,
                diffs[i],
            )[k]
        } by {
            if i < rest.len() {
                assert(rest[i] == diffs[i]);
                assert forall|j: int| i < j < rest.len() implies place_of_diff(#[trigger] rest[j]) != k by {
                    assert(place_of_diff(diffs[j]) != k);
                }
                assert(place_of_diff(diffs[diffs.len() - 1]) != k);
            }
        }
    }
}

/// The differences lead from the old chunks to the new ones: applied to the old hashes, they
/// give the new hashes.
pub proof fn differences_lead_to_the_new_chunks(old_chunks: Seq<ChunkHash>, new_chunks: Seq<ChunkHash>)
    ensures
        with_diffs(
            chunk_map(old_chunks),
            chunk_differences(chunk_map(old_chunks), chunk_map(new_chunks)),
        ) == chunk_map(new_chunks),
{
    let a = chunk_map(old_chunks);
    let b = chunk_map(new_chunks);
    let all = chunk_differences(a, b);
    let c = with_diffs(a, all);
    assert forall|k: (i64, i64)|
        c.dom().contains(k) == #[trigger] b.dom().contains(k) && (b.dom().contains(k) ==> c[k] == b[k]) by {
        diffs_at(a, all, k);
        if exists|i: int| 0 <= i < all.len() && place_of_diff(#[trigger] all[i]) == k {
            let i = choose|i: int| 0 <= i < all.len() && place_of_diff(#[trigger] all[i]) == k;
            assert(all.contains(all[i]));
            chunk_differences_are_exact(old_chunks, new_chunks, all[i]);
            assert forall|j: int| i < j < all.len() implies place_of_diff(#[trigger] all[j]) != k by {
                no_chunk_is_named_twice(old_chunks, new_chunks, i, j);
            }
        } else {
            if b.dom().contains(k) && !a.dom().contains(k) {
                named_there(old_chunks, new_chunks, ChunkDiff::Added { x: k.0, z: k.1, new_hash: b[k] });
            }
            if a.dom().contains(k) && !b.dom().contains(k) {
                named_there(old_chunks, new_chunks, ChunkDiff::Removed { x: k.0, z: k.1, old_hash: a[k] });
            }
            if a.dom().contains(k) && b.dom().contains(k) && a[k] != b[k] {
                named_there(
                    old_chunks,
                    new_chunks,
                    ChunkDiff::Changed { x: k.0, z: k.1, old_hash: a[k], new_hash: b[k] },
                );
            }
        }
    }
    assert(c =~= b);
}

/// What happened to a chunk is found at some position.
proof fn named_there(old_chunks: Seq<ChunkHash>, new_chunks: Seq<ChunkHash>, d: ChunkDiff)
    requires
        is_true_of(d, chunk_map(old_chunks), chunk_map(new_chunks)),
    ensures
        ({
            let all = chunk_differences(chunk_map(old_chunks), chunk_map(new_chunks));
            exists|i: int| 0 <= i < all.len() && place_of_diff(#[trigger] all[i]) == place_of_diff(d)
        }),
{
    let all = chunk_differences(chunk_map(old_chunks), chunk_map(new_chunks));
    chunk_differences_are_exact(old_chunks, new_chunks, d);
    assert(all.contains(d));
    let i = choose|i: int| 0 <= i < all.len() && all[i] == d;
    assert(place_of_diff(all[i]) == place_of_diff(d));
}

/// The entries name the records, each at its own coordinates and with its own hash.
pub open spec fn names_records(entries: Seq<(i64, i64, Hash128)>, records: Seq<ChunkHash>) -> bool {
    &&& entries.len() == records.len()
    &&& forall|i: int|
        0 <= i < entries.len() ==> {
            &&& (#[trigger] entries[i]).0 == records[i].x
            &&& entries[i].1 == records[i].z
            &&& entries[i].2 == records[i].hash
        }
}

/// `d` tells what happened to a region.
pub open spec fn is_true_of_region(
    d: RegionDiffModel,
    old_map: Map<(i64, i64), RegionHashModel>,
    new_map: Map<(i64, i64), RegionHashModel>,
) -> bool {
    match d {
        RegionDiffModel::Added { x, z, chunks } => {
            let k = (x as i64, z as i64);
            &&& !old_map.dom().contains(k)
            &&& new_map.dom().contains(k) && names_records(chunks, new_map[k].chunks)
        },
        RegionDiffModel::Removed { x, z, chunks } => {
            let k = (x as i64, z as i64);
            &&& old_map.dom().contains(k) && names_records(chunks, old_map[k].chunks)
            &&& !new_map.dom().contains(k)
        },
        RegionDiffModel::Changed { x, z, old_hash, new_hash, chunk_diffs } => {
            let k = (x as i64, z as i64);
            &&& old_map.dom().contains(k) && old_map[k].hash == old_hash
            &&& new_map.dom().contains(k) && new_map[k].hash == new_hash
            &&& old_hash != new_hash
            &&& chunk_diffs == chunk_differences(
                chunk_map(old_map[k].chunks),
                chunk_map(new_map[k].chunks),
            )
        },
    }
}

/// What is named of the regions is what happened to them: all of it, and nothing else.
pub proof fn region_differences_are_exact(
    old_snapshot: SnapshotModel,
    new_snapshot: SnapshotModel,
    d: RegionDiffModel,
)
    ensures
        ({
            let c = comparison(old_snapshot, new_snapshot);
            (c.added.contains(d) || c.removed.contains(d) || c.changed.contains(d))
                <==> is_true_of_region(
                d,
                region_map(old_snapshot.regions),
                region_map(new_snapshot.regions),
            )
        }),
{
    let a = region_map(old_snapshot.regions);
    let b = region_map(new_snapshot.regions);
    let c = comparison(old_snapshot, new_snapshot);
    last_map_dom(keyed_regions(old_snapshot.regions));
    last_map_dom(keyed_regions(new_snapshot.regions));
    let not_in_a = |k: (i64, i64)| !a.dom().contains(k);
    let not_in_b = |k: (i64, i64)| !b.dom().contains(k);
    let rehashed = |k: (i64, i64)| b.dom().contains(k) && a[k].hash != b[k].hash;
    lists(b, not_in_a);
    lists(a, not_in_b);
    lists(a, rehashed);
    let added = only_in(b, a);
    let removed = only_in(a, b);
    let changed = rehashed_regions(a, b);
    if c.added.contains(d) {
        let i = choose|i: int| 0 <= i < c.added.len() && c.added[i] == d;
        assert(added.contains(added[i]));
        region_at_its_key(new_snapshot.regions, added[i]);
    }
    if c.removed.contains(d) {
        let i = choose|i: int| 0 <= i < c.removed.len() && c.removed[i] == d;
        assert(removed.contains(removed[i]));
        region_at_its_key(old_snapshot.regions, removed[i]);
    }
    if c.changed.contains(d) {
        let i = choose|i: int| 0 <= i < c.changed.len() && c.changed[i] == d;
        assert(changed.contains(changed[i]));
        region_at_its_key(old_snapshot.regions, changed[i]);
    }
    if is_true_of_region(d, a, b) {
        match d {
            RegionDiffModel::Added { x, z, chunks } => {
                let k = (x as i64, z as i64);
                assert(b.dom().filter(not_in_a).contains(k));
                assert(added.contains(k));
                let i = choose|i: int| 0 <= i < added.len() && added[i] == k;
                region_at_its_key(new_snapshot.regions, k);
                assert(chunk_list(b[k].chunks) =~= chunks);
                assert(c.added[i] == d);
            },
            RegionDiffModel::Removed { x, z, chunks } => {
                let k = (x as i64, z as i64);
                assert(a.dom().filter(not_in_b).contains(k));
                assert(removed.contains(k));
                let i = choose|i: int| 0 <= i < removed.len() && removed[i] == k;
                region_at_its_key(old_snapshot.regions, k);
                assert(chunk_list(a[k].chunks) =~= chunks);
                assert(c.removed[i] == d);
            },
            RegionDiffModel::Changed { x, z, old_hash, new_hash, chunk_diffs } => {
                let k = (x as i64, z as i64);
                assert(a.dom().filter(rehashed).contains(k));
                assert(changed.contains(k));
                let i = choose|i: int| 0 <= i < changed.len() && changed[i] == k;
                region_at_its_key(old_snapshot.regions, k);
                assert(c.changed[i] == d);
            },
        }
    }
}

/// The coordinates of the region that a difference is about.
pub open spec fn place_of_region_diff(d: RegionDiffModel) -> (i32, i32) {
    match d {
        RegionDiffModel::Added { x, z, .. } => (x, z),
        RegionDiffModel::Removed { x, z, .. } => (x, z),
        RegionDiffModel::Changed { x, z, .. } => (x, z),
    }
}

/// No region is named twice, neither in one part nor in two.
pub proof fn no_region_is_named_twice(
    old_snapshot: SnapshotModel,
    new_snapshot: SnapshotModel,
    i: int,
    j: int,
)
    requires
        ({
            let c = comparison(old_snapshot, new_snapshot);
            0 <= i < j < (c.added + c.removed + c.changed).len()
        }),
    ensures
        ({
            let c = comparison(old_snapshot, new_snapshot);
            let all = c.added + c.removed + c.changed;
            place_of_region_diff(all[i]) != place_of_region_diff(all[j])
        }),
{
    let a = region_map(old_snapshot.regions);
    let b = region_map(new_snapshot.regions);
    let c = comparison(old_snapshot, new_snapshot);
    last_map_dom(keyed_regions(old_snapshot.regions));
    last_map_dom(keyed_regions(new_snapshot.regions));
    lists(b, |k: (i64, i64)| !a.dom().contains(k));
    lists(a, |k: (i64, i64)| !b.dom().contains(k));
    lists(a, |k: (i64, i64)| b.dom().contains(k) && a[k].hash != b[k].hash);
    let added = only_in(b, a);
    let removed = only_in(a, b);
    let changed = rehashed_regions(a, b);
    let keys = added + removed + changed;
    let all = c.added + c.removed + c.changed;
    assert forall|n: int| 0 <= n < all.len() implies place_of_region_diff(#[trigger] all[n]).0 as i64
        == keys[n].0 && place_of_region_diff(all[n]).1 as i64 == keys[n].1 by {
        if n < added.len() {
            assert(added.contains(added[n]));
            region_at_its_key(new_snapshot.regions, added[n]);
        } else if n < added.len() + removed.len() {
            let m = n - added.len();
            assert(removed.contains(removed[m]));
            region_at_its_key(old_snapshot.regions, removed[m]);
        } else {
            let m = n - added.len() - removed.len();
            assert(changed.contains(changed[m]));
            region_at_its_key(old_snapshot.regions, changed[m]);
        }
    }
    let before = pair_order();
    let n = added.len() + removed.len();
    assert(keys[i] != keys[j]) by {
        if i < added.len() {
            assert(added.contains(added[i]));
        } else if i < n {
            assert(removed.contains(removed[i - added.len()]));
        }
        if j < added.len() {
            assert(before(added[i], added[j]));
        } else if j < n {
            assert(removed.contains(removed[j - added.len()]));
            if i >= added.len() {
                assert(before(removed[i - added.len()], removed[j - added.len()]));
            }
        } else {
            assert(changed.contains(changed[j - n]));
            if i >= n {
                assert(before(changed[i - n], changed[j - n]));
            }
        }
    }
    assert(place_of_region_diff(all[i]).0 as i64 == keys[i].0);
    assert(place_of_region_diff(all[j]).0 as i64 == keys[j].0);
}

// ---- the other way round ----

/// The same, seen from the other side.
pub open spec fn flipped(d: ChunkDiff) -> ChunkDiff {
    match d {
        ChunkDiff::Added { x, z, new_hash } => ChunkDiff::Removed { x, z, old_hash: new_hash },
        ChunkDiff::Removed { x, z, old_hash } => ChunkDiff::Added { x, z, new_hash: old_hash },
        ChunkDiff::Changed { x, z, old_hash, new_hash } => ChunkDiff::Changed {
            x,
            z,
            old_hash: new_hash,
            new_hash: old_hash,
        },
    }
}

pub open spec fn all_flipped(diffs: Seq<ChunkDiff>) -> Seq<ChunkDiff> {
    Seq::new(diffs.len(), |i: int| flipped(diffs[i]))
}

/// The differences of chunks, seen from the other side: what was removed comes first then.
pub open spec fn mirrored_chunks(diffs: Seq<ChunkDiff>) -> Seq<ChunkDiff> {
    all_flipped(select(diffs, |d: ChunkDiff| d is Removed)) + all_flipped(
        select(diffs, |d: ChunkDiff| d is Added),
    ) + all_flipped(select(diffs, |d: ChunkDiff| d is Changed))
}

/// The difference of a region, seen from the other side.
pub open spec fn mirrored_region(d: RegionDiffModel) -> RegionDiffModel {
    match d {
        RegionDiffModel::Added { x, z, chunks } => RegionDiffModel::Removed { x, z, chunks },
        RegionDiffModel::Removed { x, z, chunks } => RegionDiffModel::Added { x, z, chunks },
        RegionDiffModel::Changed { x, z, old_hash, new_hash, chunk_diffs } => {
            RegionDiffModel::Changed {
                x,
                z,
                old_hash: new_hash,
                new_hash: old_hash,
                chunk_diffs: mirrored_chunks(chunk_diffs),
            }
        },
    }
}

/// A comparison, seen from the other side.
pub open spec fn mirrored(c: CompareModel) -> CompareModel {
    CompareModel {
        added: Seq::new(c.removed.len(), |i: int| mirrored_region(c.removed[i])),
        removed: Seq::new(c.added.len(), |i: int| mirrored_region(c.added[i])),
        changed: Seq::new(c.changed.len(), |i: int| mirrored_region(c.changed[i])),
    }
}

/// Selecting from two lists, one behind the other.
proof fn select_joined<K>(q: Seq<K>, r: Seq<K>, p: spec_fn(K) -> bool)
    ensures
        select(q + r, p) == select(q, p) + select(r, p),
    decreases r.len(),
{
    if r.len() == 0 {
        assert(q + r =~= q);
        assert(select(q, p) + select(r, p) =~= select(q, p));
    } else {
        assert((q + r).drop_last() =~= q + r.drop_last());
        assert((q + r).last() == r.last());
        select_joined(q, r.drop_last(), p);
        assert(select(q + r, p) =~= select(q, p) + select(r, p));
    }
}

/// Selecting everything, or nothing.
proof fn select_uniform<K>(q: Seq<K>, p: spec_fn(K) -> bool)
    ensures
        (forall|i: int| 0 <= i < q.len() ==> p(#[trigger] q[i])) ==> select(q, p) == q,
        (forall|i: int| 0 <= i < q.len() ==> !p(#[trigger] q[i])) ==> select(q, p) == Seq::<K>::empty(),
    decreases q.len(),
{
    if q.len() > 0 {
        let rest = q.drop_last();
        select_uniform(rest, p);
        if forall|i: int| 0 <= i < q.len() ==> p(#[trigger] q[i]) {
            assert forall|i: int| 0 <= i < rest.len() implies p(#[trigger] rest[i]) by {
                assert(p(q[i]));
            }
            assert(p(q[q.len() - 1]));
            assert(select(q, p) =~= q);
        }
        if forall|i: int| 0 <= i < q.len() ==> !p(#[trigger] q[i]) {
            assert forall|i: int| 0 <= i < rest.len() implies !p(#[trigger] rest[i]) by {
                assert(!p(q[i]));
            }
            assert(!p(q[q.len() - 1]));
        }
    } else {
        assert(select(q, p) =~= q);
    }
}

/// Chunks compared the other way round give the same differences, seen from the other side.
proof fn chunks_mirror(a: Map<(i64, i64), Hash128>, b: Map<(i64, i64), Hash128>)
    ensures
        chunk_differences(b, a) == mirrored_chunks(chunk_differences(a, b)),
{
    let added = only_in(b, a);
    let removed = only_in(a, b);
    let changed = rehashed_chunks(a, b);
    let is_added = |d: ChunkDiff| d is Added;
    let is_removed = |d: ChunkDiff| d is Removed;
    let is_changed = |d: ChunkDiff| d is Changed;
    let first = Seq::new(
        added.len(),
        |i: int| ChunkDiff::Added { x: added[i].0, z: added[i].1, new_hash: b[added[i]] },
    );
    let second = Seq::new(
        removed.len(),
        |i: int| ChunkDiff::Removed { x: removed[i].0, z: removed[i].1, old_hash: a[removed[i]] },
    );
    let third = Seq::new(
        changed.len(),
        |i: int|
            ChunkDiff::Changed {
                x: changed[i].0,
                z: changed[i].1,
                old_hash: a[changed[i]],
                new_hash: b[changed[i]],
            },
    );
    assert(chunk_differences(a, b) == first + second + third);
    select_joined(first + second, third, is_added);
    select_joined(first, second, is_added);
    select_uniform(first, is_added);
    select_uniform(second, is_added);
    select_uniform(third, is_added);
    select_joined(first + second, third, is_removed);
    select_joined(first, second, is_removed);
    select_uniform(first, is_removed);
    select_uniform(second, is_removed);
    select_uniform(third, is_removed);
    select_joined(first + second, third, is_changed);
    select_joined(first, second, is_changed);
    select_uniform(first, is_changed);
    select_uniform(second, is_changed);
    select_uniform(third, is_changed);
    assert(select(first + second + third, is_added) =~= first);
    assert(select(first + second + third, is_removed) =~= second);
    assert(select(first + second + third, is_changed) =~= third);
    let here = |k: (i64, i64)| b.dom().contains(k) && a[k] != b[k];
    let there = |k: (i64, i64)| a.dom().contains(k) && b[k] != a[k];
    assert(a.dom().filter(here) =~= b.dom().filter(there));
    assert(chunk_differences(b, a) =~= mirrored_chunks(chunk_differences(a, b)));
}

/// A region of the map stands at its own coordinates.
pub(crate) proof fn region_at_its_key(regions: Seq<RegionHashModel>, k: (i64, i64))
    requires
        region_map(regions).dom().contains(k),
    ensures
        region_coords_of(region_map(regions)[k]) == k,
    decreases regions.len(),
{
    let pairs = keyed_regions(regions);
    let rest = keyed_regions(regions.drop_last());
    if regions.len() > 0 {
        assert(pairs.drop_last() =~= rest);
        if pairs.last().0 != k {
            region_at_its_key(regions.drop_last(), k);
        }
    }
}

/// Comparing the other way round gives the same difference, seen from the other side: what was
/// added is removed then, and old and new change places.
pub proof fn comparison_mirrors(old_snapshot: SnapshotModel, new_snapshot: SnapshotModel)
    ensures
        comparison(new_snapshot, old_snapshot) == mirrored(comparison(old_snapshot, new_snapshot)),
{
    let a = region_map(old_snapshot.regions);
    let b = region_map(new_snapshot.regions);
    last_map_dom(keyed_regions(old_snapshot.regions));
    last_map_dom(keyed_regions(new_snapshot.regions));
    let c = differences(a, b);
    let d = differences(b, a);
    let here = |k: (i64, i64)| b.dom().contains(k) && a[k].hash != b[k].hash;
    let there = |k: (i64, i64)| a.dom().contains(k) && b[k].hash != a[k].hash;
    assert(a.dom().filter(here) =~= b.dom().filter(there));
    lists(a, here);
    assert(d.added =~= mirrored(c).added);
    assert(d.removed =~= mirrored(c).removed);
    let changed = rehashed_regions(a, b);
    assert forall|i: int| 0 <= i < changed.len() implies d.changed[i] == mirrored(c).changed[i] by {
        let k = changed[i];
        assert(changed.contains(k));
        assert(a.dom().filter(here).contains(k));
        region_at_its_key(old_snapshot.regions, k);
        region_at_its_key(new_snapshot.regions, k);
        chunks_mirror(chunk_map(a[k].chunks), chunk_map(b[k].chunks));
    }
    assert(d.changed =~= mirrored(c).changed);
}

} // verus!
