//! The difference of two snapshots: regions first, and the chunks of those whose hash changed.
use vstd::prelude::*;

use crate::hash::{same_hash, Hash128};
use crate::order::{
    by_presence, firsts, index_of_map, is_index, is_last, is_listing, keys_at, keys_of, last_index, last_map,
    last_map_dom, last_map_value, listing, listing_is, missing_from, pair_before, pair_order, pair_order_strict, select,
    select_contains, select_is_listing, select_positions, shared_with, Keyed, Standing,
};
use crate::snapshot::{region_models, ChunkHash, RegionHash, RegionHashModel, Snapshot, SnapshotModel};

verus! {

// ---- differences ----

/// What happened to a chunk.
#[derive(Clone, Copy, Debug, PartialEq, Eq)]
pub enum ChunkDiff {
    Added { x: i64, z: i64, new_hash: Hash128 },
    Removed { x: i64, z: i64, old_hash: Hash128 },
    Changed { x: i64, z: i64, old_hash: Hash128, new_hash: Hash128 },
}

/// What happened to a region.
#[derive(Clone, Debug)]
pub enum RegionDiff {
    /// Only the new snapshot has it: with all its chunks.
    Added { region_x: i32, region_z: i32, chunks: Vec<(i64, i64, Hash128)> },
    /// Only the old snapshot has it: with all its chunks.
    Removed { region_x: i32, region_z: i32, chunks: Vec<(i64, i64, Hash128)> },
    /// Both have it, with different hashes: with what happened to its chunks.
    Changed {
        region_x: i32,
        region_z: i32,
        old_hash: Hash128,
        new_hash: Hash128,
        chunk_diffs: Vec<ChunkDiff>,
    },
}

/// What the difference of a region stands for.
pub enum RegionDiffModel {
    Added { x: i32, z: i32, chunks: Seq<(i64, i64, Hash128)> },
    Removed { x: i32, z: i32, chunks: Seq<(i64, i64, Hash128)> },
    Changed { x: i32, z: i32, old_hash: Hash128, new_hash: Hash128, chunk_diffs: Seq<ChunkDiff> },
}

impl View for RegionDiff {
    type V = RegionDiffModel;

    open spec fn view(&self) -> RegionDiffModel {
        match *self {
            RegionDiff::Added { region_x, region_z, chunks } => RegionDiffModel::Added {
                x: region_x,
                z: region_z,
                chunks: chunks@,
            },
            RegionDiff::Removed { region_x, region_z, chunks } => RegionDiffModel::Removed {
                x: region_x,
                z: region_z,
                chunks: chunks@,
            },
            RegionDiff::Changed { region_x, region_z, old_hash, new_hash, chunk_diffs } => {
                RegionDiffModel::Changed {
                    x: region_x,
                    z: region_z,
                    old_hash,
                    new_hash,
                    chunk_diffs: chunk_diffs@,
                }
            },
        }
    }
}

/// The difference of two snapshots.
#[derive(Clone, Debug)]
pub struct CompareResult {
    pub added_regions: Vec<RegionDiff>,
    pub removed_regions: Vec<RegionDiff>,
    pub changed_regions: Vec<RegionDiff>,
}

/// What the difference of two snapshots stands for.
pub struct CompareModel {
    pub added: Seq<RegionDiffModel>,
    pub removed: Seq<RegionDiffModel>,
    pub changed: Seq<RegionDiffModel>,
}

/// What the differences of regions stand for.
pub open spec fn diff_models(diffs: Seq<RegionDiff>) -> Seq<RegionDiffModel> {
    Seq::new(diffs.len(), |i: int| diffs[i]@)
}

impl View for CompareResult {
    type V = CompareModel;

    open spec fn view(&self) -> CompareModel {
        CompareModel {
            added: diff_models(self.added_regions@),
            removed: diff_models(self.removed_regions@),
            changed: diff_models(self.changed_regions@),
        }
    }
}

impl Default for CompareResult {
    /// No difference.
    fn default() -> (r: CompareResult)
        ensures
            r@ == no_difference(),
    {
        let r = CompareResult {
            added_regions: Vec::new(),
            removed_regions: Vec::new(),
            changed_regions: Vec::new(),
        };
        assert(r@.added =~= Seq::empty());
        assert(r@.removed =~= Seq::empty());
        assert(r@.changed =~= Seq::empty());
        r
    }
}

/// No difference.
pub open spec fn no_difference() -> CompareModel {
    CompareModel { added: Seq::empty(), removed: Seq::empty(), changed: Seq::empty() }
}

// ---- what differs ----

/// The coordinates by which a region is found.
pub open spec fn region_coords_of(region: RegionHashModel) -> (i64, i64) {
    (region.x as i64, region.z as i64)
}

/// The regions by their coordinates.
pub open spec fn keyed_regions(regions: Seq<RegionHashModel>) -> Seq<((i64, i64), RegionHashModel)> {
    Seq::new(regions.len(), |i: int| (region_coords_of(regions[i]), regions[i]))
}

/// The region at each pair of coordinates: the last one there, where there are several.
pub open spec fn region_map(regions: Seq<RegionHashModel>) -> Map<(i64, i64), RegionHashModel> {
    last_map(keyed_regions(regions))
}

/// The chunk hashes by the chunks' coordinates.
pub open spec fn keyed_chunks(chunks: Seq<ChunkHash>) -> Seq<((i64, i64), Hash128)> {
    Seq::new(chunks.len(), |i: int| ((chunks[i].x, chunks[i].z), chunks[i].hash))
}

/// The chunk hash at each pair of coordinates.
pub open spec fn chunk_map(chunks: Seq<ChunkHash>) -> Map<(i64, i64), Hash128> {
    last_map(keyed_chunks(chunks))
}

/// The keys that only `a` has.
pub open spec fn only_in<V>(a: Map<(i64, i64), V>, b: Map<(i64, i64), V>) -> Seq<(i64, i64)> {
    listing(a.dom().filter(|k: (i64, i64)| !b.dom().contains(k)), pair_order())
}

/// The keys of chunks that both have, with different hashes.
pub open spec fn rehashed_chunks(a: Map<(i64, i64), Hash128>, b: Map<(i64, i64), Hash128>) -> Seq<(i64, i64)> {
    listing(
        a.dom().filter(|k: (i64, i64)| b.dom().contains(k) && a[k] != b[k]),
        pair_order(),
    )
}

/// The keys of regions that both have, with different hashes.
pub open spec fn rehashed_regions(
    a: Map<(i64, i64), RegionHashModel>,
    b: Map<(i64, i64), RegionHashModel>,
) -> Seq<(i64, i64)> {
    listing(
        a.dom().filter(|k: (i64, i64)| b.dom().contains(k) && a[k].hash != b[k].hash),
        pair_order(),
    )
}

/// The difference of two sets of chunks: what was added, then what was removed, then what
/// changed, each in the order of the coordinates.
pub open spec fn chunk_differences(
    old_map: Map<(i64, i64), Hash128>,
    new_map: Map<(i64, i64), Hash128>,
) -> Seq<ChunkDiff> {
    let added = only_in(new_map, old_map);
    let removed = only_in(old_map, new_map);
    let changed = rehashed_chunks(old_map, new_map);
    Seq::new(
        added.len(),
        |i: int|
            ChunkDiff::Added { x: added[i].0, z: added[i].1, new_hash: new_map[added[i]] },
    ) + Seq::new(
        removed.len(),
        |i: int|
            ChunkDiff::Removed { x: removed[i].0, z: removed[i].1, old_hash: old_map[removed[i]] },
    ) + Seq::new(
        changed.len(),
        |i: int|
            ChunkDiff::Changed {
                x: changed[i].0,
                z: changed[i].1,
                old_hash: old_map[changed[i]],
                new_hash: new_map[changed[i]],
            },
    )
}

/// All chunks of a region, in their order.
pub open spec fn chunk_list(chunks: Seq<ChunkHash>) -> Seq<(i64, i64, Hash128)> {
    Seq::new(chunks.len(), |i: int| (chunks[i].x, chunks[i].z, chunks[i].hash))
}

/// The difference of two maps of regions, each part in the order of the coordinates. Regions
/// with the same hash are passed over.
pub open spec fn differences(
    old_map: Map<(i64, i64), RegionHashModel>,
    new_map: Map<(i64, i64), RegionHashModel>,
) -> CompareModel {
    let added = only_in(new_map, old_map);
    let removed = only_in(old_map, new_map);
    let changed = rehashed_regions(old_map, new_map);
    CompareModel {
        added: Seq::new(
            added.len(),
            |i: int|
                RegionDiffModel::Added {
                    x: new_map[added[i]].x,
                    z: new_map[added[i]].z,
                    chunks: chunk_list(new_map[added[i]].chunks),
                },
        ),
        removed: Seq::new(
            removed.len(),
            |i: int|
                RegionDiffModel::Removed {
                    x: old_map[removed[i]].x,
                    z: old_map[removed[i]].z,
                    chunks: chunk_list(old_map[removed[i]].chunks),
                },
        ),
        changed: Seq::new(
            changed.len(),
            |i: int|
                RegionDiffModel::Changed {
                    x: old_map[changed[i]].x,
                    z: old_map[changed[i]].z,
                    old_hash: old_map[changed[i]].hash,
                    new_hash: new_map[changed[i]].hash,
                    chunk_diffs: chunk_differences(
                        chunk_map(old_map[changed[i]].chunks),
                        chunk_map(new_map[changed[i]].chunks),
                    ),
                },
        ),
    }
}

/// The difference of two snapshots.
pub open spec fn comparison(old_snapshot: SnapshotModel, new_snapshot: SnapshotModel) -> CompareModel {
    differences(region_map(old_snapshot.regions), region_map(new_snapshot.regions))
}

// ---- finding it ----

/// Compares two pairs of coordinates.
fn stand_pairs(a: (i64, i64), b: (i64, i64)) -> (r: Standing)
    ensures
        match r {
            Standing::Before => pair_before(a, b),
            Standing::Same => a == b,
            Standing::After => pair_before(b, a),
        },
{
    if a.0 < b.0 || (a.0 == b.0 && a.1 < b.1) {
        Standing::Before
    } else if a.0 == b.0 && a.1 == b.1 {
        Standing::Same
    } else {
        Standing::After
    }
}

/// The coordinates by which a region is found.
fn region_key(rx: i32, rz: i32) -> (r: (i64, i64))
    ensures
        r == (rx as i64, rz as i64),
{
    (rx as i64, rz as i64)
}

impl Keyed for RegionHash {
    type Key = (i64, i64);

    open spec fn key(&self) -> (i64, i64) {
        region_coords_of(self@)
    }

    open spec fn order() -> spec_fn((i64, i64), (i64, i64)) -> bool {
        pair_order()
    }

    proof fn order_is_strict() {
        pair_order_strict();
    }

    fn stand(&self, other: &Self) -> (r: Standing) {
        stand_pairs(
            region_key(self.region_x, self.region_z),
            region_key(other.region_x, other.region_z),
        )
    }
}

impl Keyed for ChunkHash {
    type Key = (i64, i64);

    open spec fn key(&self) -> (i64, i64) {
        (self.x, self.z)
    }

    open spec fn order() -> spec_fn((i64, i64), (i64, i64)) -> bool {
        pair_order()
    }

    proof fn order_is_strict() {
        pair_order_strict();
    }

    fn stand(&self, other: &Self) -> (r: Standing) {
        stand_pairs((self.x, self.z), (other.x, other.z))
    }
}

/// Selecting the positions of the keys that `others` have, or lack, lists those keys.
proof fn selection_lists<T: Keyed<Key = (i64, i64)>, V>(
    items: Seq<T>,
    idx: Seq<usize>,
    pairs: Seq<((i64, i64), V)>,
    others: Seq<T>,
    other_pairs: Seq<((i64, i64), V)>,
    present: bool,
)
    requires
        is_index(idx, keys_of(items), pair_order()),
        keys_of(items) == firsts(pairs),
        keys_of(others) == firsts(other_pairs),
    ensures
        ({
            let chosen = select(idx, by_presence(items, others, present));
            &&& is_listing(
                keys_at(keys_of(items), chosen),
                last_map(pairs).dom().filter(
                    |k: (i64, i64)| last_map(other_pairs).dom().contains(k) == present,
                ),
                pair_order(),
            )
            &&& forall|a: int| 0 <= a < chosen.len() ==> is_last(keys_of(items), #[trigger] chosen[a] as int)
        }),
{
    let keys = keys_of(items);
    let p = |k: (i64, i64)| keys_of(others).contains(k) == present;
    let q = |k: (i64, i64)| last_map(other_pairs).dom().contains(k) == present;
    let by_key = |i: usize| p(keys[i as int]);
    let chosen = select(idx, by_presence(items, others, present));
    assert forall|a: int| 0 <= a < idx.len() implies #[trigger] by_key(idx[a]) == by_presence(
        items,
        others,
        present,
    )(idx[a]) by {
        assert(is_last(keys, idx[a] as int));
    }
    select_same(idx, by_key, by_presence(items, others, present));
    select_positions(keys, idx, p);
    index_of_map(idx, pairs, pair_order());
    select_is_listing(keys_at(keys, idx), last_map(pairs).dom(), pair_order(), p);
    last_map_dom(other_pairs);
    assert forall|k: (i64, i64)| #[trigger] p(k) == q(k) by {
        if keys_of(others).contains(k) {
            let i = choose|i: int| 0 <= i < keys_of(others).len() && keys_of(others)[i] == k;
            assert(other_pairs[i].0 == k);
        }
        if last_map(other_pairs).dom().contains(k) {
            let i = choose|i: int| 0 <= i < other_pairs.len() && (#[trigger] other_pairs[i]).0 == k;
            assert(firsts(other_pairs)[i] == k);
        }
    }
    assert(last_map(pairs).dom().filter(p) =~= last_map(pairs).dom().filter(q));
    select_contains(idx, by_presence(items, others, present));
    assert forall|a: int| 0 <= a < chosen.len() implies is_last(keys, #[trigger] chosen[a] as int) by {
        assert(chosen.contains(chosen[a]));
        let b = choose|b: int| 0 <= b < idx.len() && idx[b] == chosen[a];
        assert(is_last(keys, idx[b] as int));
    }
}

/// Conditions that agree on the items select the same.
proof fn select_same<K>(q: Seq<K>, p: spec_fn(K) -> bool, r: spec_fn(K) -> bool)
    requires
        forall|a: int| 0 <= a < q.len() ==> #[trigger] p(q[a]) == r(q[a]),
    ensures
        select(q, p) == select(q, r),
    decreases q.len(),
{
    if q.len() > 0 {
        let rest = q.drop_last();
        assert forall|a: int| 0 <= a < rest.len() implies #[trigger] p(rest[a]) == r(rest[a]) by {
            assert(p(q[a]) == r(q[a]));
        }
        select_same(rest, p, r);
        assert(p(q[q.len() - 1]) == r(q[q.len() - 1]));
    }
}

/// The value at the key of the last pair with it.
proof fn value_at_last<V>(pairs: Seq<((i64, i64), V)>, i: int)
    requires
        is_last(firsts(pairs), i),
    ensures
        last_map(pairs).dom().contains(pairs[i].0),
        last_map(pairs)[pairs[i].0] == pairs[i].1,
{
    let keys = firsts(pairs);
    assert forall|j: int| i < j < pairs.len() implies (#[trigger] pairs[j]).0 != pairs[i].0 by {
        assert(keys[j] != keys[i]);
    }
    last_map_value(pairs, i);
}

/// All chunks of a region, in their order.
fn collect_chunks(chunks: &Vec<ChunkHash>) -> (r: Vec<(i64, i64, Hash128)>)
    ensures
        r@ == chunk_list(chunks@),
{
    let mut out: Vec<(i64, i64, Hash128)> = Vec::with_capacity(chunks.len());
    let mut i: usize = 0;
    while i < chunks.len()
        invariant
            i <= chunks@.len(),
            out@ == chunk_list(chunks@).take(i as int),
        decreases chunks@.len() - i,
    {
        let c = &chunks[i];
        out.push((c.x, c.z, c.hash));
        i += 1;
        assert(out@ =~= chunk_list(chunks@).take(i as int));
    }
    assert(out@ =~= chunk_list(chunks@));
    out
}

/// Compares the chunks of a region that both snapshots have. Only chunks that are not empty
/// have a hash in a snapshot: whether a chunk is there goes by that.
fn diff_chunks(old_chunks: &Vec<ChunkHash>, new_chunks: &Vec<ChunkHash>) -> (r: Vec<ChunkDiff>)
    ensures
        r@ == chunk_differences(chunk_map(old_chunks@), chunk_map(new_chunks@)),
{
    let ghost old_pairs = keyed_chunks(old_chunks@);
    let ghost new_pairs = keyed_chunks(new_chunks@);
    let ghost old_map = chunk_map(old_chunks@);
    let ghost new_map = chunk_map(new_chunks@);
    let ghost expected = chunk_differences(old_map, new_map);
    let old_idx = last_index(old_chunks);
    let new_idx = last_index(new_chunks);
    proof {
        pair_order_strict();
        assert(keys_of(old_chunks@) =~= firsts(old_pairs));
        assert(keys_of(new_chunks@) =~= firsts(new_pairs));
    }
    let mut diffs: Vec<ChunkDiff> = Vec::new();

    let added = missing_from(new_chunks, &new_idx, old_chunks, &old_idx);
    let ghost added_keys = only_in(new_map, old_map);
    proof {
        selection_lists(new_chunks@, new_idx@, new_pairs, old_chunks@, old_pairs, false);
        let here = |k: (i64, i64)| old_map.dom().contains(k) == false;
        let there = |k: (i64, i64)| !old_map.dom().contains(k);
        assert(new_map.dom().filter(here) =~= new_map.dom().filter(there));
        listing_is(keys_at(keys_of(new_chunks@), added@), new_map.dom().filter(there), pair_order());
    }
    let mut i: usize = 0;
    while i < added.len()
        invariant
            i <= added@.len(),
            added_keys == keys_at(keys_of(new_chunks@), added@),
            keys_of(new_chunks@) == firsts(new_pairs),
            new_pairs == keyed_chunks(new_chunks@),
            new_map == last_map(new_pairs),
            forall|a: int| 0 <= a < added@.len() ==> is_last(keys_of(new_chunks@), #[trigger] added@[a] as int),
            diffs@.len() == i,
            forall|j: int|
                0 <= j < i ==> #[trigger] diffs@[j] == (ChunkDiff::Added {
                    x: added_keys[j].0,
                    z: added_keys[j].1,
                    new_hash: new_map[added_keys[j]],
                }),
        decreases added@.len() - i,
    {
        assert(is_last(keys_of(new_chunks@), added@[i as int] as int));
        proof {
            value_at_last(new_pairs, added@[i as int] as int);
        }
        let c = &new_chunks[added[i]];
        diffs.push(ChunkDiff::Added { x: c.x, z: c.z, new_hash: c.hash });
        i += 1;
    }
    let ghost first = diffs@;

    let removed = missing_from(old_chunks, &old_idx, new_chunks, &new_idx);
    let ghost removed_keys = only_in(old_map, new_map);
    proof {
        selection_lists(old_chunks@, old_idx@, old_pairs, new_chunks@, new_pairs, false);
        let here = |k: (i64, i64)| new_map.dom().contains(k) == false;
        let there = |k: (i64, i64)| !new_map.dom().contains(k);
        assert(old_map.dom().filter(here) =~= old_map.dom().filter(there));
        listing_is(
            keys_at(keys_of(old_chunks@), removed@),
            old_map.dom().filter(there),
            pair_order(),
        );
    }
    let mut i: usize = 0;
    while i < removed.len()
        invariant
            i <= removed@.len(),
            removed_keys == keys_at(keys_of(old_chunks@), removed@),
            keys_of(old_chunks@) == firsts(old_pairs),
            old_pairs == keyed_chunks(old_chunks@),
            old_map == last_map(old_pairs),
            forall|a: int|
                0 <= a < removed@.len() ==> is_last(keys_of(old_chunks@), #[trigger] removed@[a] as int),
            diffs@.len() == first.len() + i,
            diffs@.take(first.len() as int) == first,
            forall|j: int|
                0 <= j < i ==> diffs@[first.len() + j] == (ChunkDiff::Removed {
                    x: (#[trigger] removed_keys[j]).0,
                    z: removed_keys[j].1,
                    old_hash: old_map[removed_keys[j]],
                }),
        decreases removed@.len() - i,
    {
        assert(is_last(keys_of(old_chunks@), removed@[i as int] as int));
        proof {
            value_at_last(old_pairs, removed@[i as int] as int);
        }
        let c = &old_chunks[removed[i]];
        let ghost before = diffs@;
        diffs.push(ChunkDiff::Removed { x: c.x, z: c.z, old_hash: c.hash });
        assert(diffs@.take(first.len() as int) =~= before.take(first.len() as int));
        i += 1;
    }
    let ghost second = diffs@;

    let both = shared_with(old_chunks, &old_idx, new_chunks, &new_idx);
    let ghost rehashed = |k: (i64, i64)| old_map[k] != new_map[k];
    let ghost both_keys = keys_at(keys_of(old_chunks@), firsts(both@));
    let ghost changed_keys = rehashed_chunks(old_map, new_map);
    proof {
        selection_lists(old_chunks@, old_idx@, old_pairs, new_chunks@, new_pairs, true);
        let here = |k: (i64, i64)| new_map.dom().contains(k) == true;
        let all = |k: (i64, i64)| new_map.dom().contains(k) && old_map[k] != new_map[k];
        select_is_listing(both_keys, old_map.dom().filter(here), pair_order(), rehashed);
        assert(old_map.dom().filter(here).filter(rehashed) =~= old_map.dom().filter(all));
        listing_is(select(both_keys, rehashed), old_map.dom().filter(all), pair_order());
    }
    let mut i: usize = 0;
    while i < both.len()
        invariant
            i <= both@.len(),
            both_keys == keys_at(keys_of(old_chunks@), firsts(both@)),
            keys_of(old_chunks@) == firsts(old_pairs),
            keys_of(new_chunks@) == firsts(new_pairs),
            old_pairs == keyed_chunks(old_chunks@),
            new_pairs == keyed_chunks(new_chunks@),
            old_map == last_map(old_pairs),
            new_map == last_map(new_pairs),
            rehashed == |k: (i64, i64)| old_map[k] != new_map[k],
            forall|a: int|
                0 <= a < both@.len() ==> is_last(
                    keys_of(old_chunks@),
                    #[trigger] firsts(both@)[a] as int,
                ),
            forall|a: int|
                0 <= a < both@.len() ==> is_last(keys_of(new_chunks@), (#[trigger] both@[a]).1 as int)
                    && new_chunks@[both@[a].1 as int].key() == old_chunks@[both@[a].0 as int].key(),
            diffs@.len() == second.len() + select(both_keys.take(i as int), rehashed).len(),
            diffs@.take(second.len() as int) == second,
            forall|j: int|
                0 <= j < diffs@.len() - second.len() ==> diffs@[second.len() + j]
                    == (ChunkDiff::Changed {
                    x: (#[trigger] select(both_keys.take(i as int), rehashed)[j]).0,
                    z: select(both_keys.take(i as int), rehashed)[j].1,
                    old_hash: old_map[select(both_keys.take(i as int), rehashed)[j]],
                    new_hash: new_map[select(both_keys.take(i as int), rehashed)[j]],
                }),
        decreases both@.len() - i,
    {
        let (at, other) = both[i];
        proof {
            assert(is_last(keys_of(old_chunks@), firsts(both@)[i as int] as int));
            assert(is_last(keys_of(new_chunks@), both@[i as int].1 as int));
            value_at_last(old_pairs, at as int);
            value_at_last(new_pairs, other as int);
            assert(both_keys.take(i + 1).drop_last() =~= both_keys.take(i as int));
        }
        let o = &old_chunks[at];
        let n = &new_chunks[other];
        let ghost before = diffs@;
        if !same_hash(&o.hash, &n.hash) {
            diffs.push(ChunkDiff::Changed { x: o.x, z: o.z, old_hash: o.hash, new_hash: n.hash });
            assert(diffs@.take(second.len() as int) =~= before.take(second.len() as int));
        }
        i += 1;
    }
    proof {
        assert(both_keys.take(both@.len() as int) =~= both_keys);
        assert(diffs@ =~= expected) by {
            assert forall|j: int| 0 <= j < diffs@.len() implies #[trigger] diffs@[j] == expected[j] by {
                if j < second.len() {
                    assert(diffs@.take(second.len() as int)[j] == diffs@[j]);
                    if j < first.len() {
                        assert(second.take(first.len() as int)[j] == second[j]);
                    } else {
                        let k = removed_keys[j - first.len()];
                        assert(second[first.len() + (j - first.len())] == second[j]);
                    }
                } else {
                    let k = changed_keys[j - second.len()];
                    assert(diffs@[second.len() + (j - second.len())] == diffs@[j]);
                }
            }
        }
    }
    diffs
}

/// The regions of `items` at the positions `chosen`, as added or as removed.
fn list_regions(items: &Vec<RegionHash>, chosen: &Vec<usize>, added: bool) -> (r: Vec<RegionDiff>)
    requires
        forall|a: int| 0 <= a < chosen@.len() ==> #[trigger] chosen@[a] < items@.len(),
    ensures
        diff_models(r@) == Seq::new(
            chosen@.len(),
            |a: int| one_sided(items@[chosen@[a] as int]@, added),
        ),
{
    let mut out: Vec<RegionDiff> = Vec::with_capacity(chosen.len());
    let mut i: usize = 0;
    while i < chosen.len()
        invariant
            i <= chosen@.len(),
            forall|a: int| 0 <= a < chosen@.len() ==> #[trigger] chosen@[a] < items@.len(),
            out@.len() == i,
            forall|j: int|
                0 <= j < i ==> (#[trigger] out@[j])@ == one_sided(items@[chosen@[j] as int]@, added),
        decreases chosen@.len() - i,
    {
        assert(chosen@[i as int] < items@.len());
        let region = &items[chosen[i]];
        let chunks = collect_chunks(&region.chunks);
        out.push(
            if added {
                RegionDiff::Added { region_x: region.region_x, region_z: region.region_z, chunks }
            } else {
                RegionDiff::Removed { region_x: region.region_x, region_z: region.region_z, chunks }
            },
        );
        i += 1;
    }
    assert(diff_models(out@) =~= Seq::new(
        chosen@.len(),
        |a: int| one_sided(items@[chosen@[a] as int]@, added),
    ));
    out
}

/// A region that was added, or removed.
pub open spec fn one_sided(region: RegionHashModel, added: bool) -> RegionDiffModel {
    if added {
        RegionDiffModel::Added { x: region.x, z: region.z, chunks: chunk_list(region.chunks) }
    } else {
        RegionDiffModel::Removed { x: region.x, z: region.z, chunks: chunk_list(region.chunks) }
    }
}

/// A region whose hash changed.
pub open spec fn two_sided(old_region: RegionHashModel, new_region: RegionHashModel) -> RegionDiffModel {
    RegionDiffModel::Changed {
        x: old_region.x,
        z: old_region.z,
        old_hash: old_region.hash,
        new_hash: new_region.hash,
        chunk_diffs: chunk_differences(chunk_map(old_region.chunks), chunk_map(new_region.chunks)),
    }
}

/// Compares two snapshots.
pub fn compare(old_snapshot: &Snapshot, new_snapshot: &Snapshot) -> (r: CompareResult)
    ensures
        r@ == comparison(old_snapshot@, new_snapshot@),
{
    let olds = &old_snapshot.regions;
    let news = &new_snapshot.regions;
    let ghost old_pairs = keyed_regions(region_models(olds@));
    let ghost new_pairs = keyed_regions(region_models(news@));
    let ghost old_map = region_map(region_models(olds@));
    let ghost new_map = region_map(region_models(news@));
    let old_idx = last_index(olds);
    let new_idx = last_index(news);
    proof {
        pair_order_strict();
        assert(keys_of(olds@) =~= firsts(old_pairs));
        assert(keys_of(news@) =~= firsts(new_pairs));
    }

    let added = missing_from(news, &new_idx, olds, &old_idx);
    proof {
        selection_lists(news@, new_idx@, new_pairs, olds@, old_pairs, false);
        let here = |k: (i64, i64)| old_map.dom().contains(k) == false;
        let there = |k: (i64, i64)| !old_map.dom().contains(k);
        assert(new_map.dom().filter(here) =~= new_map.dom().filter(there));
        listing_is(keys_at(keys_of(news@), added@), new_map.dom().filter(there), pair_order());
        assert forall|a: int| 0 <= a < added@.len() implies #[trigger] added@[a] < news@.len() by {
            assert(is_last(keys_of(news@), added@[a] as int));
        }
    }
    let added_regions = list_regions(news, &added, true);
    assert(diff_models(added_regions@) =~= differences(old_map, new_map).added) by {
        assert forall|a: int| 0 <= a < added@.len() implies new_map[only_in(new_map, old_map)[a]]
            == news@[added@[a] as int]@ by {
            assert(is_last(keys_of(news@), added@[a] as int));
            value_at_last(new_pairs, added@[a] as int);
        }
    }

    let removed = missing_from(olds, &old_idx, news, &new_idx);
    proof {
        selection_lists(olds@, old_idx@, old_pairs, news@, new_pairs, false);
        let here = |k: (i64, i64)| new_map.dom().contains(k) == false;
        let there = |k: (i64, i64)| !new_map.dom().contains(k);
        assert(old_map.dom().filter(here) =~= old_map.dom().filter(there));
        listing_is(keys_at(keys_of(olds@), removed@), old_map.dom().filter(there), pair_order());
        assert forall|a: int| 0 <= a < removed@.len() implies #[trigger] removed@[a] < olds@.len() by {
            assert(is_last(keys_of(olds@), removed@[a] as int));
        }
    }
    let removed_regions = list_regions(olds, &removed, false);
    assert(diff_models(removed_regions@) =~= differences(old_map, new_map).removed) by {
        assert forall|a: int| 0 <= a < removed@.len() implies old_map[only_in(old_map, new_map)[a]]
            == olds@[removed@[a] as int]@ by {
            assert(is_last(keys_of(olds@), removed@[a] as int));
            value_at_last(old_pairs, removed@[a] as int);
        }
    }

    let both = shared_with(olds, &old_idx, news, &new_idx);
    let ghost rehashed = |k: (i64, i64)| old_map[k].hash != new_map[k].hash;
    let ghost both_keys = keys_at(keys_of(olds@), firsts(both@));
    proof {
        selection_lists(olds@, old_idx@, old_pairs, news@, new_pairs, true);
        let here = |k: (i64, i64)| new_map.dom().contains(k) == true;
        let all = |k: (i64, i64)| new_map.dom().contains(k) && old_map[k].hash != new_map[k].hash;
        select_is_listing(both_keys, old_map.dom().filter(here), pair_order(), rehashed);
        assert(old_map.dom().filter(here).filter(rehashed) =~= old_map.dom().filter(all));
        listing_is(select(both_keys, rehashed), old_map.dom().filter(all), pair_order());
    }
    let mut changed_regions: Vec<RegionDiff> = Vec::new();
    let mut i: usize = 0;
    while i < both.len()
        invariant
            i <= both@.len(),
            both_keys == keys_at(keys_of(olds@), firsts(both@)),
            keys_of(olds@) == firsts(old_pairs),
            keys_of(news@) == firsts(new_pairs),
            old_pairs == keyed_regions(region_models(olds@)),
            new_pairs == keyed_regions(region_models(news@)),
            old_map == last_map(old_pairs),
            new_map == last_map(new_pairs),
            rehashed == |k: (i64, i64)| old_map[k].hash != new_map[k].hash,
            forall|a: int|
                0 <= a < both@.len() ==> is_last(keys_of(olds@), #[trigger] firsts(both@)[a] as int),
            forall|a: int|
                0 <= a < both@.len() ==> is_last(keys_of(news@), (#[trigger] both@[a]).1 as int)
                    && news@[both@[a].1 as int].key() == olds@[both@[a].0 as int].key(),
            changed_regions@.len() == select(both_keys.take(i as int), rehashed).len(),
            forall|j: int|
                0 <= j < changed_regions@.len() ==> (#[trigger] changed_regions@[j])@ == two_sided(
                    old_map[select(both_keys.take(i as int), rehashed)[j]],
                    new_map[select(both_keys.take(i as int), rehashed)[j]],
                ),
        decreases both@.len() - i,
    {
        let (at, other) = both[i];
        proof {
            assert(is_last(keys_of(olds@), firsts(both@)[i as int] as int));
            assert(is_last(keys_of(news@), both@[i as int].1 as int));
            value_at_last(old_pairs, at as int);
            value_at_last(new_pairs, other as int);
            assert(both_keys.take(i + 1).drop_last() =~= both_keys.take(i as int));
        }
        let o = &olds[at];
        let n = &news[other];
        if !same_hash(&o.hash, &n.hash) {
            let chunk_diffs = diff_chunks(&o.chunks, &n.chunks);
            changed_regions.push(
                RegionDiff::Changed {
                    region_x: o.region_x,
                    region_z: o.region_z,
                    old_hash: o.hash,
                    new_hash: n.hash,
                    chunk_diffs,
                },
            );
        }
        i += 1;
    }
    assert(both_keys.take(both@.len() as int) =~= both_keys);
    assert(diff_models(changed_regions@) =~= differences(old_map, new_map).changed);
    CompareResult { added_regions, removed_regions, changed_regions }
}

// ---- counts ----

/// How many chunks the differences of regions name, counting those of the given kind.
pub open spec fn chunks_in(part: Seq<RegionDiffModel>, kind: RegionPart) -> nat
    decreases part.len(),
{
    if part.len() == 0 {
        0
    } else {
        chunks_in(part.drop_last(), kind) + match (part.last(), kind) {
            (RegionDiffModel::Added { chunks, .. }, RegionPart::Added) => chunks.len(),
            (RegionDiffModel::Removed { chunks, .. }, RegionPart::Removed) => chunks.len(),
            (RegionDiffModel::Changed { chunk_diffs, .. }, RegionPart::Changed) => chunk_diffs.len(),
            _ => 0,
        }
    }
}

/// A part of a comparison.
#[derive(Clone, Copy, Debug, PartialEq, Eq)]
pub enum RegionPart {
    Added,
    Removed,
    Changed,
}

/// How many chunks a comparison names: those of added and of removed regions, and those that
/// differ in changed regions.
pub open spec fn all_changed_chunks(c: CompareModel) -> nat {
    chunks_in(c.added, RegionPart::Added) + chunks_in(c.removed, RegionPart::Removed) + chunks_in(
        c.changed,
        RegionPart::Changed,
    )
}

/// Fewer regions name no more chunks.
proof fn chunks_in_grows(part: Seq<RegionDiffModel>, kind: RegionPart, n: int)
    requires
        0 <= n <= part.len(),
    ensures
        chunks_in(part.take(n), kind) <= chunks_in(part, kind),
    decreases part.len() - n,
{
    if n < part.len() {
        assert(part.take(n + 1).drop_last() =~= part.take(n));
        chunks_in_grows(part, kind, n + 1);
    } else {
        assert(part.take(n) =~= part);
    }
}

impl CompareResult {
    pub fn added_region_count(&self) -> (r: usize)
        ensures
            r == self@.added.len(),
    {
        self.added_regions.len()
    }

    pub fn removed_region_count(&self) -> (r: usize)
        ensures
            r == self@.removed.len(),
    {
        self.removed_regions.len()
    }

    pub fn changed_region_count(&self) -> (r: usize)
        ensures
            r == self@.changed.len(),
    {
        self.changed_regions.len()
    }

    /// How many chunks are named in all, where that is a machine integer.
    pub fn checked_chunk_count(&self) -> (r: Option<usize>)
        ensures
            match r {
                Some(n) => n == all_changed_chunks(self@),
                None => all_changed_chunks(self@) > usize::MAX,
            },
    {
        let added: usize = match count_chunks(&self.added_regions, RegionPart::Added) {
            Some(n) => n,
            None => return None,
        };
        let removed: usize = match count_chunks(&self.removed_regions, RegionPart::Removed) {
            Some(n) => n,
            None => return None,
        };
        let changed: usize = match count_chunks(&self.changed_regions, RegionPart::Changed) {
            Some(n) => n,
            None => return None,
        };
        match added.checked_add(removed) {
            Some(n) => n.checked_add(changed),
            None => None,
        }
    }

    /// How many chunks are named in all.
    pub fn changed_chunk_count(&self) -> (r: usize)
        requires
            all_changed_chunks(self@) <= usize::MAX,
        ensures
            r == all_changed_chunks(self@),
    {
        match self.checked_chunk_count() {
            Some(n) => n,
            None => 0,
        }
    }
}

/// How many chunks the differences of regions name.
fn count_chunks(part: &Vec<RegionDiff>, kind: RegionPart) -> (r: Option<usize>)
    ensures
        match r {
            Some(n) => n == chunks_in(diff_models(part@), kind),
            None => chunks_in(diff_models(part@), kind) > usize::MAX,
        },
{
    let ghost models = diff_models(part@);
    let mut n: usize = 0;
    let mut i: usize = 0;
    while i < part.len()
        invariant
            i <= part@.len(),
            models == diff_models(part@),
            n == chunks_in(models.take(i as int), kind),
        decreases part@.len() - i,
    {
        proof {
            assert(models.take(i + 1).drop_last() =~= models.take(i as int));
            chunks_in_grows(models, kind, i + 1);
        }
        let more: usize = match (&part[i], kind) {
            (RegionDiff::Added { chunks, .. }, RegionPart::Added) => chunks.len(),
            (RegionDiff::Removed { chunks, .. }, RegionPart::Removed) => chunks.len(),
            (RegionDiff::Changed { chunk_diffs, .. }, RegionPart::Changed) => chunk_diffs.len(),
            _ => 0,
        };
        n = match n.checked_add(more) {
            Some(sum) => sum,
            None => return None,
        };
        i += 1;
    }
    assert(models.take(i as int) =~= models);
    Some(n)
}

} // verus!
