//! From region files to a snapshot: the hashes of each region, and the order of all of them.
use vstd::prelude::*;

use crate::anvil::{anvil_region, external_chunks, int_pairs, needed_externals, ExternalChunk};
use crate::archive::{
    chunk_models, detected_region, parse_region_file, parse_region_file_anvil, parse_region_file_b_linear_v3,
    parse_region_file_linear_v2, ArchiveError, ChunkModel, Fault, ParsedRegion, RegionModel,
};
use crate::b_linear::b_linear_region;
use crate::blockhash::{hash_chunk_with_mode, mode_hash, HashMode};
use crate::cli::ArchiveFormatArg;
use crate::compare::region_coords_of;
use crate::hash::{as_hash, as_hash_of, hash_region_from_chunk_hashes, region_hash, Hash128};
use crate::linear::linear_region;
use crate::order::{pair_before, select, select_contains, Keyed, Standing};
use crate::snapshot::{region_models, ChunkHash, RegionHash, RegionHashModel, Snapshot, SNAPSHOT_VERSION};
use crate::util::{file_type, get_file_type, FileType};

verus! {

// ---- one region ----

/// The hash of a slot.
pub open spec fn slot_hash(chunk: ChunkModel, mode: HashMode) -> Hash128 {
    as_hash(mode_hash(chunk.raw, mode))
}

/// The hashes of the slots, empty ones included.
pub open spec fn slot_hashes(chunks: Seq<ChunkModel>, mode: HashMode) -> Seq<Hash128> {
    Seq::new(chunks.len(), |i: int| slot_hash(chunks[i], mode))
}

/// The hashes of the chunks that are not empty, with their coordinates.
pub open spec fn chunk_hashes(chunks: Seq<ChunkModel>, mode: HashMode) -> Seq<ChunkHash>
    decreases chunks.len(),
{
    if chunks.len() == 0 {
        Seq::empty()
    } else {
        let sofar = chunk_hashes(chunks.drop_last(), mode);
        let chunk = chunks.last();
        if chunk.raw.len() == 0 {
            sofar
        } else {
            sofar.push(
                ChunkHash {
                    x: chunk.x as i64,
                    z: chunk.z as i64,
                    hash: slot_hash(chunk, mode),
                },
            )
        }
    }
}

/// The hashes of a region: its own is that of all its slot hashes in order.
pub open spec fn region_hashes(region: RegionModel, mode: HashMode) -> RegionHashModel {
    RegionHashModel {
        x: region.x as i32,
        z: region.z as i32,
        hash: as_hash(region_hash(slot_hashes(region.chunks, mode))),
        chunks: chunk_hashes(region.chunks, mode),
    }
}

/// Hashes the chunks of a region, and the region.
pub fn region_to_hash(region: &ParsedRegion, hash_mode: HashMode) -> (r: RegionHash)
    ensures
        r@ == region_hashes(region@, hash_mode),
{
    let ghost models = chunk_models(region.chunks@);
    let mut all: Vec<Hash128> = Vec::with_capacity(region.chunks.len());
    let mut chunks: Vec<ChunkHash> = Vec::new();
    let mut i: usize = 0;
    while i < region.chunks.len()
        invariant
            i <= region.chunks@.len(),
            models == chunk_models(region.chunks@),
            all@ == slot_hashes(models, hash_mode).take(i as int),
            chunks@ == chunk_hashes(models.take(i as int), hash_mode),
        decreases region.chunks@.len() - i,
    {
        let c = &region.chunks[i];
        let hash: Hash128 = hash_chunk_with_mode(c.raw.as_slice(), hash_mode);
        proof {
            as_hash_of(hash);
            assert(hash == slot_hash(models[i as int], hash_mode));
            assert(models.take(i + 1).drop_last() =~= models.take(i as int));
        }
        all.push(hash);
        if !c.is_empty() {
            chunks.push(ChunkHash { x: c.x, z: c.z, hash });
        }
        i += 1;
        assert(all@ =~= slot_hashes(models, hash_mode).take(i as int));
    }
    assert(all@ =~= slot_hashes(models, hash_mode));
    assert(models.take(i as int) =~= models);
    let hash: Hash128 = hash_region_from_chunk_hashes(all.as_slice());
    proof {
        as_hash_of(hash);
    }
    RegionHash { region_x: region.region_x, region_z: region.region_z, hash, chunks }
}

/// The region in a file that is read in the given format, or as its first bytes tell.
pub open spec fn file_region(
    name: Seq<char>,
    data: Seq<u8>,
    externals: Seq<ExternalChunk>,
    format: Option<ArchiveFormatArg>,
) -> Result<RegionModel, Fault> {
    match format {
        Some(ArchiveFormatArg::Anvil) => anvil_region(name, data, externals),
        Some(ArchiveFormatArg::LinearV2) => linear_region(data),
        Some(ArchiveFormatArg::BLinearV3) => b_linear_region(name, data),
        _ => detected_region(name, data, externals),
    }
}

/// Parses a region file, and hashes it.
pub fn process_region_file(
    name: &str,
    data: &[u8],
    externals: &[ExternalChunk],
    format: Option<ArchiveFormatArg>,
    hash_mode: HashMode,
) -> (r: Result<RegionHash, ArchiveError>)
    ensures
        match (r, file_region(name@, data@, externals@, format)) {
            (Ok(hashes), Ok(region)) => hashes@ == region_hashes(region, hash_mode),
            (Err(e), Err(fault)) => e@ == fault,
            _ => false,
        },
{
    let parsed = match format {
        Some(ArchiveFormatArg::Anvil) => parse_region_file_anvil(name, data, externals),
        Some(ArchiveFormatArg::LinearV2) => parse_region_file_linear_v2(data),
        Some(ArchiveFormatArg::BLinearV3) => parse_region_file_b_linear_v3(name, data),
        _ => parse_region_file(name, data, externals),
    };
    match parsed {
        Ok(region) => Ok(region_to_hash(&region, hash_mode)),
        Err(e) => Err(e),
    }
}

/// The file is read as anvil, so that chunks of it may lie in files of their own.
pub open spec fn reads_as_anvil(data: Seq<u8>, format: Option<ArchiveFormatArg>) -> bool {
    match format {
        Some(ArchiveFormatArg::Anvil) => true,
        Some(ArchiveFormatArg::LinearV2) => false,
        Some(ArchiveFormatArg::BLinearV3) => false,
        _ => file_type(data) matches Ok(FileType::Anvil),
    }
}

/// The region's coordinates come from the file's name, and not from its content.
pub open spec fn takes_name(data: Seq<u8>, format: Option<ArchiveFormatArg>) -> bool {
    match format {
        Some(ArchiveFormatArg::Anvil) => true,
        Some(ArchiveFormatArg::LinearV2) => false,
        Some(ArchiveFormatArg::BLinearV3) => true,
        _ => match file_type(data) {
            Ok(FileType::Anvil) => true,
            Ok(FileType::BLinearV3) => true,
            _ => false,
        },
    }
}

/// Whether `process_region_file` looks at the file's name.
pub fn needs_name(data: &[u8], format: Option<ArchiveFormatArg>) -> (r: bool)
    ensures
        r == takes_name(data@, format),
{
    match format {
        Some(ArchiveFormatArg::Anvil) => true,
        Some(ArchiveFormatArg::LinearV2) => false,
        Some(ArchiveFormatArg::BLinearV3) => true,
        _ => match get_file_type(data) {
            Ok(FileType::Anvil) => true,
            Ok(FileType::BLinearV3) => true,
            _ => false,
        },
    }
}

/// The chunks whose own files `process_region_file` will ask for.
pub fn region_externals(name: &str, data: &[u8], format: Option<ArchiveFormatArg>) -> (r: Vec<
    (i64, i64),
>)
    ensures
        int_pairs(r@) == if reads_as_anvil(data@, format) {
            needed_externals(name@, data@)
        } else {
            Seq::empty()
        },
{
    let anvil: bool = match format {
        Some(ArchiveFormatArg::Anvil) => true,
        Some(ArchiveFormatArg::LinearV2) => false,
        Some(ArchiveFormatArg::BLinearV3) => false,
        _ => match get_file_type(data) {
            Ok(FileType::Anvil) => true,
            _ => false,
        },
    };
    if anvil {
        external_chunks(name, data)
    } else {
        let none: Vec<(i64, i64)> = Vec::new();
        assert(int_pairs(none@) =~= Seq::empty());
        none
    }
}

// ---- all regions ----

/// The regions at the coordinates `k`, in their order.
pub open spec fn regions_at(regions: Seq<RegionHashModel>, k: (i64, i64)) -> Seq<RegionHashModel> {
    select(regions, |r: RegionHashModel| region_coords_of(r) == k)
}

/// `sorted` holds the regions of `regions` in ascending order of their coordinates; those with
/// the same coordinates keep their order.
pub open spec fn is_sorted_form(sorted: Seq<RegionHashModel>, regions: Seq<RegionHashModel>) -> bool {
    &&& forall|i: int, j: int|
        0 <= i < j < sorted.len() ==> !pair_before(
            region_coords_of(#[trigger] sorted[j]),
            region_coords_of(#[trigger] sorted[i]),
        )
    &&& forall|k: (i64, i64)| #[trigger] regions_at(sorted, k) == regions_at(regions, k)
}

/// Inserting a region into sorted ones, behind all that do not come after it.
proof fn insert_region(
    sorted: Seq<RegionHashModel>,
    regions: Seq<RegionHashModel>,
    region: RegionHashModel,
    at: int,
)
    requires
        is_sorted_form(sorted, regions),
        0 <= at <= sorted.len(),
        forall|i: int|
            0 <= i < at ==> !pair_before(region_coords_of(region), region_coords_of(#[trigger] sorted[i])),
        forall|i: int|
            at <= i < sorted.len() ==> pair_before(
                region_coords_of(region),
                region_coords_of(#[trigger] sorted[i]),
            ),
    ensures
        is_sorted_form(sorted.insert(at, region), regions.push(region)),
{
    let out = sorted.insert(at, region);
    assert forall|i: int, j: int| 0 <= i < j < out.len() implies !pair_before(
        region_coords_of(#[trigger] out[j]),
        region_coords_of(#[trigger] out[i]),
    ) by {
        let i0 = if i > at {
            i - 1
        } else {
            i
        };
        let j0 = if j > at {
            j - 1
        } else {
            j
        };
        if i != at && j != at {
            assert(out[i] == sorted[i0] && out[j] == sorted[j0]);
        } else if i == at {
            assert(out[j] == sorted[j0]);
        } else {
            assert(out[i] == sorted[i0]);
        }
    }
    assert forall|k: (i64, i64)| #[trigger] regions_at(out, k) == regions_at(regions.push(region), k) by {
        let p = |r: RegionHashModel| region_coords_of(r) == k;
        select_insert(sorted, region, at, p);
        assert(regions.push(region).drop_last() =~= regions);
        assert(regions_at(sorted, k) == regions_at(regions, k));
        if p(region) {
            assert forall|i: int| at <= i < sorted.len() implies !p(#[trigger] sorted[i]) by {
                assert(pair_before(region_coords_of(region), region_coords_of(sorted[i])));
            }
            select_none(sorted, at, p);
        }
    }
}

/// Selecting after an insertion: the inserted item stands behind those selected before it.
proof fn select_insert<K>(q: Seq<K>, item: K, at: int, p: spec_fn(K) -> bool)
    requires
        0 <= at <= q.len(),
    ensures
        select(q.insert(at, item), p) == select(q.take(at), p) + (if p(item) {
            seq![item]
        } else {
            Seq::empty()
        }) + select(q.skip(at), p),
        select(q, p) == select(q.take(at), p) + select(q.skip(at), p),
    decreases q.len(),
{
    if at == q.len() {
        assert(q.insert(at, item).drop_last() =~= q);
        assert(q.take(at) =~= q);
        assert(q.skip(at) =~= Seq::empty());
        assert(select(q.insert(at, item), p) =~= select(q.take(at), p) + (if p(item) {
            seq![item]
        } else {
            Seq::empty()
        }) + select(q.skip(at), p));
        assert(select(q, p) =~= select(q.take(at), p) + select(q.skip(at), p));
    } else {
        let rest = q.drop_last();
        select_insert(rest, item, at, p);
        assert(q.insert(at, item).drop_last() =~= rest.insert(at, item));
        assert(rest.take(at) =~= q.take(at));
        assert(q.skip(at).drop_last() =~= rest.skip(at));
        assert(q.skip(at).last() == q.last());
        assert(q.insert(at, item).last() == q.last());
        assert(select(q.insert(at, item), p) =~= select(q.take(at), p) + (if p(item) {
            seq![item]
        } else {
            Seq::empty()
        }) + select(q.skip(at), p));
        assert(select(q, p) =~= select(q.take(at), p) + select(q.skip(at), p));
    }
}

/// Nothing is selected from what meets the condition nowhere.
proof fn select_none<K>(q: Seq<K>, at: int, p: spec_fn(K) -> bool)
    requires
        0 <= at <= q.len(),
        forall|i: int| at <= i < q.len() ==> !p(#[trigger] q[i]),
    ensures
        select(q.skip(at), p) == Seq::<K>::empty(),
    decreases q.len() - at,
{
    let tail = q.skip(at);
    select_contains(tail, p);
    let s = select(tail, p);
    if s.len() > 0 {
        assert(s.contains(s[0]));
        let j = choose|j: int| 0 <= j < tail.len() && tail[j] == s[0];
        assert(q[at + j] == s[0]);
    }
    assert(s =~= Seq::empty());
}

/// Puts the regions in the order of their coordinates, and makes a snapshot of them.
pub fn build_snapshot(regions: Vec<RegionHash>) -> (r: Snapshot)
    ensures
        r@.version == SNAPSHOT_VERSION,
        is_sorted_form(r@.regions, region_models(regions@)),
{
    let ghost all = regions@;
    let mut sorted: Vec<RegionHash> = Vec::with_capacity(regions.len());
    proof {
        assert(region_models(sorted@) =~= Seq::empty());
        assert(region_models(all.take(0)) =~= Seq::empty());
    }
    for region in it: regions
        invariant
            it.seq() == all,
            is_sorted_form(region_models(sorted@), region_models(all.take(it.index()))),
    {
        let ghost n = it.index();
        let ghost before = region_models(sorted@);
        let at: usize = place_of(&sorted, &region);
        proof {
            assert(region == all[n]);
            insert_region(before, region_models(all.take(n)), region@, at as int);
            assert(region_models(all.take(n + 1)) =~= region_models(all.take(n)).push(region@));
        }
        sorted.insert(at, region);
        assert(region_models(sorted@) =~= before.insert(at as int, all[n]@));
    }
    assert(all.take(all.len() as int) =~= all);
    Snapshot::new(sorted)
}

/// The place behind all regions that do not come after `region`.
fn place_of(sorted: &Vec<RegionHash>, region: &RegionHash) -> (at: usize)
    requires
        forall|i: int, j: int|
            0 <= i < j < sorted@.len() ==> !pair_before(
                region_coords_of(#[trigger] region_models(sorted@)[j]),
                region_coords_of(#[trigger] region_models(sorted@)[i]),
            ),
    ensures
        at <= sorted@.len(),
        forall|i: int|
            0 <= i < at ==> !pair_before(
                region_coords_of(region@),
                region_coords_of(#[trigger] region_models(sorted@)[i]),
            ),
        forall|i: int|
            at <= i < sorted@.len() ==> pair_before(
                region_coords_of(region@),
                region_coords_of(#[trigger] region_models(sorted@)[i]),
            ),
{
    let ghost models = region_models(sorted@);
    let mut lo: usize = 0;
    let mut hi: usize = sorted.len();
    while lo < hi
        invariant
            lo <= hi <= sorted@.len(),
            models == region_models(sorted@),
            forall|i: int, j: int|
                0 <= i < j < sorted@.len() ==> !pair_before(
                    region_coords_of(#[trigger] models[j]),
                    region_coords_of(#[trigger] models[i]),
                ),
            forall|i: int|
                0 <= i < lo ==> !pair_before(
                    region_coords_of(region@),
                    region_coords_of(#[trigger] models[i]),
                ),
            forall|i: int|
                hi <= i < sorted@.len() ==> pair_before(
                    region_coords_of(region@),
                    region_coords_of(#[trigger] models[i]),
                ),
        decreases hi - lo,
    {
        let mid: usize = lo + (hi - lo) / 2;
        let ghost pivot = models[mid as int];
        match region.stand(&sorted[mid]) {
            Standing::Before => {
                hi = mid;
            },
            _ => {
                lo = mid + 1;
            },
        }
    }
    lo
}

/// The regions that were read, in the order of the files.
pub open spec fn read_regions<E>(outcomes: Seq<Result<RegionHash, E>>) -> Seq<RegionHash>
    decreases outcomes.len(),
{
    if outcomes.len() == 0 {
        Seq::empty()
    } else {
        match outcomes.last() {
            Ok(region) => read_regions(outcomes.drop_last()).push(region),
            Err(_) => read_regions(outcomes.drop_last()),
        }
    }
}

/// What went wrong with the files that could not be read, in their order.
pub open spec fn read_faults<E>(outcomes: Seq<Result<RegionHash, E>>) -> Seq<E>
    decreases outcomes.len(),
{
    if outcomes.len() == 0 {
        Seq::empty()
    } else {
        match outcomes.last() {
            Ok(_) => read_faults(outcomes.drop_last()),
            Err(fault) => read_faults(outcomes.drop_last()).push(fault),
        }
    }
}

/// Makes a snapshot of the files that could be read, and lists what went wrong with the others:
/// a file that fails is left out, and does not stop the rest.
pub fn gather_snapshot<E>(outcomes: Vec<Result<RegionHash, E>>) -> (r: (Snapshot, Vec<E>))
    ensures
        r.0@.version == SNAPSHOT_VERSION,
        is_sorted_form(r.0@.regions, region_models(read_regions(outcomes@))),
        r.1@ == read_faults(outcomes@),
{
    let ghost all = outcomes@;
    let mut regions: Vec<RegionHash> = Vec::with_capacity(outcomes.len());
    let mut faults: Vec<E> = Vec::new();
    for outcome in it: outcomes
        invariant
            it.seq() == all,
            regions@ == read_regions(all.take(it.index())),
            faults@ == read_faults(all.take(it.index())),
    {
        proof {
            assert(outcome == all[it.index()]);
            assert(all.take(it.index() + 1).drop_last() =~= all.take(it.index()));
        }
        match outcome {
            Ok(region) => regions.push(region),
            Err(fault) => faults.push(fault),
        }
    }
    assert(all.take(all.len() as int) =~= all);
    (build_snapshot(regions), faults)
}

/// How many chunks the regions hold together.
pub open spec fn chunk_total(regions: Seq<RegionHashModel>) -> nat
    decreases regions.len(),
{
    if regions.len() == 0 {
        0
    } else {
        chunk_total(regions.drop_last()) + regions.last().chunks.len()
    }
}

/// How many chunks a snapshot holds, where that is a machine integer.
pub fn total_chunks(snapshot: &Snapshot) -> (r: Option<usize>)
    ensures
        match r {
            Some(n) => n == chunk_total(snapshot@.regions),
            None => chunk_total(snapshot@.regions) > usize::MAX,
        },
{
    let ghost models = snapshot@.regions;
    let mut n: usize = 0;
    let mut i: usize = 0;
    while i < snapshot.regions.len()
        invariant
            i <= snapshot.regions@.len(),
            models == region_models(snapshot.regions@),
            n == chunk_total(models.take(i as int)),
        decreases snapshot.regions@.len() - i,
    {
        proof {
            assert(models.take(i + 1).drop_last() =~= models.take(i as int));
            chunk_total_grows(models, i + 1);
        }
        n = match n.checked_add(snapshot.regions[i].chunks.len()) {
            Some(sum) => sum,
            None => return None,
        };
        i += 1;
    }
    assert(models.take(i as int) =~= models);
    Some(n)
}

proof fn chunk_total_grows(regions: Seq<RegionHashModel>, n: int)
    requires
        0 <= n <= regions.len(),
    ensures
        chunk_total(regions.take(n)) <= chunk_total(regions),
    decreases regions.len() - n,
{
    if n < regions.len() {
        assert(regions.take(n + 1).drop_last() =~= regions.take(n));
        chunk_total_grows(regions, n + 1);
    } else {
        assert(regions.take(n) =~= regions);
    }
}

} // verus!
