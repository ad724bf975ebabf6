//! Snapshots: the hashes of all regions and of their chunks, and their form on disk.
use vstd::prelude::*;

use crate::hash::Hash128;

verus! {

/// The hash of a chunk, with the chunk's world coordinates.
#[derive(Clone, Copy, Debug, PartialEq, Eq)]
pub struct ChunkHash {
    pub x: i64,
    pub z: i64,
    pub hash: Hash128,
}

/// The hash of a region, and the hashes of its chunks that are not empty, in the order of
/// their index.
#[derive(Clone, Debug)]
pub struct RegionHash {
    pub region_x: i32,
    pub region_z: i32,
    pub hash: Hash128,
    pub chunks: Vec<ChunkHash>,
}

/// What the hashes of a region stand for.
pub struct RegionHashModel {
    pub x: i32,
    pub z: i32,
    pub hash: Hash128,
    pub chunks: Seq<ChunkHash>,
}

impl View for RegionHash {
    type V = RegionHashModel;

    open spec fn view(&self) -> RegionHashModel {
        RegionHashModel {
            x: self.region_x,
            z: self.region_z,
            hash: self.hash,
            chunks: self.chunks@,
        }
    }
}

/// The hashes of a whole save, in the order of the regions' coordinates.
#[derive(Clone, Debug)]
pub struct Snapshot {
    pub version: u32,
    pub regions: Vec<RegionHash>,
}

/// What a snapshot stands for.
pub struct SnapshotModel {
    pub version: u32,
    pub regions: Seq<RegionHashModel>,
}

/// What regions stand for.
pub open spec fn region_models(regions: Seq<RegionHash>) -> Seq<RegionHashModel> {
    Seq::new(regions.len(), |i: int| regions[i]@)
}

impl View for Snapshot {
    type V = SnapshotModel;

    open spec fn view(&self) -> SnapshotModel {
        SnapshotModel { version: self.version, regions: region_models(self.regions@) }
    }
}

/// The version of the format.
pub const SNAPSHOT_VERSION: u32 = 1;

/// Why a snapshot cannot be written or read, with the serializer's error.
#[derive(Debug)]
pub enum SnapshotError {
    Encode(rkyv::rancor::Error),
    Decode(rkyv::rancor::Error),
}

// ---- the form on disk ----

/// A snapshot as nested tuples, which are laid out like the structs of the same fields.
pub type Packed = (u32, Vec<(i32, i32, [u8; 16], Vec<(i64, i64, [u8; 16])>)>);

/// What the tuples of a chunk hold.
pub open spec fn chunk_tuples(chunks: Seq<ChunkHash>) -> Seq<(i64, i64, Hash128)> {
    Seq::new(chunks.len(), |i: int| (chunks[i].x, chunks[i].z, chunks[i].hash))
}

/// The content of a snapshot as nested tuples.
pub open spec fn region_tuples(regions: Seq<RegionHashModel>) -> Seq<
    (i32, i32, Hash128, Seq<(i64, i64, Hash128)>),
> {
    Seq::new(
        regions.len(),
        |i: int|
            (regions[i].x, regions[i].z, regions[i].hash, chunk_tuples(regions[i].chunks)),
    )
}

/// The tuples of the regions, with the chunks taken by their view.
pub open spec fn tuple_views(regions: Seq<(i32, i32, Hash128, Vec<(i64, i64, Hash128)>)>) -> Seq<
    (i32, i32, Hash128, Seq<(i64, i64, Hash128)>),
> {
    Seq::new(
        regions.len(),
        |i: int| (regions[i].0, regions[i].1, regions[i].2, regions[i].3@),
    )
}

/// The error of the serializer: opaque, and handed on.
#[verifier::external_type_specification]
#[verifier::external_body]
pub struct ExRkyvError(rkyv::rancor::Error);

/// The archive of a version and regions, whose offsets fit.
pub uninterp spec fn rkyv_archived(
    version: u32,
    regions: Seq<(i32, i32, [u8; 16], Seq<(i64, i64, [u8; 16])>)>,
) -> Seq<u8>;

/// The version and regions in an archive; `None` where the bytes are not valid as one.
pub uninterp spec fn rkyv_restored(bytes: Seq<u8>) -> Option<
    (u32, Seq<(i32, i32, [u8; 16], Seq<(i64, i64, [u8; 16])>)>),
>;

/// How many chunks the regions from `k` on hold together.
pub open spec fn chunks_behind(
    regions: Seq<(i32, i32, Hash128, Seq<(i64, i64, Hash128)>)>,
    k: int,
) -> nat
    decreases regions.len() - k,
{
    if k < 0 || k >= regions.len() {
        0
    } else {
        regions[k].3.len() + chunks_behind(regions, k + 1)
    }
}

/// The parts lie near enough to each other for the 32-bit offsets of an archive: a chunk and a
/// region take 32 bytes each, all chunks come before all regions, and each region, as well as
/// what follows the regions, points back to where its part begins.
pub open spec fn offsets_fit(regions: Seq<(i32, i32, Hash128, Seq<(i64, i64, Hash128)>)>) -> bool {
    &&& 32 * regions.len() + 4 <= 0x8000_0000
    &&& forall|k: int|
        0 <= k < regions.len() ==> 32 * #[trigger] chunks_behind(regions, k) + 32 * k + 24
            <= 0x8000_0000
}

/// `rkyv::to_bytes` on the nested tuples. It writes to memory and shares nothing, so that no
/// error comes of it; the bytes depend on the tuples alone, and `rkyv::from_bytes` restores from
/// them what was written. It panics where an offset does not fit in 32 bits: that is left out.
#[verifier::external_body]
fn rkyv_to_bytes(packed: &Packed) -> (r: Result<Vec<u8>, rkyv::rancor::Error>)
    requires
        offsets_fit(tuple_views(packed.1@)),
    ensures
        match r {
            Ok(bytes) => {
                &&& bytes@ == rkyv_archived(packed.0, tuple_views(packed.1@))
                &&& rkyv_restored(bytes@) == Some((packed.0, tuple_views(packed.1@)))
            },
            Err(_) => false,
        },
{
    rkyv::to_bytes::<rkyv::rancor::Error>(packed).map(|a| a.to_vec())
}

/// `rkyv::from_bytes` on a copy of the bytes in an `AlignedVec`, so that the outcome does not
/// depend on their address. It validates the bytes, and what it restores, or that an error
/// comes, depends on them alone.
#[verifier::external_body]
fn rkyv_from_bytes(bytes: &[u8]) -> (r: Result<Packed, rkyv::rancor::Error>)
    ensures
        match r {
            Ok(packed) => rkyv_restored(bytes@) == Some((packed.0, tuple_views(packed.1@))),
            Err(_) => rkyv_restored(bytes@) is None,
        },
{
    let mut aligned = rkyv::util::AlignedVec::<16>::new();
    aligned.extend_from_slice(bytes);
    rkyv::from_bytes::<Packed, rkyv::rancor::Error>(&aligned)
}

/// The chunks as tuples.
fn pack_chunks(chunks: &Vec<ChunkHash>) -> (r: Vec<(i64, i64, Hash128)>)
    ensures
        r@ == chunk_tuples(chunks@),
{
    let mut out: Vec<(i64, i64, Hash128)> = Vec::with_capacity(chunks.len());
    let mut i: usize = 0;
    while i < chunks.len()
        invariant
            i <= chunks@.len(),
            out@ == chunk_tuples(chunks@).take(i as int),
        decreases chunks@.len() - i,
    {
        let c = &chunks[i];
        out.push((c.x, c.z, c.hash));
        i += 1;
        assert(out@ =~= chunk_tuples(chunks@).take(i as int));
    }
    assert(out@ =~= chunk_tuples(chunks@));
    out
}

/// The chunks in tuples.
fn unpack_chunks(tuples: &Vec<(i64, i64, Hash128)>) -> (r: Vec<ChunkHash>)
    ensures
        chunk_tuples(r@) == tuples@,
{
    let mut out: Vec<ChunkHash> = Vec::with_capacity(tuples.len());
    let mut i: usize = 0;
    while i < tuples.len()
        invariant
            i <= tuples@.len(),
            out@.len() == i,
            forall|j: int|
                0 <= j < i ==> ((#[trigger] out@[j]).x, out@[j].z, out@[j].hash) == tuples@[j],
        decreases tuples@.len() - i,
    {
        let (x, z, hash) = tuples[i];
        out.push(ChunkHash { x, z, hash });
        i += 1;
    }
    assert(chunk_tuples(out@) =~= tuples@);
    out
}

/// The snapshot with these parts.
pub open spec fn snapshot_of(
    version: u32,
    regions: Seq<(i32, i32, Hash128, Seq<(i64, i64, Hash128)>)>,
) -> SnapshotModel {
    SnapshotModel {
        version,
        regions: Seq::new(
            regions.len(),
            |i: int|
                RegionHashModel {
                    x: regions[i].0,
                    z: regions[i].1,
                    hash: regions[i].2,
                    chunks: Seq::new(
                        regions[i].3.len(),
                        |j: int|
                            ChunkHash {
                                x: regions[i].3[j].0,
                                z: regions[i].3[j].1,
                                hash: regions[i].3[j].2,
                            },
                    ),
                },
        ),
    }
}

/// The snapshot that bytes hold; `None` where they hold none.
pub open spec fn read_back(bytes: Seq<u8>) -> Option<SnapshotModel> {
    match rkyv_restored(bytes) {
        Some((version, regions)) => Some(snapshot_of(version, regions)),
        None => None,
    }
}

/// Taking a snapshot apart and putting it together again changes nothing.
pub proof fn parts_make_the_snapshot(snapshot: SnapshotModel)
    ensures
        snapshot_of(snapshot.version, region_tuples(snapshot.regions)) == snapshot,
{
    let back = snapshot_of(snapshot.version, region_tuples(snapshot.regions));
    assert forall|i: int| 0 <= i < snapshot.regions.len() implies back.regions[i]
        == snapshot.regions[i] by {
        assert(back.regions[i].chunks =~= snapshot.regions[i].chunks);
    }
    assert(back.regions =~= snapshot.regions);
}

impl Snapshot {
    /// A snapshot of the current version.
    pub fn new(regions: Vec<RegionHash>) -> (r: Snapshot)
        ensures
            r@ == (SnapshotModel { version: SNAPSHOT_VERSION, regions: region_models(regions@) }),
    {
        Snapshot { version: SNAPSHOT_VERSION, regions }
    }

    /// Whether the snapshot is small enough for `to_bytes`.
    pub fn is_archivable(&self) -> (r: bool)
        ensures
            r == offsets_fit(region_tuples(self@.regions)),
    {
        let n: usize = self.regions.len();
        let ghost tuples = region_tuples(self@.regions);
        if n > 0x03FF_FFFF {
            return false;
        }
        let mut behind: u64 = 0;
        let mut k: usize = n;
        while k > 0
            invariant
                k <= n == self.regions@.len() == tuples.len(),
                n <= 0x03FF_FFFF,
                tuples == region_tuples(self@.regions),
                behind == chunks_behind(tuples, k as int),
                behind <= 0x0400_0000,
                forall|j: int|
                    k <= j < n ==> 32 * #[trigger] chunks_behind(tuples, j) + 32 * j + 24
                        <= 0x8000_0000,
            decreases k,
        {
            let count: usize = self.regions[k - 1].chunks.len();
            assert(chunks_behind(tuples, k - 1) == count + behind);
            if count > 0x0400_0000 {
                return false;
            }
            behind += count as u64;
            k -= 1;
            if 32 * behind + 32 * k as u64 + 24 > 0x8000_0000 {
                return false;
            }
        }
        true
    }

    /// The snapshot as nested tuples.
    pub fn pack(&self) -> (r: Packed)
        ensures
            r.0 == self@.version,
            tuple_views(r.1@) == region_tuples(self@.regions),
    {
        let mut tuples: Vec<(i32, i32, Hash128, Vec<(i64, i64, Hash128)>)> = Vec::with_capacity(
            self.regions.len(),
        );
        let mut i: usize = 0;
        while i < self.regions.len()
            invariant
                i <= self.regions@.len(),
                tuple_views(tuples@) == region_tuples(self@.regions).take(i as int),
            decreases self.regions@.len() - i,
        {
            let region = &self.regions[i];
            let ghost before = tuple_views(tuples@);
            let chunks = pack_chunks(&region.chunks);
            tuples.push((region.region_x, region.region_z, region.hash, chunks));
            i += 1;
            proof {
                let all = region_tuples(self@.regions);
                assert(tuple_views(tuples@) =~= before.push(all[i - 1]));
                assert(all.take(i as int) =~= all.take(i - 1).push(all[i - 1]));
            }
        }
        assert(tuple_views(tuples@) =~= region_tuples(self@.regions));
        (self.version, tuples)
    }

    /// The snapshot in nested tuples.
    pub fn unpack(packed: Packed) -> (r: Snapshot)
        ensures
            r@ == snapshot_of(packed.0, tuple_views(packed.1@)),
    {
        let (version, tuples) = packed;
        let mut regions: Vec<RegionHash> = Vec::with_capacity(tuples.len());
        let mut i: usize = 0;
        while i < tuples.len()
            invariant
                i <= tuples@.len(),
                regions@.len() == i,
                forall|j: int|
                    0 <= j < i ==> (#[trigger] regions@[j])@ == snapshot_of(
                        version,
                        tuple_views(tuples@),
                    ).regions[j],
            decreases tuples@.len() - i,
        {
            let tuple = &tuples[i];
            let chunks = unpack_chunks(&tuple.3);
            let region = RegionHash { region_x: tuple.0, region_z: tuple.1, hash: tuple.2, chunks };
            proof {
                let model = snapshot_of(version, tuple_views(tuples@)).regions[i as int];
                assert forall|j: int| 0 <= j < chunks@.len() implies chunks@[j] == model.chunks[j] by {
                    assert(chunk_tuples(chunks@)[j] == tuple.3@[j]);
                }
                assert(region@.chunks =~= model.chunks);
            }
            regions.push(region);
            i += 1;
        }
        let snapshot = Snapshot { version, regions };
        assert(snapshot@.regions =~= snapshot_of(version, tuple_views(tuples@)).regions);
        snapshot
    }

    /// The snapshot's bytes on disk: there always are some, and what was written is what
    /// `from_bytes` reads.
    pub fn to_bytes(&self) -> (r: Result<Vec<u8>, SnapshotError>)
        requires
            offsets_fit(region_tuples(self@.regions)),
        ensures
            match r {
                Ok(bytes) => {
                    &&& bytes@ == rkyv_archived(self@.version, region_tuples(self@.regions))
                    &&& read_back(bytes@) == Some(self@)
                },
                Err(_) => false,
            },
    {
        let packed = self.pack();
        proof {
            parts_make_the_snapshot(self@);
        }
        match rkyv_to_bytes(&packed) {
            Ok(bytes) => Ok(bytes),
            Err(e) => Err(SnapshotError::Encode(e)),
        }
    }

    /// The snapshot in these bytes, which are checked to hold one.
    pub fn from_bytes(bytes: &[u8]) -> (r: Result<Snapshot, SnapshotError>)
        ensures
            match (r, read_back(bytes@)) {
                (Ok(snapshot), Some(expected)) => snapshot@ == expected,
                (Err(e), None) => e is Decode,
                _ => false,
            },
    {
        match rkyv_from_bytes(bytes) {
            Ok(packed) => Ok(Snapshot::unpack(packed)),
            Err(e) => Err(SnapshotError::Decode(e)),
        }
    }
}

} // verus!
