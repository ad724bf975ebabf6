//! Region files: the raw bytes and the coordinates of the 32 by 32 chunks that each one holds.
//!
//! An empty slot gives a chunk without bytes. The parsers work on the bytes of a file; the
//! chunks that an anvil file keeps in files of their own are handed in.
use vstd::prelude::*;

use crate::anvil::{anvil_region, anvil_slot, parse_anvil, ExternalChunk};
use crate::b_linear::{b_linear_region, chunks_from_len, parse_b_linear_v3};
use crate::codec::Codec;
use crate::linear::{linear_region, parse_linear_v2};
use crate::util::{file_type, get_file_type, name_coords, FileType, NameFault, TypeFault};

verus! {

// ---- what comes out ----

/// A chunk: its world coordinates, and its uncompressed bytes.
#[derive(Clone, Debug)]
pub struct ParsedChunk {
    pub x: i64,
    pub z: i64,
    pub raw: Vec<u8>,
}

/// What a chunk stands for.
pub struct ChunkModel {
    pub x: int,
    pub z: int,
    pub raw: Seq<u8>,
}

impl View for ParsedChunk {
    type V = ChunkModel;

    open spec fn view(&self) -> ChunkModel {
        ChunkModel { x: self.x as int, z: self.z as int, raw: self.raw@ }
    }
}

impl ParsedChunk {
    /// Whether the slot holds no data.
    pub fn is_empty(&self) -> (r: bool)
        ensures
            r == (self@.raw.len() == 0),
    {
        self.raw.len() == 0
    }
}

/// A region: its coordinates, and its chunks in the order of their index.
#[derive(Clone, Debug)]
pub struct ParsedRegion {
    pub region_x: i32,
    pub region_z: i32,
    pub chunks: Vec<ParsedChunk>,
}

/// What a region stands for.
pub struct RegionModel {
    pub x: int,
    pub z: int,
    pub chunks: Seq<ChunkModel>,
}

/// What chunks stand for.
pub open spec fn chunk_models(chunks: Seq<ParsedChunk>) -> Seq<ChunkModel> {
    Seq::new(chunks.len(), |i: int| chunks[i]@)
}

impl View for ParsedRegion {
    type V = RegionModel;

    open spec fn view(&self) -> RegionModel {
        RegionModel {
            x: self.region_x as int,
            z: self.region_z as int,
            chunks: chunk_models(self.chunks@),
        }
    }
}

/// The region at (`x`, `z`) whose slots hold `raws`: slot `i` is column `i % 32` of row
/// `i / 32`.
pub open spec fn placed(x: int, z: int, raws: Seq<Seq<u8>>) -> RegionModel {
    RegionModel {
        x,
        z,
        chunks: Seq::new(
            raws.len(),
            |i: int| ChunkModel { x: x * 32 + i % 32, z: z * 32 + i / 32, raw: raws[i] },
        ),
    }
}

/// Why a region file cannot be parsed.
#[derive(Debug)]
pub enum ArchiveError {
    /// The data ends before what is to be read.
    Truncated,
    /// The file name gives no coordinates.
    Name(NameFault),
    /// A file of the linear family in a version that is not known.
    Version(TypeFault),
    /// A linear file of the first version.
    LinearV1,
    /// A b_linear file whose version byte is another than 3.
    BLinearVersion(u8),
    /// A linear file whose grid size is no power of two up to 32.
    GridSize(i8),
    /// A chunk in a compression that is not known.
    UnknownCompression(u8),
    /// Compressed data that does not decode, with the decoder's error.
    Decode(Codec, std::io::Error),
    /// A chunk in a file of its own that is not there.
    MissingExternal(i64, i64),
    /// A chunk in a file of its own that cannot be read.
    UnreadableExternal(i64, i64),
}

/// What an error stands for: all but the decoder's own error.
pub enum Fault {
    Truncated,
    Name(NameFault),
    Version(TypeFault),
    LinearV1,
    BLinearVersion(u8),
    GridSize(int),
    UnknownCompression(u8),
    Decode(Codec),
    MissingExternal(int, int),
    UnreadableExternal(int, int),
}

impl View for ArchiveError {
    type V = Fault;

    open spec fn view(&self) -> Fault {
        match *self {
            ArchiveError::Truncated => Fault::Truncated,
            ArchiveError::Name(fault) => Fault::Name(fault),
            ArchiveError::Version(fault) => Fault::Version(fault),
            ArchiveError::LinearV1 => Fault::LinearV1,
            ArchiveError::BLinearVersion(v) => Fault::BLinearVersion(v),
            ArchiveError::GridSize(v) => Fault::GridSize(v as int),
            ArchiveError::UnknownCompression(v) => Fault::UnknownCompression(v),
            ArchiveError::Decode(codec, _) => Fault::Decode(codec),
            ArchiveError::MissingExternal(x, z) => Fault::MissingExternal(x as int, z as int),
            ArchiveError::UnreadableExternal(x, z) => Fault::UnreadableExternal(x as int, z as int),
        }
    }
}

/// `r` is the bytes, or the fault, that are expected.
pub open spec fn gives_bytes(r: Result<Vec<u8>, ArchiveError>, expected: Result<Seq<u8>, Fault>) -> bool {
    match (r, expected) {
        (Ok(out), Ok(bytes)) => out@ == bytes,
        (Err(e), Err(fault)) => e@ == fault,
        _ => false,
    }
}

/// `r` is the region, or the fault, that is expected.
pub open spec fn gives_region(
    r: Result<ParsedRegion, ArchiveError>,
    expected: Result<RegionModel, Fault>,
) -> bool {
    match (r, expected) {
        (Ok(region), Ok(model)) => region@ == model,
        (Err(e), Err(fault)) => e@ == fault,
        _ => false,
    }
}

/// The first `n` results of `slot`, or the first fault among them.
pub open spec fn gathered<T>(slot: spec_fn(int) -> Result<T, Fault>, n: nat) -> Result<Seq<T>, Fault>
    decreases n,
{
    if n == 0 {
        Ok(Seq::empty())
    } else {
        match gathered(slot, (n - 1) as nat) {
            Err(fault) => Err(fault),
            Ok(sofar) => match slot(n - 1) {
                Err(fault) => Err(fault),
                Ok(item) => Ok(sofar.push(item)),
            },
        }
    }
}

/// A fault ends it: what comes behind does not matter.
pub proof fn fault_ends<T>(slot: spec_fn(int) -> Result<T, Fault>, m: nat, n: nat)
    requires
        m <= n,
        gathered(slot, m) is Err,
    ensures
        gathered(slot, n) == gathered(slot, m),
    decreases n - m,
{
    if m < n {
        fault_ends(slot, m, (n - 1) as nat);
    }
}

/// As many results come out as slots were asked.
pub proof fn gathered_len<T>(slot: spec_fn(int) -> Result<T, Fault>, n: nat)
    ensures
        gathered(slot, n) matches Ok(all) ==> all.len() == n,
    decreases n,
{
    if n > 0 {
        gathered_len(slot, (n - 1) as nat);
    }
}

/// Contents as byte strings.
pub open spec fn contents(items: Seq<Vec<u8>>) -> Seq<Seq<u8>> {
    Seq::new(items.len(), |i: int| items[i]@)
}

/// Gives each slot its place in the world.
pub fn place_chunks(region_x: i32, region_z: i32, raws: Vec<Vec<u8>>) -> (r: ParsedRegion)
    requires
        raws@.len() <= 1024,
    ensures
        r@ == placed(region_x as int, region_z as int, contents(raws@)),
{
    let ghost all = raws@;
    let mut chunks: Vec<ParsedChunk> = Vec::with_capacity(raws.len());
    let mut index: i64 = 0;
    for raw in it: raws
        invariant
            it.seq() == all,
            all.len() <= 1024,
            index == it.index() == chunks@.len(),
            forall|j: int|
                0 <= j < chunks@.len() ==> (#[trigger] chunks@[j])@ == placed(
                    region_x as int,
                    region_z as int,
                    contents(all),
                ).chunks[j],
    {
        let x: i64 = region_x as i64 * 32 + index % 32;
        let z: i64 = region_z as i64 * 32 + index / 32;
        chunks.push(ParsedChunk { x, z, raw });
        index += 1;
    }
    let region = ParsedRegion { region_x, region_z, chunks };
    assert(region@.chunks =~= placed(region_x as int, region_z as int, contents(all)).chunks);
    region
}

// ---- the parsers ----

/// The region in a file whose type its first bytes tell.
pub open spec fn detected_region(
    name: Seq<char>,
    data: Seq<u8>,
    externals: Seq<ExternalChunk>,
) -> Result<RegionModel, Fault> {
    match file_type(data) {
        Err(TypeFault::Truncated) => Err(Fault::Truncated),
        Err(fault) => Err(Fault::Version(fault)),
        Ok(FileType::Anvil) => anvil_region(name, data, externals),
        Ok(FileType::LinearV2) => linear_region(data),
        Ok(FileType::BLinearV3) => b_linear_region(name, data),
        Ok(FileType::LinearV1) => Err(Fault::LinearV1),
    }
}

/// Tells the type of a region file by its bytes, and parses it.
pub fn parse_region_file(name: &str, data: &[u8], externals: &[ExternalChunk]) -> (r: Result<
    ParsedRegion,
    ArchiveError,
>)
    ensures
        gives_region(r, detected_region(name@, data@, externals@)),
{
    match get_file_type(data) {
        Ok(FileType::Anvil) => parse_anvil(name, data, externals),
        Ok(FileType::LinearV2) => parse_linear_v2(data),
        Ok(FileType::BLinearV3) => parse_b_linear_v3(name, data),
        Ok(FileType::LinearV1) => Err(ArchiveError::LinearV1),
        Err(TypeFault::Truncated) => Err(ArchiveError::Truncated),
        Err(fault) => Err(ArchiveError::Version(fault)),
    }
}

/// Parses a file as anvil, whatever its first bytes.
pub fn parse_region_file_anvil(name: &str, data: &[u8], externals: &[ExternalChunk]) -> (r: Result<
    ParsedRegion,
    ArchiveError,
>)
    ensures
        gives_region(r, anvil_region(name@, data@, externals@)),
{
    parse_anvil(name, data, externals)
}

/// Parses a file as linear of the second version, whatever its first bytes.
pub fn parse_region_file_linear_v2(data: &[u8]) -> (r: Result<ParsedRegion, ArchiveError>)
    ensures
        gives_region(r, linear_region(data@)),
{
    parse_linear_v2(data)
}

/// Parses a file as b_linear of the third version, whatever its first bytes.
pub fn parse_region_file_b_linear_v3(name: &str, data: &[u8]) -> (r: Result<
    ParsedRegion,
    ArchiveError,
>)
    ensures
        gives_region(r, b_linear_region(name@, data@)),
{
    parse_b_linear_v3(name, data)
}

// ---- laws ----

/// A region is whole: whatever the format, what parses has 1024 slots, and slot `i` is the
/// chunk in column `i % 32` and row `i / 32` of the region.
pub proof fn parsed_region_is_whole(name: Seq<char>, data: Seq<u8>, externals: Seq<ExternalChunk>)
    ensures
        anvil_region(name, data, externals) matches Ok(region) ==> is_whole(region),
        linear_region(data) matches Ok(region) ==> is_whole(region),
        b_linear_region(name, data) matches Ok(region) ==> is_whole(region),
        detected_region(name, data, externals) matches Ok(region) ==> is_whole(region),
{
    if let Ok(at) = name_coords(name) {
        gathered_len(|i: int| anvil_slot(data, at, externals, i), 1024);
    }
    chunks_from_len(data, 0);
}

/// 1024 chunks, each at its place in the region.
pub open spec fn is_whole(region: RegionModel) -> bool {
    &&& region.chunks.len() == 1024
    &&& forall|i: int|
        0 <= i < 1024 ==> (#[trigger] region.chunks[i]).x == region.x * 32 + i % 32
            && region.chunks[i].z == region.z * 32 + i / 32
}

/// No two slots of a region are the same chunk.
pub proof fn chunks_are_distinct(region: RegionModel, i: int, j: int)
    requires
        is_whole(region),
        0 <= i < j < 1024,
    ensures
        region.chunks[i].x != region.chunks[j].x || region.chunks[i].z != region.chunks[j].z,
{
}

/// The coordinates of a parsed region are those in its file name, where the format has none of
/// its own.
pub proof fn parsed_region_is_at_its_name(name: Seq<char>, data: Seq<u8>, externals: Seq<ExternalChunk>)
    ensures
        anvil_region(name, data, externals) matches Ok(region) ==> name_coords(name) == Ok::<
            (int, int),
            NameFault,
        >((region.x, region.z)),
        b_linear_region(name, data) matches Ok(region) ==> name_coords(name) == Ok::<
            (int, int),
            NameFault,
        >((region.x, region.z)),
{
}

} // verus!
