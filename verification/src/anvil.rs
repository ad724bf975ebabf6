//! Anvil region files (`.mca`): a table of 1024 locations, one of 1024 timestamps, and the
//! chunks in sectors of 4096 bytes, each compressed on its own.
use vstd::prelude::*;
use vstd::string::StringExecFns;

use crate::archive::{
    contents, fault_ends, gathered, gives_bytes, gives_region, place_chunks, placed, ArchiveError, Fault, ParsedRegion,
    RegionModel,
};
use crate::bytes::{be_value, copy_range, pow256, read_be};
use crate::codec::{decode, decoded, Codec};
use crate::text::{decimal, push_signed};
use crate::util::{name_coords, region_coords};

verus! {

/// What is known of a chunk that an anvil file keeps in a file of its own.
#[derive(Clone, Debug)]
pub enum External {
    /// There is no such file.
    Missing,
    /// The file is there, and reading it failed.
    Unreadable,
    /// The file's bytes.
    Content(Vec<u8>),
}

/// The file of its own of the chunk at (`x`, `z`).
#[derive(Clone, Debug)]
pub struct ExternalChunk {
    pub x: i64,
    pub z: i64,
    pub content: External,
}

/// The sector, the number of sectors and the timestamp of a chunk.
pub open spec fn location(data: Seq<u8>, i: int) -> (int, int, int) {
    (
        be_value(data.subrange(4 * i, 4 * i + 3)) as int,
        data[4 * i + 3] as int,
        be_value(data.subrange(4096 + 4 * i, 4096 + 4 * i + 4)) as int,
    )
}

/// The compression of a type byte.
pub open spec fn codec_of(compression_type: u8) -> Option<Codec> {
    match compression_type {
        1 => Some(Codec::Gzip),
        2 => Some(Codec::Zlib),
        4 => Some(Codec::Lz4),
        _ => None,
    }
}

/// Chunk data without its compression: 1 is gzip, 2 zlib, 3 none and 4 lz4.
pub open spec fn decompressed(data: Seq<u8>, compression_type: u8) -> Result<Seq<u8>, Fault> {
    if compression_type == 3 {
        Ok(data)
    } else {
        match codec_of(compression_type) {
            Some(codec) => match decoded(codec, data) {
                Some(out) => Ok(out),
                None => Err(Fault::Decode(codec)),
            },
            None => Err(Fault::UnknownCompression(compression_type)),
        }
    }
}

/// What `externals` say of the chunk at (`x`, `z`): the first entry for it counts, and none
/// means that its file is missing.
pub open spec fn external_of(externals: Seq<ExternalChunk>, x: int, z: int) -> External
    decreases externals.len(),
{
    if externals.len() == 0 {
        External::Missing
    } else if externals[0].x == x && externals[0].z == z {
        externals[0].content
    } else {
        external_of(externals.drop_first(), x, z)
    }
}

/// The bytes of slot `i` of an anvil file.
///
/// A slot without a location or without sectors is empty, and so is one whose length is zero
/// or beyond its sectors. A type byte from 128 on points to a file of the chunk's own.
pub open spec fn anvil_slot(
    data: Seq<u8>,
    region: (int, int),
    externals: Seq<ExternalChunk>,
    i: int,
) -> Result<Seq<u8>, Fault> {
    let (sector, count, _) = location(data, i);
    let pos = sector * 4096;
    if sector == 0 || count == 0 {
        Ok(Seq::empty())
    } else if pos + 5 > data.len() {
        Err(Fault::Truncated)
    } else {
        let length = be_value(data.subrange(pos, pos + 4));
        let kind = data[pos + 4];
        if kind >= 128 {
            let x = region.0 * 32 + i % 32;
            let z = region.1 * 32 + i / 32;
            match external_of(externals, x, z) {
                External::Missing => Err(Fault::MissingExternal(x, z)),
                External::Unreadable => Err(Fault::UnreadableExternal(x, z)),
                External::Content(bytes) => decompressed(bytes@, (kind - 128) as u8),
            }
        } else if length == 0 || length > count * 4096 - 5 {
            Ok(Seq::empty())
        } else if pos + 4 + length > data.len() {
            Err(Fault::Truncated)
        } else {
            decompressed(data.subrange(pos + 5, pos + 4 + length), kind)
        }
    }
}

/// The region in an anvil file.
pub open spec fn anvil_region(
    name: Seq<char>,
    data: Seq<u8>,
    externals: Seq<ExternalChunk>,
) -> Result<RegionModel, Fault> {
    match name_coords(name) {
        Err(fault) => Err(Fault::Name(fault)),
        Ok(region) => if data.len() < 8192 {
            Err(Fault::Truncated)
        } else {
            match gathered(|i: int| anvil_slot(data, region, externals, i), 1024) {
                Err(fault) => Err(fault),
                Ok(raws) => Ok(placed(region.0, region.1, raws)),
            }
        },
    }
}

/// Reads the location and timestamp tables.
pub fn read_anvil_superblock(data: &[u8]) -> (r: Result<Vec<(u32, u8, u32)>, ArchiveError>)
    ensures
        match r {
            Ok(infos) => {
                &&& data@.len() >= 8192
                &&& infos@.len() == 1024
                &&& forall|i: int| #![trigger infos@[i]]
                    0 <= i < 1024 ==> (infos@[i].0 as int, infos@[i].1 as int, infos@[i].2 as int)
                        == location(data@, i)
            },
            Err(e) => data@.len() < 8192 && e@ == Fault::Truncated,
        },
{
    if data.len() < 8192 {
        return Err(ArchiveError::Truncated);
    }
    let mut infos: Vec<(u32, u8, u32)> = Vec::with_capacity(1024);
    let mut i: usize = 0;
    while i < 1024
        invariant
            i <= 1024,
            data@.len() >= 8192,
            infos@.len() == i,
            forall|j: int| #![trigger infos@[j]]
                0 <= j < i ==> (infos@[j].0 as int, infos@[j].1 as int, infos@[j].2 as int)
                    == location(data@, j),
        decreases 1024 - i,
    {
        proof {
            reveal_with_fuel(pow256, 5);
        }
        let sector: u64 = read_be(data, 4 * i, 3);
        let timestamp: u64 = read_be(data, 4096 + 4 * i, 4);
        infos.push((sector as u32, data[4 * i + 3], timestamp as u32));
        i += 1;
    }
    Ok(infos)
}

/// Takes the compression off chunk data.
pub fn decompress(data: &[u8], compression_type: u8) -> (r: Result<Vec<u8>, ArchiveError>)
    ensures
        gives_bytes(r, decompressed(data@, compression_type)),
{
    let codec = match compression_type {
        1 => Codec::Gzip,
        2 => Codec::Zlib,
        3 => {
            let out = copy_range(data, 0, data.len());
            assert(out@ =~= data@);
            return Ok(out);
        },
        4 => Codec::Lz4,
        _ => return Err(ArchiveError::UnknownCompression(compression_type)),
    };
    match decode(codec, data) {
        Ok(out) => Ok(out),
        Err(cause) => Err(ArchiveError::Decode(codec, cause)),
    }
}

/// The position of the entry for (`x`, `z`).
fn find_external(externals: &[ExternalChunk], x: i64, z: i64) -> (r: Option<usize>)
    ensures
        match r {
            Some(at) => at < externals@.len() && external_of(externals@, x as int, z as int)
                == externals@[at as int].content,
            None => external_of(externals@, x as int, z as int) == External::Missing,
        },
{
    let mut i: usize = 0;
    assert(externals@.skip(0) =~= externals@);
    while i < externals.len()
        invariant
            i <= externals@.len(),
            external_of(externals@, x as int, z as int) == external_of(
                externals@.skip(i as int),
                x as int,
                z as int,
            ),
        decreases externals@.len() - i,
    {
        if externals[i].x == x && externals[i].z == z {
            return Some(i);
        }
        assert(externals@.skip(i as int).drop_first() =~= externals@.skip(i + 1));
        i += 1;
    }
    None
}

/// Reads one slot.
fn read_slot(
    data: &[u8],
    region: (i32, i32),
    externals: &[ExternalChunk],
    info: (u32, u8, u32),
    i: usize,
) -> (r: Result<Vec<u8>, ArchiveError>)
    requires
        i < 1024,
        data@.len() >= 8192,
        (info.0 as int, info.1 as int, info.2 as int) == location(data@, i as int),
    ensures
        gives_bytes(
            r,
            anvil_slot(data@, (region.0 as int, region.1 as int), externals@, i as int),
        ),
{
    let (sector, count, _) = info;
    if sector == 0 || count == 0 {
        return Ok(Vec::new());
    }
    let size: u64 = data.len() as u64;
    let start: u64 = sector as u64 * 4096;
    if start + 5 > size {
        return Err(ArchiveError::Truncated);
    }
    let pos: usize = start as usize;
    proof {
        reveal_with_fuel(pow256, 5);
    }
    let length: u64 = read_be(data, pos, 4);
    let kind: u8 = data[pos + 4];
    if kind >= 128 {
        let x: i64 = region.0 as i64 * 32 + (i % 32) as i64;
        let z: i64 = region.1 as i64 * 32 + (i / 32) as i64;
        return match find_external(externals, x, z) {
            None => Err(ArchiveError::MissingExternal(x, z)),
            Some(at) => match &externals[at].content {
                External::Missing => Err(ArchiveError::MissingExternal(x, z)),
                External::Unreadable => Err(ArchiveError::UnreadableExternal(x, z)),
                External::Content(bytes) => decompress(bytes.as_slice(), kind - 128),
            },
        };
    }
    if length == 0 || length > count as u64 * 4096 - 5 {
        return Ok(Vec::new());
    }
    if start + 4 + length > size {
        return Err(ArchiveError::Truncated);
    }
    let compressed = copy_range(data, pos + 5, (length - 1) as usize);
    decompress(compressed.as_slice(), kind)
}

/// Parses an anvil file: all 1024 slots, in order.
pub fn parse_anvil(name: &str, data: &[u8], externals: &[ExternalChunk]) -> (r: Result<
    ParsedRegion,
    ArchiveError,
>)
    ensures
        gives_region(r, anvil_region(name@, data@, externals@)),
{
    let region: (i32, i32) = match region_coords(name) {
        Ok(p) => p,
        Err(fault) => return Err(ArchiveError::Name(fault)),
    };
    let infos = match read_anvil_superblock(data) {
        Ok(infos) => infos,
        Err(e) => return Err(e),
    };
    let ghost at = (region.0 as int, region.1 as int);
    let ghost slot = |i: int| anvil_slot(data@, at, externals@, i);
    let mut raws: Vec<Vec<u8>> = Vec::with_capacity(1024);
    let mut i: usize = 0;
    assert(contents(raws@) =~= Seq::empty());
    while i < 1024
        invariant
            i <= 1024,
            data@.len() >= 8192,
            infos@.len() == 1024,
            forall|j: int| #![trigger infos@[j]]
                0 <= j < 1024 ==> (infos@[j].0 as int, infos@[j].1 as int, infos@[j].2 as int)
                    == location(data@, j),
            at == (region.0 as int, region.1 as int),
            name_coords(name@) == Ok::<(int, int), crate::util::NameFault>(at),
            slot == |i: int| anvil_slot(data@, at, externals@, i),
            raws@.len() == i,
            gathered(slot, i as nat) == Ok::<Seq<Seq<u8>>, Fault>(contents(raws@)),
        decreases 1024 - i,
    {
        match read_slot(data, region, externals, infos[i], i) {
            Ok(raw) => {
                let ghost before = contents(raws@);
                raws.push(raw);
                assert(contents(raws@) =~= before.push(raw@));
            },
            Err(e) => {
                proof {
                    fault_ends(slot, (i + 1) as nat, 1024);
                }
                return Err(e);
            },
        }
        i += 1;
    }
    Ok(place_chunks(region.0, region.1, raws))
}

// ---- chunks in files of their own ----

/// Slot `i` points to a file of the chunk's own.
pub open spec fn is_external(data: Seq<u8>, i: int) -> bool {
    let (sector, count, _) = location(data, i);
    sector != 0 && count != 0 && sector * 4096 + 5 <= data.len() && data[sector * 4096 + 4] >= 128
}

/// The world coordinates of those of the first `n` slots that point to files of their own.
pub open spec fn externals_among(data: Seq<u8>, region: (int, int), n: nat) -> Seq<(int, int)>
    decreases n,
{
    if n == 0 {
        Seq::empty()
    } else {
        let found = externals_among(data, region, (n - 1) as nat);
        if is_external(data, n - 1) {
            found.push((region.0 * 32 + (n - 1) % 32, region.1 * 32 + (n - 1) / 32))
        } else {
            found
        }
    }
}

/// The world coordinates of all chunks of an anvil file that lie in files of their own.
pub open spec fn needed_externals(name: Seq<char>, data: Seq<u8>) -> Seq<(int, int)> {
    match name_coords(name) {
        Ok(region) => if data.len() < 8192 {
            Seq::empty()
        } else {
            externals_among(data, region, 1024)
        },
        Err(_) => Seq::empty(),
    }
}

/// Pairs of coordinates as integers.
pub open spec fn int_pairs(pairs: Seq<(i64, i64)>) -> Seq<(int, int)> {
    Seq::new(pairs.len(), |i: int| (pairs[i].0 as int, pairs[i].1 as int))
}

/// The chunks whose own files the parser will ask for.
pub fn external_chunks(name: &str, data: &[u8]) -> (r: Vec<(i64, i64)>)
    ensures
        int_pairs(r@) == needed_externals(name@, data@),
{
    let mut found: Vec<(i64, i64)> = Vec::new();
    assert(int_pairs(found@) =~= Seq::empty());
    let region: (i32, i32) = match region_coords(name) {
        Ok(p) => p,
        Err(_) => return found,
    };
    let infos = match read_anvil_superblock(data) {
        Ok(infos) => infos,
        Err(_) => return found,
    };
    let ghost at = (region.0 as int, region.1 as int);
    let mut i: usize = 0;
    while i < 1024
        invariant
            i <= 1024,
            infos@.len() == 1024,
            forall|j: int| #![trigger infos@[j]]
                0 <= j < 1024 ==> (infos@[j].0 as int, infos@[j].1 as int, infos@[j].2 as int)
                    == location(data@, j),
            at == (region.0 as int, region.1 as int),
            int_pairs(found@) == externals_among(data@, at, i as nat),
        decreases 1024 - i,
    {
        let (sector, count, _) = infos[i];
        let start: u64 = sector as u64 * 4096;
        if sector != 0 && count != 0 && start + 5 <= data.len() as u64 && data[start as usize + 4] >= 128 {
            let ghost before = int_pairs(found@);
            let x: i64 = region.0 as i64 * 32 + (i % 32) as i64;
            let z: i64 = region.1 as i64 * 32 + (i / 32) as i64;
            found.push((x, z));
            assert(int_pairs(found@) =~= before.push((x as int, z as int)));
        }
        i += 1;
    }
    found
}

/// The name of the file of its own of the chunk at (`x`, `z`).
pub open spec fn external_file(x: int, z: int) -> Seq<char> {
    "c."@ + decimal(x) + "."@ + decimal(z) + ".mcc"@
}

/// The name of the file of its own of the chunk at (`x`, `z`).
pub fn external_name(x: i64, z: i64) -> (r: String)
    ensures
        r@ == external_file(x as int, z as int),
{
    let mut name = "c.".to_owned();
    push_signed(&mut name, x);
    name.append(".");
    push_signed(&mut name, z);
    name.append(".mcc");
    name
}

} // verus!
