//! b_linear region files (`.b_linear`): a header, a table of sixteen offsets, and at each one
//! a zstd bucket of 64 chunks.
use vstd::prelude::*;

use crate::archive::{
    contents, gives_region, place_chunks, placed, ArchiveError, Fault, ParsedRegion, RegionModel,
};
use crate::bytes::{be_value, copy_range, pow256, read_be};
use crate::codec::{decode, decoded, Codec};
use crate::util::{name_coords, region_coords};

verus! {

/// `first`, and behind it what `rest` gives, if it is no fault.
pub open spec fn chained(first: Seq<Seq<u8>>, rest: Result<Seq<Seq<u8>>, Fault>) -> Result<Seq<Seq<u8>>, Fault> {
    match rest {
        Ok(more) => Ok(first + more),
        Err(fault) => Err(fault),
    }
}

/// The first `n` entries of a decoded bucket. An entry is a 32-bit size and that many bytes:
/// sixteen of size, timestamp and checksum, and the data. A size of zero stands alone and has
/// no data.
pub open spec fn bucket_entries(b: Seq<u8>, n: nat) -> Result<Seq<Seq<u8>>, Fault>
    decreases n,
{
    if n == 0 {
        Ok(Seq::empty())
    } else if b.len() < 4 {
        Err(Fault::Truncated)
    } else {
        let size = be_value(b.take(4)) as int;
        if size == 0 {
            chained(seq![Seq::empty()], bucket_entries(b.skip(4), (n - 1) as nat))
        } else if 4 + size > b.len() || size < 16 {
            Err(Fault::Truncated)
        } else {
            chained(
                seq![b.subrange(20, 4 + size)],
                bucket_entries(b.skip(4 + size), (n - 1) as nat),
            )
        }
    }
}

/// The 64 chunks of the bucket at `offset`. A bucket is its size before and after compression,
/// and its zstd data.
pub open spec fn bucket_at(data: Seq<u8>, offset: int) -> Result<Seq<Seq<u8>>, Fault> {
    if offset + 8 > data.len() {
        Err(Fault::Truncated)
    } else {
        let size = be_value(data.subrange(offset + 4, offset + 8)) as int;
        if offset + 8 + size > data.len() {
            Err(Fault::Truncated)
        } else {
            match decoded(Codec::Zstd, data.subrange(offset + 8, offset + 8 + size)) {
                Some(out) => bucket_entries(out, 64),
                None => Err(Fault::Decode(Codec::Zstd)),
            }
        }
    }
}

/// The offset of bucket `i`.
pub open spec fn offset_of(data: Seq<u8>, i: int) -> int {
    be_value(data.subrange(14 + 8 * i, 22 + 8 * i)) as int
}

/// The chunks of bucket `i`: all empty where its offset is zero.
pub open spec fn bucket_chunks(data: Seq<u8>, i: int) -> Result<Seq<Seq<u8>>, Fault> {
    if offset_of(data, i) == 0 {
        Ok(Seq::new(64, |i: int| Seq::empty()))
    } else {
        bucket_at(data, offset_of(data, i))
    }
}

/// The chunks of the buckets from `i` on, up to the sixteenth.
pub open spec fn chunks_from(data: Seq<u8>, i: nat) -> Result<Seq<Seq<u8>>, Fault>
    decreases 16 - i,
{
    if i >= 16 {
        Ok(Seq::empty())
    } else {
        match bucket_chunks(data, i as int) {
            Ok(chunks) => chained(chunks, chunks_from(data, i + 1)),
            Err(fault) => Err(fault),
        }
    }
}

/// The region in a b_linear file.
pub open spec fn b_linear_region(name: Seq<char>, data: Seq<u8>) -> Result<RegionModel, Fault> {
    match name_coords(name) {
        Err(fault) => Err(Fault::Name(fault)),
        Ok((x, z)) => if data.len() < 9 {
            Err(Fault::Truncated)
        } else if data[8] != 3 {
            Err(Fault::BLinearVersion(data[8]))
        } else if data.len() < 142 {
            Err(Fault::Truncated)
        } else {
            match chunks_from(data, 0) {
                Ok(raws) => Ok(placed(x, z, raws)),
                Err(fault) => Err(fault),
            }
        },
    }
}

/// As many entries come out as were asked.
pub proof fn bucket_entries_len(b: Seq<u8>, n: nat)
    ensures
        bucket_entries(b, n) matches Ok(all) ==> all.len() == n,
    decreases n,
{
    if n > 0 && b.len() >= 4 {
        let size = be_value(b.take(4)) as int;
        bucket_entries_len(b.skip(4), (n - 1) as nat);
        bucket_entries_len(b.skip(4 + size), (n - 1) as nat);
    }
}

/// 64 chunks come out of each bucket.
pub proof fn chunks_from_len(data: Seq<u8>, i: nat)
    requires
        i <= 16,
    ensures
        chunks_from(data, i) matches Ok(all) ==> all.len() == 64 * (16 - i),
    decreases 16 - i,
{
    if i < 16 {
        let offset = offset_of(data, i as int);
        let size = be_value(data.subrange(offset + 4, offset + 8)) as int;
        if let Some(out) = decoded(Codec::Zstd, data.subrange(offset + 8, offset + 8 + size)) {
            bucket_entries_len(out, 64);
        }
        chunks_from_len(data, i + 1);
    }
}

/// Takes the 64 chunks out of a decoded bucket.
pub fn split_bucket(b: &[u8]) -> (r: Result<Vec<Vec<u8>>, ArchiveError>)
    ensures
        match (r, bucket_entries(b@, 64)) {
            (Ok(chunks), Ok(expected)) => contents(chunks@) == expected,
            (Err(e), Err(fault)) => e@ == fault,
            _ => false,
        },
{
    let end: usize = b.len();
    let mut chunks: Vec<Vec<u8>> = Vec::with_capacity(64);
    let mut pos: usize = 0;
    let mut left: usize = 64;
    proof {
        assert(b@.skip(0) =~= b@);
        assert(contents(chunks@) =~= Seq::empty());
        if let Ok(all) = bucket_entries(b@, 64) {
            assert(Seq::<Seq<u8>>::empty() + all =~= all);
        }
    }
    while left > 0
        invariant
            left <= 64,
            pos <= end == b@.len(),
            bucket_entries(b@, 64) == chained(
                contents(chunks@),
                bucket_entries(b@.skip(pos as int), left as nat),
            ),
        decreases left,
    {
        let ghost rest = b@.skip(pos as int);
        let ghost sofar = contents(chunks@);
        if end - pos < 4 {
            return Err(ArchiveError::Truncated);
        }
        assert(rest.take(4) =~= b@.subrange(pos as int, pos + 4));
        proof {
            reveal_with_fuel(pow256, 5);
        }
        let size: u64 = read_be(b, pos, 4);
        if size > 0 && (size > (end - pos - 4) as u64 || size < 16) {
            return Err(ArchiveError::Truncated);
        }
        let n: usize = size as usize;
        let chunk: Vec<u8> = if n == 0 {
            Vec::new()
        } else {
            copy_range(b, pos + 20, n - 16)
        };
        proof {
            let first = if n == 0 {
                Seq::empty()
            } else {
                rest.subrange(20, 4 + n)
            };
            assert(chunk@ =~= first);
            assert(rest.skip(4 + n) =~= b@.skip(pos + 4 + n));
            let tail = bucket_entries(b@.skip(pos + 4 + n), (left - 1) as nat);
            if let Ok(more) = tail {
                assert(sofar + (seq![first] + more) =~= sofar.push(first) + more);
            }
        }
        chunks.push(chunk);
        assert(contents(chunks@) =~= sofar.push(chunk@));
        pos += 4 + n;
        left -= 1;
    }
    proof {
        assert(contents(chunks@) + Seq::<Seq<u8>>::empty() =~= contents(chunks@));
    }
    Ok(chunks)
}

/// Reads the bucket at `offset`.
pub fn read_b_linear_bucket(data: &[u8], offset: u64) -> (r: Result<Vec<Vec<u8>>, ArchiveError>)
    ensures
        match (r, bucket_at(data@, offset as int)) {
            (Ok(chunks), Ok(expected)) => contents(chunks@) == expected,
            (Err(e), Err(fault)) => e@ == fault,
            _ => false,
        },
{
    let end: usize = data.len();
    if end < 8 || offset > (end - 8) as u64 {
        return Err(ArchiveError::Truncated);
    }
    let pos: usize = offset as usize;
    let size: u64 = read_be(data, pos + 4, 4);
    if size > (end - pos - 8) as u64 {
        return Err(ArchiveError::Truncated);
    }
    let compressed = copy_range(data, pos + 8, size as usize);
    match decode(Codec::Zstd, compressed.as_slice()) {
        Ok(out) => split_bucket(out.as_slice()),
        Err(cause) => Err(ArchiveError::Decode(Codec::Zstd, cause)),
    }
}

/// Parses a b_linear file: all sixteen buckets, in order.
pub fn parse_b_linear_v3(name: &str, data: &[u8]) -> (r: Result<ParsedRegion, ArchiveError>)
    ensures
        gives_region(r, b_linear_region(name@, data@)),
{
    let region: (i32, i32) = match region_coords(name) {
        Ok(p) => p,
        Err(fault) => return Err(ArchiveError::Name(fault)),
    };
    if data.len() < 9 {
        return Err(ArchiveError::Truncated);
    }
    if data[8] != 3 {
        return Err(ArchiveError::BLinearVersion(data[8]));
    }
    if data.len() < 142 {
        return Err(ArchiveError::Truncated);
    }
    let mut raws: Vec<Vec<u8>> = Vec::with_capacity(1024);
    let mut i: usize = 0;
    proof {
        assert(contents(raws@) =~= Seq::empty());
        if let Ok(all) = chunks_from(data@, 0) {
            assert(Seq::<Seq<u8>>::empty() + all =~= all);
        }
    }
    while i < 16
        invariant
            i <= 16,
            data@.len() >= 142,
            raws@.len() == 64 * i,
            chunks_from(data@, 0) == chained(contents(raws@), chunks_from(data@, i as nat)),
            match name_coords(name@) {
                Ok(p) => region.0 == p.0 && region.1 == p.1,
                Err(_) => false,
            },
            data@[8] == 3,
        decreases 16 - i,
    {
        let ghost sofar = contents(raws@);
        let offset: u64 = read_be(data, 14 + 8 * i, 8);
        assert(offset == offset_of(data@, i as int));
        let mut chunks: Vec<Vec<u8>> = if offset == 0 {
            empty_chunks()
        } else {
            match read_b_linear_bucket(data, offset) {
                Ok(chunks) => chunks,
                Err(e) => return Err(e),
            }
        };
        proof {
            assert(contents(chunks@).len() == 64) by {
                if offset != 0 {
                    let size = be_value(data@.subrange(offset + 4, offset + 8)) as int;
                    let out = decoded(Codec::Zstd, data@.subrange(offset + 8, offset + 8 + size));
                    bucket_entries_len(out->0, 64);
                }
            }
            let all = contents(chunks@);
            if let Ok(more) = chunks_from(data@, (i + 1) as nat) {
                assert(sofar + (all + more) =~= (sofar + all) + more);
            }
        }
        let ghost added = chunks@;
        raws.append(&mut chunks);
        assert(contents(raws@) =~= sofar + contents(added));
        i += 1;
    }
    proof {
        assert(contents(raws@) + Seq::<Seq<u8>>::empty() =~= contents(raws@));
    }
    Ok(place_chunks(region.0, region.1, raws))
}

/// 64 chunks without data.
fn empty_chunks() -> (r: Vec<Vec<u8>>)
    ensures
        contents(r@) == Seq::new(64, |i: int| Seq::<u8>::empty()),
{
    let mut chunks: Vec<Vec<u8>> = Vec::with_capacity(64);
    let mut i: usize = 0;
    while i < 64
        invariant
            i <= 64,
            chunks@.len() == i,
            forall|j: int| 0 <= j < i ==> (#[trigger] chunks@[j])@ == Seq::<u8>::empty(),
        decreases 64 - i,
    {
        chunks.push(Vec::new());
        i += 1;
    }
    assert(contents(chunks@) =~= Seq::new(64, |i: int| Seq::<u8>::empty()));
    chunks
}

} // verus!
