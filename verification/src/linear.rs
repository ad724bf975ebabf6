//! Linear region files of the second version (`.linear`): a header, a bitmap of the slots in
//! use, a table of named features, and the chunks in a square grid of zstd buckets.
use vstd::prelude::*;

use crate::archive::{
    contents, fault_ends, gathered, gathered_len, gives_region, place_chunks, placed, ArchiveError, Fault,
    ParsedRegion, RegionModel,
};
use crate::bytes::{be_value, copy_range, pow256, read_be, signed32};
use crate::codec::{decode, decoded, Codec};

verus! {

// ---- the layout ----

/// The signed number whose 8-bit two's complement is `b`.
pub open spec fn signed8(b: u8) -> int {
    if b < 128 {
        b as int
    } else {
        b - 256
    }
}

/// A grid size that divides a region evenly.
pub open spec fn is_grid(g: int) -> bool {
    g == 1 || g == 2 || g == 4 || g == 8 || g == 16 || g == 32
}

/// How many chunks a bucket holds along a side.
pub open spec fn bucket_side(grid: int) -> int {
    32int / grid
}

/// The bit of slot `i` in the bitmap, most significant bit first.
pub open spec fn slot_bit(bitmap: Seq<u8>, i: int) -> bool {
    (bitmap[i / 8] >> ((7 - i % 8) as u8)) & 1 == 1
}

/// Where the features end that start at `pos`: each is a length, that many bytes of name and
/// four of value, and a length of zero ends them.
pub open spec fn features_end(data: Seq<u8>, pos: int) -> Option<int>
    decreases data.len() - pos,
{
    if pos < 0 || pos >= data.len() {
        None
    } else if data[pos] == 0 {
        Some(pos + 1)
    } else if pos + 5 + data[pos] > data.len() {
        None
    } else {
        features_end(data, pos + 5 + data[pos])
    }
}

/// The size of bucket `i`, in the table at `table`.
pub open spec fn bucket_size(data: Seq<u8>, table: int, i: int) -> int {
    be_value(data.subrange(table + 13 * i, table + 13 * i + 4)) as int
}

/// Where bucket `i` of `count` starts: behind the table and the buckets before it.
pub open spec fn bucket_start(data: Seq<u8>, table: int, count: int, i: int) -> int
    decreases i,
{
    if i <= 0 {
        table + 13 * count
    } else {
        bucket_start(data, table, count, i - 1) + bucket_size(data, table, i - 1)
    }
}

/// The content of bucket `i`: nothing where its size is zero, else what its zstd data decodes
/// to.
pub open spec fn bucket(data: Seq<u8>, table: int, count: int, i: int) -> Result<Seq<u8>, Fault> {
    let size = bucket_size(data, table, i);
    let start = bucket_start(data, table, count, i);
    if size == 0 {
        Ok(Seq::empty())
    } else if start + size > data.len() {
        Err(Fault::Truncated)
    } else {
        match decoded(Codec::Zstd, data.subrange(start, start + size)) {
            Some(out) => Ok(out),
            None => Err(Fault::Decode(Codec::Zstd)),
        }
    }
}

/// The data of entry `k` of a bucket. An entry is a 32-bit size and that many bytes: eight of
/// timestamp and the data. A size below eight stands alone and has no data. A bucket that ends
/// too early has no data at `k` either.
pub open spec fn bucket_entry(bucket: Seq<u8>, k: nat) -> Seq<u8>
    decreases bucket.len(),
{
    if bucket.len() < 4 {
        Seq::empty()
    } else {
        let size = be_value(bucket.take(4));
        let end = if size < 8 {
            4
        } else {
            4 + size
        };
        if end > bucket.len() {
            Seq::empty()
        } else if k > 0 {
            bucket_entry(bucket.skip(end as int), (k - 1) as nat)
        } else if size < 8 {
            Seq::empty()
        } else {
            bucket.subrange(12, end as int)
        }
    }
}

/// The bytes of slot `i`: nothing where its bit is not set, else its entry in its bucket. A
/// bucket holds a square of chunks; buckets, and the chunks in them, go by columns.
pub open spec fn linear_slot(bitmap: Seq<u8>, grid: int, buckets: Seq<Seq<u8>>, i: int) -> Seq<u8> {
    let side = bucket_side(grid);
    let x = i % 32;
    let z = i / 32;
    if slot_bit(bitmap, i) {
        bucket_entry(
            buckets[(x / side) * grid + z / side],
            ((x % side) * side + z % side) as nat,
        )
    } else {
        Seq::empty()
    }
}

/// The region in a linear file.
pub open spec fn linear_region(data: Seq<u8>) -> Result<RegionModel, Fault> {
    if data.len() < 26 {
        Err(Fault::Truncated)
    } else {
        let grid = signed8(data[17]);
        let x = signed32(be_value(data.subrange(18, 22)) as int);
        let z = signed32(be_value(data.subrange(22, 26)) as int);
        if !is_grid(grid) {
            Err(Fault::GridSize(grid))
        } else if data.len() < 154 {
            Err(Fault::Truncated)
        } else {
            match features_end(data, 154) {
                None => Err(Fault::Truncated),
                Some(table) => if table + 13 * (grid * grid) > data.len() {
                    Err(Fault::Truncated)
                } else {
                    match gathered(
                        |i: int| bucket(data, table, grid * grid, i),
                        (grid * grid) as nat,
                    ) {
                        Err(fault) => Err(fault),
                        Ok(buckets) => Ok(
                            placed(
                                x,
                                z,
                                Seq::new(
                                    1024,
                                    |i: int| linear_slot(data.subrange(26, 154), grid, buckets, i),
                                ),
                            ),
                        ),
                    }
                },
            }
        }
    }
}

// ---- reading ----

/// The data of entry `target_index` of a decoded bucket.
pub fn extract_bucket_chunk(bucket: &[u8], target_index: usize) -> (r: Vec<u8>)
    ensures
        r@ == bucket_entry(bucket@, target_index as nat),
{
    let size: usize = bucket.len();
    let mut pos: usize = 0;
    let mut k: usize = target_index;
    assert(bucket@.skip(0) =~= bucket@);
    loop
        invariant
            pos <= size == bucket@.len(),
            bucket_entry(bucket@, target_index as nat) == bucket_entry(
                bucket@.skip(pos as int),
                k as nat,
            ),
        decreases size - pos,
    {
        let ghost rest = bucket@.skip(pos as int);
        if size - pos < 4 {
            return Vec::new();
        }
        assert(rest.take(4) =~= bucket@.subrange(pos as int, pos + 4));
        let entry: u64 = read_be(bucket, pos, 4);
        let end: u64 = if entry < 8 {
            4
        } else {
            proof {
                reveal_with_fuel(pow256, 5);
            }
            4 + entry
        };
        if end > (size - pos) as u64 {
            return Vec::new();
        }
        if k == 0 {
            if entry < 8 {
                return Vec::new();
            }
            let out = copy_range(bucket, pos + 12, (entry - 8) as usize);
            assert(out@ =~= rest.subrange(12, end as int));
            return out;
        }
        assert(rest.skip(end as int) =~= bucket@.skip(pos + end));
        pos += end as usize;
        k -= 1;
    }
}

/// Whether the bit of slot `i` is set.
fn read_bit(bitmap: &[u8], i: usize) -> (r: bool)
    requires
        bitmap@.len() == 128,
        i < 1024,
    ensures
        r == slot_bit(bitmap@, i as int),
{
    let byte: u8 = bitmap[i / 8];
    let shift: u8 = (7 - i % 8) as u8;
    (byte >> shift) & 1 == 1
}

/// Takes the chunks of a region out of its decoded buckets.
pub fn linear_chunks(bitmap: &[u8], grid_size: usize, buckets: &Vec<Vec<u8>>) -> (r: Vec<Vec<u8>>)
    requires
        bitmap@.len() == 128,
        is_grid(grid_size as int),
        buckets@.len() == grid_size * grid_size,
    ensures
        contents(r@) == Seq::new(
            1024,
            |i: int| linear_slot(bitmap@, grid_size as int, contents(buckets@), i),
        ),
{
    let side: usize = 32 / grid_size;
    let mut raws: Vec<Vec<u8>> = Vec::with_capacity(1024);
    let mut i: usize = 0;
    while i < 1024
        invariant
            i <= 1024,
            bitmap@.len() == 128,
            is_grid(grid_size as int),
            side == bucket_side(grid_size as int),
            buckets@.len() == grid_size * grid_size,
            raws@.len() == i,
            forall|j: int|
                0 <= j < i ==> (#[trigger] raws@[j])@ == linear_slot(
                    bitmap@,
                    grid_size as int,
                    contents(buckets@),
                    j,
                ),
        decreases 1024 - i,
    {
        let x: usize = i % 32;
        let z: usize = i / 32;
        proof {
            bucket_index_fits(x as int, z as int, grid_size as int);
        }
        let raw: Vec<u8> = if read_bit(bitmap, i) {
            let at: usize = (x / side) * grid_size + z / side;
            extract_bucket_chunk(buckets[at].as_slice(), (x % side) * side + z % side)
        } else {
            Vec::new()
        };
        assert(raw@ =~= linear_slot(bitmap@, grid_size as int, contents(buckets@), i as int));
        raws.push(raw);
        i += 1;
    }
    assert(contents(raws@) =~= Seq::new(
        1024,
        |i: int| linear_slot(bitmap@, grid_size as int, contents(buckets@), i),
    ));
    raws
}

/// The bucket of a chunk is among the buckets, and its entry among the bucket's.
proof fn bucket_index_fits(x: int, z: int, grid: int)
    requires
        0 <= x < 32,
        0 <= z < 32,
        is_grid(grid),
    ensures
        0 <= (x / bucket_side(grid)) * grid + z / bucket_side(grid) < grid * grid,
        0 <= (x / bucket_side(grid)) * grid < grid * grid,
        0 <= (x % bucket_side(grid)) * bucket_side(grid) + z % bucket_side(grid) < 1024,
        0 <= (x % bucket_side(grid)) * bucket_side(grid) < 1024,
        grid * grid <= 1024,
{
    let side = bucket_side(grid);
    assert(side * grid == 32 && side > 0) by {
        if grid == 1 {
        } else if grid == 2 {
        } else if grid == 4 {
        } else if grid == 8 {
        } else if grid == 16 {
        } else {
        }
    }
    assert(0 <= x / side < grid && 0 <= z / side < grid && 0 <= x % side < side && 0 <= z % side < side)
        by (nonlinear_arith)
        requires
            0 <= x < 32,
            0 <= z < 32,
            side > 0,
            side * grid == 32,
    ;
    let a = x / side;
    let b = z / side;
    let c = x % side;
    let d = z % side;
    assert(0 <= a * grid && a * grid + b < grid * grid && 0 <= c * side && c * side + d < side * side && side <= 32
        && grid <= 32 && side * side <= 1024 && grid * grid <= 1024) by (nonlinear_arith)
        requires
            0 <= a < grid,
            0 <= b < grid,
            0 <= c < side,
            0 <= d < side,
            side * grid == 32,
    ;
}

/// Where the features end that start at `pos`.
fn skip_features(data: &[u8], start: usize) -> (r: Option<usize>)
    ensures
        match r {
            Some(end) => features_end(data@, start as int) == Some(end as int) && end <= data@.len(),
            None => features_end(data@, start as int) is None,
        },
{
    let size: usize = data.len();
    let mut pos: usize = start;
    loop
        invariant
            size == data@.len(),
            features_end(data@, start as int) == features_end(data@, pos as int),
        decreases size - pos,
    {
        if pos >= size {
            return None;
        }
        let name: usize = data[pos] as usize;
        if name == 0 {
            return Some(pos + 1);
        }
        if size - pos < 5 + name {
            return None;
        }
        pos += 5 + name;
    }
}

/// Reads and decodes the buckets behind the table at `table`.
fn read_buckets(data: &[u8], table: usize, count: usize) -> (r: Result<Vec<Vec<u8>>, ArchiveError>)
    requires
        count <= 1024,
        table + 13 * count <= data@.len(),
    ensures
        match (r, gathered(|i: int| bucket(data@, table as int, count as int, i), count as nat)) {
            (Ok(buckets), Ok(expected)) => contents(buckets@) == expected,
            (Err(e), Err(fault)) => e@ == fault,
            _ => false,
        },
{
    let size: usize = data.len();
    let ghost slot = |i: int| bucket(data@, table as int, count as int, i);
    let mut buckets: Vec<Vec<u8>> = Vec::with_capacity(count);
    let mut pos: usize = table + 13 * count;
    let mut i: usize = 0;
    assert(contents(buckets@) =~= Seq::empty());
    while i < count
        invariant
            i <= count <= 1024,
            size == data@.len(),
            table + 13 * count <= size,
            pos <= size,
            pos == bucket_start(data@, table as int, count as int, i as int),
            slot == |i: int| bucket(data@, table as int, count as int, i),
            gathered(slot, i as nat) == Ok::<Seq<Seq<u8>>, Fault>(contents(buckets@)),
        decreases count - i,
    {
        let ghost before = contents(buckets@);
        let wanted: u64 = read_be(data, table + 13 * i, 4);
        assert(wanted == bucket_size(data@, table as int, i as int));
        if wanted == 0 {
            let none: Vec<u8> = Vec::new();
            assert(none@ =~= Seq::empty());
            buckets.push(none);
            assert(contents(buckets@) =~= before.push(none@));
        } else {
            if wanted > (size - pos) as u64 {
                proof {
                    fault_ends(slot, (i + 1) as nat, count as nat);
                }
                return Err(ArchiveError::Truncated);
            }
            let n: usize = wanted as usize;
            let compressed = copy_range(data, pos, n);
            match decode(Codec::Zstd, compressed.as_slice()) {
                Ok(out) => {
                    buckets.push(out);
                    assert(contents(buckets@) =~= before.push(out@));
                },
                Err(cause) => {
                    proof {
                        fault_ends(slot, (i + 1) as nat, count as nat);
                    }
                    return Err(ArchiveError::Decode(Codec::Zstd, cause));
                },
            }
            pos += n;
        }
        i += 1;
    }
    Ok(buckets)
}

/// The byte as a signed number.
fn read_i8(b: u8) -> (r: i8)
    ensures
        r == signed8(b),
{
    if b < 128 {
        b as i8
    } else {
        (b as i16 - 256) as i8
    }
}

/// The four bytes from `pos` on as a signed number.
fn read_i32(data: &[u8], pos: usize) -> (r: i32)
    requires
        pos + 4 <= data@.len(),
    ensures
        r == signed32(be_value(data@.subrange(pos as int, pos + 4)) as int),
{
    proof {
        reveal_with_fuel(pow256, 5);
    }
    let v: u64 = read_be(data, pos, 4);
    if v < 0x8000_0000 {
        v as i32
    } else {
        (v as i64 - 0x1_0000_0000) as i32
    }
}

/// Parses a linear file of the second version. The magic, the version and the timestamp in
/// its header are passed over: its type has been told before, or is forced.
pub fn parse_linear_v2(data: &[u8]) -> (r: Result<ParsedRegion, ArchiveError>)
    ensures
        gives_region(r, linear_region(data@)),
{
    if data.len() < 26 {
        return Err(ArchiveError::Truncated);
    }
    let grid: i8 = read_i8(data[17]);
    let region_x: i32 = read_i32(data, 18);
    let region_z: i32 = read_i32(data, 22);
    if !(grid == 1 || grid == 2 || grid == 4 || grid == 8 || grid == 16 || grid == 32) {
        return Err(ArchiveError::GridSize(grid));
    }
    if data.len() < 154 {
        return Err(ArchiveError::Truncated);
    }
    let bitmap = copy_range(data, 26, 128);
    let table: usize = match skip_features(data, 154) {
        Some(end) => end,
        None => return Err(ArchiveError::Truncated),
    };
    let grid_size: usize = grid as usize;
    proof {
        bucket_index_fits(0, 0, grid as int);
    }
    let count: usize = grid_size * grid_size;
    if data.len() - table < 13 * count {
        return Err(ArchiveError::Truncated);
    }
    let buckets = match read_buckets(data, table, count) {
        Ok(buckets) => buckets,
        Err(e) => return Err(e),
    };
    proof {
        gathered_len(|i: int| bucket(data@, table as int, count as int, i), count as nat);
    }
    let raws = linear_chunks(bitmap.as_slice(), grid_size, &buckets);
    assert(contents(raws@).len() == 1024);
    Ok(place_chunks(region_x, region_z, raws))
}

} // verus!
