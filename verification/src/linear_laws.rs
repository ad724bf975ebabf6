//! Laws of linear files, over their bytes.
use vstd::prelude::*;

use crate::archive::{gathered, Fault, RegionModel};
use crate::bytes_laws::{all_slots_are_gathered, first_fault_is_given, four, value_is_the_weighted_sum};
use crate::codec::{zstd_decoded, Codec};
use crate::linear::{
    bucket, bucket_entry, bucket_size, bucket_start, features_end, linear_region, linear_slot, slot_bit,
};

verus! {

// ---- entries of a bucket ----

/// The entries of `b` start at `at`, and the last place is behind the last entry: each has a
/// size of four bytes, and, where that is eight or more, as many bytes.
pub open spec fn laid_out(b: Seq<u8>, at: Seq<int>) -> bool {
    &&& at.len() > 0
    &&& at[0] == 0
    &&& forall|k: int|
        0 <= k < at.len() - 1 ==> {
            &&& 0 <= (#[trigger] at[k])
            &&& at[k] + 4 <= b.len()
            &&& at[k + 1] <= b.len()
            &&& four(b, at[k]) < 8 ==> at[k + 1] == at[k] + 4
            &&& four(b, at[k]) >= 8 ==> at[k + 1] == at[k] + 4 + four(b, at[k])
        }
}

proof fn entry_from(b: Seq<u8>, at: Seq<int>, j: int, k: nat)
    requires
        laid_out(b, at),
        0 <= j <= k,
        j < at.len(),
    ensures
        0 <= at[j] <= b.len(),
        bucket_entry(b, k) == bucket_entry(b.skip(at[j]), (k - j) as nat),
    decreases j,
{
    if j == 0 {
        assert(b.skip(0) =~= b);
    } else {
        entry_from(b, at, j - 1, k);
        let p = at[j - 1];
        let rest = b.skip(p);
        assert(rest.take(4) =~= b.subrange(p, p + 4));
        value_is_the_weighted_sum(b, p);
        assert(rest.skip(at[j] - p) =~= b.skip(at[j]));
    }
}

/// An entry is read from where it starts: behind its size stand eight bytes of timestamp, then
/// the data. A size below eight has no data.
pub proof fn entry_is_read_from_its_place(b: Seq<u8>, at: Seq<int>, k: int)
    requires
        laid_out(b, at),
        0 <= k < at.len() - 1,
    ensures
        four(b, at[k]) < 8 ==> bucket_entry(b, k as nat).len() == 0,
        four(b, at[k]) >= 8 ==> bucket_entry(b, k as nat) == b.subrange(at[k] + 12, at[k + 1]),
{
    entry_from(b, at, k, k as nat);
    let p = at[k];
    let rest = b.skip(p);
    assert(rest.take(4) =~= b.subrange(p, p + 4));
    value_is_the_weighted_sum(b, p);
    if four(b, p) >= 8 {
        assert(rest.subrange(12, 4 + four(b, p)) =~= b.subrange(p + 12, at[k + 1]));
    }
}

/// Behind the last entry that is whole there is no data.
pub proof fn entry_beyond_the_end_is_empty(b: Seq<u8>, at: Seq<int>, k: nat)
    requires
        laid_out(b, at),
        k >= at.len() - 1,
        at.last() + 4 > b.len() || (four(b, at.last()) >= 8 && at.last() + 4 + four(b, at.last()) > b.len()),
    ensures
        bucket_entry(b, k).len() == 0,
{
    let j = at.len() - 1;
    entry_from(b, at, j, k);
    let p = at[j];
    let rest = b.skip(p);
    if p + 4 <= b.len() {
        assert(rest.take(4) =~= b.subrange(p, p + 4));
        value_is_the_weighted_sum(b, p);
    }
}

// ---- slots ----

/// The bit of a slot: bit `7 - i % 8` of byte `i / 8`, counted from the least significant.
pub proof fn bit_is_by_value(bitmap: Seq<u8>, i: int)
    requires
        0 <= i < 8 * bitmap.len(),
    ensures
        i % 8 == 0 ==> (slot_bit(bitmap, i) <==> bitmap[i / 8] as int / 128 % 2 == 1),
        i % 8 == 1 ==> (slot_bit(bitmap, i) <==> bitmap[i / 8] as int / 64 % 2 == 1),
        i % 8 == 2 ==> (slot_bit(bitmap, i) <==> bitmap[i / 8] as int / 32 % 2 == 1),
        i % 8 == 3 ==> (slot_bit(bitmap, i) <==> bitmap[i / 8] as int / 16 % 2 == 1),
        i % 8 == 4 ==> (slot_bit(bitmap, i) <==> bitmap[i / 8] as int / 8 % 2 == 1),
        i % 8 == 5 ==> (slot_bit(bitmap, i) <==> bitmap[i / 8] as int / 4 % 2 == 1),
        i % 8 == 6 ==> (slot_bit(bitmap, i) <==> bitmap[i / 8] as int / 2 % 2 == 1),
        i % 8 == 7 ==> (slot_bit(bitmap, i) <==> bitmap[i / 8] as int % 2 == 1),
{
    let b = bitmap[i / 8];
    assert({
        &&& (b >> 7u8) & 1 == (b / 128) % 2
        &&& (b >> 6u8) & 1 == (b / 64) % 2
        &&& (b >> 5u8) & 1 == (b / 32) % 2
        &&& (b >> 4u8) & 1 == (b / 16) % 2
        &&& (b >> 3u8) & 1 == (b / 8) % 2
        &&& (b >> 2u8) & 1 == (b / 4) % 2
        &&& (b >> 1u8) & 1 == (b / 2) % 2
        &&& (b >> 0u8) & 1 == b % 2
    }) by (bit_vector);
}

/// A slot is found in its bucket: buckets of `side` by `side` chunks, in a grid of `grid` by
/// `grid`, go by columns, and so do the chunks in a bucket. A slot whose bit is not set is empty.
pub proof fn slot_is_in_its_bucket(
    bitmap: Seq<u8>,
    grid: int,
    side: int,
    buckets: Seq<Seq<u8>>,
    bucket_x: int,
    bucket_z: int,
    x: int,
    z: int,
)
    requires
        grid > 0,
        grid * side == 32,
        0 <= bucket_x < grid,
        0 <= bucket_z < grid,
        0 <= x < side,
        0 <= z < side,
        bitmap.len() == 128,
    ensures
        ({
            let i = 32 * (bucket_z * side + z) + bucket_x * side + x;
            &&& slot_bit(bitmap, i) ==> linear_slot(bitmap, grid, buckets, i) == bucket_entry(
                buckets[bucket_x * grid + bucket_z],
                (x * side + z) as nat,
            )
            &&& !slot_bit(bitmap, i) ==> linear_slot(bitmap, grid, buckets, i).len() == 0
        }),
{
    assert(0 <= bucket_x * side + x < 32 && 0 <= bucket_z * side + z < 32) by (nonlinear_arith)
        requires
            grid * side == 32,
            0 <= bucket_x < grid,
            0 <= bucket_z < grid,
            0 <= x < side,
            0 <= z < side,
    ;
    assert(32int / grid == side) by (nonlinear_arith)
        requires
            grid * side == 32,
            grid > 0,
    ;
    let i = 32 * (bucket_z * side + z) + bucket_x * side + x;
    assert(i % 32 == bucket_x * side + x);
    assert(i / 32 == bucket_z * side + z);
    vstd::arithmetic::div_mod::lemma_fundamental_div_mod_converse(bucket_x * side + x, side, bucket_x, x);
    vstd::arithmetic::div_mod::lemma_fundamental_div_mod_converse(bucket_z * side + z, side, bucket_z, z);
}

// ---- the file ----

/// The features start at `at`, and the last place is where they end: each has a byte of length,
/// which is not zero, a name of that length and four bytes of value, and a zero ends them.
pub open spec fn features_at(data: Seq<u8>, start: int, at: Seq<int>) -> bool {
    &&& at.len() > 0
    &&& at[0] == start
    &&& start >= 0
    &&& forall|k: int|
        0 <= k < at.len() - 1 ==> {
            &&& 0 <= (#[trigger] at[k]) < data.len()
            &&& data[at[k]] != 0
            &&& at[k + 1] == at[k] + 1 + data[at[k]] + 4
            &&& at[k + 1] <= data.len()
        }
}

proof fn features_from(data: Seq<u8>, start: int, at: Seq<int>, j: int)
    requires
        features_at(data, start, at),
        0 <= j < at.len(),
    ensures
        features_end(data, start) == features_end(data, at[j]),
        0 <= at[j],
    decreases j,
{
    if j > 0 {
        features_from(data, start, at, j - 1);
        assert(0 <= at[j - 1] < data.len());
    }
}

/// The features end behind the zero; where the file ends before that, they do not end.
pub proof fn features_end_at_the_zero(data: Seq<u8>, start: int, at: Seq<int>)
    requires
        features_at(data, start, at),
    ensures
        at.last() < data.len() && data[at.last()] == 0 ==> features_end(data, start) == Some(at.last() + 1),
        at.last() >= data.len() ==> features_end(data, start) is None,
        at.last() < data.len() && data[at.last()] != 0 && at.last() + 5 + data[at.last()] > data.len()
            ==> features_end(data, start) is None,
{
    features_from(data, start, at, at.len() - 1);
}

/// The buckets start at `starts`: behind the table of `count` entries of 13 bytes, one behind the
/// other, each as long as the first four bytes of its entry say.
pub open spec fn buckets_at(data: Seq<u8>, table: int, count: int, starts: Seq<int>) -> bool {
    &&& starts.len() == count
    &&& 0 <= table
    &&& table + 13 * count <= data.len()
    &&& count > 0 ==> starts[0] == table + 13 * count
    &&& forall|i: int| 0 <= i < count - 1 ==> starts[i + 1] == #[trigger] starts[i] + four(data, table + 13 * i)
}

proof fn bucket_is_at(data: Seq<u8>, table: int, count: int, starts: Seq<int>, i: int)
    requires
        buckets_at(data, table, count, starts),
        0 <= i < count,
    ensures
        bucket_start(data, table, count, i) == starts[i],
        bucket_size(data, table, i) == four(data, table + 13 * i),
    decreases i,
{
    value_is_the_weighted_sum(data, table + 13 * i);
    if i > 0 {
        bucket_is_at(data, table, count, starts, i - 1);
        assert(starts[i - 1 + 1] == starts[i - 1] + four(data, table + 13 * (i - 1)));
    }
}

/// A bucket without bytes is empty, else it is what its bytes decode to; one that reaches beyond
/// the end of the file, or does not decode, is a fault.
pub proof fn bucket_is_read_from_its_place(data: Seq<u8>, table: int, count: int, starts: Seq<int>, i: int)
    requires
        buckets_at(data, table, count, starts),
        0 <= i < count,
    ensures
        ({
            let size = four(data, table + 13 * i);
            let bytes = data.subrange(starts[i], starts[i] + size);
            &&& size == 0 ==> bucket(data, table, count, i) == Ok::<Seq<u8>, Fault>(Seq::empty())
            &&& size > 0 && starts[i] + size > data.len() ==> bucket(data, table, count, i) == Err::<
                Seq<u8>,
                Fault,
            >(Fault::Truncated)
            &&& size > 0 && starts[i] + size <= data.len() ==> match zstd_decoded(bytes) {
                Some(out) => bucket(data, table, count, i) == Ok::<Seq<u8>, Fault>(out),
                None => bucket(data, table, count, i) == Err::<Seq<u8>, Fault>(Fault::Decode(Codec::Zstd)),
            }
        }),
{
    bucket_is_at(data, table, count, starts, i);
}

/// The grid sizes there are.
pub open spec fn divides_a_region(grid: int) -> bool {
    grid == 1 || grid == 2 || grid == 4 || grid == 8 || grid == 16 || grid == 32
}

/// `v` as a signed number of 32 bits.
pub open spec fn as_signed(v: int) -> int {
    if v >= 0x8000_0000 {
        v - 0x1_0000_0000
    } else {
        v
    }
}

/// A file is what its header, its bitmap and its buckets say: the grid size is byte 17, the
/// coordinates are the two signed numbers of four bytes from 18 on, the bitmap is the 128 bytes
/// from 26 on, the features start at 154, and the table of the buckets stands behind them.
pub proof fn file_is_read_by_its_layout(
    data: Seq<u8>,
    grid: int,
    at: Seq<int>,
    starts: Seq<int>,
    buckets: Seq<Seq<u8>>,
)
    requires
        data.len() >= 154,
        data[17] == grid,
        divides_a_region(grid),
        features_at(data, 154, at),
        at.last() < data.len(),
        data[at.last()] == 0,
        buckets_at(data, at.last() + 1, grid * grid, starts),
        buckets.len() == grid * grid,
        forall|i: int|
            0 <= i < grid * grid ==> if four(data, at.last() + 1 + 13 * i) == 0 {
                (#[trigger] buckets[i]).len() == 0
            } else {
                &&& starts[i] + four(data, at.last() + 1 + 13 * i) <= data.len()
                &&& zstd_decoded(data.subrange(starts[i], starts[i] + four(data, at.last() + 1 + 13 * i))) == Some(
                    buckets[i],
                )
            },
    ensures
        linear_region(data) is Ok,
        ({
            let region = linear_region(data)->Ok_0;
            &&& region.x == as_signed(four(data, 18))
            &&& region.z == as_signed(four(data, 22))
            &&& region.chunks.len() == 1024
            &&& forall|i: int|
                0 <= i < 1024 ==> {
                    &&& (#[trigger] region.chunks[i]).raw == linear_slot(data.subrange(26, 154), grid, buckets, i)
                    &&& region.chunks[i].x == 32 * region.x + i % 32
                    &&& region.chunks[i].z == 32 * region.z + i / 32
                }
        }),
{
    let table = at.last() + 1;
    features_end_at_the_zero(data, 154, at);
    value_is_the_weighted_sum(data, 18);
    value_is_the_weighted_sum(data, 22);
    let slot = |i: int| bucket(data, table, grid * grid, i);
    assert forall|i: int| 0 <= i < grid * grid implies #[trigger] slot(i) == Ok::<Seq<u8>, Fault>(buckets[i]) by {
        bucket_is_read_from_its_place(data, table, grid * grid, starts, i);
        let b = buckets[i];
        if four(data, table + 13 * i) == 0 {
            assert(b =~= Seq::empty());
        }
    }
    assert(grid * grid >= 0) by (nonlinear_arith);
    all_slots_are_gathered(slot, (grid * grid) as nat);
    let all = gathered(slot, (grid * grid) as nat)->Ok_0;
    assert forall|i: int| 0 <= i < grid * grid implies all[i] == buckets[i] by {
        assert(slot(i) is Ok);
    }
    assert(all =~= buckets);
}

/// What cannot be read is a fault: a file too short for its header, a grid size that does not
/// divide a region, a file too short for its bitmap, its features or its table, and the first
/// bucket that fails.
pub proof fn faults_of_a_file(data: Seq<u8>, grid: int, at: Seq<int>, starts: Seq<int>, k: int)
    ensures
        data.len() < 26 ==> linear_region(data) == Err::<RegionModel, Fault>(Fault::Truncated),
        data.len() >= 26 && !divides_a_region(data[17] as int) ==> linear_region(data) == Err::<
            RegionModel,
            Fault,
        >(
            Fault::GridSize(
                if data[17] >= 128 {
                    data[17] - 256
                } else {
                    data[17] as int
                },
            ),
        ),
        26 <= data.len() < 154 && divides_a_region(data[17] as int) ==> linear_region(data) == Err::<
            RegionModel,
            Fault,
        >(Fault::Truncated),
        data.len() >= 154 && divides_a_region(data[17] as int) && features_at(data, 154, at) && (at.last()
            >= data.len() || (data[at.last()] != 0 && at.last() + 5 + data[at.last()] > data.len())
            || (data[at.last()] == 0 && at.last() + 1 + 13 * (data[17] * data[17]) > data.len())) ==> linear_region(
            data,
        ) == Err::<RegionModel, Fault>(Fault::Truncated),
        data.len() >= 154 && data[17] == grid && divides_a_region(grid) && features_at(data, 154, at) && at.last()
            < data.len() && data[at.last()] == 0 && buckets_at(data, at.last() + 1, grid * grid, starts) && 0 <= k
            < grid * grid && (forall|i: int|
            0 <= i < k ==> #[trigger] bucket(data, at.last() + 1, grid * grid, i) is Ok) && bucket(
            data,
            at.last() + 1,
            grid * grid,
            k,
        ) is Err ==> linear_region(data) == Err::<RegionModel, Fault>(
            bucket(data, at.last() + 1, grid * grid, k)->Err_0,
        ),
{
    if data.len() >= 154 && divides_a_region(data[17] as int) && features_at(data, 154, at) {
        features_end_at_the_zero(data, 154, at);
        let table = at.last() + 1;
        if data[17] == grid && at.last() < data.len() && data[at.last()] == 0 && buckets_at(
            data,
            table,
            grid * grid,
            starts,
        ) && 0 <= k < grid * grid && (forall|i: int|
            0 <= i < k ==> #[trigger] bucket(data, table, grid * grid, i) is Ok) && bucket(
            data,
            table,
            grid * grid,
            k,
        ) is Err {
            let slot = |i: int| bucket(data, table, grid * grid, i);
            assert forall|i: int| 0 <= i < k implies #[trigger] slot(i) is Ok by {
                assert(bucket(data, table, grid * grid, i) is Ok);
            }
            first_fault_is_given(slot, (grid * grid) as nat, k as nat);
        }
    }
}

} // verus!
