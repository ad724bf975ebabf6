//! Laws of b_linear files, over their bytes.
use vstd::prelude::*;

use crate::archive::{Fault, RegionModel};
use crate::b_linear::{
    b_linear_region, bucket_chunks, bucket_entries, bucket_entries_len, chunks_from, chunks_from_len, offset_of,
};
use crate::bytes::be_value;
use crate::bytes_laws::{byte_behind_a_number, four, value_is_the_weighted_sum};
use crate::codec::{zstd_decoded, Codec};
use crate::util::{name_coords, NameFault};

verus! {

/// The entries of `b` start at `at`, and the last place is behind the last entry: each has a
/// size of four bytes, and as many bytes, of which there are none or at least sixteen.
pub open spec fn laid_out(b: Seq<u8>, at: Seq<int>) -> bool {
    &&& at.len() > 0
    &&& at[0] == 0
    &&& forall|k: int|
        0 <= k < at.len() - 1 ==> {
            &&& 0 <= (#[trigger] at[k])
            &&& at[k] + 4 <= b.len()
            &&& four(b, at[k]) == 0 || four(b, at[k]) >= 16
            &&& at[k + 1] == at[k] + 4 + four(b, at[k])
            &&& at[k + 1] <= b.len()
        }
}

/// The entries that are left from entry `j` on.
proof fn entries_from(b: Seq<u8>, at: Seq<int>, j: int, n: nat)
    requires
        laid_out(b, at),
        0 <= j <= n,
        j < at.len(),
    ensures
        0 <= at[j] <= b.len(),
        bucket_entries(b, n) is Ok <==> bucket_entries(b.skip(at[j]), (n - j) as nat) is Ok,
        bucket_entries(b, n) is Err ==> bucket_entries(b, n) == bucket_entries(b.skip(at[j]), (n - j) as nat),
        bucket_entries(b, n) matches Ok(all) ==> all.skip(j) == bucket_entries(
            b.skip(at[j]),
            (n - j) as nat,
        )->Ok_0,
    decreases j,
{
    bucket_entries_len(b, n);
    if j == 0 {
        assert(b.skip(0) =~= b);
        if let Ok(all) = bucket_entries(b, n) {
            assert(all.skip(0) =~= all);
        }
    } else {
        entries_from(b, at, j - 1, n);
        let p = at[j - 1];
        assert(at[j - 1 + 1] == p + 4 + four(b, p));
        let rest = b.skip(p);
        let m = (n - j + 1) as nat;
        assert(rest.take(4) =~= b.subrange(p, p + 4));
        value_is_the_weighted_sum(b, p);
        assert(rest.skip(4 + four(b, p)) =~= b.skip(at[j]));
        if let Ok(all) = bucket_entries(b, n) {
            let here = bucket_entries(rest, m)->Ok_0;
            let next = bucket_entries(b.skip(at[j]), (n - j) as nat)->Ok_0;
            assert(here.len() == 1 + next.len());
            assert(here.skip(1) =~= next);
            assert(all.skip(j) =~= all.skip(j - 1).skip(1));
        }
    }
}

/// The entries of a bucket that is laid out are read, each from where it starts: behind its size
/// stand sixteen bytes of size, timestamp and checksum, then the data. A size of zero has none.
pub proof fn entries_are_read_from_their_places(b: Seq<u8>, at: Seq<int>, n: nat)
    requires
        laid_out(b, at),
        n < at.len(),
    ensures
        bucket_entries(b, n) is Ok,
        bucket_entries(b, n)->Ok_0.len() == n,
        forall|k: int|
            #![trigger bucket_entries(b, n)->Ok_0[k]]
            0 <= k < n ==> {
                let found = bucket_entries(b, n)->Ok_0[k];
                &&& four(b, at[k]) == 0 ==> found.len() == 0
                &&& four(b, at[k]) >= 16 ==> found == b.subrange(at[k] + 20, at[k + 1])
            },
{
    entries_from(b, at, n as int, n);
    bucket_entries_len(b, n);
    let all = bucket_entries(b, n)->Ok_0;
    assert forall|k: int| #![trigger all[k]] 0 <= k < n implies {
        let found = all[k];
        &&& four(b, at[k]) == 0 ==> found.len() == 0
        &&& four(b, at[k]) >= 16 ==> found == b.subrange(at[k] + 20, at[k + 1])
    } by {
        entries_from(b, at, k, n);
        let p = at[k];
        let rest = b.skip(p);
        let m = (n - k) as nat;
        let size = four(b, p);
        assert(rest.take(4) =~= b.subrange(p, p + 4));
        value_is_the_weighted_sum(b, p);
        let here = bucket_entries(rest, m)->Ok_0;
        bucket_entries_len(rest, m);
        assert(all[k] == all.skip(k)[0]);
        if size == 0 {
            assert(here[0] =~= Seq::empty());
        } else {
            assert(here[0] =~= rest.subrange(20, 4 + size));
            assert(rest.subrange(20, 4 + size) =~= b.subrange(p + 20, at[k + 1]));
        }
    }
}

/// A bucket in which some entry has a size below sixteen that is not zero, or reaches beyond the
/// end, is a fault.
pub proof fn broken_entry_is_a_fault(b: Seq<u8>, at: Seq<int>, n: nat)
    requires
        laid_out(b, at),
        n >= at.len(),
        at.last() + 4 > b.len() || 1 <= four(b, at.last()) < 16 || at.last() + 4 + four(b, at.last()) > b.len(),
    ensures
        bucket_entries(b, n) == Err::<Seq<Seq<u8>>, Fault>(Fault::Truncated),
{
    let j = at.len() - 1;
    entries_from(b, at, j, n);
    let p = at[j];
    let rest = b.skip(p);
    if p + 4 <= b.len() {
        assert(rest.take(4) =~= b.subrange(p, p + 4));
        value_is_the_weighted_sum(b, p);
    }
}

/// Where a bucket lies: the eight bytes of its entry in the table, which starts at 14.
pub proof fn offset_is_in_the_table(d: Seq<u8>, i: int)
    requires
        0 <= i < 16,
        d.len() >= 142,
    ensures
        offset_of(d, i) == four(d, 14 + 8 * i) * 0x1_0000_0000 + four(d, 18 + 8 * i),
{
    let p = 14 + 8 * i;
    value_is_the_weighted_sum(d, p);
    let head = d.subrange(p, p + 4);
    byte_behind_a_number(head, d[p + 4]);
    assert(head.push(d[p + 4]) =~= d.subrange(p, p + 5));
    byte_behind_a_number(d.subrange(p, p + 5), d[p + 5]);
    assert(d.subrange(p, p + 5).push(d[p + 5]) =~= d.subrange(p, p + 6));
    byte_behind_a_number(d.subrange(p, p + 6), d[p + 6]);
    assert(d.subrange(p, p + 6).push(d[p + 6]) =~= d.subrange(p, p + 7));
    byte_behind_a_number(d.subrange(p, p + 7), d[p + 7]);
    assert(d.subrange(p, p + 7).push(d[p + 7]) =~= d.subrange(p, p + 8));
}

/// A bucket at offset zero holds 64 empty chunks. Any other starts with two sizes of four bytes,
/// and the second is that of the compressed data behind them. One that reaches beyond the end of
/// the file, or does not decode, is a fault.
pub proof fn bucket_is_read_from_its_place(d: Seq<u8>, i: int, p: int)
    requires
        0 <= i < 16,
        d.len() >= 142,
        p == four(d, 14 + 8 * i) * 0x1_0000_0000 + four(d, 18 + 8 * i),
    ensures
        p == 0 ==> bucket_chunks(d, i) is Ok && bucket_chunks(d, i)->Ok_0.len() == 64 && forall|k: int|
            0 <= k < 64 ==> (#[trigger] bucket_chunks(d, i)->Ok_0[k]).len() == 0,
        p > 0 && (p + 8 > d.len() || p + 8 + four(d, p + 4) > d.len()) ==> bucket_chunks(d, i) == Err::<
            Seq<Seq<u8>>,
            Fault,
        >(Fault::Truncated),
        p > 0 && p + 8 <= d.len() && p + 8 + four(d, p + 4) <= d.len() ==> match zstd_decoded(
            d.subrange(p + 8, p + 8 + four(d, p + 4)),
        ) {
            Some(out) => bucket_chunks(d, i) == bucket_entries(out, 64),
            None => bucket_chunks(d, i) == Err::<Seq<Seq<u8>>, Fault>(Fault::Decode(Codec::Zstd)),
        },
{
    offset_is_in_the_table(d, i);
    if 0 < p && p + 8 <= d.len() {
        value_is_the_weighted_sum(d, p + 4);
    }
}

proof fn chunks_in_turn(d: Seq<u8>, i: nat, j: int, k: int)
    requires
        i <= j < 16,
        0 <= k < 64,
        forall|l: int| i <= l < 16 ==> (#[trigger] bucket_chunks(d, l)) is Ok,
    ensures
        chunks_from(d, i) is Ok,
        chunks_from(d, i)->Ok_0.len() == 64 * (16 - i),
        chunks_from(d, i)->Ok_0[64 * (j - i) + k] == bucket_chunks(d, j)->Ok_0[k],
    decreases 16 - i,
{
    assert(bucket_chunks(d, i as int) is Ok);
    bucket_len(d, i as int);
    chunks_from_len(d, i);
    if i == 15 {
        assert(chunks_from(d, 16) is Ok);
    } else {
        let l = if j == i {
            i as int + 1
        } else {
            j
        };
        chunks_in_turn(d, i + 1, l, k);
    }
}

proof fn bucket_len(d: Seq<u8>, i: int)
    ensures
        bucket_chunks(d, i) matches Ok(all) ==> all.len() == 64,
{
    let p = offset_of(d, i);
    let size = be_value(d.subrange(p + 4, p + 8)) as int;
    if let Some(out) = zstd_decoded(d.subrange(p + 8, p + 8 + size)) {
        bucket_entries_len(out, 64);
    }
}

proof fn fault_in_turn(d: Seq<u8>, i: nat, j: int)
    requires
        i <= j < 16,
        forall|l: int| i <= l < j ==> (#[trigger] bucket_chunks(d, l)) is Ok,
        bucket_chunks(d, j) is Err,
    ensures
        chunks_from(d, i) == Err::<Seq<Seq<u8>>, Fault>(bucket_chunks(d, j)->Err_0),
    decreases 16 - i,
{
    if i < j {
        assert(bucket_chunks(d, i as int) is Ok);
        fault_in_turn(d, i + 1, j);
    }
}

/// A file whose buckets are all read is a region: chunk `k` of bucket `j` is slot `64 * j + k`,
/// at its place in the region of the file's name. The version is byte 8, and is 3.
pub proof fn region_is_its_buckets(name: Seq<char>, d: Seq<u8>, at: (int, int), j: int, k: int)
    requires
        name_coords(name) == Ok::<(int, int), NameFault>(at),
        d.len() >= 142,
        d[8] == 3,
        0 <= j < 16,
        0 <= k < 64,
        forall|l: int| 0 <= l < 16 ==> (#[trigger] bucket_chunks(d, l)) is Ok,
    ensures
        b_linear_region(name, d) is Ok,
        ({
            let region = b_linear_region(name, d)->Ok_0;
            let i = 64 * j + k;
            &&& region.x == at.0
            &&& region.z == at.1
            &&& region.chunks.len() == 1024
            &&& region.chunks[i].raw == bucket_chunks(d, j)->Ok_0[k]
            &&& region.chunks[i].x == 32 * at.0 + i % 32
            &&& region.chunks[i].z == 32 * at.1 + i / 32
        }),
{
    chunks_in_turn(d, 0, j, k);
}

/// A file whose name gives no coordinates is a fault of its name.
pub proof fn unnamed_file_is_a_fault(name: Seq<char>, d: Seq<u8>)
    requires
        name_coords(name) is Err,
    ensures
        b_linear_region(name, d) == Err::<RegionModel, Fault>(Fault::Name(name_coords(name)->Err_0)),
{
}

/// What cannot be read is a fault: a file too short for its version or its table, a version other
/// than 3, and the first bucket that fails.
pub proof fn faults_of_a_file(name: Seq<char>, d: Seq<u8>, at: (int, int), j: int)
    requires
        name_coords(name) == Ok::<(int, int), NameFault>(at),
    ensures
        d.len() < 9 ==> b_linear_region(name, d) == Err::<RegionModel, Fault>(Fault::Truncated),
        d.len() >= 9 && d[8] != 3 ==> b_linear_region(name, d) == Err::<RegionModel, Fault>(
            Fault::BLinearVersion(d[8]),
        ),
        9 <= d.len() < 142 && d[8] == 3 ==> b_linear_region(name, d) == Err::<RegionModel, Fault>(
            Fault::Truncated,
        ),
        d.len() >= 142 && d[8] == 3 && 0 <= j < 16 && (forall|l: int|
            0 <= l < j ==> (#[trigger] bucket_chunks(d, l)) is Ok) && bucket_chunks(d, j) is Err
            ==> b_linear_region(name, d) == Err::<RegionModel, Fault>(bucket_chunks(d, j)->Err_0),
{
    if d.len() >= 142 && d[8] == 3 && 0 <= j < 16 && (forall|l: int|
        0 <= l < j ==> (#[trigger] bucket_chunks(d, l)) is Ok) && bucket_chunks(d, j) is Err {
        fault_in_turn(d, 0, j);
    }
}

} // verus!
