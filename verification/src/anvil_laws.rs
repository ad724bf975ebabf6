//! Laws of anvil files, over the bytes of a file: what is stored in a slot is what is read.
use vstd::prelude::*;

use crate::anvil::{
    anvil_region, anvil_slot, decompressed, external_of, externals_among, is_external, location, needed_externals,
    External, ExternalChunk,
};
use crate::archive::{gathered, Fault, RegionModel};
use crate::bytes_laws::{
    all_slots_are_gathered, first_fault_is_given, four, gathered_slots_are_right, value_is_the_weighted_sum,
};
use crate::codec::{gzip_decoded, lz4_decoded, zlib_decoded, Codec};
use crate::util::{name_coords, NameFault};

verus! {

/// The location table: three bytes of sector and one of sector count for each slot; the
/// timestamps, of four bytes, stand 4096 bytes behind.
pub proof fn location_is_in_the_tables(d: Seq<u8>, i: int)
    requires
        0 <= i < 1024,
        d.len() >= 8192,
    ensures
        location(d, i).0 == d[4 * i] * 65536 + d[4 * i + 1] * 256 + d[4 * i + 2],
        location(d, i).1 == d[4 * i + 3],
        location(d, i).2 == d[4096 + 4 * i] * 16777216 + d[4097 + 4 * i] * 65536 + d[4098 + 4 * i] * 256
            + d[4099 + 4 * i],
{
    value_is_the_weighted_sum(d, 4 * i);
    value_is_the_weighted_sum(d, 4096 + 4 * i);
}

/// What each type byte means: 1 is gzip, 2 zlib, 3 nothing at all, 4 lz4, and no other is known.
/// Data that its compression does not decode is a fault of that compression.
pub proof fn type_byte_names_the_compression(bytes: Seq<u8>, kind: u8)
    ensures
        kind == 3 ==> decompressed(bytes, kind) == Ok::<Seq<u8>, Fault>(bytes),
        kind == 1 && gzip_decoded(bytes) is Some ==> decompressed(bytes, kind) == Ok::<Seq<u8>, Fault>(
            gzip_decoded(bytes)->Some_0,
        ),
        kind == 2 && zlib_decoded(bytes) is Some ==> decompressed(bytes, kind) == Ok::<Seq<u8>, Fault>(
            zlib_decoded(bytes)->Some_0,
        ),
        kind == 4 && lz4_decoded(bytes) is Some ==> decompressed(bytes, kind) == Ok::<Seq<u8>, Fault>(
            lz4_decoded(bytes)->Some_0,
        ),
        kind == 1 && gzip_decoded(bytes) is None ==> decompressed(bytes, kind) == Err::<Seq<u8>, Fault>(
            Fault::Decode(Codec::Gzip),
        ),
        kind == 2 && zlib_decoded(bytes) is None ==> decompressed(bytes, kind) == Err::<Seq<u8>, Fault>(
            Fault::Decode(Codec::Zlib),
        ),
        kind == 4 && lz4_decoded(bytes) is None ==> decompressed(bytes, kind) == Err::<Seq<u8>, Fault>(
            Fault::Decode(Codec::Lz4),
        ),
        kind == 0 || kind > 4 ==> decompressed(bytes, kind) == Err::<Seq<u8>, Fault>(
            Fault::UnknownCompression(kind),
        ),
{
}

/// A slot that has a location: sector `s`, and `n` sectors from there.
pub open spec fn located(d: Seq<u8>, i: int, s: int, n: int) -> bool {
    &&& 0 <= i < 1024
    &&& d.len() >= 8192
    &&& d[4 * i] * 65536 + d[4 * i + 1] * 256 + d[4 * i + 2] == s
    &&& d[4 * i + 3] == n
    &&& s > 0
    &&& n > 0
}

/// A chunk that lies in its sectors is read whole, in however many sectors it lies: its length,
/// of four bytes, counts the type byte, and may fill the sectors up to five bytes.
pub proof fn chunk_in_its_sectors_is_read(
    d: Seq<u8>,
    region: (int, int),
    externals: Seq<ExternalChunk>,
    i: int,
    s: int,
    n: int,
    length: int,
)
    requires
        located(d, i, s, n),
        1 <= length <= 4096 * n - 5,
        4096 * s + 4 + length <= d.len(),
        d[4096 * s] * 16777216 + d[4096 * s + 1] * 65536 + d[4096 * s + 2] * 256 + d[4096 * s + 3] == length,
        d[4096 * s + 4] < 128,
    ensures
        anvil_slot(d, region, externals, i) == decompressed(
            d.subrange(4096 * s + 5, 4096 * s + 4 + length),
            d[4096 * s + 4],
        ),
{
    location_is_in_the_tables(d, i);
    value_is_the_weighted_sum(d, 4096 * s);
}

/// The bytes from sector `s` on hold `payload` uncompressed: its length and the type byte, in
/// four bytes, the type byte, and the payload itself.
pub open spec fn holds_uncompressed(d: Seq<u8>, s: int, payload: Seq<u8>) -> bool {
    let p = 4096 * s;
    &&& p + 5 + payload.len() <= d.len()
    &&& d[p] * 16777216 + d[p + 1] * 65536 + d[p + 2] * 256 + d[p + 3] == payload.len() + 1
    &&& d[p + 4] == 3
    &&& forall|j: int| 0 <= j < payload.len() ==> #[trigger] d[p + 5 + j] == payload[j]
}

/// Reading gives back what was written: a payload that is stored uncompressed, in as many
/// sectors as it needs with its length and its type byte and five bytes to spare, is read whole.
pub proof fn uncompressed_chunk_reads_back(
    d: Seq<u8>,
    region: (int, int),
    externals: Seq<ExternalChunk>,
    i: int,
    s: int,
    n: int,
    payload: Seq<u8>,
)
    requires
        located(d, i, s, n),
        payload.len() + 6 <= 4096 * n,
        holds_uncompressed(d, s, payload),
    ensures
        anvil_slot(d, region, externals, i) == Ok::<Seq<u8>, Fault>(payload),
{
    chunk_in_its_sectors_is_read(d, region, externals, i, s, n, payload.len() as int + 1);
    let p = 4096 * s;
    let body = d.subrange(p + 5, p + 4 + (payload.len() + 1));
    assert forall|j: int| 0 <= j < body.len() implies body[j] == payload[j] by {
        assert(body[j] == d[p + 5 + j]);
    }
    assert(body =~= payload);
}

/// A whole file reads back: where each slot stores its payload uncompressed, or has no location
/// and an empty payload, the region holds just these payloads, each at the place of its slot.
pub proof fn uncompressed_file_reads_back(
    name: Seq<char>,
    d: Seq<u8>,
    externals: Seq<ExternalChunk>,
    at: (int, int),
    payloads: Seq<Seq<u8>>,
    sectors: Seq<int>,
)
    requires
        name_coords(name) == Ok::<(int, int), NameFault>(at),
        d.len() >= 8192,
        payloads.len() == 1024,
        sectors.len() == 1024,
        forall|i: int|
            0 <= i < 1024 ==> if #[trigger] sectors[i] == 0 {
                payloads[i].len() == 0 && d[4 * i] == 0 && d[4 * i + 1] == 0 && d[4 * i + 2] == 0
            } else {
                &&& located(d, i, sectors[i], d[4 * i + 3] as int)
                &&& payloads[i].len() + 6 <= 4096 * d[4 * i + 3]
                &&& holds_uncompressed(d, sectors[i], payloads[i])
            },
    ensures
        anvil_region(name, d, externals) is Ok,
        ({
            let region = anvil_region(name, d, externals)->Ok_0;
            &&& region.x == at.0
            &&& region.z == at.1
            &&& region.chunks.len() == 1024
            &&& forall|i: int|
                0 <= i < 1024 ==> {
                    &&& (#[trigger] region.chunks[i]).raw == payloads[i]
                    &&& region.chunks[i].x == 32 * at.0 + i % 32
                    &&& region.chunks[i].z == 32 * at.1 + i / 32
                }
        }),
{
    let slot = |i: int| anvil_slot(d, at, externals, i);
    assert forall|i: int| 0 <= i < 1024 implies #[trigger] slot(i) == Ok::<Seq<u8>, Fault>(payloads[i]) by {
        location_is_in_the_tables(d, i);
        if sectors[i] != 0 {
            uncompressed_chunk_reads_back(d, at, externals, i, sectors[i], d[4 * i + 3] as int, payloads[i]);
        } else {
            assert(payloads[i] =~= Seq::empty());
        }
    }
    all_slots_are_gathered(slot, 1024);
    let all = gathered(slot, 1024)->Ok_0;
    assert forall|i: int| 0 <= i < 1024 implies all[i] == payloads[i] by {
        assert(slot(i) is Ok);
    }
}

/// A slot is empty where it has no location or no sectors, and where its chunk lies in the file
/// and its length is zero or more than its sectors hold, five bytes to spare.
pub proof fn slot_without_a_chunk_is_empty(
    d: Seq<u8>,
    region: (int, int),
    externals: Seq<ExternalChunk>,
    i: int,
    s: int,
    n: int,
)
    requires
        0 <= i < 1024,
        d.len() >= 8192,
        d[4 * i] * 65536 + d[4 * i + 1] * 256 + d[4 * i + 2] == s,
        d[4 * i + 3] == n,
    ensures
        s == 0 || n == 0 ==> anvil_slot(d, region, externals, i) == Ok::<Seq<u8>, Fault>(Seq::empty()),
        4096 * s + 5 <= d.len() && d[4096 * s + 4] < 128 && (four(d, 4096 * s) == 0 || four(d, 4096 * s)
            > 4096 * n - 5) ==> anvil_slot(d, region, externals, i) == Ok::<Seq<u8>, Fault>(Seq::empty()),
{
    location_is_in_the_tables(d, i);
    if 4096 * s + 5 <= d.len() {
        value_is_the_weighted_sum(d, 4096 * s);
    }
}

/// A slot whose chunk, or whose length and type byte, reach beyond the end of the file is a
/// fault.
pub proof fn chunk_beyond_the_end_is_a_fault(
    d: Seq<u8>,
    region: (int, int),
    externals: Seq<ExternalChunk>,
    i: int,
    s: int,
    n: int,
)
    requires
        located(d, i, s, n),
        4096 * s + 5 > d.len() || (d[4096 * s + 4] < 128 && 1 <= four(d, 4096 * s) <= 4096 * n - 5 && 4096 * s
            + 4 + four(d, 4096 * s) > d.len()),
    ensures
        anvil_slot(d, region, externals, i) == Err::<Seq<u8>, Fault>(Fault::Truncated),
{
    location_is_in_the_tables(d, i);
    if 4096 * s + 5 <= d.len() {
        value_is_the_weighted_sum(d, 4096 * s);
    }
}

/// The first entry for a chunk counts.
pub proof fn first_entry_counts(externals: Seq<ExternalChunk>, x: int, z: int, e: int)
    requires
        0 <= e <= externals.len(),
        forall|j: int| 0 <= j < e ==> !((#[trigger] externals[j]).x == x && externals[j].z == z),
        e < externals.len() ==> externals[e].x == x && externals[e].z == z,
    ensures
        e < externals.len() ==> external_of(externals, x, z) == externals[e].content,
        e == externals.len() ==> external_of(externals, x, z) == External::Missing,
    decreases e,
{
    if e > 0 {
        assert(!(externals[0].x == x && externals[0].z == z));
        let rest = externals.drop_first();
        assert forall|j: int| 0 <= j < e - 1 implies !((#[trigger] rest[j]).x == x && rest[j].z == z) by {
            assert(rest[j] == externals[j + 1]);
        }
        first_entry_counts(rest, x, z, e - 1);
    }
}

/// A chunk with a file of its own comes from that file, whatever the sectors hold behind the
/// type byte: its content, under the compression of the type byte less 128. Entry `e` is the
/// first for the chunk in column `i % 32` and row `i / 32` of the region, or none is.
pub proof fn external_chunk_is_read_from_its_file(
    d: Seq<u8>,
    region: (int, int),
    externals: Seq<ExternalChunk>,
    i: int,
    s: int,
    n: int,
    e: int,
)
    requires
        located(d, i, s, n),
        4096 * s + 5 <= d.len(),
        d[4096 * s + 4] >= 128,
        0 <= e <= externals.len(),
        forall|j: int|
            0 <= j < e ==> !((#[trigger] externals[j]).x == 32 * region.0 + i % 32 && externals[j].z == 32
                * region.1 + i / 32),
        e < externals.len() ==> externals[e].x == 32 * region.0 + i % 32 && externals[e].z == 32 * region.1 + i
            / 32,
    ensures
        e < externals.len() ==> (externals[e].content matches External::Content(bytes) ==> anvil_slot(
            d,
            region,
            externals,
            i,
        ) == decompressed(bytes@, (d[4096 * s + 4] - 128) as u8)),
        e < externals.len() && externals[e].content is Unreadable ==> anvil_slot(d, region, externals, i)
            == Err::<Seq<u8>, Fault>(Fault::UnreadableExternal(32 * region.0 + i % 32, 32 * region.1 + i / 32)),
        e == externals.len() || externals[e].content is Missing ==> anvil_slot(d, region, externals, i)
            == Err::<Seq<u8>, Fault>(Fault::MissingExternal(32 * region.0 + i % 32, 32 * region.1 + i / 32)),
{
    location_is_in_the_tables(d, i);
    first_entry_counts(externals, 32 * region.0 + i % 32, 32 * region.1 + i / 32, e);
}

/// The region of a file is what its slots give: it parses where each slot does, and chunk `i`
/// is slot `i`, at its place; else the first slot that fails gives its fault. A file with a
/// name that gives no coordinates, or that is too short for its tables, is a fault.
pub proof fn region_is_its_slots(
    name: Seq<char>,
    d: Seq<u8>,
    externals: Seq<ExternalChunk>,
    at: (int, int),
    k: int,
)
    requires
        name_coords(name) == Ok::<(int, int), NameFault>(at),
        0 <= k < 1024,
    ensures
        d.len() < 8192 ==> anvil_region(name, d, externals) == Err::<RegionModel, Fault>(Fault::Truncated),
        d.len() >= 8192 && (forall|i: int| 0 <= i < 1024 ==> #[trigger] anvil_slot(d, at, externals, i) is Ok)
            ==> anvil_region(name, d, externals) is Ok,
        d.len() >= 8192 && (forall|i: int| 0 <= i < k ==> #[trigger] anvil_slot(d, at, externals, i) is Ok)
            && anvil_slot(d, at, externals, k) is Err ==> anvil_region(name, d, externals) == Err::<RegionModel, Fault>(
            anvil_slot(d, at, externals, k)->Err_0,
        ),
        anvil_region(name, d, externals) matches Ok(region) ==> {
            &&& region.x == at.0
            &&& region.z == at.1
            &&& region.chunks.len() == 1024
            &&& region.chunks[k].x == 32 * at.0 + k % 32
            &&& region.chunks[k].z == 32 * at.1 + k / 32
            &&& anvil_slot(d, at, externals, k) == Ok::<Seq<u8>, Fault>(region.chunks[k].raw)
        },
{
    if d.len() >= 8192 {
        let slot = |i: int| anvil_slot(d, at, externals, i);
        if forall|i: int| 0 <= i < 1024 ==> #[trigger] anvil_slot(d, at, externals, i) is Ok {
            assert forall|i: int| 0 <= i < 1024 implies #[trigger] slot(i) is Ok by {
                assert(anvil_slot(d, at, externals, i) is Ok);
            }
            all_slots_are_gathered(slot, 1024);
        }
        if (forall|i: int| 0 <= i < k ==> #[trigger] anvil_slot(d, at, externals, i) is Ok) && anvil_slot(
            d,
            at,
            externals,
            k,
        ) is Err {
            assert forall|i: int| 0 <= i < k implies #[trigger] slot(i) is Ok by {
                assert(anvil_slot(d, at, externals, i) is Ok);
            }
            first_fault_is_given(slot, 1024, k as nat);
        }
        if anvil_region(name, d, externals) is Ok {
            assert(gathered(slot, 1024) is Ok);
            gathered_slots_are_right(slot, 1024, k);
        }
    }
}

/// A file whose name gives no coordinates is a fault of its name.
pub proof fn unnamed_file_is_a_fault(name: Seq<char>, d: Seq<u8>, externals: Seq<ExternalChunk>)
    requires
        name_coords(name) is Err,
    ensures
        anvil_region(name, d, externals) == Err::<RegionModel, Fault>(Fault::Name(name_coords(name)->Err_0)),
{
}

/// The slots whose chunks have files of their own are told by the type byte in their first
/// sector.
pub proof fn external_slot_is_told_by_its_type_byte(d: Seq<u8>, i: int)
    requires
        0 <= i < 1024,
        d.len() >= 8192,
    ensures
        ({
            let s = d[4 * i] * 65536 + d[4 * i + 1] * 256 + d[4 * i + 2];
            is_external(d, i) <==> s > 0 && d[4 * i + 3] > 0 && 4096 * s + 5 <= d.len() && d[4096 * s + 4] >= 128
        }),
{
    location_is_in_the_tables(d, i);
}

/// `p` is the place of one of the first `n` slots, whose chunk has a file of its own.
spec fn is_of_a_slot(d: Seq<u8>, region: (int, int), n: nat, p: (int, int)) -> bool {
    exists|i: int|
        0 <= i < n && #[trigger] is_external(d, i) && p.0 == 32 * region.0 + i % 32 && p.1 == 32 * region.1 + i / 32
}

/// The chunks whose files are asked for among the first `n` slots: one for each slot whose chunk
/// has a file of its own, and no others.
proof fn externals_found(d: Seq<u8>, region: (int, int), n: nat)
    ensures
        forall|i: int|
            0 <= i < n && #[trigger] is_external(d, i) ==> externals_among(d, region, n).contains(
                (32 * region.0 + i % 32, 32 * region.1 + i / 32),
            ),
        forall|m: int|
            #![trigger externals_among(d, region, n)[m]]
            0 <= m < externals_among(d, region, n).len() ==> is_of_a_slot(
                d,
                region,
                n,
                externals_among(d, region, n)[m],
            ),
        forall|a: int, b: int|
            #![trigger externals_among(d, region, n)[a], externals_among(d, region, n)[b]]
            0 <= a < b < externals_among(d, region, n).len() ==> {
                let p = externals_among(d, region, n)[a];
                let q = externals_among(d, region, n)[b];
                p.1 < q.1 || (p.1 == q.1 && p.0 < q.0)
            },
    decreases n,
{
    if n > 0 {
        let m = (n - 1) as nat;
        externals_found(d, region, m);
        let before = externals_among(d, region, m);
        let all = externals_among(d, region, n);
        assert forall|i: int| 0 <= i < n && #[trigger] is_external(d, i) implies all.contains(
            (32 * region.0 + i % 32, 32 * region.1 + i / 32),
        ) by {
            let want = (32 * region.0 + i % 32, 32 * region.1 + i / 32);
            if i < m {
                assert(before.contains(want));
                let j = choose|j: int| 0 <= j < before.len() && before[j] == want;
                assert(all[j] == want);
            } else {
                assert(all.last() == want);
            }
        }
        assert forall|j: int| #![trigger all[j]] 0 <= j < all.len() implies is_of_a_slot(d, region, n, all[j]) by {
            if j < before.len() {
                assert(all[j] == before[j]);
                assert(is_of_a_slot(d, region, m, before[j]));
                let i = choose|i: int|
                    0 <= i < m && #[trigger] is_external(d, i) && before[j].0 == 32 * region.0 + i % 32 && before[j].1
                        == 32 * region.1 + i / 32;
                assert(is_external(d, i));
            } else {
                assert(is_external(d, n - 1));
            }
        }
        assert forall|a: int, b: int| #![trigger all[a], all[b]] 0 <= a < b < all.len() implies {
            let p = all[a];
            let q = all[b];
            p.1 < q.1 || (p.1 == q.1 && p.0 < q.0)
        } by {
            assert(all[a] == before[a]);
            if b < before.len() {
                assert(all[b] == before[b]);
            } else {
                let i = choose|i: int|
                    0 <= i < m && #[trigger] is_external(d, i) && before[a].0 == 32 * region.0 + i % 32 && before[a].1
                        == 32 * region.1 + i / 32;
                assert(i < n - 1);
                assert(all[b] == (32 * region.0 + (n - 1) % 32, 32 * region.1 + (n - 1) / 32));
            }
        }
    }
}

/// The files that are asked for are those of the chunks whose type byte says so, each once, by
/// rows: a place is among them exactly where its slot has a location, sectors, and a type byte
/// from 128 on within the file.
pub proof fn needed_files_are_those_of_external_slots(name: Seq<char>, d: Seq<u8>, at: (int, int), i: int)
    requires
        name_coords(name) == Ok::<(int, int), NameFault>(at),
        d.len() >= 8192,
        0 <= i < 1024,
    ensures
        ({
            let s = d[4 * i] * 65536 + d[4 * i + 1] * 256 + d[4 * i + 2];
            needed_externals(name, d).contains((32 * at.0 + i % 32, 32 * at.1 + i / 32)) <==> s > 0 && d[4 * i
                + 3] > 0 && 4096 * s + 5 <= d.len() && d[4096 * s + 4] >= 128
        }),
        forall|m: int|
            0 <= m < needed_externals(name, d).len() ==> 32 * at.0 <= (#[trigger] needed_externals(name, d)[m]).0
                < 32 * at.0 + 32 && 32 * at.1 <= needed_externals(name, d)[m].1 < 32 * at.1 + 32,
        forall|a: int, b: int|
            #![trigger needed_externals(name, d)[a], needed_externals(name, d)[b]]
            0 <= a < b < needed_externals(name, d).len() ==> {
                let p = needed_externals(name, d)[a];
                let q = needed_externals(name, d)[b];
                p.1 < q.1 || (p.1 == q.1 && p.0 < q.0)
            },
{
    external_slot_is_told_by_its_type_byte(d, i);
    externals_found(d, at, 1024);
    let all = needed_externals(name, d);
    let want = (32 * at.0 + i % 32, 32 * at.1 + i / 32);
    if all.contains(want) {
        let m = choose|m: int| 0 <= m < all.len() && all[m] == want;
        let j = choose|j: int|
            0 <= j < 1024 && #[trigger] is_external(d, j) && want.0 == 32 * at.0 + j % 32 && want.1 == 32 * at.1 + j / 32;
        assert(i == j);
    }
}

/// Without coordinates or tables no file is asked for.
pub proof fn no_file_is_needed_without_a_table(name: Seq<char>, d: Seq<u8>)
    requires
        name_coords(name) is Err || d.len() < 8192,
    ensures
        needed_externals(name, d).len() == 0,
{
}

} // verus!
