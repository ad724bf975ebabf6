//! Laws of what the library's values stand for: each field is its own.
use vstd::prelude::*;

use crate::anvil::int_pairs;
use crate::archive::{
    chunk_models, contents, gives_bytes, gives_region, ArchiveError, Fault, ParsedChunk, ParsedRegion, RegionModel,
};
use crate::compare::{diff_models, CompareModel, CompareResult, RegionDiff, RegionDiffModel};
use crate::inspect::{Shape, ShapeModel};
use crate::json_report::is_consistent;
use crate::nbt::{entry_models, item_models, Nbt, NbtModel};
use crate::order::{last_map, last_map_dom, last_map_value};
use crate::snapshot::{region_models, tuple_views, RegionHash, Snapshot};

verus! {

// ---- results ----

/// A result that gives what is expected is either the bytes that are expected, or an error that
/// stands for the fault that is.
pub proof fn result_gives_what_is_expected(
    r: Result<Vec<u8>, ArchiveError>,
    bytes: Result<Seq<u8>, Fault>,
    s: Result<ParsedRegion, ArchiveError>,
    region: Result<RegionModel, Fault>,
)
    ensures
        r matches Ok(out) ==> (gives_bytes(r, bytes) <==> bytes == Ok::<Seq<u8>, Fault>(out@)),
        r matches Err(e) ==> (gives_bytes(r, bytes) <==> bytes == Err::<Seq<u8>, Fault>(e@)),
        s matches Ok(out) ==> (gives_region(s, region) <==> region == Ok::<RegionModel, Fault>(out@)),
        s matches Err(e) ==> (gives_region(s, region) <==> region == Err::<RegionModel, Fault>(e@)),
{
}

/// An error stands for the fault of the same name, with the same coordinates and numbers.
pub proof fn error_stands_for_its_fault(e: ArchiveError)
    ensures
        match e {
            ArchiveError::Truncated => e@ == Fault::Truncated,
            ArchiveError::Name(fault) => e@ == Fault::Name(fault),
            ArchiveError::Version(fault) => e@ == Fault::Version(fault),
            ArchiveError::LinearV1 => e@ == Fault::LinearV1,
            ArchiveError::BLinearVersion(v) => e@ == Fault::BLinearVersion(v),
            ArchiveError::GridSize(v) => e@ == Fault::GridSize(v as int),
            ArchiveError::UnknownCompression(v) => e@ == Fault::UnknownCompression(v),
            ArchiveError::Decode(codec, _) => e@ == Fault::Decode(codec),
            ArchiveError::MissingExternal(x, z) => e@ == Fault::MissingExternal(x as int, z as int),
            ArchiveError::UnreadableExternal(x, z) => e@ == Fault::UnreadableExternal(x as int, z as int),
        },
{
}

/// Lists stand for lists of the same length, item by item.
pub proof fn lists_stand_item_by_item(
    items: Seq<Vec<u8>>,
    pairs: Seq<(i64, i64)>,
    chunks: Seq<ParsedChunk>,
    diffs: Seq<RegionDiff>,
    regions: Seq<RegionHash>,
    parts: Seq<(i32, i32, [u8; 16], Vec<(i64, i64, [u8; 16])>)>,
    i: int,
)
    ensures
        contents(items).len() == items.len(),
        0 <= i < items.len() ==> contents(items)[i] == items[i]@,
        int_pairs(pairs).len() == pairs.len(),
        0 <= i < pairs.len() ==> int_pairs(pairs)[i].0 == pairs[i].0 && int_pairs(pairs)[i].1 == pairs[i].1,
        chunk_models(chunks).len() == chunks.len(),
        0 <= i < chunks.len() ==> chunk_models(chunks)[i] == chunks[i]@,
        diff_models(diffs).len() == diffs.len(),
        0 <= i < diffs.len() ==> diff_models(diffs)[i] == diffs[i]@,
        region_models(regions).len() == regions.len(),
        0 <= i < regions.len() ==> region_models(regions)[i] == regions[i]@,
        tuple_views(parts).len() == parts.len(),
        0 <= i < parts.len() ==> tuple_views(parts)[i].0 == parts[i].0 && tuple_views(parts)[i].1 == parts[i].1
            && tuple_views(parts)[i].2 == parts[i].2 && tuple_views(parts)[i].3 == parts[i].3@,
{
}

// ---- regions and snapshots ----

/// A region and its chunks stand for their coordinates and their bytes.
pub proof fn region_stands_for_its_fields(chunk: ParsedChunk, region: ParsedRegion)
    ensures
        chunk@.x == chunk.x,
        chunk@.z == chunk.z,
        chunk@.raw == chunk.raw@,
        region@.x == region.region_x,
        region@.z == region.region_z,
        region@.chunks.len() == region.chunks@.len(),
        forall|i: int| 0 <= i < region.chunks@.len() ==> #[trigger] region@.chunks[i] == region.chunks@[i]@,
{
}

/// A snapshot stands for its version and its regions, and a region for its coordinates, its hash
/// and its records.
pub proof fn snapshot_stands_for_its_fields(snapshot: Snapshot, region: RegionHash)
    ensures
        region@.x == region.region_x,
        region@.z == region.region_z,
        region@.hash == region.hash,
        region@.chunks == region.chunks@,
        snapshot@.version == snapshot.version,
        snapshot@.regions.len() == snapshot.regions@.len(),
        forall|i: int|
            0 <= i < snapshot.regions@.len() ==> #[trigger] snapshot@.regions[i] == snapshot.regions@[i]@,
{
}

/// A difference stands for its fields, and keeps its kind.
pub proof fn difference_stands_for_its_fields(d: RegionDiff, c: CompareResult)
    ensures
        match d {
            RegionDiff::Added { region_x, region_z, chunks } => d@ is Added && d@->Added_x == region_x && d@->Added_z
                == region_z && d@->Added_chunks == chunks@,
            RegionDiff::Removed { region_x, region_z, chunks } => d@ is Removed && d@->Removed_x == region_x
                && d@->Removed_z == region_z && d@->Removed_chunks == chunks@,
            RegionDiff::Changed { region_x, region_z, old_hash, new_hash, chunk_diffs } => {
                &&& d@ is Changed
                &&& d@->Changed_x == region_x
                &&& d@->Changed_z == region_z
                &&& d@->Changed_old_hash == old_hash
                &&& d@->Changed_new_hash == new_hash
                &&& d@->Changed_chunk_diffs == chunk_diffs@
            },
        },
        c@.added.len() == c.added_regions@.len(),
        c@.removed.len() == c.removed_regions@.len(),
        c@.changed.len() == c.changed_regions@.len(),
        forall|i: int| 0 <= i < c.added_regions@.len() ==> #[trigger] c@.added[i] == c.added_regions@[i]@,
        forall|i: int| 0 <= i < c.removed_regions@.len() ==> #[trigger] c@.removed[i] == c.removed_regions@[i]@,
        forall|i: int| 0 <= i < c.changed_regions@.len() ==> #[trigger] c@.changed[i] == c.changed_regions@[i]@,
{
}

/// One region that stands in a part of another kind makes a result inconsistent, and nothing else
/// does.
pub proof fn misplaced_region_is_inconsistent(c: CompareModel, d: RegionDiffModel)
    ensures
        is_consistent(crate::compare::no_difference()),
        is_consistent(CompareModel { added: c.added.push(d), ..c }) <==> is_consistent(c) && d is Added,
        is_consistent(CompareModel { removed: c.removed.push(d), ..c }) <==> is_consistent(c) && d is Removed,
        is_consistent(CompareModel { changed: c.changed.push(d), ..c }) <==> is_consistent(c) && d is Changed,
{
    let added = c.added.push(d);
    let removed = c.removed.push(d);
    let changed = c.changed.push(d);
    assert(added[c.added.len() as int] == d);
    assert(removed[c.removed.len() as int] == d);
    assert(changed[c.changed.len() as int] == d);
    assert forall|i: int| 0 <= i < c.added.len() implies added[i] == c.added[i] by {}
    assert forall|i: int| 0 <= i < c.removed.len() implies removed[i] == c.removed[i] by {}
    assert forall|i: int| 0 <= i < c.changed.len() implies changed[i] == c.changed[i] by {}
    let x = CompareModel { added, ..c };
    let y = CompareModel { removed, ..c };
    let z = CompareModel { changed, ..c };
    if is_consistent(x) {
        assert forall|i: int| 0 <= i < c.added.len() implies (#[trigger] c.added[i]) is Added by {
            assert(x.added[i] is Added);
        }
        assert(x.added[c.added.len() as int] is Added);
    }
    if is_consistent(y) {
        assert forall|i: int| 0 <= i < c.removed.len() implies (#[trigger] c.removed[i]) is Removed by {
            assert(y.removed[i] is Removed);
        }
        assert(y.removed[c.removed.len() as int] is Removed);
    }
    if is_consistent(z) {
        assert forall|i: int| 0 <= i < c.changed.len() implies (#[trigger] c.changed[i]) is Changed by {
            assert(z.changed[i] is Changed);
        }
        assert(z.changed[c.changed.len() as int] is Changed);
    }
}

// ---- trees ----

/// A tree stands for its values: single ones and arrays as they are, a list item by item.
pub proof fn tree_stands_for_its_values(v: Nbt, i: int)
    ensures
        match v {
            Nbt::Byte(x) => v@ == NbtModel::Byte(x),
            Nbt::Short(x) => v@ == NbtModel::Short(x),
            Nbt::Int(x) => v@ == NbtModel::Int(x),
            Nbt::Long(x) => v@ == NbtModel::Long(x),
            Nbt::Float(x) => v@ == NbtModel::Float(x),
            Nbt::Double(x) => v@ == NbtModel::Double(x),
            Nbt::String(s) => v@ == NbtModel::String(s@),
            Nbt::ByteArray(a) => v@ == NbtModel::ByteArray(a@),
            Nbt::IntArray(a) => v@ == NbtModel::IntArray(a@),
            Nbt::LongArray(a) => v@ == NbtModel::LongArray(a@),
            Nbt::List(items) => {
                &&& v@ is List
                &&& v@->List_0.len() == items@.len()
                &&& 0 <= i < items@.len() ==> v@->List_0[i] == items@[i]@
            },
            Nbt::Compound(_) => v@ is Compound,
        },
{
    reveal_with_fuel(crate::nbt::model, 2);
    if let Nbt::List(items) = v {
        assert(item_models(items@).len() == items@.len());
        if 0 <= i < items@.len() {
            assert(item_models(items@)[i] == items@[i]@);
        }
    }
}

/// A compound stands for a map: a key is in it where some entry has it, and its value is that of
/// the last such entry.
pub proof fn compound_stands_for_its_last_entries(entries: Vec<(Vec<u8>, Nbt)>, k: Seq<u8>, i: int)
    ensures
        ({
            let m = Nbt::Compound(entries)@->Compound_0;
            &&& Nbt::Compound(entries)@ is Compound
            &&& m.dom().finite()
            &&& m.dom().contains(k) <==> exists|j: int| 0 <= j < entries@.len() && (#[trigger] entries@[j]).0@ == k
            &&& 0 <= i < entries@.len() && entries@[i].0@ == k && (forall|j: int|
                i < j < entries@.len() ==> (#[trigger] entries@[j]).0@ != k) ==> m[k] == entries@[i].1@
        }),
{
    reveal_with_fuel(crate::nbt::model, 2);
    let pairs = entry_models(entries@);
    let m = Nbt::Compound(entries)@->Compound_0;
    assert(m == last_map(pairs));
    last_map_dom(pairs);
    assert forall|j: int| 0 <= j < entries@.len() implies (#[trigger] pairs[j]).0 == entries@[j].0@ && pairs[j].1
        == entries@[j].1@ by {}
    if m.dom().contains(k) {
        let j = choose|j: int| 0 <= j < pairs.len() && (#[trigger] pairs[j]).0 == k;
        assert(entries@[j].0@ == k);
    }
    if exists|j: int| 0 <= j < entries@.len() && (#[trigger] entries@[j]).0@ == k {
        let j = choose|j: int| 0 <= j < entries@.len() && (#[trigger] entries@[j]).0@ == k;
        assert(pairs[j].0 == k);
    }
    if 0 <= i < entries@.len() && entries@[i].0@ == k && (forall|j: int|
        i < j < entries@.len() ==> (#[trigger] entries@[j]).0@ != k) {
        assert forall|j: int| i < j < pairs.len() implies (#[trigger] pairs[j]).0 != pairs[i].0 by {
            assert(entries@[j].0@ != k);
        }
        last_map_value(pairs, i);
    }
}

/// A shape stands for its count, or for its value.
pub proof fn shape_stands_for_its_fields(s: Shape)
    ensures
        match s {
            Shape::Compound(n) => s@ == ShapeModel::Compound(n as nat),
            Shape::List(n) => s@ == ShapeModel::List(n as nat),
            Shape::LongArray(n) => s@ == ShapeModel::LongArray(n as nat),
            Shape::ByteArray(n) => s@ == ShapeModel::ByteArray(n as nat),
            Shape::IntArray(n) => s@ == ShapeModel::IntArray(n as nat),
            Shape::Byte(v) => s@ == ShapeModel::Single(NbtModel::Byte(v)),
            Shape::Short(v) => s@ == ShapeModel::Single(NbtModel::Short(v)),
            Shape::Int(v) => s@ == ShapeModel::Single(NbtModel::Int(v)),
            Shape::Long(v) => s@ == ShapeModel::Single(NbtModel::Long(v)),
            Shape::Float(v) => s@ == ShapeModel::Single(NbtModel::Float(v)),
            Shape::Double(v) => s@ == ShapeModel::Single(NbtModel::Double(v)),
            Shape::String(v) => s@ == ShapeModel::Single(NbtModel::String(v@)),
        },
{
}

} // verus!
