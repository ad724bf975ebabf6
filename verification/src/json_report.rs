//! The content of a report as a JSON document.
use serde_json::Value;
use vstd::prelude::*;

use crate::compare::{
    all_changed_chunks, diff_models, ChunkDiff, CompareModel, CompareResult, RegionDiff, RegionDiffModel, RegionPart,
};
use crate::hash::{hash_to_hex, hex, Hash128};
use crate::json::{
    field, json_array, json_entries, json_object, json_pretty, json_signed, json_text, json_to_string_pretty,
    json_tree, json_trees, json_unsigned, Json,
};

verus! {

/// Each region stands in the part of its kind.
pub open spec fn is_consistent(c: CompareModel) -> bool {
    &&& forall|i: int| 0 <= i < c.added.len() ==> (#[trigger] c.added[i]) is Added
    &&& forall|i: int| 0 <= i < c.removed.len() ==> (#[trigger] c.removed[i]) is Removed
    &&& forall|i: int| 0 <= i < c.changed.len() ==> (#[trigger] c.changed[i]) is Changed
}

/// Whether each region stands in the part of its kind.
pub fn check_consistent(result: &CompareResult) -> (r: bool)
    ensures
        r == is_consistent(result@),
{
    all_of_kind(&result.added_regions, RegionPart::Added) && all_of_kind(
        &result.removed_regions,
        RegionPart::Removed,
    ) && all_of_kind(&result.changed_regions, RegionPart::Changed)
}

/// The difference is of the kind of the part.
pub open spec fn is_of_kind(diff: RegionDiffModel, part: RegionPart) -> bool {
    match part {
        RegionPart::Added => diff is Added,
        RegionPart::Removed => diff is Removed,
        RegionPart::Changed => diff is Changed,
    }
}

fn all_of_kind(diffs: &Vec<RegionDiff>, part: RegionPart) -> (r: bool)
    ensures
        r == forall|i: int|
            0 <= i < diffs@.len() ==> is_of_kind(#[trigger] diff_models(diffs@)[i], part),
{
    let ghost models = diff_models(diffs@);
    let mut i: usize = 0;
    while i < diffs.len()
        invariant
            i <= diffs@.len(),
            models == diff_models(diffs@),
            forall|j: int| 0 <= j < i ==> is_of_kind(#[trigger] models[j], part),
        decreases diffs@.len() - i,
    {
        let fits: bool = match (&diffs[i], part) {
            (RegionDiff::Added { .. }, RegionPart::Added) => true,
            (RegionDiff::Removed { .. }, RegionPart::Removed) => true,
            (RegionDiff::Changed { .. }, RegionPart::Changed) => true,
            _ => false,
        };
        if !fits {
            assert(!is_of_kind(models[i as int], part));
            return false;
        }
        i += 1;
    }
    true
}

// ---- the document ----

/// A chunk: its coordinates.
pub open spec fn chunk_json(chunk: (i64, i64, Hash128)) -> Json {
    Json::Object(seq![("x"@, Json::Number(chunk.0 as int)), ("z"@, Json::Number(chunk.1 as int))])
}

/// A region that was added or removed.
pub open spec fn region_json(x: i32, z: i32, chunks: Seq<(i64, i64, Hash128)>) -> Json {
    Json::Object(
        seq![
            ("region_x"@, Json::Number(x as int)),
            ("region_z"@, Json::Number(z as int)),
            ("chunk_count"@, Json::Number(chunks.len() as int)),
            ("chunks"@, Json::Array(Seq::new(chunks.len(), |i: int| chunk_json(chunks[i])))),
        ],
    )
}

/// What happened to a chunk: a hash that there is none of is left out.
pub open spec fn diff_json(diff: ChunkDiff) -> Json {
    match diff {
        ChunkDiff::Added { x, z, new_hash } => Json::Object(
            seq![
                ("type"@, Json::Text("added"@)),
                ("x"@, Json::Number(x as int)),
                ("z"@, Json::Number(z as int)),
                ("new_hash"@, Json::Text(hex(new_hash@))),
            ],
        ),
        ChunkDiff::Removed { x, z, old_hash } => Json::Object(
            seq![
                ("type"@, Json::Text("removed"@)),
                ("x"@, Json::Number(x as int)),
                ("z"@, Json::Number(z as int)),
                ("old_hash"@, Json::Text(hex(old_hash@))),
            ],
        ),
        ChunkDiff::Changed { x, z, old_hash, new_hash } => Json::Object(
            seq![
                ("type"@, Json::Text("changed"@)),
                ("x"@, Json::Number(x as int)),
                ("z"@, Json::Number(z as int)),
                ("old_hash"@, Json::Text(hex(old_hash@))),
                ("new_hash"@, Json::Text(hex(new_hash@))),
            ],
        ),
    }
}

/// A region: by its kind.
pub open spec fn region_diff_json(diff: RegionDiffModel) -> Json {
    match diff {
        RegionDiffModel::Added { x, z, chunks } => region_json(x, z, chunks),
        RegionDiffModel::Removed { x, z, chunks } => region_json(x, z, chunks),
        RegionDiffModel::Changed { x, z, old_hash, new_hash, chunk_diffs } => Json::Object(
            seq![
                ("region_x"@, Json::Number(x as int)),
                ("region_z"@, Json::Number(z as int)),
                ("old_hash"@, Json::Text(hex(old_hash@))),
                ("new_hash"@, Json::Text(hex(new_hash@))),
                (
                    "chunks"@,
                    Json::Array(Seq::new(chunk_diffs.len(), |i: int| diff_json(chunk_diffs[i]))),
                ),
            ],
        ),
    }
}

/// The regions of a part.
pub open spec fn part_json(part: Seq<RegionDiffModel>) -> Json {
    Json::Array(Seq::new(part.len(), |i: int| region_diff_json(part[i])))
}

/// The whole report.
pub open spec fn report_json(c: CompareModel) -> Json {
    Json::Object(
        seq![
            ("added_regions"@, Json::Number(c.added.len() as int)),
            ("removed_regions"@, Json::Number(c.removed.len() as int)),
            ("changed_regions"@, Json::Number(c.changed.len() as int)),
            ("changed_chunks"@, Json::Number(all_changed_chunks(c) as int)),
            (
                "details"@,
                Json::Object(
                    seq![
                        ("added"@, part_json(c.added)),
                        ("removed"@, part_json(c.removed)),
                        ("changed"@, part_json(c.changed)),
                    ],
                ),
            ),
        ],
    )
}

// ---- building it ----

/// The names in the reports differ from each other, as far as they meet in an object.
pub(crate) proof fn names_differ()
    ensures
        "x"@ != "z"@,
        "lx"@ != "lz"@,
        "x"@.len() == 1,
        "z"@.len() == 1,
        "lx"@.len() == 2,
        "lz"@.len() == 2,
        "type"@.len() == 4,
        "kind"@.len() == 4,
        "added"@.len() == 5,
        "chunks"@.len() == 6,
        "removed"@.len() == 7,
        "changed"@.len() == 7,
        "details"@.len() == 7,
        "regions"@.len() == 7,
        "removed"@ != "changed"@,
        "region_x"@.len() == 8,
        "region_z"@.len() == 8,
        "old_hash"@.len() == 8,
        "new_hash"@.len() == 8,
        "region_x"@ != "region_z"@,
        "region_x"@ != "old_hash"@,
        "region_x"@ != "new_hash"@,
        "region_z"@ != "old_hash"@,
        "region_z"@ != "new_hash"@,
        "old_hash"@ != "new_hash"@,
        "chunk_count"@.len() == 11,
        "added_regions"@.len() == 13,
        "changed_chunks"@.len() == 14,
        "removed_regions"@.len() == 15,
        "changed_regions"@.len() == 15,
        "removed_regions"@ != "changed_regions"@,
{
    reveal_strlit("x");
    reveal_strlit("z");
    reveal_strlit("lx");
    reveal_strlit("lz");
    reveal_strlit("type");
    reveal_strlit("kind");
    reveal_strlit("added");
    reveal_strlit("chunks");
    reveal_strlit("removed");
    reveal_strlit("changed");
    reveal_strlit("details");
    reveal_strlit("regions");
    reveal_strlit("region_x");
    reveal_strlit("region_z");
    reveal_strlit("old_hash");
    reveal_strlit("new_hash");
    reveal_strlit("chunk_count");
    reveal_strlit("added_regions");
    reveal_strlit("changed_chunks");
    reveal_strlit("removed_regions");
    reveal_strlit("changed_regions");
    assert("x"@[0] != "z"@[0]);
    assert("lx"@[1] != "lz"@[1]);
    assert("removed"@[0] != "changed"@[0]);
    assert("region_x"@[7] != "region_z"@[7]);
    assert("region_x"@[0] != "old_hash"@[0]);
    assert("region_x"@[0] != "new_hash"@[0]);
    assert("region_z"@[0] != "old_hash"@[0]);
    assert("region_z"@[0] != "new_hash"@[0]);
    assert("old_hash"@[0] != "new_hash"@[0]);
    assert("removed_regions"@[0] != "changed_regions"@[0]);
}

fn chunk_value(chunk: &(i64, i64, Hash128)) -> (r: Value)
    ensures
        json_tree(r) == chunk_json(*chunk),
{
    let entries: Vec<(String, Value)> = vec![
        field("x", json_signed(chunk.0)),
        field("z", json_signed(chunk.1)),
    ];
    proof {
        names_differ();
        assert(json_entries(entries@) =~= chunk_json(*chunk)->Object_0);
    }
    json_object(entries)
}

fn region_value(x: i32, z: i32, chunks: &Vec<(i64, i64, Hash128)>) -> (r: Value)
    ensures
        json_tree(r) == region_json(x, z, chunks@),
{
    let mut items: Vec<Value> = Vec::with_capacity(chunks.len());
    let mut i: usize = 0;
    while i < chunks.len()
        invariant
            i <= chunks@.len(),
            items@.len() == i,
            forall|j: int| 0 <= j < i ==> json_tree(#[trigger] items@[j]) == chunk_json(chunks@[j]),
        decreases chunks@.len() - i,
    {
        items.push(chunk_value(&chunks[i]));
        i += 1;
    }
    assert(json_trees(items@) =~= Seq::new(chunks@.len(), |i: int| chunk_json(chunks@[i])));
    let entries: Vec<(String, Value)> = vec![
        field("region_x", json_signed(x as i64)),
        field("region_z", json_signed(z as i64)),
        field("chunk_count", json_unsigned(chunks.len() as u64)),
        field("chunks", json_array(items)),
    ];
    proof {
        names_differ();
        assert(json_entries(entries@) =~= region_json(x, z, chunks@)->Object_0);
    }
    json_object(entries)
}

fn diff_value(diff: &ChunkDiff) -> (r: Value)
    ensures
        json_tree(r) == diff_json(*diff),
{
    let entries: Vec<(String, Value)> = match diff {
        ChunkDiff::Added { x, z, new_hash } => vec![
            field("type", json_text("added".to_owned())),
            field("x", json_signed(*x)),
            field("z", json_signed(*z)),
            field("new_hash", json_text(hash_to_hex(new_hash))),
        ],
        ChunkDiff::Removed { x, z, old_hash } => vec![
            field("type", json_text("removed".to_owned())),
            field("x", json_signed(*x)),
            field("z", json_signed(*z)),
            field("old_hash", json_text(hash_to_hex(old_hash))),
        ],
        ChunkDiff::Changed { x, z, old_hash, new_hash } => vec![
            field("type", json_text("changed".to_owned())),
            field("x", json_signed(*x)),
            field("z", json_signed(*z)),
            field("old_hash", json_text(hash_to_hex(old_hash))),
            field("new_hash", json_text(hash_to_hex(new_hash))),
        ],
    };
    proof {
        names_differ();
        assert(json_entries(entries@) =~= diff_json(*diff)->Object_0);
    }
    json_object(entries)
}

fn region_diff_value(diff: &RegionDiff) -> (r: Value)
    ensures
        json_tree(r) == region_diff_json(diff@),
{
    match diff {
        RegionDiff::Added { region_x, region_z, chunks } => region_value(*region_x, *region_z, chunks),
        RegionDiff::Removed { region_x, region_z, chunks } => region_value(*region_x, *region_z, chunks),
        RegionDiff::Changed { region_x, region_z, old_hash, new_hash, chunk_diffs } => {
            let mut items: Vec<Value> = Vec::with_capacity(chunk_diffs.len());
            let mut i: usize = 0;
            while i < chunk_diffs.len()
                invariant
                    i <= chunk_diffs@.len(),
                    items@.len() == i,
                    forall|j: int|
                        0 <= j < i ==> json_tree(#[trigger] items@[j]) == diff_json(chunk_diffs@[j]),
                decreases chunk_diffs@.len() - i,
            {
                items.push(diff_value(&chunk_diffs[i]));
                i += 1;
            }
            assert(json_trees(items@) =~= Seq::new(
                chunk_diffs@.len(),
                |i: int| diff_json(chunk_diffs@[i]),
            ));
            let entries: Vec<(String, Value)> = vec![
                field("region_x", json_signed(*region_x as i64)),
                field("region_z", json_signed(*region_z as i64)),
                field("old_hash", json_text(hash_to_hex(old_hash))),
                field("new_hash", json_text(hash_to_hex(new_hash))),
                field("chunks", json_array(items)),
            ];
            proof {
                names_differ();
                assert(json_entries(entries@) =~= region_diff_json(diff@)->Object_0);
            }
            json_object(entries)
        },
    }
}

fn part_value(part: &Vec<RegionDiff>) -> (r: Value)
    ensures
        json_tree(r) == part_json(diff_models(part@)),
{
    let mut items: Vec<Value> = Vec::with_capacity(part.len());
    let mut i: usize = 0;
    while i < part.len()
        invariant
            i <= part@.len(),
            items@.len() == i,
            forall|j: int|
                0 <= j < i ==> json_tree(#[trigger] items@[j]) == region_diff_json(part@[j]@),
        decreases part@.len() - i,
    {
        items.push(region_diff_value(&part[i]));
        i += 1;
    }
    proof {
        let models = diff_models(part@);
        assert(json_trees(items@) =~= Seq::new(models.len(), |i: int| region_diff_json(models[i])));
    }
    json_array(items)
}

/// The report as a document.
pub fn json_report(result: &CompareResult) -> (r: Value)
    requires
        is_consistent(result@),
        all_changed_chunks(result@) <= usize::MAX,
    ensures
        json_tree(r) == report_json(result@),
{
    let details: Vec<(String, Value)> = vec![
        field("added", part_value(&result.added_regions)),
        field("removed", part_value(&result.removed_regions)),
        field("changed", part_value(&result.changed_regions)),
    ];
    let ghost inner = report_json(result@)->Object_0[4].1;
    proof {
        names_differ();
        assert(json_entries(details@) =~= inner->Object_0);
    }
    let entries: Vec<(String, Value)> = vec![
        field("added_regions", json_unsigned(result.added_region_count() as u64)),
        field("removed_regions", json_unsigned(result.removed_region_count() as u64)),
        field("changed_regions", json_unsigned(result.changed_region_count() as u64)),
        field("changed_chunks", json_unsigned(result.changed_chunk_count() as u64)),
        field("details", json_object(details)),
    ];
    assert(json_entries(entries@) =~= report_json(result@)->Object_0);
    json_object(entries)
}

/// The report as JSON text: there always is one.
pub fn format_json(result: &CompareResult) -> (r: Result<String, serde_json::Error>)
    requires
        is_consistent(result@),
        all_changed_chunks(result@) <= usize::MAX,
    ensures
        match r {
            Ok(s) => s@ == json_pretty(report_json(result@)),
            Err(_) => false,
        },
{
    json_to_string_pretty(&json_report(result))
}

} // verus!
