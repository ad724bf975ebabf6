//! Laws of the reports: what each of them says of each region and of each chunk.
use vstd::prelude::*;

use crate::compare::{all_changed_chunks, ChunkDiff, CompareModel, RegionDiffModel, RegionPart};
use crate::hash::{hex, Hash128};
use crate::html::{diff_region, html_report, page, page_json, part_regions, PAGE_HEAD, PAGE_TAIL};
use crate::json::{json_compact, json_pretty, Json};
use crate::json_report::{region_diff_json, report_json};
use crate::report::{
    chunk_lines, diff_line, diff_lines, region_text, report_in, section_text, text_report, ReportFormat,
};
use crate::text::decimal;

verus! {

// ---- text ----

/// The counts stand at the top: of the regions added, removed and changed, and of all chunks.
/// Where there is no difference, the text says so; else it goes on with what was added, then
/// removed, then changed.
pub proof fn text_has_counts_and_parts(c: CompareModel)
    ensures
        ({
            let head = "========== 区块哈希比对报告 ==========\n"@ + "新增 region: "@ + decimal(c.added.len() as int)
                + "\n"@ + "删除 region: "@ + decimal(c.removed.len() as int) + "\n"@ + "变更 region: "@ + decimal(
                c.changed.len() as int,
            ) + "\n"@ + "变更 chunk 总数: "@ + decimal(all_changed_chunks(c) as int) + "\n"@ + "\n"@;
            text_report(c) == if c.added.len() + c.removed.len() + c.changed.len() == 0 {
                head + "无差异。\n"@
            } else {
                head + section_text(RegionPart::Added, c.added, c.added.len()) + section_text(
                    RegionPart::Removed,
                    c.removed,
                    c.removed.len(),
                ) + section_text(RegionPart::Changed, c.changed, c.changed.len())
            }
        }),
{
    let head = "========== 区块哈希比对报告 ==========\n"@ + "新增 region: "@ + decimal(c.added.len() as int) + "\n"@
        + "删除 region: "@ + decimal(c.removed.len() as int) + "\n"@ + "变更 region: "@ + decimal(
        c.changed.len() as int,
    ) + "\n"@ + "变更 chunk 总数: "@ + decimal(all_changed_chunks(c) as int) + "\n"@ + "\n"@;
    assert(crate::report::text_head(c) =~= head);
}

/// One region more in a part adds what is said of it at the end of the part, and changes nothing
/// before.
pub proof fn text_goes_on_region_by_region(part: RegionPart, diffs: Seq<RegionDiffModel>, d: RegionDiffModel)
    ensures
        section_text(part, Seq::empty(), 0) == Seq::<char>::empty(),
        section_text(part, diffs.push(d), diffs.len() + 1) == section_text(part, diffs, diffs.len()) + region_text(
            part,
            d,
        ),
{
    section_of_a_start(part, diffs, d, diffs.len());
}

proof fn section_of_a_start(part: RegionPart, diffs: Seq<RegionDiffModel>, d: RegionDiffModel, n: nat)
    requires
        n <= diffs.len(),
    ensures
        section_text(part, diffs.push(d), n) == section_text(part, diffs, n),
    decreases n,
{
    if n > 0 {
        section_of_a_start(part, diffs, d, (n - 1) as nat);
        assert(diffs.push(d)[n - 1] == diffs[n - 1]);
    }
}

/// What is said of a region: its coordinates, `x` first, and how many chunks it has, or its two
/// hashes, the old one first; then its chunks.
pub proof fn text_names_each_region(
    x: i32,
    z: i32,
    chunks: Seq<(i64, i64, Hash128)>,
    old_hash: Hash128,
    new_hash: Hash128,
    diffs: Seq<ChunkDiff>,
)
    ensures
        region_text(RegionPart::Added, RegionDiffModel::Added { x, z, chunks }) == "[新增 region] "@ + "("@ + decimal(
            x as int,
        ) + ", "@ + decimal(z as int) + ")"@ + " —— 含 "@ + decimal(chunks.len() as int) + " 个 chunk\n"@
            + chunk_lines("    + chunk "@, chunks, chunks.len()),
        region_text(RegionPart::Removed, RegionDiffModel::Removed { x, z, chunks }) == "[删除 region] "@ + "("@
            + decimal(x as int) + ", "@ + decimal(z as int) + ")"@ + " —— 含 "@ + decimal(chunks.len() as int)
            + " 个 chunk\n"@ + chunk_lines("    - chunk "@, chunks, chunks.len()),
        region_text(
            RegionPart::Changed,
            RegionDiffModel::Changed { x, z, old_hash, new_hash, chunk_diffs: diffs },
        ) == "[变更 region] "@ + "("@ + decimal(x as int) + ", "@ + decimal(z as int) + ")"@ + "\n    old: "@ + hex(
            old_hash@,
        ) + "\n    new: "@ + hex(new_hash@) + "\n"@ + diff_lines(diffs, diffs.len()),
{
    let at = "("@ + decimal(x as int) + ", "@ + decimal(z as int) + ")"@;
    let count = decimal(chunks.len() as int);
    assert("[新增 region] "@ + "("@ + decimal(x as int) + ", "@ + decimal(z as int) + ")"@ =~= "[新增 region] "@ + at);
    assert("[删除 region] "@ + "("@ + decimal(x as int) + ", "@ + decimal(z as int) + ")"@ =~= "[删除 region] "@ + at);
    assert("[变更 region] "@ + "("@ + decimal(x as int) + ", "@ + decimal(z as int) + ")"@ =~= "[变更 region] "@ + at);
}

/// A region that does not belong to a part is not said there.
pub proof fn text_keeps_to_its_part(part: RegionPart, d: RegionDiffModel)
    requires
        match part {
            RegionPart::Added => !(d is Added),
            RegionPart::Removed => !(d is Removed),
            RegionPart::Changed => !(d is Changed),
        },
    ensures
        region_text(part, d).len() == 0,
{
}

/// One chunk more of a region that one snapshot has adds a line with its coordinates, `x` first.
pub proof fn text_goes_on_chunk_by_chunk(
    mark: Seq<char>,
    chunks: Seq<(i64, i64, Hash128)>,
    x: i64,
    z: i64,
    hash: Hash128,
)
    ensures
        chunk_lines(mark, Seq::empty(), 0) == Seq::<char>::empty(),
        chunk_lines(mark, chunks.push((x, z, hash)), chunks.len() + 1) == chunk_lines(mark, chunks, chunks.len())
            + mark + "("@ + decimal(x as int) + ", "@ + decimal(z as int) + ")"@ + "\n"@,
{
    chunks_of_a_start(mark, chunks, (x, z, hash), chunks.len());
    let all = chunks.push((x, z, hash));
    assert(all[chunks.len() as int] == (x, z, hash));
    assert(chunk_lines(mark, all, chunks.len() + 1) =~= chunk_lines(mark, chunks, chunks.len()) + mark + "("@
        + decimal(x as int) + ", "@ + decimal(z as int) + ")"@ + "\n"@);
}

proof fn chunks_of_a_start(mark: Seq<char>, chunks: Seq<(i64, i64, Hash128)>, c: (i64, i64, Hash128), n: nat)
    requires
        n <= chunks.len(),
    ensures
        chunk_lines(mark, chunks.push(c), n) == chunk_lines(mark, chunks, n),
    decreases n,
{
    if n > 0 {
        chunks_of_a_start(mark, chunks, c, (n - 1) as nat);
        assert(chunks.push(c)[n - 1] == chunks[n - 1]);
    }
}

/// One difference more adds its line at the end.
pub proof fn text_goes_on_difference_by_difference(diffs: Seq<ChunkDiff>, d: ChunkDiff)
    ensures
        diff_lines(Seq::empty(), 0) == Seq::<char>::empty(),
        diff_lines(diffs.push(d), diffs.len() + 1) == diff_lines(diffs, diffs.len()) + diff_line(d),
{
    diffs_of_a_start(diffs, d, diffs.len());
    assert(diffs.push(d)[diffs.len() as int] == d);
}

proof fn diffs_of_a_start(diffs: Seq<ChunkDiff>, d: ChunkDiff, n: nat)
    requires
        n <= diffs.len(),
    ensures
        diff_lines(diffs.push(d), n) == diff_lines(diffs, n),
    decreases n,
{
    if n > 0 {
        diffs_of_a_start(diffs, d, (n - 1) as nat);
        assert(diffs.push(d)[n - 1] == diffs[n - 1]);
    }
}

/// The line of a difference: a mark of its kind, the coordinates, `x` first, and the hash that
/// there is, or the old one and the new one.
pub proof fn text_names_each_difference(x: i64, z: i64, old_hash: Hash128, new_hash: Hash128)
    ensures
        diff_line(ChunkDiff::Added { x, z, new_hash }) == "    + chunk "@ + "("@ + decimal(x as int) + ", "@ + decimal(
            z as int,
        ) + ")"@ + "  "@ + hex(new_hash@) + "\n"@,
        diff_line(ChunkDiff::Removed { x, z, old_hash }) == "    - chunk "@ + "("@ + decimal(x as int) + ", "@
            + decimal(z as int) + ")"@ + "  "@ + hex(old_hash@) + "\n"@,
        diff_line(ChunkDiff::Changed { x, z, old_hash, new_hash }) == "    ~ chunk "@ + "("@ + decimal(x as int)
            + ", "@ + decimal(z as int) + ")"@ + "\n        "@ + hex(old_hash@) + " -> "@ + hex(new_hash@) + "\n"@,
{
    let at = "("@ + decimal(x as int) + ", "@ + decimal(z as int) + ")"@;
    assert("    + chunk "@ + "("@ + decimal(x as int) + ", "@ + decimal(z as int) + ")"@ =~= "    + chunk "@ + at);
    assert("    - chunk "@ + "("@ + decimal(x as int) + ", "@ + decimal(z as int) + ")"@ =~= "    - chunk "@ + at);
    assert("    ~ chunk "@ + "("@ + decimal(x as int) + ", "@ + decimal(z as int) + ")"@ =~= "    ~ chunk "@ + at);
}

// ---- JSON ----

/// The document `j` is an object with `value` under `name`, as its entry `i`.
pub open spec fn holds(j: Json, i: int, name: Seq<char>, value: Json) -> bool {
    &&& j is Object
    &&& 0 <= i < j->Object_0.len()
    &&& j->Object_0[i].0 == name
    &&& j->Object_0[i].1 == value
}

/// The document has the four counts, and the regions of each part.
pub proof fn json_has_counts_and_parts(c: CompareModel) -> (details: Json)
    ensures
        report_json(c)->Object_0.len() == 5,
        holds(report_json(c), 0, "added_regions"@, Json::Number(c.added.len() as int)),
        holds(report_json(c), 1, "removed_regions"@, Json::Number(c.removed.len() as int)),
        holds(report_json(c), 2, "changed_regions"@, Json::Number(c.changed.len() as int)),
        holds(report_json(c), 3, "changed_chunks"@, Json::Number(all_changed_chunks(c) as int)),
        holds(report_json(c), 4, "details"@, details),
        details->Object_0.len() == 3,
        lists_regions(details, 0, "added"@, c.added),
        lists_regions(details, 1, "removed"@, c.removed),
        lists_regions(details, 2, "changed"@, c.changed),
{
    report_json(c)->Object_0[4].1
}

/// Entry `i` is a list with one item for each region.
pub open spec fn lists_regions(j: Json, i: int, name: Seq<char>, part: Seq<RegionDiffModel>) -> bool {
    &&& j is Object
    &&& 0 <= i < j->Object_0.len()
    &&& j->Object_0[i].0 == name
    &&& j->Object_0[i].1 is Array
    &&& j->Object_0[i].1->Array_0.len() == part.len()
    &&& forall|k: int|
        0 <= k < part.len() ==> #[trigger] j->Object_0[i].1->Array_0[k] == region_diff_json(part[k])
}

/// A region that one snapshot has: its coordinates, the number of its chunks, and of each chunk
/// its coordinates.
pub proof fn json_names_each_region_of_one_snapshot(d: RegionDiffModel, k: int)
    ensures
        d matches RegionDiffModel::Added { x, z, chunks } ==> json_names_chunks(
            region_diff_json(d),
            x,
            z,
            chunks,
            k,
        ),
        d matches RegionDiffModel::Removed { x, z, chunks } ==> json_names_chunks(
            region_diff_json(d),
            x,
            z,
            chunks,
            k,
        ),
{
}

/// What the document says of a region that one snapshot has, and of its chunk `k`.
pub open spec fn json_names_chunks(j: Json, x: i32, z: i32, chunks: Seq<(i64, i64, Hash128)>, k: int) -> bool {
    &&& j is Object
    &&& j->Object_0.len() == 4
    &&& holds(j, 0, "region_x"@, Json::Number(x as int))
    &&& holds(j, 1, "region_z"@, Json::Number(z as int))
    &&& holds(j, 2, "chunk_count"@, Json::Number(chunks.len() as int))
    &&& j->Object_0[3].0 == "chunks"@
    &&& j->Object_0[3].1 is Array
    &&& j->Object_0[3].1->Array_0.len() == chunks.len()
    &&& 0 <= k < chunks.len() ==> {
        let entry = j->Object_0[3].1->Array_0[k];
        &&& entry->Object_0.len() == 2
        &&& holds(entry, 0, "x"@, Json::Number(chunks[k].0 as int))
        &&& holds(entry, 1, "z"@, Json::Number(chunks[k].1 as int))
    }
}

/// A region that both have: its coordinates, its hashes, and of each chunk what happened to it,
/// its coordinates and the hashes that there are.
pub proof fn json_names_each_changed_region(
    x: i32,
    z: i32,
    old_hash: Hash128,
    new_hash: Hash128,
    chunk_diffs: Seq<ChunkDiff>,
    k: int,
)
    ensures
        ({
            let j = region_diff_json(RegionDiffModel::Changed { x, z, old_hash, new_hash, chunk_diffs });
            &&& j is Object
            &&& j->Object_0.len() == 5
            &&& holds(j, 0, "region_x"@, Json::Number(x as int))
            &&& holds(j, 1, "region_z"@, Json::Number(z as int))
            &&& holds(j, 2, "old_hash"@, Json::Text(hex(old_hash@)))
            &&& holds(j, 3, "new_hash"@, Json::Text(hex(new_hash@)))
            &&& j->Object_0[4].0 == "chunks"@
            &&& j->Object_0[4].1 is Array
            &&& j->Object_0[4].1->Array_0.len() == chunk_diffs.len()
            &&& 0 <= k < chunk_diffs.len() ==> json_tells(j->Object_0[4].1->Array_0[k], chunk_diffs[k])
        }),
{
}

/// What the document says of a difference.
pub open spec fn json_tells(j: Json, d: ChunkDiff) -> bool {
    match d {
        ChunkDiff::Added { x, z, new_hash } => {
            &&& j->Object_0.len() == 4
            &&& holds(j, 0, "type"@, Json::Text("added"@))
            &&& holds(j, 1, "x"@, Json::Number(x as int))
            &&& holds(j, 2, "z"@, Json::Number(z as int))
            &&& holds(j, 3, "new_hash"@, Json::Text(hex(new_hash@)))
        },
        ChunkDiff::Removed { x, z, old_hash } => {
            &&& j->Object_0.len() == 4
            &&& holds(j, 0, "type"@, Json::Text("removed"@))
            &&& holds(j, 1, "x"@, Json::Number(x as int))
            &&& holds(j, 2, "z"@, Json::Number(z as int))
            &&& holds(j, 3, "old_hash"@, Json::Text(hex(old_hash@)))
        },
        ChunkDiff::Changed { x, z, old_hash, new_hash } => {
            &&& j->Object_0.len() == 5
            &&& holds(j, 0, "type"@, Json::Text("changed"@))
            &&& holds(j, 1, "x"@, Json::Number(x as int))
            &&& holds(j, 2, "z"@, Json::Number(z as int))
            &&& holds(j, 3, "old_hash"@, Json::Text(hex(old_hash@)))
            &&& holds(j, 4, "new_hash"@, Json::Text(hex(new_hash@)))
        },
    }
}

// ---- the page ----

/// The page holds its content between a head and a tail that are always the same.
pub proof fn page_holds_its_content(content: Seq<char>)
    ensures
        page(content).len() == PAGE_HEAD@.len() + content.len() + PAGE_TAIL@.len(),
        page(content).take(PAGE_HEAD@.len() as int) == PAGE_HEAD@,
        page(content).subrange(PAGE_HEAD@.len() as int, (PAGE_HEAD@.len() + content.len()) as int) == content,
        page(content).skip((PAGE_HEAD@.len() + content.len()) as int) == PAGE_TAIL@,
{
    let all = page(content);
    assert(all.take(PAGE_HEAD@.len() as int) =~= PAGE_HEAD@);
    assert(all.subrange(PAGE_HEAD@.len() as int, (PAGE_HEAD@.len() + content.len()) as int) =~= content);
    assert(all.skip((PAGE_HEAD@.len() + content.len()) as int) =~= PAGE_TAIL@);
}

/// The content has the four counts, and one list of the regions: those added, then those removed,
/// then those changed. Each stands in the order of its part.
pub proof fn page_has_counts_and_regions(c: CompareModel, k: int) -> (regions: Seq<Json>)
    requires
        forall|i: int| 0 <= i < c.added.len() ==> (#[trigger] c.added[i]) is Added,
        forall|i: int| 0 <= i < c.removed.len() ==> (#[trigger] c.removed[i]) is Removed,
        forall|i: int| 0 <= i < c.changed.len() ==> (#[trigger] c.changed[i]) is Changed,
    ensures
        page_json(c)->Object_0.len() == 5,
        holds(page_json(c), 0, "added_regions"@, Json::Number(c.added.len() as int)),
        holds(page_json(c), 1, "removed_regions"@, Json::Number(c.removed.len() as int)),
        holds(page_json(c), 2, "changed_regions"@, Json::Number(c.changed.len() as int)),
        holds(page_json(c), 3, "changed_chunks"@, Json::Number(all_changed_chunks(c) as int)),
        holds(page_json(c), 4, "regions"@, Json::Array(regions)),
        regions.len() == c.added.len() + c.removed.len() + c.changed.len(),
        0 <= k < c.added.len() ==> Some(regions[k]) == diff_region(RegionPart::Added, c.added[k]),
        0 <= k < c.removed.len() ==> Some(regions[c.added.len() + k]) == diff_region(
            RegionPart::Removed,
            c.removed[k],
        ),
        0 <= k < c.changed.len() ==> Some(regions[c.added.len() + c.removed.len() + k]) == diff_region(
            RegionPart::Changed,
            c.changed[k],
        ),
{
    all_regions_of_a_part(RegionPart::Added, c.added, k);
    all_regions_of_a_part(RegionPart::Removed, c.removed, k);
    all_regions_of_a_part(RegionPart::Changed, c.changed, k);
    part_regions(RegionPart::Added, c.added) + part_regions(RegionPart::Removed, c.removed) + part_regions(
        RegionPart::Changed,
        c.changed,
    )
}

proof fn all_regions_of_a_part(part: RegionPart, diffs: Seq<RegionDiffModel>, k: int)
    requires
        forall|i: int|
            0 <= i < diffs.len() ==> match part {
                RegionPart::Added => (#[trigger] diffs[i]) is Added,
                RegionPart::Removed => diffs[i] is Removed,
                RegionPart::Changed => diffs[i] is Changed,
            },
    ensures
        part_regions(part, diffs).len() == diffs.len(),
        0 <= k < diffs.len() ==> Some(part_regions(part, diffs)[k]) == diff_region(part, diffs[k]),
    decreases diffs.len(),
{
    if diffs.len() > 0 {
        let rest = diffs.drop_last();
        assert forall|i: int| 0 <= i < rest.len() implies match part {
            RegionPart::Added => (#[trigger] rest[i]) is Added,
            RegionPart::Removed => rest[i] is Removed,
            RegionPart::Changed => rest[i] is Changed,
        } by {
            assert(rest[i] == diffs[i]);
        }
        all_regions_of_a_part(part, rest, k);
        assert(diffs[diffs.len() - 1] == diffs.last());
        assert(diff_region(part, diffs.last()) is Some);
    }
}

/// A region on the page: what happened to it, its coordinates, its hashes where both have it, and
/// as many chunks as it names.
pub open spec fn page_region(j: Json, kind: Seq<char>, x: i32, z: i32, old_hash: Json, new_hash: Json) -> bool {
    &&& j is Object
    &&& j->Object_0.len() == 6
    &&& holds(j, 0, "kind"@, Json::Text(kind))
    &&& holds(j, 1, "region_x"@, Json::Number(x as int))
    &&& holds(j, 2, "region_z"@, Json::Number(z as int))
    &&& holds(j, 3, "old_hash"@, old_hash)
    &&& holds(j, 4, "new_hash"@, new_hash)
    &&& j->Object_0[5].0 == "chunks"@
    &&& j->Object_0[5].1 is Array
}

/// A chunk on the page: what happened to it, its coordinates in the world and inside its region,
/// which are what is left on division by 32, and its hashes.
pub open spec fn page_chunk(j: Json, kind: Seq<char>, x: i64, z: i64, old_hash: Json, new_hash: Json) -> bool {
    &&& j is Object
    &&& j->Object_0.len() == 7
    &&& holds(j, 0, "kind"@, Json::Text(kind))
    &&& holds(j, 1, "x"@, Json::Number(x as int))
    &&& holds(j, 2, "z"@, Json::Number(z as int))
    &&& holds(j, 3, "lx"@, Json::Number(x as int % 32))
    &&& holds(j, 4, "lz"@, Json::Number(z as int % 32))
    &&& holds(j, 5, "old_hash"@, old_hash)
    &&& holds(j, 6, "new_hash"@, new_hash)
}

/// What the page says of a region that one snapshot has, and of its chunks.
pub proof fn page_names_each_region_of_one_snapshot(x: i32, z: i32, chunks: Seq<(i64, i64, Hash128)>, k: int)
    ensures
        ({
            let j = diff_region(RegionPart::Added, RegionDiffModel::Added { x, z, chunks });
            &&& j is Some
            &&& page_region(j->Some_0, "added"@, x, z, Json::Null, Json::Null)
            &&& j->Some_0->Object_0[5].1->Array_0.len() == chunks.len()
            &&& 0 <= k < chunks.len() ==> page_chunk(
                j->Some_0->Object_0[5].1->Array_0[k],
                "added"@,
                chunks[k].0,
                chunks[k].1,
                Json::Null,
                Json::Text(hex(chunks[k].2@)),
            )
        }),
        ({
            let j = diff_region(RegionPart::Removed, RegionDiffModel::Removed { x, z, chunks });
            &&& j is Some
            &&& page_region(j->Some_0, "removed"@, x, z, Json::Null, Json::Null)
            &&& j->Some_0->Object_0[5].1->Array_0.len() == chunks.len()
            &&& 0 <= k < chunks.len() ==> page_chunk(
                j->Some_0->Object_0[5].1->Array_0[k],
                "removed"@,
                chunks[k].0,
                chunks[k].1,
                Json::Text(hex(chunks[k].2@)),
                Json::Null,
            )
        }),
{
}

/// What the page says of a region that both have, and of its chunks.
pub proof fn page_names_each_changed_region(
    x: i32,
    z: i32,
    old_hash: Hash128,
    new_hash: Hash128,
    chunk_diffs: Seq<ChunkDiff>,
    k: int,
)
    ensures
        ({
            let j = diff_region(
                RegionPart::Changed,
                RegionDiffModel::Changed { x, z, old_hash, new_hash, chunk_diffs },
            );
            &&& j is Some
            &&& page_region(j->Some_0, "changed"@, x, z, Json::Text(hex(old_hash@)), Json::Text(hex(new_hash@)))
            &&& j->Some_0->Object_0[5].1->Array_0.len() == chunk_diffs.len()
            &&& 0 <= k < chunk_diffs.len() ==> {
                let entry = j->Some_0->Object_0[5].1->Array_0[k];
                match chunk_diffs[k] {
                    ChunkDiff::Added { x, z, new_hash } => page_chunk(
                        entry,
                        "added"@,
                        x,
                        z,
                        Json::Null,
                        Json::Text(hex(new_hash@)),
                    ),
                    ChunkDiff::Removed { x, z, old_hash } => page_chunk(
                        entry,
                        "removed"@,
                        x,
                        z,
                        Json::Text(hex(old_hash@)),
                        Json::Null,
                    ),
                    ChunkDiff::Changed { x, z, old_hash, new_hash } => page_chunk(
                        entry,
                        "changed"@,
                        x,
                        z,
                        Json::Text(hex(old_hash@)),
                        Json::Text(hex(new_hash@)),
                    ),
                }
            }
        }),
{
}

/// A region that does not belong to a part is left out of it: it changes nothing on the page.
pub proof fn page_keeps_to_its_parts(part: RegionPart, diffs: Seq<RegionDiffModel>, d: RegionDiffModel)
    requires
        match part {
            RegionPart::Added => !(d is Added),
            RegionPart::Removed => !(d is Removed),
            RegionPart::Changed => !(d is Changed),
        },
    ensures
        part_regions(part, diffs.push(d)) == part_regions(part, diffs),
{
    assert(diffs.push(d).drop_last() =~= diffs);
}

/// Each form of a report is its own: text, the indented document, or the page around the document
/// on one line.
pub proof fn forms_of_a_report(c: CompareModel)
    ensures
        report_in(ReportFormat::Text, c) == text_report(c),
        report_in(ReportFormat::Json, c) == json_pretty(report_json(c)),
        report_in(ReportFormat::Html, c) == PAGE_HEAD@ + json_compact(page_json(c)) + PAGE_TAIL@,
        html_report(c) == PAGE_HEAD@ + json_compact(page_json(c)) + PAGE_TAIL@,
{
}

} // verus!
