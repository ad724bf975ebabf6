//! Reports of a comparison as text, as JSON, and as a page with a map.
use vstd::prelude::*;
use vstd::string::StringExecFns;

use crate::compare::{
    all_changed_chunks, diff_models, ChunkDiff, CompareModel, CompareResult, RegionDiff, RegionDiffModel,
    RegionPart,
};
use crate::hash::{hash_to_hex, hex, Hash128};
pub use crate::html::format_html;
use crate::html::html_report;
use crate::json::json_pretty;
pub use crate::json_report::format_json;
use crate::json_report::{is_consistent, report_json};
use crate::text::{decimal, push_signed, push_unsigned};

verus! {

/// The form of a report.
#[derive(Clone, Copy, Debug, PartialEq, Eq, Structural)]
pub enum ReportFormat {
    Text,
    Json,
    Html,
}

// ---- text ----

/// A pair of coordinates.
pub open spec fn point(x: int, z: int) -> Seq<char> {
    "("@ + decimal(x) + ", "@ + decimal(z) + ")"@
}

/// A line with a label and a number.
pub open spec fn count_line(label: Seq<char>, n: nat) -> Seq<char> {
    label + decimal(n as int) + "\n"@
}

/// The counts at the top.
pub open spec fn text_head(c: CompareModel) -> Seq<char> {
    "========== 区块哈希比对报告 ==========\n"@ + count_line("新增 region: "@, c.added.len())
        + count_line("删除 region: "@, c.removed.len()) + count_line("变更 region: "@, c.changed.len())
        + count_line("变更 chunk 总数: "@, all_changed_chunks(c)) + "\n"@
}

/// One line for each of the first `n` chunks of a region that was added or removed.
pub open spec fn chunk_lines(mark: Seq<char>, chunks: Seq<(i64, i64, Hash128)>, n: nat) -> Seq<char>
    decreases n,
{
    if n == 0 || n > chunks.len() {
        Seq::empty()
    } else {
        chunk_lines(mark, chunks, (n - 1) as nat) + mark + point(
            chunks[n - 1].0 as int,
            chunks[n - 1].1 as int,
        ) + "\n"@
    }
}

/// A region that was added or removed, with its chunks.
pub open spec fn region_lines(
    label: Seq<char>,
    mark: Seq<char>,
    x: int,
    z: int,
    chunks: Seq<(i64, i64, Hash128)>,
) -> Seq<char> {
    label + point(x, z) + " —— 含 "@ + decimal(chunks.len() as int) + " 个 chunk\n"@ + chunk_lines(
        mark,
        chunks,
        chunks.len(),
    )
}

/// What happened to a chunk.
pub open spec fn diff_line(diff: ChunkDiff) -> Seq<char> {
    match diff {
        ChunkDiff::Added { x, z, new_hash } => "    + chunk "@ + point(x as int, z as int) + "  "@ + hex(
            new_hash@,
        ) + "\n"@,
        ChunkDiff::Removed { x, z, old_hash } => "    - chunk "@ + point(x as int, z as int) + "  "@
            + hex(old_hash@) + "\n"@,
        ChunkDiff::Changed { x, z, old_hash, new_hash } => "    ~ chunk "@ + point(x as int, z as int)
            + "\n        "@ + hex(old_hash@) + " -> "@ + hex(new_hash@) + "\n"@,
    }
}

/// What happened to the first `n` chunks.
pub open spec fn diff_lines(diffs: Seq<ChunkDiff>, n: nat) -> Seq<char>
    decreases n,
{
    if n == 0 || n > diffs.len() {
        Seq::empty()
    } else {
        diff_lines(diffs, (n - 1) as nat) + diff_line(diffs[n - 1])
    }
}

/// What is said of a region in a section. A region of another kind is passed over.
pub open spec fn region_text(section: RegionPart, diff: RegionDiffModel) -> Seq<char> {
    match (section, diff) {
        (RegionPart::Added, RegionDiffModel::Added { x, z, chunks }) => region_lines(
            "[新增 region] "@,
            "    + chunk "@,
            x as int,
            z as int,
            chunks,
        ),
        (RegionPart::Removed, RegionDiffModel::Removed { x, z, chunks }) => region_lines(
            "[删除 region] "@,
            "    - chunk "@,
            x as int,
            z as int,
            chunks,
        ),
        (RegionPart::Changed, RegionDiffModel::Changed { x, z, old_hash, new_hash, chunk_diffs }) => {
            "[变更 region] "@ + point(x as int, z as int) + "\n    old: "@ + hex(old_hash@)
                + "\n    new: "@ + hex(new_hash@) + "\n"@ + diff_lines(chunk_diffs, chunk_diffs.len())
        },
        _ => Seq::empty(),
    }
}

/// What is said of the first `n` regions in a section.
pub open spec fn section_text(section: RegionPart, diffs: Seq<RegionDiffModel>, n: nat) -> Seq<char>
    decreases n,
{
    if n == 0 || n > diffs.len() {
        Seq::empty()
    } else {
        section_text(section, diffs, (n - 1) as nat) + region_text(section, diffs[n - 1])
    }
}

/// The report as text.
pub open spec fn text_report(c: CompareModel) -> Seq<char> {
    if c.added.len() == 0 && c.removed.len() == 0 && c.changed.len() == 0 {
        text_head(c) + "无差异。\n"@
    } else {
        text_head(c) + section_text(RegionPart::Added, c.added, c.added.len()) + section_text(
            RegionPart::Removed,
            c.removed,
            c.removed.len(),
        ) + section_text(RegionPart::Changed, c.changed, c.changed.len())
    }
}

fn push_point(out: &mut String, x: i64, z: i64)
    ensures
        final(out)@ == old(out)@ + point(x as int, z as int),
{
    out.append("(");
    push_signed(out, x);
    out.append(", ");
    push_signed(out, z);
    out.append(")");
    assert(out@ =~= old(out)@ + point(x as int, z as int));
}

fn push_count_line(out: &mut String, label: &str, n: usize)
    ensures
        final(out)@ == old(out)@ + count_line(label@, n as nat),
{
    out.append(label);
    push_unsigned(out, n as u64);
    out.append("\n");
    assert(out@ =~= old(out)@ + count_line(label@, n as nat));
}

fn push_hash(out: &mut String, h: &Hash128)
    ensures
        final(out)@ == old(out)@ + hex(h@),
{
    out.append(hash_to_hex(h).as_str());
}

fn push_region_lines(
    out: &mut String,
    label: &str,
    mark: &str,
    x: i32,
    z: i32,
    chunks: &Vec<(i64, i64, Hash128)>,
)
    ensures
        final(out)@ == old(out)@ + region_lines(label@, mark@, x as int, z as int, chunks@),
{
    out.append(label);
    push_point(out, x as i64, z as i64);
    out.append(" —— 含 ");
    push_unsigned(out, chunks.len() as u64);
    out.append(" 个 chunk\n");
    let ghost head = out@;
    let mut i: usize = 0;
    assert(out@ =~= head + chunk_lines(mark@, chunks@, 0));
    while i < chunks.len()
        invariant
            i <= chunks@.len(),
            out@ == head + chunk_lines(mark@, chunks@, i as nat),
        decreases chunks@.len() - i,
    {
        out.append(mark);
        push_point(out, chunks[i].0, chunks[i].1);
        out.append("\n");
        i += 1;
        assert(out@ =~= head + chunk_lines(mark@, chunks@, i as nat));
    }
    assert(out@ =~= old(out)@ + region_lines(label@, mark@, x as int, z as int, chunks@));
}

fn push_diff_line(out: &mut String, diff: &ChunkDiff)
    ensures
        final(out)@ == old(out)@ + diff_line(*diff),
{
    match diff {
        ChunkDiff::Added { x, z, new_hash } => {
            out.append("    + chunk ");
            push_point(out, *x, *z);
            out.append("  ");
            push_hash(out, new_hash);
        },
        ChunkDiff::Removed { x, z, old_hash } => {
            out.append("    - chunk ");
            push_point(out, *x, *z);
            out.append("  ");
            push_hash(out, old_hash);
        },
        ChunkDiff::Changed { x, z, old_hash, new_hash } => {
            out.append("    ~ chunk ");
            push_point(out, *x, *z);
            out.append("\n        ");
            push_hash(out, old_hash);
            out.append(" -> ");
            push_hash(out, new_hash);
        },
    }
    out.append("\n");
    assert(out@ =~= old(out)@ + diff_line(*diff));
}

fn push_region(out: &mut String, section: RegionPart, diff: &RegionDiff)
    ensures
        final(out)@ == old(out)@ + region_text(section, diff@),
{
    match (section, diff) {
        (RegionPart::Added, RegionDiff::Added { region_x, region_z, chunks }) => {
            push_region_lines(out, "[新增 region] ", "    + chunk ", *region_x, *region_z, chunks);
        },
        (RegionPart::Removed, RegionDiff::Removed { region_x, region_z, chunks }) => {
            push_region_lines(out, "[删除 region] ", "    - chunk ", *region_x, *region_z, chunks);
        },
        (
            RegionPart::Changed,
            RegionDiff::Changed { region_x, region_z, old_hash, new_hash, chunk_diffs },
        ) => {
            out.append("[变更 region] ");
            push_point(out, *region_x as i64, *region_z as i64);
            out.append("\n    old: ");
            push_hash(out, old_hash);
            out.append("\n    new: ");
            push_hash(out, new_hash);
            out.append("\n");
            let ghost head = out@;
            let mut i: usize = 0;
            assert(out@ =~= head + diff_lines(chunk_diffs@, 0));
            while i < chunk_diffs.len()
                invariant
                    i <= chunk_diffs@.len(),
                    out@ == head + diff_lines(chunk_diffs@, i as nat),
                decreases chunk_diffs@.len() - i,
            {
                push_diff_line(out, &chunk_diffs[i]);
                i += 1;
                assert(out@ =~= head + diff_lines(chunk_diffs@, i as nat));
            }
        },
        _ => {},
    }
    assert(out@ =~= old(out)@ + region_text(section, diff@));
}

fn push_section(out: &mut String, section: RegionPart, diffs: &Vec<RegionDiff>)
    ensures
        final(out)@ == old(out)@ + section_text(section, diff_models(diffs@), diffs@.len()),
{
    let ghost models = diff_models(diffs@);
    let mut i: usize = 0;
    assert(out@ =~= old(out)@ + section_text(section, models, 0));
    while i < diffs.len()
        invariant
            i <= diffs@.len(),
            models == diff_models(diffs@),
            out@ == old(out)@ + section_text(section, models, i as nat),
        decreases diffs@.len() - i,
    {
        push_region(out, section, &diffs[i]);
        i += 1;
        assert(out@ =~= old(out)@ + section_text(section, models, i as nat));
    }
}

/// The report as text for people.
pub fn format_text(result: &CompareResult) -> (r: String)
    requires
        all_changed_chunks(result@) <= usize::MAX,
    ensures
        r@ == text_report(result@),
{
    let mut s = String::new();
    s.append("========== 区块哈希比对报告 ==========\n");
    push_count_line(&mut s, "新增 region: ", result.added_region_count());
    push_count_line(&mut s, "删除 region: ", result.removed_region_count());
    push_count_line(&mut s, "变更 region: ", result.changed_region_count());
    push_count_line(&mut s, "变更 chunk 总数: ", result.changed_chunk_count());
    s.append("\n");
    assert(s@ =~= text_head(result@));
    if result.added_region_count() == 0 && result.removed_region_count() == 0
        && result.changed_region_count() == 0 {
        s.append("无差异。\n");
        return s;
    }
    push_section(&mut s, RegionPart::Added, &result.added_regions);
    push_section(&mut s, RegionPart::Removed, &result.removed_regions);
    push_section(&mut s, RegionPart::Changed, &result.changed_regions);
    s
}

// ---- any form ----

/// Why a report cannot be written, with the serializer's error.
#[derive(Debug)]
pub enum ReportError {
    Json(serde_json::Error),
}

/// The report in the given form.
pub open spec fn report_in(format: ReportFormat, c: CompareModel) -> Seq<char> {
    match format {
        ReportFormat::Text => text_report(c),
        ReportFormat::Json => json_pretty(report_json(c)),
        ReportFormat::Html => html_report(c),
    }
}

/// Appends the report in the given form.
pub fn write_report(result: &CompareResult, format: ReportFormat, writer: &mut String) -> (r: Result<
    (),
    ReportError,
>)
    requires
        all_changed_chunks(result@) <= usize::MAX,
        format == ReportFormat::Json ==> is_consistent(result@),
    ensures
        r is Ok,
        final(writer)@ == old(writer)@ + report_in(format, result@),
{
    match format {
        ReportFormat::Text => {
            writer.append(format_text(result).as_str());
            Ok(())
        },
        ReportFormat::Json => match format_json(result) {
            Ok(s) => {
                writer.append(s.as_str());
                Ok(())
            },
            Err(e) => Err(ReportError::Json(e)),
        },
        ReportFormat::Html => {
            writer.append(format_html(result).as_str());
            Ok(())
        },
    }
}

} // verus!
