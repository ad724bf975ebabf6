use mc_chunk_hash::compare::{ChunkDiff, CompareResult, RegionDiff};
use mc_chunk_hash::html::{floor_mod32, html_page, html_template, page_content, PAGE_HEAD, PAGE_TAIL};
use mc_chunk_hash::json_report::{check_consistent, json_report};
use mc_chunk_hash::report::{format_html, format_json, format_text, write_report, ReportFormat};
use serde_json::Value;

fn sample_result() -> CompareResult {
    CompareResult {
        added_regions: vec![],
        removed_regions: vec![],
        changed_regions: vec![RegionDiff::Changed {
            region_x: 0,
            region_z: 0,
            old_hash: [1u8; 16],
            new_hash: [2u8; 16],
            chunk_diffs: vec![ChunkDiff::Changed { x: 3, z: 5, old_hash: [3u8; 16], new_hash: [4u8; 16] }],
        }],
    }
}

fn full_result() -> CompareResult {
    CompareResult {
        added_regions: vec![RegionDiff::Added {
            region_x: -1,
            region_z: 2,
            chunks: vec![(-32, 64, [0xAB; 16]), (-1, 95, [0xCD; 16])],
        }],
        removed_regions: vec![RegionDiff::Removed { region_x: 7, region_z: 8, chunks: vec![(224, 256, [0; 16])] }],
        changed_regions: vec![RegionDiff::Changed {
            region_x: 0,
            region_z: -1,
            old_hash: [0x11; 16],
            new_hash: [0x22; 16],
            chunk_diffs: vec![
                ChunkDiff::Added { x: 1, z: -2, new_hash: [0x33; 16] },
                ChunkDiff::Removed { x: 2, z: -3, old_hash: [0x44; 16] },
                ChunkDiff::Changed { x: 3, z: -4, old_hash: [0x55; 16], new_hash: [0x66; 16] },
            ],
        }],
    }
}

fn hex(b: &str) -> String {
    b.repeat(16)
}

#[test]
fn html_contains_data_json() {
    let html = format_html(&sample_result());
    assert!(html.contains("const DATA ="));
    assert!(html.contains("\"changed_regions\":1"));
    assert!(html.contains("<div class=\"grid\">"));
    assert!(html.contains("\"lx\":3"));
    assert!(html.contains("\"lz\":5"));
}

#[test]
fn html_empty_reports_no_diff() {
    let empty = CompareResult::default();
    let html = format_html(&empty);
    assert!(html.contains("\"regions\":[]"));
}

#[test]
fn floor_mod_handles_negative() {
    assert_eq!(floor_mod32(0), 0);
    assert_eq!(floor_mod32(31), 31);
    assert_eq!(floor_mod32(32), 0);
    assert_eq!(floor_mod32(-1), 31);
    assert_eq!(floor_mod32(-33), 31);
}

#[test]
fn floor_mod_at_the_ends() {
    assert_eq!(floor_mod32(i64::MIN), 0);
    assert_eq!(floor_mod32(i64::MAX), 31);
}

#[test]
fn text_without_differences() {
    assert_eq!(
        format_text(&CompareResult::default()),
        "========== 区块哈希比对报告 ==========\n新增 region: 0\n删除 region: 0\n变更 region: 0\n变更 chunk 总数: 0\n\n无差异。\n"
    );
}

#[test]
fn text_with_differences() {
    let mut expected = String::new();
    expected.push_str("========== 区块哈希比对报告 ==========\n");
    expected.push_str("新增 region: 1\n删除 region: 1\n变更 region: 1\n变更 chunk 总数: 6\n\n");
    expected.push_str("[新增 region] (-1, 2) —— 含 2 个 chunk\n");
    expected.push_str("    + chunk (-32, 64)\n    + chunk (-1, 95)\n");
    expected.push_str("[删除 region] (7, 8) —— 含 1 个 chunk\n");
    expected.push_str("    - chunk (224, 256)\n");
    expected.push_str(&format!("[变更 region] (0, -1)\n    old: {}\n    new: {}\n", hex("11"), hex("22")));
    expected.push_str(&format!("    + chunk (1, -2)  {}\n", hex("33")));
    expected.push_str(&format!("    - chunk (2, -3)  {}\n", hex("44")));
    expected.push_str(&format!("    ~ chunk (3, -4)\n        {} -> {}\n", hex("55"), hex("66")));
    assert_eq!(format_text(&full_result()), expected);
}

#[test]
fn text_of_numbers_at_the_ends() {
    let r = CompareResult {
        added_regions: vec![RegionDiff::Added {
            region_x: i32::MIN,
            region_z: i32::MAX,
            chunks: vec![(i64::MIN, i64::MAX, [0; 16])],
        }],
        removed_regions: vec![],
        changed_regions: vec![],
    };
    let text = format_text(&r);
    assert!(text.contains("(-2147483648, 2147483647)"));
    assert!(text.contains("(-9223372036854775808, 9223372036854775807)"));
}

#[test]
fn json_of_a_report() {
    let expected = format!(
        r#"{{
  "added_regions": 1,
  "removed_regions": 1,
  "changed_regions": 1,
  "changed_chunks": 6,
  "details": {{
    "added": [
      {{
        "region_x": -1,
        "region_z": 2,
        "chunk_count": 2,
        "chunks": [
          {{
            "x": -32,
            "z": 64
          }},
          {{
            "x": -1,
            "z": 95
          }}
        ]
      }}
    ],
    "removed": [
      {{
        "region_x": 7,
        "region_z": 8,
        "chunk_count": 1,
        "chunks": [
          {{
            "x": 224,
            "z": 256
          }}
        ]
      }}
    ],
    "changed": [
      {{
        "region_x": 0,
        "region_z": -1,
        "old_hash": "{}",
        "new_hash": "{}",
        "chunks": [
          {{
            "type": "added",
            "x": 1,
            "z": -2,
            "new_hash": "{}"
          }},
          {{
            "type": "removed",
            "x": 2,
            "z": -3,
            "old_hash": "{}"
          }},
          {{
            "type": "changed",
            "x": 3,
            "z": -4,
            "old_hash": "{}",
            "new_hash": "{}"
          }}
        ]
      }}
    ]
  }}
}}"#,
        hex("11"),
        hex("22"),
        hex("33"),
        hex("44"),
        hex("55"),
        hex("66")
    );
    assert_eq!(format_json(&full_result()).unwrap(), expected);
}

#[test]
fn json_without_differences() {
    let value = json_report(&CompareResult::default());
    assert_eq!(value["details"]["added"], Value::Array(vec![]));
    assert_eq!(value["changed_chunks"], Value::from(0u64));
}

#[test]
fn page_content_lists_all_regions() {
    let value = page_content(&full_result());
    let regions = value["regions"].as_array().unwrap();
    assert_eq!(regions.len(), 3);
    assert_eq!(regions[0]["kind"], Value::from("added"));
    assert_eq!(regions[0]["old_hash"], Value::Null);
    assert_eq!(regions[0]["chunks"][1]["lx"], Value::from(31));
    assert_eq!(regions[0]["chunks"][1]["lz"], Value::from(31));
    assert_eq!(regions[0]["chunks"][1]["new_hash"], Value::from(hex("cd")));
    assert_eq!(regions[0]["chunks"][1]["old_hash"], Value::Null);
    assert_eq!(regions[1]["kind"], Value::from("removed"));
    assert_eq!(regions[1]["chunks"][0]["old_hash"], Value::from(hex("00")));
    assert_eq!(regions[2]["old_hash"], Value::from(hex("11")));
    assert_eq!(regions[2]["chunks"][2]["kind"], Value::from("changed"));
    assert_eq!(regions[2]["chunks"][2]["lz"], Value::from(28));
    assert_eq!(
        serde_json::to_string(&regions[2]["chunks"][0]).unwrap(),
        format!(
            "{{\"kind\":\"added\",\"x\":1,\"z\":-2,\"lx\":1,\"lz\":30,\"old_hash\":null,\"new_hash\":\"{}\"}}",
            hex("33")
        )
    );
}

#[test]
fn page_frames_its_content() {
    assert_eq!(html_template("[]"), format!("{PAGE_HEAD}[]{PAGE_TAIL}"));
    assert_eq!(html_page(None), format!("{PAGE_HEAD}{{}}{PAGE_TAIL}"));
    assert_eq!(html_page(Some("1".to_string())), format!("{PAGE_HEAD}1{PAGE_TAIL}"));
    assert!(PAGE_HEAD.starts_with("<!DOCTYPE html>\n<html lang=\"zh\">"));
    assert!(PAGE_HEAD.ends_with("const DATA = "));
    assert!(PAGE_TAIL.starts_with(";\n\nfunction esc(s) { return"));
    assert!(PAGE_TAIL.ends_with("</html>"));
    let content = serde_json::to_string(&page_content(&full_result())).unwrap();
    assert_eq!(format_html(&full_result()), html_template(&content));
}

#[test]
fn reports_are_appended() {
    let r = full_result();
    let mut out = "> ".to_string();
    write_report(&r, ReportFormat::Text, &mut out).unwrap();
    assert_eq!(out, format!("> {}", format_text(&r)));
    let mut out = String::new();
    write_report(&r, ReportFormat::Json, &mut out).unwrap();
    assert_eq!(out, format_json(&r).unwrap());
    let mut out = String::new();
    write_report(&r, ReportFormat::Html, &mut out).unwrap();
    assert_eq!(out, format_html(&r));
}

#[test]
fn regions_of_another_kind_are_passed_over() {
    let mut r = full_result();
    assert!(check_consistent(&r));
    r.added_regions.push(r.removed_regions[0].clone());
    assert!(!check_consistent(&r));
    assert!(!format_text(&r).contains("+ chunk (224, 256)"));
    assert_eq!(page_content(&r)["regions"].as_array().unwrap().len(), 3);
    assert_eq!(r.changed_chunk_count(), 6);
}
