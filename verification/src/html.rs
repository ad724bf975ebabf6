//! The report as a page: the content of the report as JSON, inside a fixed frame that draws it.
use serde_json::Value;
use vstd::prelude::*;
use vstd::string::StringExecFns;

use crate::compare::{
    all_changed_chunks, diff_models, ChunkDiff, CompareModel, CompareResult, RegionDiff, RegionDiffModel, RegionPart,
};
use crate::hash::{hash_to_hex, hex, Hash128};
use crate::json::{
    field, json_array, json_compact, json_entries, json_null, json_object, json_signed, json_text, json_to_string,
    json_tree, json_trees, json_unsigned, Json,
};
use crate::json_report::names_differ;

verus! {

/// The page up to the report's content.
pub const PAGE_HEAD: &'static str = r#"<!DOCTYPE html>
<html lang="zh">
<head>
<meta charset="utf-8">
<meta name="viewport" content="width=device-width, initial-scale=1">
<title>mc-chunk-hash 区块比对报告</title>
<style>
  :root {
    --added: #2ecc71; --removed: #e74c3c; --changed: #f1c40f;
    --bg: #1e1e2e; --card: #2a2a40; --text: #e0e0e0; --muted: #888;
  }
  * { box-sizing: border-box; }
  body { margin: 0; font-family: -apple-system, "Segoe UI", "Microsoft YaHei", sans-serif;
         background: var(--bg); color: var(--text); padding: 24px; }
  h1 { font-size: 22px; margin: 0 0 4px; }
  .sub { color: var(--muted); font-size: 13px; margin-bottom: 16px; }
  .cards { display: flex; gap: 16px; flex-wrap: wrap; margin-bottom: 16px; }
  .card { background: var(--card); border-radius: 10px; padding: 16px 20px; min-width: 140px; }
  .card .num { font-size: 32px; font-weight: 700; }
  .card .label { color: var(--muted); font-size: 13px; }
  .card.added .num { color: var(--added); }
  .card.removed .num { color: var(--removed); }
  .card.changed .num { color: var(--changed); }

  /* 视图切换 */
  .viewbar { display: flex; gap: 8px; margin-bottom: 16px; }
  .viewbtn { background: #3a3a55; border: none; color: var(--text); padding: 8px 16px;
              border-radius: 8px; cursor: pointer; font-size: 13px; }
  .viewbtn.active { background: #6c5ce7; color: #fff; }

  .region { background: var(--card); border-radius: 10px; padding: 16px; margin-bottom: 16px; }
  .region h2 { font-size: 16px; margin: 0 0 10px; display:flex; align-items:center; gap:8px; }
  .badge { font-size: 11px; padding: 2px 8px; border-radius: 20px; color:#111; font-weight:600; }
  .badge.added { background: var(--added); }
  .badge.removed { background: var(--removed); }
  .badge.changed { background: var(--changed); }
  .grid { display: grid; grid-template-columns: repeat(32, 14px);
          grid-template-rows: repeat(32, 14px); gap: 1px; width: fit-content; }
  .cell { width: 14px; height: 14px; border-radius: 2px; background: #3a3a55;
           cursor: default; position: relative; }
  .cell.added { background: var(--added); }
  .cell.removed { background: var(--removed); }
  .cell.changed { background: var(--changed); }
  .cell:hover { outline: 2px solid #fff; z-index: 10; }
  .legend { display: flex; gap: 16px; margin: 12px 0; font-size: 12px; color: var(--muted); }
  .legend span { display: inline-flex; align-items: center; gap: 5px; }
  .swatch { width: 12px; height: 12px; border-radius: 3px; display: inline-block; }
  .detail { margin-top: 12px; font-size: 12px; color: var(--muted); display:none; }
  .detail table { border-collapse: collapse; width: 100%; max-width: 800px; }
  .detail th, .detail td { text-align: left; padding: 4px 8px; border-bottom: 1px solid #3a3a55; }
  .detail .mono { font-family: ui-monospace, Consolas, monospace; font-size: 11px; word-break: break-all; }
  .toggle { background: #3a3a55; border: none; color: var(--text); padding: 4px 12px;
            border-radius: 6px; cursor: pointer; font-size: 12px; margin-top: 8px; }
  .toggle:hover { background: #4a4a66; }
  .empty { color: var(--muted); padding: 30px; text-align:center; }

  /* 世界地图 */
  #mapwrap { position: relative; background: var(--card); border-radius: 10px; overflow: hidden; }
  #map { display: block; cursor: grab; }
  #map.dragging { cursor: grabbing; }
  #tooltip { position: fixed; background: #0d0d1a; border: 1px solid #444; border-radius: 6px;
              padding: 6px 10px; font-size: 12px; pointer-events: none; display: none; z-index: 1000;
              max-width: 320px; }
  #tooltip .mono { font-family: ui-monospace, Consolas, monospace; font-size: 11px; }
  .hint { color: var(--muted); font-size: 12px; margin: 8px 0; }
</style>
</head>
<body>
<h1>mc-chunk-hash 区块比对报告</h1>
<div class="sub">chunk 网格：每个小格代表一个 chunk，颜色表变化类型</div>

<div class="viewbar">
  <button class="viewbtn active" id="btn-regions" onclick="switchView('regions')">region 列表</button>
  <button class="viewbtn" id="btn-map" onclick="switchView('map')">世界大地图</button>
</div>

<div id="summary" class="cards"></div>

<div class="legend">
  <span><i class="swatch" style="background:#2ecc71"></i> 新增 chunk</span>
  <span><i class="swatch" style="background:#e74c3c"></i> 删除 chunk</span>
  <span><i class="swatch" style="background:#f1c40f"></i> 变更 chunk</span>
  <span><i class="swatch" style="background:#3a3a55"></i> 未变 chunk</span>
  <span><i class="swatch" style="background:#6c5ce7"></i> 整个 region 增/删</span>
</div>

<div id="view-regions">
  <div id="regions"></div>
</div>
<div id="view-map" style="display:none;">
  <div class="hint">滚轮缩放 · 拖拽平移 · 悬停查看 chunk 详情</div>
  <div id="mapwrap" style="width:100%; height:70vh; position:relative;">
    <canvas id="map"></canvas>
  </div>
</div>

<div id="tooltip"></div>

<script>
const DATA = "#;

/// The page behind the report's content.
pub const PAGE_TAIL: &'static str = r#";

function esc(s) { return String(s).replace(/[&<>"]/g, c => ({'&':'&amp;','<':'&lt;','>':'&gt;','"':'&quot;'}[c])); }

function switchView(v) {
  document.getElementById('view-regions').style.display = v === 'regions' ? 'block' : 'none';
  document.getElementById('view-map').style.display = v === 'map' ? 'block' : 'none';
  document.getElementById('btn-regions').classList.toggle('active', v === 'regions');
  document.getElementById('btn-map').classList.toggle('active', v === 'map');
  if (v === 'map') { initMap(); }
}

function renderSummary(d) {
  const cards = [
    {cls:'added', num:d.added_regions, label:'新增 region'},
    {cls:'removed', num:d.removed_regions, label:'删除 region'},
    {cls:'changed', num:d.changed_regions, label:'变更 region'},
    {cls:'changed', num:d.changed_chunks, label:'变更 chunk 总数'},
  ];
  document.getElementById('summary').innerHTML = cards.map(c =>
    `<div class="card ${c.cls}"><div class="num">${c.num}</div><div class="label">${c.label}</div></div>`
  ).join('');
}

function renderRegion(r) {
  let cells = new Array(1024).fill(null).map(() => '');
  const map = {};
  r.chunks.forEach(c => { map[c.lz * 32 + c.lx] = c; });

  let gridHtml = '<div class="grid">';
  for (let i = 0; i < 1024; i++) {
    const c = map[i];
    let cls = 'cell';
    let title = '';
    if (c) {
      cls += ' ' + c.kind;
      const world = `chunk (${c.x}, ${c.z})`;
      const oh = c.old_hash ? '\\nold: ' + c.old_hash : '';
      const nh = c.new_hash ? '\\nnew: ' + c.new_hash : '';
      title = `title="${esc(world + oh + nh)}"`;
    }
    gridHtml += `<div class="${cls}" ${title}></div>`;
  }
  gridHtml += '</div>';

  let detailHtml = '<table><tr><th>世界坐标</th><th>类型</th><th>旧哈希</th><th>新哈希</th></tr>';
  r.chunks.forEach(c => {
    const kindLabel = c.kind === 'added' ? '新增' : c.kind === 'removed' ? '删除' : '变更';
    detailHtml += `<tr><td>(${c.x}, ${c.z})</td><td>${kindLabel}</td>` +
      `<td class="mono">${c.old_hash || '—'}</td><td class="mono">${c.new_hash || '—'}</td></tr>`;
  });
  detailHtml += '</table>';

  const badge = `<span class="badge ${r.kind}">${r.kind === 'added' ? '新增' : r.kind === 'removed' ? '删除' : '变更'}</span>`;
  const hashInfo = r.old_hash && r.new_hash
    ? `<span style="font-size:11px;color:#888">${r.old_hash.slice(0,12)}… → ${r.new_hash.slice(0,12)}…</span>` : '';

  return `<div class="region">
    <h2>region (${r.region_x}, ${r.region_z}) ${badge} ${hashInfo}</h2>
    ${gridHtml}
    <button class="toggle" onclick="toggleDetail(this)">展开 chunk 明细 (${r.chunks.length})</button>
    <div class="detail">${detailHtml}</div>
  </div>`;
}

function toggleDetail(btn) {
  const d = btn.nextElementSibling;
  if (d.style.display === 'block') {
    d.style.display = 'none'; btn.textContent = btn.textContent.replace('收起', '展开');
  } else {
    d.style.display = 'block'; btn.textContent = btn.textContent.replace('展开', '收起');
  }
}

// ---------------- 世界大地图 ----------------
const COLORS = { added: '#2ecc71', removed: '#e74c3c', changed: '#f1c40f' };
let mapState = { scale: 1, ox: 0, oy: 0, chunks: [], minX: 0, maxX: 0, minZ: 0, maxZ: 0, inited: false };

function collectWorldChunks() {
  const byCoord = new Map();
  // 先用 region 级信息：新增/删除的 region，其所有 chunk 标记为该类型
  DATA.regions.forEach(r => {
    if (r.kind === 'added' || r.kind === 'removed') {
      r.chunks.forEach(c => byCoord.set(c.x + ',' + c.z, {
        x: c.x, z: c.z, kind: r.kind, regionX: r.region_x, regionZ: r.region_z,
        old_hash: c.old_hash, new_hash: c.new_hash
      }));
    }
  });
  // chunk 级信息覆盖（changed region 内的 chunk）
  DATA.regions.forEach(r => {
    if (r.kind === 'changed') {
      r.chunks.forEach(c => byCoord.set(c.x + ',' + c.z, {
        x: c.x, z: c.z, kind: c.kind, regionX: r.region_x, regionZ: r.region_z,
        old_hash: c.old_hash, new_hash: c.new_hash
      }));
    }
  });
  return Array.from(byCoord.values());
}

function initMap() {
  if (mapState.inited) return;
  mapState.inited = true;
  mapState.chunks = collectWorldChunks();

  if (mapState.chunks.length === 0) {
    document.getElementById('map').style.display = 'none';
    return;
  }

  let xs = mapState.chunks.map(c => c.x), zs = mapState.chunks.map(c => c.z);
  mapState.minX = Math.min(...xs); mapState.maxX = Math.max(...xs);
  mapState.minZ = Math.min(...zs); mapState.maxZ = Math.max(...zs);

  const canvas = document.getElementById('map');
  const wrap = document.getElementById('mapwrap');
  const w = wrap.clientWidth, h = wrap.clientHeight;

  // 初始缩放：让整个世界范围自适应画布，每个 chunk 至少 1px
  const worldW = mapState.maxX - mapState.minX + 1;
  const worldH = mapState.maxZ - mapState.minZ + 1;
  mapState.scale = Math.max(1, Math.min(w / worldW, h / worldH));
  mapState.ox = (w - worldW * mapState.scale) / 2 - mapState.minX * mapState.scale;
  mapState.oy = (h - worldH * mapState.scale) / 2 - mapState.minZ * mapState.scale;

  canvas.width = w; canvas.height = h;
  drawMap();

  // 交互：滚轮缩放 + 拖拽平移
  canvas.addEventListener('wheel', ev => {
    ev.preventDefault();
    const factor = ev.deltaY < 0 ? 1.2 : 1/1.2;
    const oldScale = mapState.scale;
    mapState.scale = Math.max(1, Math.min(60, mapState.scale * factor));
    const mx = ev.offsetX, my = ev.offsetY;
    mapState.ox = mx - (mx - mapState.ox) * (mapState.scale / oldScale);
    mapState.oy = my - (my - mapState.oy) * (mapState.scale / oldScale);
    drawMap();
  });

  let dragging = false, lastX = 0, lastY = 0;
  canvas.addEventListener('mousedown', ev => {
    dragging = true; lastX = ev.clientX; lastY = ev.clientY;
    canvas.classList.add('dragging');
  });
  window.addEventListener('mousemove', ev => {
    if (!dragging) { hoverChunk(ev); return; }
    mapState.ox += ev.clientX - lastX;
    mapState.oy += ev.clientY - lastY;
    lastX = ev.clientX; lastY = ev.clientY;
    drawMap();
  });
  window.addEventListener('mouseup', () => { dragging = false; canvas.classList.remove('dragging'); });
  canvas.addEventListener('mouseleave', () => { document.getElementById('tooltip').style.display = 'none'; });
}

function drawMap() {
  const canvas = document.getElementById('map');
  const ctx = canvas.getContext('2d');
  ctx.clearRect(0, 0, canvas.width, canvas.height);

  // 背景
  ctx.fillStyle = '#1e1e2e';
  ctx.fillRect(0, 0, canvas.width, canvas.height);

  const s = mapState.scale;
  const cell = Math.max(1, s);
  const drawGap = cell > 3;

  for (const c of mapState.chunks) {
    const px = c.x * s + mapState.ox;
    const py = c.z * s + mapState.oy;
    if (px < -cell || py < -cell || px > canvas.width || py > canvas.height) continue;
    ctx.fillStyle = COLORS[c.kind] || '#888';
    ctx.fillRect(px, py, drawGap ? cell - 1 : cell, drawGap ? cell - 1 : cell);
  }

  // region 边界虚线（在较大缩放时显示）
  if (s >= 4) {
    ctx.strokeStyle = 'rgba(120,120,180,0.35)';
    ctx.lineWidth = 1;
    for (let gx = mapState.minX; gx <= mapState.maxX; gx++) {
      if (gx % 32 === 0) {
        const x = gx * s + mapState.ox;
        ctx.beginPath(); ctx.moveTo(x, 0); ctx.lineTo(x, canvas.height); ctx.stroke();
      }
    }
    for (let gz = mapState.minZ; gz <= mapState.maxZ; gz++) {
      if (gz % 32 === 0) {
        const y = gz * s + mapState.oy;
        ctx.beginPath(); ctx.moveTo(0, y); ctx.lineTo(canvas.width, y); ctx.stroke();
      }
    }
  }
}

function hoverChunk(ev) {
  const canvas = document.getElementById('map');
  const rect = canvas.getBoundingClientRect();
  const mx = ev.clientX - rect.left, my = ev.clientY - rect.top;
  const s = mapState.scale;
  const cx = Math.floor((mx - mapState.ox) / s);
  const cz = Math.floor((my - mapState.oy) / s);
  const key = cx + ',' + cz;

  // 在 chunks 里找（小数据集直接线性查找，够用）
  const found = mapState.chunks.find(c => c.x === cx && c.z === cz);
  const tip = document.getElementById('tooltip');
  if (found && s >= 2) {
    const kindLabel = found.kind === 'added' ? '新增' : found.kind === 'removed' ? '删除' : '变更';
    tip.innerHTML =
      `<div style="font-weight:600;color:${COLORS[found.kind]}">${kindLabel} chunk (${found.x}, ${found.z})</div>` +
      `<div style="color:#888">region (${found.regionX}, ${found.regionZ})</div>` +
      (found.old_hash ? `<div class="mono">old: ${found.old_hash}</div>` : '') +
      (found.new_hash ? `<div class="mono">new: ${found.new_hash}</div>` : '');
    tip.style.display = 'block';
    tip.style.left = (ev.clientX + 12) + 'px';
    tip.style.top = (ev.clientY + 12) + 'px';
  } else {
    tip.style.display = 'none';
  }
}

function render() {
  renderSummary(DATA);
  if (DATA.regions.length === 0) {
    document.getElementById('regions').innerHTML = '<div class="empty">无差异。</div>';
    return;
  }
  document.getElementById('regions').innerHTML = DATA.regions.map(renderRegion).join('');
}

render();
</script>
</body>
</html>"#;

/// The page around the content `data_json`.
pub open spec fn page(data_json: Seq<char>) -> Seq<char> {
    PAGE_HEAD@ + data_json + PAGE_TAIL@
}

/// Puts the content into the page.
pub fn html_template(data_json: &str) -> (r: String)
    ensures
        r@ == page(data_json@),
{
    let mut out = PAGE_HEAD.to_owned();
    out.append(data_json);
    out.append(PAGE_TAIL);
    out
}

// ---- the content ----

/// The coordinate inside its region.
pub fn floor_mod32(v: i64) -> (r: i32)
    ensures
        r == v as int % 32,
        0 <= r < 32,
{
    let m: i64 = v % 32;
    if m < 0 {
        (m + 32) as i32
    } else {
        m as i32
    }
}

/// A hash in hexadecimal, or `null`.
pub open spec fn hash_json(h: Option<Hash128>) -> Json {
    match h {
        Some(hash) => Json::Text(hex(hash@)),
        None => Json::Null,
    }
}

/// A chunk: what happened to it, where it is in the world and in its region, and its hashes.
pub open spec fn chunk_entry(
    kind: Seq<char>,
    x: i64,
    z: i64,
    old_hash: Option<Hash128>,
    new_hash: Option<Hash128>,
) -> Json {
    Json::Object(
        seq![
            ("kind"@, Json::Text(kind)),
            ("x"@, Json::Number(x as int)),
            ("z"@, Json::Number(z as int)),
            ("lx"@, Json::Number(x as int % 32)),
            ("lz"@, Json::Number(z as int % 32)),
            ("old_hash"@, hash_json(old_hash)),
            ("new_hash"@, hash_json(new_hash)),
        ],
    )
}

/// What happened to a chunk.
pub open spec fn diff_entry(diff: ChunkDiff) -> Json {
    match diff {
        ChunkDiff::Added { x, z, new_hash } => chunk_entry("added"@, x, z, None, Some(new_hash)),
        ChunkDiff::Removed { x, z, old_hash } => chunk_entry("removed"@, x, z, Some(old_hash), None),
        ChunkDiff::Changed { x, z, old_hash, new_hash } => chunk_entry(
            "changed"@,
            x,
            z,
            Some(old_hash),
            Some(new_hash),
        ),
    }
}

/// A region: what happened to it, where it is, its hashes and its chunks.
pub open spec fn region_entry(
    kind: Seq<char>,
    x: i32,
    z: i32,
    old_hash: Option<Hash128>,
    new_hash: Option<Hash128>,
    chunks: Seq<Json>,
) -> Json {
    Json::Object(
        seq![
            ("kind"@, Json::Text(kind)),
            ("region_x"@, Json::Number(x as int)),
            ("region_z"@, Json::Number(z as int)),
            ("old_hash"@, hash_json(old_hash)),
            ("new_hash"@, hash_json(new_hash)),
            ("chunks"@, Json::Array(chunks)),
        ],
    )
}

/// What happened to a region, as its part tells. A region of another kind is passed over.
pub open spec fn diff_region(part: RegionPart, diff: RegionDiffModel) -> Option<Json> {
    match (part, diff) {
        (RegionPart::Added, RegionDiffModel::Added { x, z, chunks }) => Some(
            region_entry(
                "added"@,
                x,
                z,
                None,
                None,
                Seq::new(
                    chunks.len(),
                    |i: int|
                        chunk_entry("added"@, chunks[i].0, chunks[i].1, None, Some(chunks[i].2)),
                ),
            ),
        ),
        (RegionPart::Removed, RegionDiffModel::Removed { x, z, chunks }) => Some(
            region_entry(
                "removed"@,
                x,
                z,
                None,
                None,
                Seq::new(
                    chunks.len(),
                    |i: int|
                        chunk_entry("removed"@, chunks[i].0, chunks[i].1, Some(chunks[i].2), None),
                ),
            ),
        ),
        (RegionPart::Changed, RegionDiffModel::Changed { x, z, old_hash, new_hash, chunk_diffs }) => Some(
            region_entry(
                "changed"@,
                x,
                z,
                Some(old_hash),
                Some(new_hash),
                Seq::new(chunk_diffs.len(), |i: int| diff_entry(chunk_diffs[i])),
            ),
        ),
        _ => None,
    }
}

/// What happened to the regions of a part.
pub open spec fn part_regions(part: RegionPart, diffs: Seq<RegionDiffModel>) -> Seq<Json>
    decreases diffs.len(),
{
    if diffs.len() == 0 {
        Seq::empty()
    } else {
        let sofar = part_regions(part, diffs.drop_last());
        match diff_region(part, diffs.last()) {
            Some(region) => sofar.push(region),
            None => sofar,
        }
    }
}

/// The content of the page.
pub open spec fn page_json(c: CompareModel) -> Json {
    Json::Object(
        seq![
            ("added_regions"@, Json::Number(c.added.len() as int)),
            ("removed_regions"@, Json::Number(c.removed.len() as int)),
            ("changed_regions"@, Json::Number(c.changed.len() as int)),
            ("changed_chunks"@, Json::Number(all_changed_chunks(c) as int)),
            (
                "regions"@,
                Json::Array(
                    part_regions(RegionPart::Added, c.added) + part_regions(
                        RegionPart::Removed,
                        c.removed,
                    ) + part_regions(RegionPart::Changed, c.changed),
                ),
            ),
        ],
    )
}

/// The page of a report.
pub open spec fn html_report(c: CompareModel) -> Seq<char> {
    page(json_compact(page_json(c)))
}

fn hash_value(h: Option<&Hash128>) -> (r: Value)
    ensures
        json_tree(r) == hash_json(
            match h {
                Some(hash) => Some(*hash),
                None => None,
            },
        ),
{
    match h {
        Some(hash) => json_text(hash_to_hex(hash)),
        None => json_null(),
    }
}

fn chunk_entry_value(
    kind: &str,
    x: i64,
    z: i64,
    old_hash: Option<&Hash128>,
    new_hash: Option<&Hash128>,
) -> (r: Value)
    ensures
        json_tree(r) == chunk_entry(
            kind@,
            x,
            z,
            match old_hash {
                Some(hash) => Some(*hash),
                None => None,
            },
            match new_hash {
                Some(hash) => Some(*hash),
                None => None,
            },
        ),
{
    let entries: Vec<(String, Value)> = vec![
        field("kind", json_text(kind.to_owned())),
        field("x", json_signed(x)),
        field("z", json_signed(z)),
        field("lx", json_signed(floor_mod32(x) as i64)),
        field("lz", json_signed(floor_mod32(z) as i64)),
        field("old_hash", hash_value(old_hash)),
        field("new_hash", hash_value(new_hash)),
    ];
    let ghost olds = match old_hash {
        Some(hash) => Some(*hash),
        None => None,
    };
    let ghost news = match new_hash {
        Some(hash) => Some(*hash),
        None => None,
    };
    proof {
        names_differ();
        assert(json_entries(entries@) =~= chunk_entry(kind@, x, z, olds, news)->Object_0);
    }
    json_object(entries)
}

fn diff_entry_value(diff: &ChunkDiff) -> (r: Value)
    ensures
        json_tree(r) == diff_entry(*diff),
{
    match diff {
        ChunkDiff::Added { x, z, new_hash } => chunk_entry_value("added", *x, *z, None, Some(new_hash)),
        ChunkDiff::Removed { x, z, old_hash } => chunk_entry_value(
            "removed",
            *x,
            *z,
            Some(old_hash),
            None,
        ),
        ChunkDiff::Changed { x, z, old_hash, new_hash } => chunk_entry_value(
            "changed",
            *x,
            *z,
            Some(old_hash),
            Some(new_hash),
        ),
    }
}

fn region_entry_value(
    kind: &str,
    x: i32,
    z: i32,
    old_hash: Option<&Hash128>,
    new_hash: Option<&Hash128>,
    chunks: Vec<Value>,
) -> (r: Value)
    ensures
        json_tree(r) == region_entry(
            kind@,
            x,
            z,
            match old_hash {
                Some(hash) => Some(*hash),
                None => None,
            },
            match new_hash {
                Some(hash) => Some(*hash),
                None => None,
            },
            json_trees(chunks@),
        ),
{
    let ghost trees = json_trees(chunks@);
    let entries: Vec<(String, Value)> = vec![
        field("kind", json_text(kind.to_owned())),
        field("region_x", json_signed(x as i64)),
        field("region_z", json_signed(z as i64)),
        field("old_hash", hash_value(old_hash)),
        field("new_hash", hash_value(new_hash)),
        field("chunks", json_array(chunks)),
    ];
    let ghost olds = match old_hash {
        Some(hash) => Some(*hash),
        None => None,
    };
    let ghost news = match new_hash {
        Some(hash) => Some(*hash),
        None => None,
    };
    proof {
        names_differ();
        assert(json_entries(entries@) =~= region_entry(kind@, x, z, olds, news, trees)->Object_0);
    }
    json_object(entries)
}

/// The chunks of a region that was added or removed.
fn one_sided_chunks(chunks: &Vec<(i64, i64, Hash128)>, added: bool) -> (r: Vec<Value>)
    ensures
        json_trees(r@) == Seq::new(
            chunks@.len(),
            |i: int|
                if added {
                    chunk_entry("added"@, chunks@[i].0, chunks@[i].1, None, Some(chunks@[i].2))
                } else {
                    chunk_entry("removed"@, chunks@[i].0, chunks@[i].1, Some(chunks@[i].2), None)
                },
        ),
{
    let ghost expected = Seq::new(
        chunks@.len(),
        |i: int|
            if added {
                chunk_entry("added"@, chunks@[i].0, chunks@[i].1, None, Some(chunks@[i].2))
            } else {
                chunk_entry("removed"@, chunks@[i].0, chunks@[i].1, Some(chunks@[i].2), None)
            },
    );
    let mut out: Vec<Value> = Vec::with_capacity(chunks.len());
    let mut i: usize = 0;
    while i < chunks.len()
        invariant
            i <= chunks@.len(),
            out@.len() == i,
            expected == Seq::new(
                chunks@.len(),
                |i: int|
                    if added {
                        chunk_entry("added"@, chunks@[i].0, chunks@[i].1, None, Some(chunks@[i].2))
                    } else {
                        chunk_entry("removed"@, chunks@[i].0, chunks@[i].1, Some(chunks@[i].2), None)
                    },
            ),
            forall|j: int| 0 <= j < i ==> json_tree(#[trigger] out@[j]) == expected[j],
        decreases chunks@.len() - i,
    {
        let c = &chunks[i];
        out.push(
            if added {
                chunk_entry_value("added", c.0, c.1, None, Some(&c.2))
            } else {
                chunk_entry_value("removed", c.0, c.1, Some(&c.2), None)
            },
        );
        i += 1;
    }
    assert(json_trees(out@) =~= expected);
    out
}

fn diff_region_value(part: RegionPart, diff: &RegionDiff) -> (r: Option<Value>)
    ensures
        match r {
            Some(value) => diff_region(part, diff@) == Some(json_tree(value)),
            None => diff_region(part, diff@) is None,
        },
{
    match (part, diff) {
        (RegionPart::Added, RegionDiff::Added { region_x, region_z, chunks }) => {
            let items = one_sided_chunks(chunks, true);
            proof {
                let expected = Seq::new(
                    chunks@.len(),
                    |i: int| chunk_entry("added"@, chunks@[i].0, chunks@[i].1, None, Some(chunks@[i].2)),
                );
                assert(json_trees(items@) =~= expected);
            }
            Some(region_entry_value("added", *region_x, *region_z, None, None, items))
        },
        (RegionPart::Removed, RegionDiff::Removed { region_x, region_z, chunks }) => {
            let items = one_sided_chunks(chunks, false);
            proof {
                let expected = Seq::new(
                    chunks@.len(),
                    |i: int|
                        chunk_entry("removed"@, chunks@[i].0, chunks@[i].1, Some(chunks@[i].2), None),
                );
                assert(json_trees(items@) =~= expected);
            }
            Some(region_entry_value("removed", *region_x, *region_z, None, None, items))
        },
        (
            RegionPart::Changed,
            RegionDiff::Changed { region_x, region_z, old_hash, new_hash, chunk_diffs },
        ) => {
            let mut items: Vec<Value> = Vec::with_capacity(chunk_diffs.len());
            let mut i: usize = 0;
            while i < chunk_diffs.len()
                invariant
                    i <= chunk_diffs@.len(),
                    items@.len() == i,
                    forall|j: int|
                        0 <= j < i ==> json_tree(#[trigger] items@[j]) == diff_entry(chunk_diffs@[j]),
                decreases chunk_diffs@.len() - i,
            {
                items.push(diff_entry_value(&chunk_diffs[i]));
                i += 1;
            }
            assert(json_trees(items@) =~= Seq::new(
                chunk_diffs@.len(),
                |i: int| diff_entry(chunk_diffs@[i]),
            ));
            Some(
                region_entry_value(
                    "changed",
                    *region_x,
                    *region_z,
                    Some(old_hash),
                    Some(new_hash),
                    items,
                ),
            )
        },
        _ => None,
    }
}

fn push_part(out: &mut Vec<Value>, part: RegionPart, diffs: &Vec<RegionDiff>)
    ensures
        json_trees(final(out)@) == json_trees(old(out)@) + part_regions(part, diff_models(diffs@)),
{
    let ghost start = json_trees(out@);
    let ghost models = diff_models(diffs@);
    let mut i: usize = 0;
    assert(json_trees(out@) =~= start + part_regions(part, models.take(0)));
    while i < diffs.len()
        invariant
            i <= diffs@.len(),
            models == diff_models(diffs@),
            json_trees(out@) == start + part_regions(part, models.take(i as int)),
        decreases diffs@.len() - i,
    {
        let ghost before = json_trees(out@);
        assert(models.take(i + 1).drop_last() =~= models.take(i as int));
        if let Some(value) = diff_region_value(part, &diffs[i]) {
            out.push(value);
            assert(json_trees(out@) =~= before.push(json_tree(value)));
        }
        i += 1;
        assert(json_trees(out@) =~= start + part_regions(part, models.take(i as int)));
    }
    assert(models.take(i as int) =~= models);
}

/// The content of the page as a document.
pub fn page_content(result: &CompareResult) -> (r: Value)
    requires
        all_changed_chunks(result@) <= usize::MAX,
    ensures
        json_tree(r) == page_json(result@),
{
    let mut regions: Vec<Value> = Vec::new();
    assert(json_trees(regions@) =~= Seq::empty());
    push_part(&mut regions, RegionPart::Added, &result.added_regions);
    push_part(&mut regions, RegionPart::Removed, &result.removed_regions);
    push_part(&mut regions, RegionPart::Changed, &result.changed_regions);
    proof {
        let c = result@;
        assert(json_trees(regions@) =~= part_regions(RegionPart::Added, c.added) + part_regions(
            RegionPart::Removed,
            c.removed,
        ) + part_regions(RegionPart::Changed, c.changed));
    }
    let entries: Vec<(String, Value)> = vec![
        field("added_regions", json_unsigned(result.added_region_count() as u64)),
        field("removed_regions", json_unsigned(result.removed_region_count() as u64)),
        field("changed_regions", json_unsigned(result.changed_region_count() as u64)),
        field("changed_chunks", json_unsigned(result.changed_chunk_count() as u64)),
        field("regions", json_array(regions)),
    ];
    proof {
        names_differ();
        assert(json_entries(entries@) =~= page_json(result@)->Object_0);
    }
    json_object(entries)
}

/// The page around the written content, or around an empty object where there is none.
pub fn html_page(data_json: Option<String>) -> (r: String)
    ensures
        r@ == page(
            match data_json {
                Some(s) => s@,
                None => "{}"@,
            },
        ),
{
    match data_json {
        Some(s) => html_template(s.as_str()),
        None => html_template("{}"),
    }
}

/// The report as a page that needs nothing else. It always holds the report's content.
pub fn format_html(result: &CompareResult) -> (r: String)
    requires
        all_changed_chunks(result@) <= usize::MAX,
    ensures
        r@ == html_report(result@),
{
    match json_to_string(&page_content(result)) {
        Ok(s) => html_page(Some(s)),
        Err(_) => html_page(None),
    }
}

} // verus!
