use mc_chunk_hash::archive::{place_chunks, ArchiveError};
use mc_chunk_hash::blockhash::HashMode;
use mc_chunk_hash::cli::{
    hash_mode_from_arg, report_format_from_arg, worker_count, ArchiveFormatArg, HashModeArg, ReportFormatArg,
};
use mc_chunk_hash::compare::compare;
use mc_chunk_hash::hash::{hash_chunk, hash_region_from_chunk_hashes};
use mc_chunk_hash::html::floor_mod32;
use mc_chunk_hash::report::ReportFormat;
use mc_chunk_hash::scan::{build_snapshot, gather_snapshot, needs_name, process_region_file, region_externals, region_to_hash, total_chunks};
use mc_chunk_hash::snapshot::{ChunkHash, RegionHash, SNAPSHOT_VERSION};
use mc_chunk_hash::util::LINEAR_V2_MAGIC;

fn region(x: i32, z: i32, h: u8) -> RegionHash {
    RegionHash { region_x: x, region_z: z, hash: [h; 16], chunks: vec![ChunkHash { x: 0, z: 0, hash: [h; 16] }] }
}

#[test]
fn region_hashes_of_a_region() {
    let mut raws = vec![Vec::new(); 1024];
    raws[3] = b"three".to_vec();
    raws[700] = b"more".to_vec();
    let parsed = place_chunks(1, 2, raws);
    let h = region_to_hash(&parsed, HashMode::Raw);
    assert_eq!((h.region_x, h.region_z), (1, 2));
    assert_eq!(
        h.chunks,
        vec![
            ChunkHash { x: 35, z: 64, hash: hash_chunk(b"three") },
            ChunkHash { x: 32 + 28, z: 64 + 21, hash: hash_chunk(b"more") },
        ]
    );
    let mut all = vec![[0u8; 16]; 1024];
    all[3] = hash_chunk(b"three");
    all[700] = hash_chunk(b"more");
    assert_eq!(h.hash, hash_region_from_chunk_hashes(&all));
}

#[test]
fn regions_are_sorted_and_keep_their_order() {
    let regions = vec![region(2, 0, 1), region(-1, 5, 2), region(2, -3, 3), region(-1, 5, 4), region(-1, 4, 5)];
    let snap = build_snapshot(regions);
    assert_eq!(snap.version, SNAPSHOT_VERSION);
    let order: Vec<_> = snap.regions.iter().map(|r| (r.region_x, r.region_z, r.hash[0])).collect();
    assert_eq!(order, vec![(-1, 4, 5), (-1, 5, 2), (-1, 5, 4), (2, -3, 3), (2, 0, 1)]);
    assert_eq!(total_chunks(&snap), Some(5));
}

#[test]
fn reading_order_does_not_matter() {
    let a = build_snapshot(vec![region(0, 0, 1), region(1, 1, 2), region(0, 1, 3)]);
    let b = build_snapshot(vec![region(1, 1, 2), region(0, 1, 3), region(0, 0, 1)]);
    let list = |s: &mc_chunk_hash::snapshot::Snapshot| {
        s.regions.iter().map(|r| (r.region_x, r.region_z, r.hash)).collect::<Vec<_>>()
    };
    assert_eq!(list(&a), list(&b));
    let r = compare(&a, &b);
    assert_eq!(r.added_region_count() + r.removed_region_count() + r.changed_region_count(), 0);
}

#[test]
fn files_are_read_as_told() {
    let mut file = vec![0u8; 8192];
    file[..8].copy_from_slice(&LINEAR_V2_MAGIC);
    file[8] = 1;
    let name = "r.0.0.mca";
    let auto = process_region_file(name, &file, &[], None, HashMode::Raw);
    assert!(matches!(auto, Err(ArchiveError::LinearV1)));
    let auto = process_region_file(name, &file, &[], Some(ArchiveFormatArg::Auto), HashMode::Raw);
    assert!(matches!(auto, Err(ArchiveError::LinearV1)));
    let forced = process_region_file(name, &file, &[], Some(ArchiveFormatArg::Anvil), HashMode::Raw);
    assert!(matches!(forced, Err(ArchiveError::Truncated)));
    let forced = process_region_file(name, &file, &[], Some(ArchiveFormatArg::LinearV2), HashMode::Raw);
    assert!(matches!(forced, Err(ArchiveError::GridSize(0))));
    let forced = process_region_file(name, &file, &[], Some(ArchiveFormatArg::BLinearV3), HashMode::Raw);
    assert!(matches!(forced, Err(ArchiveError::BLinearVersion(1))));
    let empty = process_region_file(name, &[0; 8192], &[], None, HashMode::Blocks).unwrap();
    assert!(empty.chunks.is_empty());
    assert_eq!(empty.hash, hash_region_from_chunk_hashes(&[[0u8; 16]; 1024]));
}

#[test]
fn externals_are_asked_of_anvil_files_only() {
    let mut file = vec![0u8; 8192 + 4096];
    file[2] = 2;
    file[3] = 1;
    file[8192 + 4] = 130;
    assert_eq!(region_externals("r.0.1.mca", &file, None), vec![(0, 32)]);
    assert_eq!(region_externals("r.0.1.mca", &file, Some(ArchiveFormatArg::Anvil)), vec![(0, 32)]);
    assert!(region_externals("r.0.1.mca", &file, Some(ArchiveFormatArg::LinearV2)).is_empty());
    file[..8].copy_from_slice(&LINEAR_V2_MAGIC);
    file[8] = 3;
    assert!(region_externals("r.0.1.mca", &file, None).is_empty());
}

#[test]
fn arguments() {
    assert_eq!(hash_mode_from_arg(HashModeArg::Raw), HashMode::Raw);
    assert_eq!(hash_mode_from_arg(HashModeArg::Blocks), HashMode::Blocks);
    assert_eq!(hash_mode_from_arg(HashModeArg::BlocksEntities), HashMode::BlocksAndEntities);
    assert_eq!(report_format_from_arg(ReportFormatArg::Text), ReportFormat::Text);
    assert_eq!(report_format_from_arg(ReportFormatArg::Json), ReportFormat::Json);
    assert_eq!(report_format_from_arg(ReportFormatArg::Html), ReportFormat::Html);
    assert_eq!(worker_count(Some(0), 8), 1);
    assert_eq!(worker_count(Some(3), 8), 3);
    assert_eq!(worker_count(None, 8), 8);
    assert_eq!(worker_count(None, 0), 1);
}

#[test]
fn names_are_needed_where_the_file_has_no_coordinates() {
    let mut linear = LINEAR_V2_MAGIC.to_vec();
    linear.push(3);
    assert!(needs_name(&[0; 10], None));
    assert!(needs_name(&linear, Some(ArchiveFormatArg::Anvil)));
    assert!(needs_name(&linear, Some(ArchiveFormatArg::BLinearV3)));
    assert!(!needs_name(&linear, None));
    assert!(!needs_name(&[0; 10], Some(ArchiveFormatArg::LinearV2)));
}

#[test]
fn same_slots_give_the_same_hashes() {
    let make = || {
        let mut raws = vec![Vec::new(); 1024];
        raws[9] = vec![1, 2, 3];
        raws[10] = vec![4];
        place_chunks(-1, 0, raws)
    };
    let (a, b) = (region_to_hash(&make(), HashMode::Blocks), region_to_hash(&make(), HashMode::Blocks));
    assert_eq!((a.hash, a.chunks.clone()), (b.hash, b.chunks));
    assert!((a.chunks[0].z, a.chunks[0].x) < (a.chunks[1].z, a.chunks[1].x));
}

#[test]
fn local_places_are_slots() {
    let r = place_chunks(-3, 5, vec![Vec::new(); 1024]);
    for (i, c) in r.chunks.iter().enumerate() {
        assert_eq!((floor_mod32(c.z) * 32 + floor_mod32(c.x)) as usize, i);
    }
}

#[test]
fn files_that_fail_are_left_out() {
    let outcomes = vec![
        Err("first".to_string()),
        Ok(region(1, 0, 1)),
        Err("second".to_string()),
        Ok(region(0, 0, 2)),
    ];
    let (snap, faults) = gather_snapshot(outcomes);
    assert_eq!(faults, vec!["first", "second"]);
    assert_eq!(snap.version, SNAPSHOT_VERSION);
    let order: Vec<_> = snap.regions.iter().map(|r| (r.region_x, r.region_z, r.hash[0])).collect();
    assert_eq!(order, vec![(0, 0, 2), (1, 0, 1)]);
    let (snap, faults) = gather_snapshot(vec![Err::<RegionHash, u8>(7)]);
    assert!(snap.regions.is_empty());
    assert_eq!(faults, vec![7]);
}
