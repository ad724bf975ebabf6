use std::collections::BTreeMap;

use mc_chunk_hash::compare::{compare, ChunkDiff, CompareResult, RegionDiff};
use mc_chunk_hash::json_report::check_consistent;
use mc_chunk_hash::snapshot::{ChunkHash, RegionHash, Snapshot};

fn chunk(x: i64, z: i64, h: u8) -> ChunkHash {
    ChunkHash { x, z, hash: [h; 16] }
}

fn region(x: i32, z: i32, h: u8, chunks: Vec<ChunkHash>) -> RegionHash {
    RegionHash { region_x: x, region_z: z, hash: [h; 16], chunks }
}

fn coords(d: &RegionDiff) -> (i32, i32) {
    match d {
        RegionDiff::Added { region_x, region_z, .. } => (*region_x, *region_z),
        RegionDiff::Removed { region_x, region_z, .. } => (*region_x, *region_z),
        RegionDiff::Changed { region_x, region_z, .. } => (*region_x, *region_z),
    }
}

#[test]
fn same_snapshot_has_no_difference() {
    let s = Snapshot::new(vec![region(0, 0, 1, vec![chunk(0, 0, 1)]), region(1, 0, 2, vec![])]);
    let r = compare(&s, &s);
    assert_eq!((r.added_region_count(), r.removed_region_count(), r.changed_region_count()), (0, 0, 0));
    assert_eq!(r.changed_chunk_count(), 0);
}

#[test]
fn regions_are_sorted_and_told_apart() {
    let old = Snapshot::new(vec![
        region(5, 0, 1, vec![chunk(1, 1, 1)]),
        region(0, 0, 1, vec![]),
        region(-1, 2, 1, vec![]),
    ]);
    let new = Snapshot::new(vec![
        region(3, -2, 1, vec![chunk(9, 9, 9), chunk(8, 8, 8)]),
        region(0, 0, 1, vec![chunk(4, 4, 4)]),
        region(-4, 0, 1, vec![]),
        region(3, -7, 1, vec![]),
    ]);
    let r = compare(&old, &new);
    let added: Vec<_> = r.added_regions.iter().map(coords).collect();
    let removed: Vec<_> = r.removed_regions.iter().map(coords).collect();
    assert_eq!(added, vec![(-4, 0), (3, -7), (3, -2)]);
    assert_eq!(removed, vec![(-1, 2), (5, 0)]);
    assert_eq!(r.changed_region_count(), 0);
    assert_eq!(r.changed_chunk_count(), 3);
    match &r.added_regions[2] {
        RegionDiff::Added { chunks, .. } => {
            assert_eq!(chunks, &vec![(9, 9, [9u8; 16]), (8, 8, [8u8; 16])])
        }
        _ => panic!("an added region"),
    }
}

#[test]
fn changed_region_names_its_chunks() {
    let old = Snapshot::new(vec![region(
        0,
        0,
        1,
        vec![chunk(5, 5, 1), chunk(1, 0, 1), chunk(2, 0, 1), chunk(0, 9, 1)],
    )]);
    let new = Snapshot::new(vec![region(
        0,
        0,
        2,
        vec![chunk(2, 0, 1), chunk(1, 0, 7), chunk(7, 7, 3), chunk(6, 7, 3)],
    )]);
    let r = compare(&old, &new);
    assert_eq!(r.changed_region_count(), 1);
    match &r.changed_regions[0] {
        RegionDiff::Changed { old_hash, new_hash, chunk_diffs, .. } => {
            assert_eq!((*old_hash, *new_hash), ([1u8; 16], [2u8; 16]));
            assert_eq!(
                chunk_diffs,
                &vec![
                    ChunkDiff::Added { x: 6, z: 7, new_hash: [3; 16] },
                    ChunkDiff::Added { x: 7, z: 7, new_hash: [3; 16] },
                    ChunkDiff::Removed { x: 0, z: 9, old_hash: [1; 16] },
                    ChunkDiff::Removed { x: 5, z: 5, old_hash: [1; 16] },
                    ChunkDiff::Changed { x: 1, z: 0, old_hash: [1; 16], new_hash: [7; 16] },
                ]
            );
        }
        _ => panic!("a changed region"),
    }
    assert_eq!(r.changed_chunk_count(), 5);
    assert_eq!(r.checked_chunk_count(), Some(5));
}

#[test]
fn equal_region_hash_passes_over_its_chunks() {
    let old = Snapshot::new(vec![region(0, 0, 1, vec![chunk(0, 0, 1)])]);
    let new = Snapshot::new(vec![region(0, 0, 1, vec![chunk(0, 0, 2)])]);
    let r = compare(&old, &new);
    assert_eq!(r.changed_region_count(), 0);
    assert_eq!(r.changed_chunk_count(), 0);
}

#[test]
fn changed_region_without_chunk_differences() {
    let old = Snapshot::new(vec![region(0, 0, 1, vec![chunk(0, 0, 1)])]);
    let new = Snapshot::new(vec![region(0, 0, 2, vec![chunk(0, 0, 1)])]);
    let r = compare(&old, &new);
    assert_eq!(r.changed_region_count(), 1);
    assert_eq!(r.changed_chunk_count(), 0);
}

#[test]
fn the_last_of_several_counts() {
    let old = Snapshot::new(vec![region(0, 0, 1, vec![]), region(0, 0, 2, vec![])]);
    let new = Snapshot::new(vec![region(0, 0, 2, vec![])]);
    let r = compare(&old, &new);
    assert_eq!((r.added_region_count(), r.removed_region_count(), r.changed_region_count()), (0, 0, 0));
    let new = Snapshot::new(vec![region(0, 0, 3, vec![chunk(1, 1, 1), chunk(1, 1, 2)])]);
    match &compare(&old, &new).changed_regions[0] {
        RegionDiff::Changed { old_hash, chunk_diffs, .. } => {
            assert_eq!(*old_hash, [2u8; 16]);
            assert_eq!(chunk_diffs, &vec![ChunkDiff::Added { x: 1, z: 1, new_hash: [2; 16] }]);
        }
        _ => panic!("a changed region"),
    }
}

#[test]
fn comparing_the_other_way_round_mirrors() {
    let a = Snapshot::new(vec![
        region(0, 0, 1, vec![chunk(0, 0, 1), chunk(1, 0, 1), chunk(2, 0, 1)]),
        region(7, 7, 1, vec![chunk(3, 3, 3)]),
    ]);
    let b = Snapshot::new(vec![region(0, 0, 2, vec![chunk(1, 0, 9), chunk(2, 0, 1), chunk(4, 0, 1)])]);
    let forth = compare(&a, &b);
    let back = compare(&b, &a);
    assert_eq!(forth.removed_region_count(), back.added_region_count());
    assert_eq!(forth.changed_chunk_count(), back.changed_chunk_count());
    match &back.changed_regions[0] {
        RegionDiff::Changed { chunk_diffs, .. } => assert_eq!(
            chunk_diffs,
            &vec![
                ChunkDiff::Added { x: 0, z: 0, new_hash: [1; 16] },
                ChunkDiff::Removed { x: 4, z: 0, old_hash: [1; 16] },
                ChunkDiff::Changed { x: 1, z: 0, old_hash: [9; 16], new_hash: [1; 16] },
            ]
        ),
        _ => panic!("a changed region"),
    }
}

#[test]
fn the_default_result_is_no_difference() {
    let r = CompareResult::default();
    assert!(r.added_regions.is_empty() && r.removed_regions.is_empty() && r.changed_regions.is_empty());
}

#[test]
fn parts_hold_their_own_kind() {
    let a = Snapshot::new(vec![region(0, 0, 1, vec![]), region(1, 0, 1, vec![])]);
    let b = Snapshot::new(vec![region(0, 0, 2, vec![]), region(2, 0, 1, vec![])]);
    let r = compare(&a, &b);
    assert!(check_consistent(&r));
    assert_eq!((r.added_region_count(), r.removed_region_count(), r.changed_region_count()), (1, 1, 1));
}

#[test]
fn differences_lead_from_old_to_new() {
    let old = vec![chunk(0, 0, 1), chunk(1, 0, 1), chunk(2, 0, 1), chunk(9, 9, 9)];
    let new = vec![chunk(1, 0, 2), chunk(2, 0, 1), chunk(3, -1, 4), chunk(-5, 7, 4)];
    let r = compare(
        &Snapshot::new(vec![region(0, 0, 1, old.clone())]),
        &Snapshot::new(vec![region(0, 0, 2, new.clone())]),
    );
    let diffs = match &r.changed_regions[0] {
        RegionDiff::Changed { chunk_diffs, .. } => chunk_diffs.clone(),
        _ => panic!("a changed region"),
    };
    let by_place = |chunks: &Vec<ChunkHash>| -> BTreeMap<(i64, i64), [u8; 16]> {
        chunks.iter().map(|c| ((c.x, c.z), c.hash)).collect()
    };
    let mut state = by_place(&old);
    let mut named = Vec::new();
    for d in &diffs {
        let place = match *d {
            ChunkDiff::Added { x, z, new_hash } => {
                assert_eq!(state.insert((x, z), new_hash), None);
                (x, z)
            }
            ChunkDiff::Removed { x, z, old_hash } => {
                assert_eq!(state.remove(&(x, z)), Some(old_hash));
                (x, z)
            }
            ChunkDiff::Changed { x, z, old_hash, new_hash } => {
                assert_eq!(state.insert((x, z), new_hash), Some(old_hash));
                (x, z)
            }
        };
        assert!(!named.contains(&place));
        named.push(place);
    }
    assert_eq!(state, by_place(&new));
}

#[test]
fn no_region_is_named_twice() {
    let old = Snapshot::new(vec![region(0, 0, 1, vec![]), region(1, 0, 1, vec![]), region(1, 0, 3, vec![])]);
    let new = Snapshot::new(vec![region(0, 0, 2, vec![]), region(2, 0, 1, vec![]), region(2, 0, 4, vec![])]);
    let r = compare(&old, &new);
    let mut named: Vec<_> =
        r.added_regions.iter().chain(&r.removed_regions).chain(&r.changed_regions).map(coords).collect();
    assert_eq!(named, vec![(2, 0), (1, 0), (0, 0)]);
    named.dedup();
    assert_eq!(named.len(), 3);
}
