use mc_chunk_hash::snapshot::{ChunkHash, RegionHash, Snapshot, SnapshotError, SNAPSHOT_VERSION};

fn sample_snapshot() -> Snapshot {
    let region = RegionHash {
        region_x: 0,
        region_z: 0,
        hash: [1u8; 16],
        chunks: vec![
            ChunkHash { x: 0, z: 0, hash: [2u8; 16] },
            ChunkHash { x: 1, z: 0, hash: [3u8; 16] },
        ],
    };
    Snapshot::new(vec![region])
}

#[test]
fn roundtrip_via_bytes() {
    let snap = sample_snapshot();
    let bytes = snap.to_bytes().unwrap();
    let restored: Snapshot = Snapshot::from_bytes(&bytes).unwrap();
    assert_eq!(restored.version, SNAPSHOT_VERSION);
    assert_eq!(restored.regions.len(), 1);
    assert_eq!(restored.regions[0].region_x, 0);
    assert_eq!(restored.regions[0].chunks.len(), 2);
    assert_eq!(restored.regions[0].chunks[0].hash, [2u8; 16]);
}

#[test]
fn all_fields_come_back() {
    let mut regions = Vec::new();
    for i in 0..5i32 {
        let mut chunks = Vec::new();
        for j in 0..i as i64 {
            chunks.push(ChunkHash { x: -j, z: 1000 * j, hash: [j as u8; 16] });
        }
        regions.push(RegionHash { region_x: -i, region_z: 7 * i, hash: [i as u8; 16], chunks });
    }
    let mut snap = Snapshot::new(regions);
    snap.version = 77;
    assert!(snap.is_archivable());
    let restored = Snapshot::from_bytes(&snap.to_bytes().unwrap()).unwrap();
    assert_eq!(restored.version, 77);
    assert_eq!(restored.regions.len(), 5);
    for i in 0..5 {
        let (a, b) = (&snap.regions[i], &restored.regions[i]);
        assert_eq!((a.region_x, a.region_z, a.hash), (b.region_x, b.region_z, b.hash));
        assert_eq!(a.chunks, b.chunks);
    }
}

#[test]
fn bytes_can_lie_anywhere() {
    let bytes = sample_snapshot().to_bytes().unwrap();
    for shift in 0..16usize {
        let mut padded = vec![0u8; shift];
        padded.extend_from_slice(&bytes);
        let restored = Snapshot::from_bytes(&padded[shift..]).unwrap();
        assert_eq!(restored.regions[0].chunks[1].x, 1);
    }
}

#[test]
fn layout_on_disk() {
    let bytes = sample_snapshot().to_bytes().unwrap();
    assert_eq!(bytes.len(), 2 * 32 + 32 + 12);
    assert_eq!(&bytes[32..40], &[1, 0, 0, 0, 0, 0, 0, 0]);
    assert_eq!(&bytes[96..100], &[1, 0, 0, 0]);
}

#[test]
fn other_bytes_are_refused() {
    assert!(matches!(Snapshot::from_bytes(&[]), Err(SnapshotError::Decode(_))));
    assert!(matches!(Snapshot::from_bytes(&[1, 2, 3]), Err(SnapshotError::Decode(_))));
    assert!(matches!(Snapshot::from_bytes(&[0xFF; 64]), Err(SnapshotError::Decode(_))));
}

#[test]
fn empty_snapshot_roundtrips() {
    let snap = Snapshot::new(Vec::new());
    assert!(snap.is_archivable());
    let restored = Snapshot::from_bytes(&snap.to_bytes().unwrap()).unwrap();
    assert_eq!(restored.version, SNAPSHOT_VERSION);
    assert!(restored.regions.is_empty());
}

#[test]
fn tuples_hold_all_fields() {
    let packed = sample_snapshot().pack();
    assert_eq!(
        packed,
        (1, vec![(0, 0, [1u8; 16], vec![(0, 0, [2u8; 16]), (1, 0, [3u8; 16])])])
    );
    let snap = Snapshot::unpack((9, vec![(-4, 5, [6u8; 16], vec![(7, -8, [9u8; 16])])]));
    assert_eq!(snap.version, 9);
    assert_eq!((snap.regions[0].region_x, snap.regions[0].region_z, snap.regions[0].hash), (-4, 5, [6u8; 16]));
    assert_eq!(snap.regions[0].chunks, vec![ChunkHash { x: 7, z: -8, hash: [9u8; 16] }]);
}
