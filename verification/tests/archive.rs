use std::io::Write;

use flate2::write::{GzEncoder, ZlibEncoder};
use flate2::Compression;
use lz4_flex::frame::FrameEncoder;
use mc_chunk_hash::anvil::{decompress, external_chunks, external_name, read_anvil_superblock, External, ExternalChunk};
use mc_chunk_hash::archive::{
    parse_region_file, parse_region_file_anvil, parse_region_file_b_linear_v3, parse_region_file_linear_v2,
    place_chunks, ArchiveError, ParsedChunk, ParsedRegion,
};
use mc_chunk_hash::b_linear::{read_b_linear_bucket, split_bucket};
use mc_chunk_hash::codec::{decode, Codec};
use mc_chunk_hash::linear::{extract_bucket_chunk, linear_chunks};
use mc_chunk_hash::util::{NameFault, TypeFault, B_LINEAR_V3_MAGIC, LINEAR_V2_MAGIC};

fn gzip(data: &[u8]) -> Vec<u8> {
    let mut e = GzEncoder::new(Vec::new(), Compression::default());
    e.write_all(data).unwrap();
    e.finish().unwrap()
}

fn zlib(data: &[u8]) -> Vec<u8> {
    let mut e = ZlibEncoder::new(Vec::new(), Compression::default());
    e.write_all(data).unwrap();
    e.finish().unwrap()
}

fn lz4(data: &[u8]) -> Vec<u8> {
    let mut e = FrameEncoder::new(Vec::new());
    e.write_all(data).unwrap();
    e.finish().unwrap()
}

fn zstd_bytes(data: &[u8]) -> Vec<u8> {
    zstd::encode_all(data, 3).unwrap()
}

/// An anvil file with these slots: index, type byte, payload.
fn anvil(slots: &[(usize, u8, Vec<u8>)]) -> Vec<u8> {
    let mut file = vec![0u8; 8192];
    for (i, kind, payload) in slots {
        let sector = file.len() / 4096;
        let mut body = ((payload.len() + 1) as u32).to_be_bytes().to_vec();
        body.push(*kind);
        body.extend_from_slice(payload);
        while body.len() % 4096 != 0 {
            body.push(0);
        }
        let count = body.len() / 4096;
        file[4 * i + 1] = (sector >> 8) as u8;
        file[4 * i + 2] = sector as u8;
        file[4 * i + 3] = count as u8;
        file.extend_from_slice(&body);
    }
    file
}

fn assert_whole(r: &ParsedRegion) {
    assert_eq!(r.chunks.len(), 1024);
    for (i, c) in r.chunks.iter().enumerate() {
        assert_eq!(c.x, r.region_x as i64 * 32 + (i % 32) as i64);
        assert_eq!(c.z, r.region_z as i64 * 32 + (i / 32) as i64);
    }
}

#[test]
fn every_compression_is_taken_off() {
    let data = vec![7u8; 500];
    assert_eq!(decompress(&gzip(&data), 1).unwrap(), data);
    assert_eq!(decompress(&zlib(&data), 2).unwrap(), data);
    assert_eq!(decompress(&data, 3).unwrap(), data);
    assert_eq!(decompress(&lz4(&data), 4).unwrap(), data);
    assert_eq!(decode(Codec::Zstd, &zstd_bytes(&data)).unwrap(), data);
}

#[test]
fn broken_data_does_not_decode() {
    let junk = [1u8, 2, 3, 4, 5, 6, 7, 8, 9, 10, 11, 12];
    assert!(matches!(decompress(&junk, 1), Err(ArchiveError::Decode(Codec::Gzip, _))));
    assert!(matches!(decompress(&junk, 2), Err(ArchiveError::Decode(Codec::Zlib, _))));
    assert!(matches!(decompress(&junk, 4), Err(ArchiveError::Decode(Codec::Lz4, _))));
    assert!(decode(Codec::Zstd, &junk).is_err());
    assert!(matches!(decompress(&junk, 0), Err(ArchiveError::UnknownCompression(0))));
    assert!(matches!(decompress(&junk, 127), Err(ArchiveError::UnknownCompression(127))));
}

#[test]
fn anvil_slots_in_order() {
    let file = anvil(&[
        (0, 3, b"first".to_vec()),
        (33, 2, zlib(b"second")),
        (1023, 1, gzip(b"third")),
        (5, 4, lz4(b"fourth")),
    ]);
    let r = parse_region_file_anvil("r.-2.3.mca", &file, &[]).unwrap();
    assert_eq!((r.region_x, r.region_z), (-2, 3));
    assert_whole(&r);
    assert_eq!(r.chunks[0].raw, b"first");
    assert_eq!(r.chunks[33].raw, b"second");
    assert_eq!((r.chunks[33].x, r.chunks[33].z), (-63, 97));
    assert_eq!(r.chunks[1023].raw, b"third");
    assert_eq!(r.chunks[5].raw, b"fourth");
    assert_eq!(r.chunks.iter().filter(|c| !c.is_empty()).count(), 4);
    let detected = parse_region_file("r.-2.3.mca", &file, &[]).unwrap();
    assert_eq!(detected.chunks[33].raw, b"second");
}

#[test]
fn anvil_tables() {
    let mut file = vec![0u8; 8192];
    file[4..8].copy_from_slice(&[1, 2, 3, 4]);
    file[4096 + 4..4096 + 8].copy_from_slice(&[0, 0, 1, 0]);
    let infos = read_anvil_superblock(&file).unwrap();
    assert_eq!(infos.len(), 1024);
    assert_eq!(infos[1], (0x010203, 4, 256));
    assert_eq!(infos[0], (0, 0, 0));
    assert!(matches!(read_anvil_superblock(&file[..8191]), Err(ArchiveError::Truncated)));
}

#[test]
fn anvil_slots_of_odd_length_are_empty() {
    let mut file = anvil(&[(0, 3, b"data".to_vec()), (1, 3, b"more".to_vec())]);
    file[8192..8196].copy_from_slice(&0u32.to_be_bytes());
    file[8192 + 4096..8192 + 4100].copy_from_slice(&4092u32.to_be_bytes());
    let r = parse_region_file_anvil("r.0.0.mca", &file, &[]).unwrap();
    assert!(r.chunks[0].is_empty());
    assert!(r.chunks[1].is_empty());
    file[8192 + 4096..8192 + 4100].copy_from_slice(&4091u32.to_be_bytes());
    let r = parse_region_file_anvil("r.0.0.mca", &file, &[]).unwrap();
    assert_eq!(r.chunks[1].raw.len(), 4090);
}

#[test]
fn anvil_faults() {
    assert!(matches!(
        parse_region_file_anvil("region.mca", &[], &[]),
        Err(ArchiveError::Name(NameFault::Format))
    ));
    assert!(matches!(parse_region_file_anvil("r.0.0.mca", &[0; 100], &[]), Err(ArchiveError::Truncated)));
    let file = anvil(&[(0, 3, b"data".to_vec())]);
    assert!(matches!(
        parse_region_file_anvil("r.0.0.mca", &file[..8196], &[]),
        Err(ArchiveError::Truncated)
    ));
    assert!(matches!(
        parse_region_file_anvil("r.0.0.mca", &file[..8199], &[]),
        Err(ArchiveError::Truncated)
    ));
    let file = anvil(&[(2, 9, b"data".to_vec())]);
    assert!(matches!(
        parse_region_file_anvil("r.0.0.mca", &file, &[]),
        Err(ArchiveError::UnknownCompression(9))
    ));
}

#[test]
fn the_first_fault_decides() {
    let file = anvil(&[(7, 9, vec![]), (3, 8, vec![])]);
    assert!(matches!(
        parse_region_file_anvil("r.0.0.mca", &file, &[]),
        Err(ArchiveError::UnknownCompression(8))
    ));
}

#[test]
fn chunks_in_files_of_their_own() {
    let file = anvil(&[(0, 3, b"here".to_vec()), (34, 130, vec![]), (40, 131, vec![])]);
    let name = "r.1.-1.mca";
    assert_eq!(external_chunks(name, &file), vec![(34, -31), (40, -31)]);
    assert_eq!(external_name(34, -31), "c.34.-31.mcc");
    let own = |x, z, content| ExternalChunk { x, z, content };
    let good = vec![
        own(40, -31, External::Content(b"plain".to_vec())),
        own(34, -31, External::Content(zlib(b"packed"))),
    ];
    let r = parse_region_file(name, &file, &good).unwrap();
    assert_eq!(r.chunks[34].raw, b"packed");
    assert_eq!(r.chunks[40].raw, b"plain");
    assert!(matches!(
        parse_region_file(name, &file, &[]),
        Err(ArchiveError::MissingExternal(34, -31))
    ));
    let missing = vec![good[1].clone(), own(40, -31, External::Missing)];
    assert!(matches!(
        parse_region_file(name, &file, &missing),
        Err(ArchiveError::MissingExternal(40, -31))
    ));
    let unread = vec![own(34, -31, External::Unreadable)];
    assert!(matches!(
        parse_region_file(name, &file, &unread),
        Err(ArchiveError::UnreadableExternal(34, -31))
    ));
    assert!(external_chunks("bad", &file).is_empty());
}

#[test]
fn externals_that_were_not_asked_for_do_not_matter() {
    let file = anvil(&[(0, 3, b"here".to_vec())]);
    let other = vec![ExternalChunk { x: 0, z: 0, content: External::Unreadable }];
    let a = parse_region_file("r.0.0.mca", &file, &[]).unwrap();
    let b = parse_region_file("r.0.0.mca", &file, &other).unwrap();
    assert_eq!(a.chunks[0].raw, b.chunks[0].raw);
}

/// A linear file: grid size, features, bitmap and decoded buckets.
fn linear(grid: i8, x: i32, z: i32, features: &[u8], bits: &[usize], buckets: &[Vec<u8>]) -> Vec<u8> {
    let mut file = LINEAR_V2_MAGIC.to_vec();
    file.push(3);
    file.extend_from_slice(&[0; 8]);
    file.push(grid as u8);
    file.extend_from_slice(&x.to_be_bytes());
    file.extend_from_slice(&z.to_be_bytes());
    let mut bitmap = [0u8; 128];
    for i in bits {
        bitmap[i / 8] |= 1 << (7 - i % 8);
    }
    file.extend_from_slice(&bitmap);
    file.extend_from_slice(features);
    let packed: Vec<Vec<u8>> =
        buckets.iter().map(|b| if b.is_empty() { Vec::new() } else { zstd_bytes(b) }).collect();
    for p in &packed {
        file.extend_from_slice(&(p.len() as u32).to_be_bytes());
        file.extend_from_slice(&[0; 9]);
    }
    for p in &packed {
        file.extend_from_slice(p);
    }
    file
}

fn linear_entry(data: &[u8]) -> Vec<u8> {
    let mut e = ((data.len() + 8) as u32).to_be_bytes().to_vec();
    e.extend_from_slice(&[9; 8]);
    e.extend_from_slice(data);
    e
}

#[test]
fn bucket_entries_are_walked() {
    let bucket = [vec![0, 0, 0, 0], linear_entry(b"one"), vec![0, 0, 0, 7], linear_entry(b""), linear_entry(b"last")]
        .concat();
    assert_eq!(extract_bucket_chunk(&bucket, 0), b"");
    assert_eq!(extract_bucket_chunk(&bucket, 1), b"one");
    assert_eq!(extract_bucket_chunk(&bucket, 2), b"");
    assert_eq!(extract_bucket_chunk(&bucket, 3), b"");
    assert_eq!(extract_bucket_chunk(&bucket, 4), b"last");
    assert_eq!(extract_bucket_chunk(&bucket, 5), b"");
    assert_eq!(extract_bucket_chunk(&bucket[..bucket.len() - 1], 4), b"");
}

#[test]
fn linear_regions() {
    // A grid of two: buckets of sixteen by sixteen chunks, by columns.
    let mut buckets: Vec<Vec<u8>> = vec![Vec::new(); 4];
    // Slot (17, 2) lies in bucket 2, at column 1 and row 2 there.
    let mut b = vec![0u8; 4 * (16 + 2)];
    b.extend_from_slice(&linear_entry(b"there"));
    buckets[2] = b;
    buckets[0] = linear_entry(b"corner");
    let slot = 2 * 32 + 17;
    let features = [3, b'k', b'e', b'y', 0, 0, 0, 1, 0];
    let file = linear(2, -3, 4, &features, &[slot], &buckets);
    let r = parse_region_file("anything", &file, &[]).unwrap();
    assert_eq!((r.region_x, r.region_z), (-3, 4));
    assert_whole(&r);
    assert_eq!(r.chunks[slot].raw, b"there");
    assert!(r.chunks[0].is_empty());
    let file = linear(2, -3, 4, &[0], &[slot, 0, 1], &buckets);
    let r = parse_region_file_linear_v2(&file).unwrap();
    assert_eq!(r.chunks[0].raw, b"corner");
    assert!(r.chunks[1].is_empty());
}

#[test]
fn linear_chunks_of_decoded_buckets() {
    let mut bitmap = vec![0u8; 128];
    bitmap[0] = 0b1010_0000;
    let mut buckets: Vec<Vec<u8>> = vec![Vec::new(); 1024];
    buckets[0] = linear_entry(b"a");
    buckets[32] = linear_entry(b"b");
    buckets[64] = linear_entry(b"c");
    let raws = linear_chunks(&bitmap, 32, &buckets);
    assert_eq!(raws.len(), 1024);
    assert_eq!(raws[0], b"a");
    assert!(raws[1].is_empty());
    assert_eq!(raws[2], b"c");
}

#[test]
fn linear_faults() {
    let good = linear(1, 0, 0, &[0], &[0], &[linear_entry(b"x")]);
    assert_eq!(parse_region_file_linear_v2(&good).unwrap().chunks[0].raw, b"x");
    assert!(matches!(parse_region_file_linear_v2(&good[..25]), Err(ArchiveError::Truncated)));
    assert!(matches!(parse_region_file_linear_v2(&good[..100]), Err(ArchiveError::Truncated)));
    assert!(matches!(parse_region_file_linear_v2(&good[..154]), Err(ArchiveError::Truncated)));
    assert!(matches!(parse_region_file_linear_v2(&good[..160]), Err(ArchiveError::Truncated)));
    assert!(matches!(parse_region_file_linear_v2(&good[..good.len() - 1]), Err(ArchiveError::Truncated)));
    let odd = linear(3, 0, 0, &[0], &[], &[]);
    assert!(matches!(parse_region_file_linear_v2(&odd), Err(ArchiveError::GridSize(3))));
    let odd = linear(-1, 0, 0, &[0], &[], &[]);
    assert!(matches!(parse_region_file_linear_v2(&odd), Err(ArchiveError::GridSize(-1))));
    let mut broken = good.clone();
    let at = broken.len() - 8;
    for b in &mut broken[155 + 13..] {
        *b = 0xEE;
    }
    assert!(at > 0);
    assert!(matches!(
        parse_region_file_linear_v2(&broken),
        Err(ArchiveError::Decode(Codec::Zstd, _))
    ));
}

fn b_linear_entry(data: &[u8]) -> Vec<u8> {
    let mut e = ((data.len() + 16) as u32).to_be_bytes().to_vec();
    e.extend_from_slice(&[5; 16]);
    e.extend_from_slice(data);
    e
}

fn b_linear(buckets: &[(usize, Vec<u8>)]) -> Vec<u8> {
    let mut file = B_LINEAR_V3_MAGIC.to_vec();
    file.push(3);
    file.push(1);
    file.extend_from_slice(&[0; 4]);
    file.extend_from_slice(&[0; 128]);
    for (i, b) in buckets {
        let offset = file.len() as u64;
        file[14 + 8 * i..22 + 8 * i].copy_from_slice(&offset.to_be_bytes());
        let packed = zstd_bytes(b);
        file.extend_from_slice(&(b.len() as u32).to_be_bytes());
        file.extend_from_slice(&(packed.len() as u32).to_be_bytes());
        file.extend_from_slice(&packed);
    }
    file
}

#[test]
fn b_linear_regions() {
    let mut bucket = vec![0u8; 4 * 3];
    bucket.extend_from_slice(&b_linear_entry(b"chunk"));
    bucket.extend_from_slice(&b_linear_entry(b""));
    bucket.extend_from_slice(&vec![0u8; 4 * 59]);
    let file = b_linear(&[(15, bucket)]);
    let r = parse_region_file("r.0.-1.b_linear", &file, &[]).unwrap();
    assert_whole(&r);
    assert_eq!(r.chunks[15 * 64 + 3].raw, b"chunk");
    assert_eq!(r.chunks.iter().filter(|c| !c.is_empty()).count(), 1);
    assert_eq!((r.chunks[15 * 64 + 3].x, r.chunks[15 * 64 + 3].z), (3, -2));
}

#[test]
fn b_linear_buckets() {
    let all: Vec<u8> = (0..64u8).flat_map(|i| b_linear_entry(&[i])).collect();
    let chunks = split_bucket(&all).unwrap();
    assert_eq!(chunks.len(), 64);
    assert_eq!(chunks[63], vec![63]);
    assert!(matches!(split_bucket(&all[..all.len() - 1]), Err(ArchiveError::Truncated)));
    assert!(matches!(split_bucket(&[]), Err(ArchiveError::Truncated)));
    let mut short = 15u32.to_be_bytes().to_vec();
    short.extend_from_slice(&[0; 300]);
    assert!(matches!(split_bucket(&short), Err(ArchiveError::Truncated)));
    let file = b_linear(&[(0, all)]);
    assert_eq!(read_b_linear_bucket(&file, 142).unwrap()[5], vec![5]);
    assert!(matches!(read_b_linear_bucket(&file, u64::MAX), Err(ArchiveError::Truncated)));
}

#[test]
fn b_linear_faults() {
    let name = "r.0.0.b_linear";
    let file = b_linear(&[]);
    assert_whole(&parse_region_file_b_linear_v3(name, &file).unwrap());
    assert!(matches!(
        parse_region_file_b_linear_v3("b_linear", &file),
        Err(ArchiveError::Name(NameFault::Format))
    ));
    assert!(matches!(parse_region_file_b_linear_v3(name, &file[..8]), Err(ArchiveError::Truncated)));
    assert!(matches!(parse_region_file_b_linear_v3(name, &file[..141]), Err(ArchiveError::Truncated)));
    let mut other = file.clone();
    other[8] = 7;
    assert!(matches!(parse_region_file_b_linear_v3(name, &other), Err(ArchiveError::BLinearVersion(7))));
    assert!(matches!(
        parse_region_file(name, &other, &[]),
        Err(ArchiveError::Version(TypeFault::BLinearVersion))
    ));
    let mut broken = b_linear(&[(2, vec![0; 256])]);
    for b in &mut broken[150..] {
        *b = 0xEE;
    }
    assert!(matches!(
        parse_region_file_b_linear_v3(name, &broken),
        Err(ArchiveError::Decode(Codec::Zstd, _))
    ));
}

#[test]
fn outdated_and_unknown_linear_files() {
    let mut file = LINEAR_V2_MAGIC.to_vec();
    assert!(matches!(parse_region_file("r.0.0.linear", &file, &[]), Err(ArchiveError::Truncated)));
    file.push(1);
    assert!(matches!(parse_region_file("r.0.0.linear", &file, &[]), Err(ArchiveError::LinearV1)));
    file[8] = 9;
    assert!(matches!(
        parse_region_file("r.0.0.linear", &file, &[]),
        Err(ArchiveError::Version(TypeFault::LinearVersion))
    ));
}

#[test]
fn chunks_are_placed_by_columns_and_rows() {
    let r = place_chunks(i32::MIN, i32::MAX, vec![vec![1], vec![], vec![2]]);
    assert_eq!((r.chunks[2].x, r.chunks[2].z), (i32::MIN as i64 * 32 + 2, i32::MAX as i64 * 32));
    assert!(r.chunks[1].is_empty());
    let c = ParsedChunk { x: 0, z: 0, raw: vec![] };
    assert!(c.is_empty());
}
