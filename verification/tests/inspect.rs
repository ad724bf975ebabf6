use std::io::Write;

use flate2::write::{GzEncoder, ZlibEncoder};
use flate2::Compression;
use mc_chunk_hash::archive::ArchiveError;
use mc_chunk_hash::inspect::{overview, read_chunk, shape, shape_text, Shape};
use mc_chunk_hash::nbt::Nbt;

fn key(s: &str) -> Vec<u8> {
    s.as_bytes().to_vec()
}

fn file(kind: u8, payload: &[u8]) -> Vec<u8> {
    let mut data = vec![0u8; 8192];
    data[4 * 9 + 2] = 2;
    data[4 * 9 + 3] = 1;
    data.extend_from_slice(&((payload.len() + 1) as u32).to_be_bytes());
    data.push(kind);
    data.extend_from_slice(payload);
    data
}

#[test]
fn one_chunk_is_read() {
    let mut gz = GzEncoder::new(Vec::new(), Compression::fast());
    gz.write_all(b"chunk").unwrap();
    let mut zl = ZlibEncoder::new(Vec::new(), Compression::fast());
    zl.write_all(b"chunk").unwrap();
    assert_eq!(read_chunk(&file(1, &gz.finish().unwrap()), 9).unwrap(), Some(b"chunk".to_vec()));
    assert_eq!(read_chunk(&file(2, &zl.finish().unwrap()), 9).unwrap(), Some(b"chunk".to_vec()));
    assert_eq!(read_chunk(&file(3, b"chunk"), 9).unwrap(), Some(b"chunk".to_vec()));
    assert_eq!(read_chunk(&file(3, b"chunk"), 8).unwrap(), None);
}

#[test]
fn chunks_that_cannot_be_read() {
    assert!(matches!(read_chunk(&[0; 4095], 0), Err(ArchiveError::Truncated)));
    assert!(matches!(read_chunk(&file(4, b"x"), 9), Err(ArchiveError::UnknownCompression(4))));
    assert!(matches!(read_chunk(&file(9, b"x"), 9), Err(ArchiveError::UnknownCompression(9))));
    let mut cut = file(3, b"chunk");
    cut.pop();
    assert!(matches!(read_chunk(&cut, 9), Err(ArchiveError::Truncated)));
    cut.truncate(8196);
    assert!(matches!(read_chunk(&cut, 9), Err(ArchiveError::Truncated)));
}

#[test]
fn fields_by_name() {
    let root = Nbt::Compound(vec![
        (key("z"), Nbt::Int(-5)),
        (
            key("sections"),
            Nbt::List(vec![
                Nbt::Compound(vec![
                    (key("block_states"), Nbt::Compound(vec![(key("p"), Nbt::Byte(1)), (key("p"), Nbt::Byte(2))])),
                    (key("SkyLight"), Nbt::ByteArray(vec![0; 2048])),
                ]),
                Nbt::Byte(1),
            ]),
        ),
        (key("a"), Nbt::String(key("text"))),
    ]);
    let o = overview(&root).unwrap();
    let names: Vec<_> = o.top.iter().map(|f| String::from_utf8(f.name.clone()).unwrap()).collect();
    assert_eq!(names, vec!["a", "sections", "z"]);
    assert!(shape_text(&o.top[0].shape, false).is_none());
    assert_eq!(shape_text(&o.top[1].shape, false).unwrap(), "List(2)");
    assert_eq!(shape_text(&o.top[2].shape, false).unwrap(), "Int(-5)");
    let sections = o.sections.unwrap();
    assert_eq!(sections.len(), 2);
    assert!(sections[1].is_none());
    let first = sections[0].as_ref().unwrap();
    assert_eq!(first[0].name, key("SkyLight"));
    assert_eq!(shape_text(&first[0].shape, true).unwrap(), "ByteArray(2048)");
    assert_eq!(shape_text(&first[1].shape, true).unwrap(), "Compound(1)");
    assert_eq!(shape_text(&first[1].shape, false).unwrap(), "Compound");
}

#[test]
fn shapes_of_values() {
    let words = |v: &Nbt| shape_text(&shape(v), true);
    assert_eq!(words(&Nbt::LongArray(vec![1, 2])).unwrap(), "LongArray(2)");
    assert_eq!(words(&Nbt::IntArray(vec![1])).unwrap(), "IntArray(1)");
    assert_eq!(words(&Nbt::Byte(-128)).unwrap(), "Byte(-128)");
    assert_eq!(words(&Nbt::Short(5)).unwrap(), "Short(5)");
    assert_eq!(words(&Nbt::Long(i64::MIN)).unwrap(), "Long(-9223372036854775808)");
    assert!(matches!(shape(&Nbt::Float(7)), Shape::Float(7)));
    assert!(matches!(shape(&Nbt::Double(8)), Shape::Double(8)));
    assert!(words(&Nbt::Float(7)).is_none());
}

#[test]
fn roots_without_sections() {
    assert!(overview(&Nbt::Int(1)).is_none());
    assert!(overview(&Nbt::Compound(vec![])).unwrap().sections.is_none());
    let odd = Nbt::Compound(vec![(key("sections"), Nbt::Int(1))]);
    assert!(overview(&odd).unwrap().sections.is_none());
}
