use std::collections::HashMap;

use fastnbt::{ByteArray, IntArray, LongArray, Value};
use mc_chunk_hash::blockhash::{canonical_bytes, extract, hash_chunk_with_mode, hash_parsed_chunk, HashMode};
use mc_chunk_hash::hash::hash_chunk;
use mc_chunk_hash::nbt::{nbt_from_value, parse_nbt, Nbt};

fn key(s: &str) -> Vec<u8> {
    s.as_bytes().to_vec()
}

fn text(s: &str) -> Nbt {
    Nbt::String(key(s))
}

fn compound(entries: Vec<(&str, Value)>) -> Value {
    let mut m = HashMap::new();
    for (k, v) in entries {
        m.insert(k.to_string(), v);
    }
    Value::Compound(m)
}

fn section(block: &str) -> Value {
    let name = compound(vec![("Name", Value::String(block.to_string()))]);
    let states = compound(vec![("palette", Value::List(vec![name]))]);
    compound(vec![("block_states", states)])
}

#[test]
fn raw_mode_matches_hash_chunk() {
    let data = b"some raw bytes";
    assert_eq!(hash_chunk_with_mode(data, HashMode::Raw), hash_chunk(data));
}

#[test]
fn empty_is_zero() {
    assert_eq!(hash_chunk_with_mode(b"", HashMode::Blocks), [0u8; 16]);
}

#[test]
fn canonical_compound_is_order_independent() {
    let v1 = Nbt::Compound(vec![(key("a"), Nbt::Int(1)), (key("b"), Nbt::Int(2))]);
    let v2 = Nbt::Compound(vec![(key("b"), Nbt::Int(2)), (key("a"), Nbt::Int(1))]);
    assert_eq!(canonical_bytes(&v1), canonical_bytes(&v2));
}

#[test]
fn canonical_distinguishes_types() {
    assert_ne!(canonical_bytes(&Nbt::Int(1)), canonical_bytes(&Nbt::Byte(1)));
}

#[test]
fn blocks_mode_ignores_entities() {
    let make_chunk = |entity_id: &str| {
        let entity = compound(vec![("id", Value::String(entity_id.to_string()))]);
        compound(vec![
            ("sections", Value::List(vec![section("minecraft:stone")])),
            ("entities", Value::List(vec![entity])),
        ])
    };
    let bytes_a = fastnbt::to_bytes(&make_chunk("minecraft:zombie")).unwrap();
    let bytes_b = fastnbt::to_bytes(&make_chunk("minecraft:skeleton")).unwrap();
    assert_eq!(
        hash_chunk_with_mode(&bytes_a, HashMode::Blocks),
        hash_chunk_with_mode(&bytes_b, HashMode::Blocks),
        "blocks 模式应忽略实体差异"
    );
    assert_ne!(
        hash_chunk_with_mode(&bytes_a, HashMode::Raw),
        hash_chunk_with_mode(&bytes_b, HashMode::Raw),
        "raw 模式应检测到实体差异"
    );
}

#[test]
fn blocks_mode_detects_block_change() {
    let make_chunk = |block_name: &str| {
        compound(vec![
            ("sections", Value::List(vec![section(block_name)])),
            ("entities", Value::List(vec![])),
        ])
    };
    let bytes_a = fastnbt::to_bytes(&make_chunk("minecraft:stone")).unwrap();
    let bytes_b = fastnbt::to_bytes(&make_chunk("minecraft:dirt")).unwrap();
    assert_ne!(
        hash_chunk_with_mode(&bytes_a, HashMode::Blocks),
        hash_chunk_with_mode(&bytes_b, HashMode::Blocks),
        "blocks 模式应检测到方块变化"
    );
}

#[test]
fn inhabited_time_causes_raw_change_but_not_blocks() {
    let make_chunk = |inhabited_time: i64, last_update: i64| {
        compound(vec![
            ("sections", Value::List(vec![section("minecraft:stone")])),
            ("InhabitedTime", Value::Long(inhabited_time)),
            ("LastUpdate", Value::Long(last_update)),
        ])
    };
    let before = fastnbt::to_bytes(&make_chunk(100, 1000)).unwrap();
    let after = fastnbt::to_bytes(&make_chunk(5000, 9000)).unwrap();
    assert_ne!(
        hash_chunk_with_mode(&before, HashMode::Raw),
        hash_chunk_with_mode(&after, HashMode::Raw),
        "raw 模式：玩家经过使 InhabitedTime 变化，哈希改变"
    );
    assert_eq!(
        hash_chunk_with_mode(&before, HashMode::Blocks),
        hash_chunk_with_mode(&after, HashMode::Blocks),
        "blocks 模式：玩家经过不改变方块，哈希应保持不变"
    );
}

#[test]
fn block_entities_show_only_in_their_mode() {
    let make_chunk = |id: &str| {
        compound(vec![
            ("sections", Value::List(vec![section("minecraft:stone")])),
            ("block_entities", Value::List(vec![compound(vec![("id", Value::String(id.to_string()))])])),
        ])
    };
    let a = fastnbt::to_bytes(&make_chunk("chest")).unwrap();
    let b = fastnbt::to_bytes(&make_chunk("hopper")).unwrap();
    assert_eq!(hash_chunk_with_mode(&a, HashMode::Blocks), hash_chunk_with_mode(&b, HashMode::Blocks));
    assert_ne!(
        hash_chunk_with_mode(&a, HashMode::BlocksAndEntities),
        hash_chunk_with_mode(&b, HashMode::BlocksAndEntities)
    );
}

#[test]
fn unparsed_bytes_are_hashed_as_they_are() {
    let junk = [0xFFu8, 1, 2, 3];
    assert!(parse_nbt(&junk).is_none());
    assert_eq!(hash_chunk_with_mode(&junk, HashMode::Blocks), hash_chunk(&junk));
    assert_eq!(hash_parsed_chunk(&junk, None, HashMode::BlocksAndEntities), hash_chunk(&junk));
}

#[test]
fn mode_names() {
    assert_eq!(HashMode::Raw.name(), "raw");
    assert_eq!(HashMode::Blocks.name(), "blocks");
    assert_eq!(HashMode::BlocksAndEntities.name(), "blocks+entities");
}

#[test]
fn canonical_scalars_are_tagged_and_big_endian() {
    assert_eq!(canonical_bytes(&Nbt::Byte(-1)), vec![1, 0xFF]);
    assert_eq!(canonical_bytes(&Nbt::Short(-2)), vec![2, 0xFF, 0xFE]);
    assert_eq!(canonical_bytes(&Nbt::Int(258)), vec![3, 0, 0, 1, 2]);
    assert_eq!(canonical_bytes(&Nbt::Long(-1)), vec![4, 255, 255, 255, 255, 255, 255, 255, 255]);
    assert_eq!(canonical_bytes(&Nbt::Float(1.5f32.to_bits())), vec![5, 0x3F, 0xC0, 0, 0]);
    assert_eq!(canonical_bytes(&Nbt::Double(1.5f64.to_bits())), vec![6, 0x3F, 0xF8, 0, 0, 0, 0, 0, 0]);
    assert_eq!(canonical_bytes(&text("hi")), vec![7, 0, 0, 0, 2, b'h', b'i']);
}

#[test]
fn canonical_arrays_and_lists_are_counted() {
    assert_eq!(canonical_bytes(&Nbt::ByteArray(vec![1, -1])), vec![8, 0, 0, 0, 2, 1, 0xFF]);
    assert_eq!(canonical_bytes(&Nbt::IntArray(vec![-1])), vec![9, 0, 0, 0, 1, 255, 255, 255, 255]);
    assert_eq!(canonical_bytes(&Nbt::LongArray(vec![1])), vec![10, 0, 0, 0, 1, 0, 0, 0, 0, 0, 0, 0, 1]);
    assert_eq!(canonical_bytes(&Nbt::List(vec![Nbt::Byte(7)])), vec![11, 0, 0, 0, 1, 1, 7]);
    assert_eq!(canonical_bytes(&Nbt::List(vec![])), vec![11, 0, 0, 0, 0]);
}

#[test]
fn canonical_compounds_are_sorted() {
    let v = Nbt::Compound(vec![(key("b"), Nbt::Byte(2)), (key("a"), Nbt::Byte(1))]);
    assert_eq!(
        canonical_bytes(&v),
        vec![12, 0, 0, 0, 2, 0, 0, 0, 1, b'a', 1, 1, 0, 0, 0, 1, b'b', 1, 2]
    );
}

#[test]
fn later_entries_of_a_key_count() {
    let twice = Nbt::Compound(vec![(key("a"), Nbt::Byte(1)), (key("a"), Nbt::Byte(2))]);
    let once = Nbt::Compound(vec![(key("a"), Nbt::Byte(2))]);
    assert_eq!(canonical_bytes(&twice), canonical_bytes(&once));
}

#[test]
fn extract_keeps_block_states_only() {
    let root = Nbt::Compound(vec![
        (
            key("sections"),
            Nbt::List(vec![
                Nbt::Compound(vec![(key("biomes"), Nbt::Int(1)), (key("block_states"), Nbt::Int(9))]),
                Nbt::Compound(vec![]),
                Nbt::Int(3),
            ]),
        ),
        (key("LastUpdate"), Nbt::Long(5)),
    ]);
    let expected = Nbt::Compound(vec![(
        key("sections"),
        Nbt::List(vec![
            Nbt::Compound(vec![(key("block_states"), Nbt::Int(9))]),
            Nbt::Compound(vec![(key("block_states"), Nbt::Compound(vec![]))]),
            Nbt::List(vec![]),
        ]),
    )]);
    let kept = extract(root, HashMode::Blocks);
    assert_eq!(canonical_bytes(&kept), canonical_bytes(&expected));
}

#[test]
fn extract_of_odd_roots() {
    let none = extract(Nbt::Int(1), HashMode::BlocksAndEntities);
    assert_eq!(canonical_bytes(&none), canonical_bytes(&Nbt::Compound(vec![])));
    let bare = extract(Nbt::Compound(vec![]), HashMode::BlocksAndEntities);
    let expected = Nbt::Compound(vec![
        (key("block_entities"), Nbt::List(vec![])),
        (key("sections"), Nbt::List(vec![])),
    ]);
    assert_eq!(canonical_bytes(&bare), canonical_bytes(&expected));
}

#[test]
fn every_kind_of_value_is_parsed() {
    let value = compound(vec![
        ("byte", Value::Byte(-3)),
        ("short", Value::Short(300)),
        ("int", Value::Int(-70000)),
        ("long", Value::Long(1 << 40)),
        ("float", Value::Float(0.5)),
        ("double", Value::Double(-2.25)),
        ("text", Value::String("grüß".to_string())),
        ("bytes", Value::ByteArray(ByteArray::new(vec![1, -2]))),
        ("ints", Value::IntArray(IntArray::new(vec![5, -6]))),
        ("longs", Value::LongArray(LongArray::new(vec![7, -8]))),
        ("list", Value::List(vec![Value::Short(1), Value::Short(2)])),
        ("inner", compound(vec![("k", Value::Byte(1))])),
    ]);
    let parsed = parse_nbt(&fastnbt::to_bytes(&value).unwrap()).unwrap();
    let expected = Nbt::Compound(vec![
        (key("byte"), Nbt::Byte(-3)),
        (key("short"), Nbt::Short(300)),
        (key("int"), Nbt::Int(-70000)),
        (key("long"), Nbt::Long(1 << 40)),
        (key("float"), Nbt::Float(0.5f32.to_bits())),
        (key("double"), Nbt::Double((-2.25f64).to_bits())),
        (key("text"), text("grüß")),
        (key("bytes"), Nbt::ByteArray(vec![1, -2])),
        (key("ints"), Nbt::IntArray(vec![5, -6])),
        (key("longs"), Nbt::LongArray(vec![7, -8])),
        (key("list"), Nbt::List(vec![Nbt::Short(1), Nbt::Short(2)])),
        (key("inner"), Nbt::Compound(vec![(key("k"), Nbt::Byte(1))])),
    ]);
    assert_eq!(canonical_bytes(&parsed), canonical_bytes(&expected));
}

#[test]
fn blocks_hash_is_that_of_the_canonical_bytes() {
    let chunk = compound(vec![("sections", Value::List(vec![section("minecraft:stone")]))]);
    let raw = fastnbt::to_bytes(&chunk).unwrap();
    let kept = extract(parse_nbt(&raw).unwrap(), HashMode::Blocks);
    assert_eq!(hash_chunk_with_mode(&raw, HashMode::Blocks), hash_chunk(&canonical_bytes(&kept)));
}

#[test]
fn entities_mode_ignores_everything_else() {
    let make_chunk = |light: i8, biome: &str| {
        let mut s = match section("minecraft:stone") {
            Value::Compound(m) => m,
            _ => unreachable!(),
        };
        s.insert("SkyLight".to_string(), Value::ByteArray(ByteArray::new(vec![light; 4])));
        s.insert("biomes".to_string(), Value::String(biome.to_string()));
        compound(vec![
            ("sections", Value::List(vec![Value::Compound(s)])),
            ("block_entities", Value::List(vec![])),
            ("isLightOn", Value::Byte(light)),
        ])
    };
    let a = fastnbt::to_bytes(&make_chunk(0, "plains")).unwrap();
    let b = fastnbt::to_bytes(&make_chunk(1, "desert")).unwrap();
    assert_eq!(
        hash_chunk_with_mode(&a, HashMode::BlocksAndEntities),
        hash_chunk_with_mode(&b, HashMode::BlocksAndEntities)
    );
    assert_eq!(hash_chunk_with_mode(&a, HashMode::Blocks), hash_chunk_with_mode(&b, HashMode::Blocks));
    assert_ne!(hash_chunk_with_mode(&a, HashMode::Raw), hash_chunk_with_mode(&b, HashMode::Raw));
}

#[test]
fn empty_chunks_are_zeros_in_every_mode() {
    for mode in [HashMode::Raw, HashMode::Blocks, HashMode::BlocksAndEntities] {
        assert_eq!(hash_chunk_with_mode(b"", mode), [0u8; 16]);
        assert_eq!(hash_parsed_chunk(b"", Some(Nbt::Int(1)), mode), [0u8; 16]);
    }
}

#[test]
fn values_of_different_structure_have_different_encodings() {
    let values = [
        Nbt::List(vec![]),
        Nbt::List(vec![Nbt::List(vec![])]),
        Nbt::List(vec![Nbt::List(vec![]), Nbt::List(vec![])]),
        Nbt::Compound(vec![]),
        Nbt::Compound(vec![(key(""), Nbt::Compound(vec![]))]),
        Nbt::Compound(vec![(key("a"), text("b"))]),
        Nbt::Compound(vec![(key("ab"), text(""))]),
        Nbt::String(vec![]),
        Nbt::ByteArray(vec![]),
        Nbt::IntArray(vec![]),
        Nbt::LongArray(vec![]),
    ];
    for i in 0..values.len() {
        for j in 0..i {
            assert_ne!(canonical_bytes(&values[i]), canonical_bytes(&values[j]));
        }
    }
}

#[test]
fn values_are_rebuilt() {
    let value = compound(vec![("k", Value::List(vec![Value::Int(4), Value::Int(5)]))]);
    let expected = Nbt::Compound(vec![(key("k"), Nbt::List(vec![Nbt::Int(4), Nbt::Int(5)]))]);
    assert_eq!(canonical_bytes(&nbt_from_value(value)), canonical_bytes(&expected));
}

#[test]
fn empty_bytes_hold_no_tree() {
    assert!(parse_nbt(&[]).is_none());
}
