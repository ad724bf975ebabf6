use mc_chunk_hash::util::{
    collect_region_files, get_dir_file, get_file_type, max_search_depth, parse_region_coords, region_coords, DirEntry,
    FileType, NameFault, TypeFault, B_LINEAR_V3_MAGIC, LINEAR_V2_MAGIC,
};

fn entry(depth: usize, is_file: bool, extension: Option<&str>) -> DirEntry {
    DirEntry { depth, is_file, extension: extension.map(|s| s.to_string()) }
}

#[test]
fn coordinates_in_names() {
    assert_eq!(parse_region_coords("r.0.0.mca"), Ok((0, 0)));
    assert_eq!(parse_region_coords("r.-1.25.linear"), Ok((-1, 25)));
    assert_eq!(parse_region_coords("c.12.-7.mcc"), Ok((12, -7)));
    assert_eq!(parse_region_coords("r.+3.4"), Ok((3, 4)));
    assert_eq!(parse_region_coords("r.2147483647.-2147483648.b_linear"), Ok((i32::MAX, i32::MIN)));
    assert_eq!(parse_region_coords("r.007.-0.a.b.c"), Ok((7, 0)));
}

#[test]
fn faults_in_names() {
    for name in ["", "r.1", "level.dat", "x.1.2.mca", "rr.1.2.mca", ".1.2"] {
        assert_eq!(parse_region_coords(name), Err(format!("invalid filename format: {name}")));
        assert_eq!(region_coords(name), Err(NameFault::Format));
    }
    assert_eq!(parse_region_coords("r..1.mca"), Err("cannot parse integer from empty string".to_string()));
    assert_eq!(parse_region_coords("r.1..mca"), Err("cannot parse integer from empty string".to_string()));
    assert_eq!(parse_region_coords("r.a.1.mca"), Err("invalid digit found in string".to_string()));
    assert_eq!(parse_region_coords("r.-.1.mca"), Err("invalid digit found in string".to_string()));
    assert_eq!(parse_region_coords("r.1.é.mca"), Err("invalid digit found in string".to_string()));
    assert_eq!(
        parse_region_coords("r.2147483648.1.mca"),
        Err("number too large to fit in target type".to_string())
    );
    assert_eq!(
        parse_region_coords("r.1.-2147483649.mca"),
        Err("number too small to fit in target type".to_string())
    );
}

#[test]
fn numbers_read_as_the_standard_library_reads_them() {
    let parts = [
        "0", "-0", "+0", "00", "1", "-1", "12a", "a12", "--1", "+-1", "99999999999", "-99999999999", "2147483647",
        "2147483648", "-2147483648", "-2147483649", "99999999999x", "x99999999999", " 1", "1 ", "+", "-",
    ];
    for p in parts {
        let expected = p.parse::<i32>().map(|v| (v, 5)).map_err(|e| e.to_string());
        assert_eq!(parse_region_coords(&format!("r.{p}.5.mca")), expected, "{p}");
    }
}

#[test]
fn types_by_the_first_bytes() {
    let typed = |magic: &[u8], rest: &[u8]| get_file_type(&[magic, rest].concat());
    assert_eq!(get_file_type(&[]), Ok(FileType::Anvil));
    assert_eq!(get_file_type(&LINEAR_V2_MAGIC[..7]), Ok(FileType::Anvil));
    assert_eq!(get_file_type(&[0; 8192]), Ok(FileType::Anvil));
    assert_eq!(typed(&LINEAR_V2_MAGIC, &[]), Err(TypeFault::Truncated));
    assert_eq!(typed(&LINEAR_V2_MAGIC, &[1]), Ok(FileType::LinearV1));
    assert_eq!(typed(&LINEAR_V2_MAGIC, &[2]), Ok(FileType::LinearV1));
    assert_eq!(typed(&LINEAR_V2_MAGIC, &[3]), Ok(FileType::LinearV2));
    assert_eq!(typed(&LINEAR_V2_MAGIC, &[4]), Err(TypeFault::LinearVersion));
    assert_eq!(typed(&B_LINEAR_V3_MAGIC, &[]), Err(TypeFault::Truncated));
    assert_eq!(typed(&B_LINEAR_V3_MAGIC, &[3]), Ok(FileType::BLinearV3));
    assert_eq!(typed(&B_LINEAR_V3_MAGIC, &[2]), Err(TypeFault::BLinearVersion));
}

#[test]
fn region_files_of_a_directory() {
    let entries = vec![
        entry(0, false, None),
        entry(1, true, Some("linear")),
        entry(1, true, Some("mca")),
        entry(1, false, Some("mca")),
        entry(2, true, Some("mca")),
        entry(1, true, Some("b_linear")),
        entry(1, true, Some("MCA")),
        entry(1, true, None),
        entry(115, true, Some("linear")),
    ];
    assert_eq!(collect_region_files(&entries, false), vec![2, 1, 5]);
    assert_eq!(collect_region_files(&entries, true), vec![2, 4, 1, 5]);
    assert_eq!(get_dir_file(&entries, "MCA", 1), vec![6]);
    assert_eq!((max_search_depth(false), max_search_depth(true)), (1, 114));
}

#[test]
fn names_of_regions_read_back() {
    for (x, z) in [(0, 0), (-1, 1), (i32::MIN, i32::MAX), (10, -100), (1234567, -7654321)] {
        for ending in ["", ".mca", ".linear", ".b_linear", ".", ".a.b"] {
            assert_eq!(parse_region_coords(&format!("r.{x}.{z}{ending}")), Ok((x, z)));
            assert_eq!(parse_region_coords(&format!("c.{x}.{z}{ending}")), Ok((x, z)));
        }
    }
}
