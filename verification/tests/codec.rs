use dfwad::forest::{create_entry, file_name_from_path, parent_from_path, Directory, Entry, EntryNode, EntryType, NestedEntry};
use dfwad::text::{decode_name, encode_name};
use dfwad::wad::{create_wad, create_wad2, encode_wad, looks_like_container, parse_wad, read_entry, WadDirectory, WadEntry, WadError};
use dfwad::zlib::{compress_zlib, decompress_zlib, ZlibCompressionLevel};

fn leaf(name: &str, bytes: &[u8]) -> EntryNode {
    EntryNode::Entry { name: name.to_string(), bytes: bytes.to_vec() }
}

fn dir(name: &str, entries: Vec<EntryNode>) -> Directory {
    Directory { name: name.to_string(), entries }
}

fn flat(dir: &str, name: &str, bytes: &[u8]) -> EntryType {
    EntryType::Entry(Entry { buffer: bytes.to_vec(), dir: dir.to_string(), name: name.to_string() })
}

#[test]
fn compression_round_trip_all_levels_and_sizes() {
    let levels = [
        ZlibCompressionLevel::NoCompression,
        ZlibCompressionLevel::Fast,
        ZlibCompressionLevel::Best,
        ZlibCompressionLevel::Default,
    ];
    let mut big = Vec::new();
    for i in 0..65536usize {
        big.push((i % 251) as u8);
    }
    let payloads: [&[u8]; 3] = [&[], &[42u8], &big];
    for level in levels {
        for p in payloads {
            let c = compress_zlib(p, level).unwrap();
            assert!(!c.is_empty());
            let d = decompress_zlib(&c).unwrap();
            assert_eq!(d.as_slice(), p);
        }
    }
}

#[test]
fn compression_actually_transforms() {
    let p = b"some payload that is long enough to change under compression....";
    let c = compress_zlib(p, ZlibCompressionLevel::Default).unwrap();
    assert_ne!(c.as_slice(), p.as_slice());
}

#[test]
fn decompress_rejects_garbage() {
    let garbage = vec![0x13u8, 0x37, 0x00, 0xff, 0x01];
    assert_eq!(decompress_zlib(&garbage), Err(WadError::CorruptStream));
}

#[test]
fn name_encode_pads_to_sixteen() {
    let v = encode_name("axe.txt").unwrap();
    assert_eq!(v.len(), 16);
    assert_eq!(&v[..7], b"axe.txt");
    assert!(v[7..].iter().all(|&b| b == 0));
}

#[test]
fn name_encode_rejects_overflow() {
    assert_eq!(encode_name("a_name_that_is_far_too_long.txt"), Err(WadError::StructNameTooLong));
    assert!(encode_name("exactly_16_bytes").is_ok());
}

#[test]
fn name_round_trip_including_legacy_chars() {
    for s in ["axe.txt", "", "ITEMS", "\u{0416}\u{0438}", "Map01"] {
        let v = encode_name(s).unwrap();
        assert_eq!(decode_name(&v), s);
    }
}

#[test]
fn name_decode_strips_trailing_nuls_only() {
    let mut field = b"ab\0cd".to_vec();
    field.resize(16, 0);
    assert_eq!(decode_name(&field), "ab\0cd");
}

#[test]
fn empty_directory_rejected() {
    let forest = vec![dir("EMPTY", Vec::new())];
    assert_eq!(encode_wad(&forest, ZlibCompressionLevel::Default), Err(WadError::EmptyDirectory));
}

#[test]
fn long_directory_name_rejected() {
    let forest = vec![dir("this_directory_name_is_too_long", vec![leaf("a", b"x")])];
    assert_eq!(
        encode_wad(&forest, ZlibCompressionLevel::Default),
        Err(WadError::StructNameTooLong)
    );
}

#[test]
fn long_entry_name_rejected_with_no_partial_output() {
    let forest = vec![dir("D", vec![leaf("an_entry_name_that_is_too_long", b"x")])];
    assert_eq!(
        encode_wad(&forest, ZlibCompressionLevel::Default),
        Err(WadError::StructNameTooLong)
    );
}

#[test]
fn signature_gate() {
    let forest = vec![dir("D", vec![leaf("a", b"x")])];
    let mut out = encode_wad(&forest, ZlibCompressionLevel::Default).unwrap();
    out[0] = b'X';
    assert_eq!(parse_wad(&out), Err(WadError::IncorrectSignature));
}

#[test]
fn version_gate() {
    let forest = vec![dir("D", vec![leaf("a", b"x")])];
    let mut out = encode_wad(&forest, ZlibCompressionLevel::Default).unwrap();
    out[5] = 2;
    assert_eq!(parse_wad(&out), Err(WadError::UnsupportedVersion));
}

#[test]
fn truncated_buffer_rejected() {
    assert_eq!(parse_wad(&b"DFW".to_vec()), Err(WadError::Truncated));
    let mut short = b"DFWAD".to_vec();
    short.push(1);
    short.push(9);
    short.push(0);
    assert_eq!(parse_wad(&short), Err(WadError::Truncated));
}

fn raw_record(name: &[u8], offset: u32, size: u32) -> Vec<u8> {
    let mut r = name.to_vec();
    r.resize(16, 0);
    r.extend_from_slice(&offset.to_le_bytes());
    r.extend_from_slice(&size.to_le_bytes());
    r
}

fn raw_wad(records: &[Vec<u8>]) -> Vec<u8> {
    let mut w = b"DFWAD".to_vec();
    w.push(1);
    w.extend_from_slice(&(records.len() as u16).to_le_bytes());
    for r in records {
        w.extend_from_slice(r);
    }
    w
}

#[test]
fn marker_semantics_zero_size_only() {
    let w = raw_wad(&[raw_record(b"bad", 7, 0)]);
    assert_eq!(parse_wad(&w), Err(WadError::InvalidEntry));
}

#[test]
fn marker_semantics_zero_offset_only() {
    let w = raw_wad(&[raw_record(b"bad", 0, 7)]);
    assert_eq!(parse_wad(&w), Err(WadError::InvalidEntry));
}

#[test]
fn final_accumulator_is_flushed() {
    let w = raw_wad(&[raw_record(b"LAST", 0, 0)]);
    let dirs = parse_wad(&w).unwrap();
    assert_eq!(dirs.len(), 1);
    assert_eq!(dirs[0].dir, "LAST");
    assert!(dirs[0].entries.is_empty());
}

#[test]
fn scenario_items_layout() {
    let forest = vec![dir("ITEMS", vec![leaf("axe.txt", b"iron"), leaf("bow.txt", b"wood")])];
    let out = encode_wad(&forest, ZlibCompressionLevel::Default).unwrap();
    assert_eq!(&out[0..5], b"DFWAD");
    assert_eq!(out[5], 1);
    assert_eq!(u16::from_le_bytes([out[6], out[7]]), 3);
    assert_eq!(&out[8..24], {
        let mut n = b"ITEMS".to_vec();
        n.resize(16, 0);
        n
    }
    .as_slice());
    assert_eq!(&out[24..32], &[0u8; 8]);
    let dirs = parse_wad(&out).unwrap();
    assert_eq!(dirs.len(), 1);
    assert_eq!(dirs[0].dir, "ITEMS");
    assert_eq!(dirs[0].entries.len(), 2);
    assert_eq!(dirs[0].entries[0].name, "axe.txt");
    assert_eq!(dirs[0].entries[1].name, "bow.txt");
    assert_eq!(dirs[0].entries[0].offset, 80);
    let axe = read_entry(&out, &dirs[0].entries[0]).unwrap();
    let bow = read_entry(&out, &dirs[0].entries[1]).unwrap();
    assert_eq!(axe, b"iron");
    assert_eq!(bow, b"wood");
}

#[test]
fn round_trip_multiple_directories() {
    let forest = vec![
        dir("ALPHA", vec![leaf("one", b"1"), leaf("two", b"22")]),
        dir("BETA", vec![leaf("three", b"333")]),
    ];
    for level in [
        ZlibCompressionLevel::NoCompression,
        ZlibCompressionLevel::Fast,
        ZlibCompressionLevel::Best,
        ZlibCompressionLevel::Default,
    ] {
        let out = encode_wad(&forest, level).unwrap();
        let dirs = parse_wad(&out).unwrap();
        assert_eq!(dirs.len(), 2);
        assert_eq!(dirs[0].dir, "ALPHA");
        assert_eq!(dirs[1].dir, "BETA");
        assert_eq!(dirs[0].entries.len(), 2);
        assert_eq!(dirs[1].entries.len(), 1);
        assert_eq!(read_entry(&out, &dirs[0].entries[0]).unwrap(), b"1");
        assert_eq!(read_entry(&out, &dirs[0].entries[1]).unwrap(), b"22");
        assert_eq!(read_entry(&out, &dirs[1].entries[0]).unwrap(), b"333");
    }
}

#[test]
fn nested_container_recursion() {
    let inner = vec![dir("INNER", vec![leaf("greeting", b"hello")])];
    let forest = vec![dir(
        "OUTER",
        vec![EntryNode::Nested { name: "sub.wad".to_string(), dirs: inner }],
    )];
    let out = encode_wad(&forest, ZlibCompressionLevel::Default).unwrap();
    let dirs = parse_wad(&out).unwrap();
    assert_eq!(dirs.len(), 1);
    assert_eq!(dirs[0].dir, "OUTER");
    assert_eq!(dirs[0].entries[0].name, "sub.wad");
    let payload = read_entry(&out, &dirs[0].entries[0]).unwrap();
    assert!(looks_like_container(&payload));
    let inner_dirs = parse_wad(&payload).unwrap();
    assert_eq!(inner_dirs.len(), 1);
    assert_eq!(inner_dirs[0].dir, "INNER");
    assert_eq!(inner_dirs[0].entries[0].name, "greeting");
    let hello = read_entry(&payload, &inner_dirs[0].entries[0]).unwrap();
    assert_eq!(hello, b"hello");
}

#[test]
fn leaf_payload_is_not_sniffed_as_container() {
    let payload = b"plain old bytes".to_vec();
    assert!(!looks_like_container(&payload));
}

#[test]
fn read_entry_truncated_and_corrupt() {
    let data = vec![1u8, 2, 3];
    let past_end = WadEntry::new("x", 10, 1);
    assert_eq!(read_entry(&data, &past_end), Err(WadError::Truncated));
    let garbage = WadEntry::new("x", 3, 0);
    assert_eq!(read_entry(&data, &garbage), Err(WadError::CorruptStream));
}

#[test]
fn flat_forest_groups_in_first_seen_order() {
    let flatset = vec![
        flat("B", "b1", b"1"),
        flat("A", "a1", b"2"),
        flat("B", "b2", b"3"),
    ];
    let out = create_wad2(&flatset).unwrap();
    let dirs = parse_wad(&out).unwrap();
    assert_eq!(dirs.len(), 2);
    assert_eq!(dirs[0].dir, "B");
    assert_eq!(dirs[1].dir, "A");
    assert_eq!(dirs[0].entries[0].name, "b1");
    assert_eq!(dirs[0].entries[1].name, "b2");
    assert_eq!(dirs[1].entries[0].name, "a1");
    assert_eq!(read_entry(&out, &dirs[0].entries[1]).unwrap(), b"3");
}

#[test]
fn flat_forest_encoding_is_deterministic() {
    let flatset = vec![flat("Z", "z", b"zz"), flat("Y", "y", b"yy")];
    let a = create_wad(&flatset, ZlibCompressionLevel::Fast).unwrap();
    let b = create_wad(&flatset, ZlibCompressionLevel::Fast).unwrap();
    assert_eq!(a, b);
}

#[test]
fn nested_flat_entries_group_recursively() {
    let nested = EntryType::NestedEntry(NestedEntry {
        dir: "TOP".to_string(),
        name: "inner.wad".to_string(),
        entries: vec![flat("SUB", "s1", b"deep")],
    });
    let flatset = vec![flat("TOP", "t1", b"top"), nested];
    let out = create_wad2(&flatset).unwrap();
    let dirs = parse_wad(&out).unwrap();
    assert_eq!(dirs.len(), 1);
    assert_eq!(dirs[0].dir, "TOP");
    assert_eq!(dirs[0].entries.len(), 2);
    let payload = read_entry(&out, &dirs[0].entries[1]).unwrap();
    assert!(looks_like_container(&payload));
    let inner = parse_wad(&payload).unwrap();
    assert_eq!(inner[0].dir, "SUB");
    assert_eq!(read_entry(&payload, &inner[0].entries[0]).unwrap(), b"deep");
}

#[test]
fn path_helpers() {
    assert_eq!(parent_from_path("root", "root/sub/file.txt"), Ok("sub".to_string()));
    assert_eq!(parent_from_path("root", "root/file.txt"), Ok("".to_string()));
    assert_eq!(parent_from_path("other", "root/file.txt"), Err(()));
    assert_eq!(file_name_from_path("root/sub/file.txt"), Ok("file.txt".to_string()));
    assert_eq!(file_name_from_path("file.txt"), Ok("file.txt".to_string()));
}

#[test]
fn create_entry_builds_from_walked_path() {
    let e = create_entry("root", "root/GFX/wall.png", b"pixels".to_vec()).unwrap();
    assert_eq!(e.dir, "GFX");
    assert_eq!(e.name, "wall.png");
    assert_eq!(e.buffer, b"pixels");
    assert!(create_entry("elsewhere", "root/GFX/wall.png", Vec::new()).is_err());
}

#[test]
fn wad_record_constructors() {
    let e = WadEntry::new("thing", 12, 99);
    assert_eq!(e.name, "thing");
    assert_eq!(e.size, 12);
    assert_eq!(e.offset, 99);
    let d = WadDirectory::new("GROUP", vec![e]);
    assert_eq!(d.dir, "GROUP");
    assert_eq!(d.entries.len(), 1);
}

#[test]
fn empty_forest_encodes_to_bare_header() {
    let out = encode_wad(&Vec::new(), ZlibCompressionLevel::Default).unwrap();
    assert_eq!(out.len(), 8);
    let dirs = parse_wad(&out).unwrap();
    assert!(dirs.is_empty());
}
