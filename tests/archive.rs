use bsa_reader::bsa::{
    folder_path, ArchiveFlags, BlockRef, BsaError, FileRecord, FileRecordBlock, FolderRecord, Header,
    UncompressedFileBlock, BSA,
};
use bsa_reader::data::{
    bstring, bzstring, effective_compression, folder_block_end, get_compressed_file_block,
    get_file_names, get_file_record_block, get_folder_records, get_header,
    get_uncompressed_file_block, hash, serialize_header, ulong, zstring, BSAParser,
};

fn push32(v: &mut Vec<u8>, x: u32, big_endian: bool) {
    if big_endian {
        v.extend_from_slice(&x.to_be_bytes());
    } else {
        v.extend_from_slice(&x.to_le_bytes());
    }
}

fn push64(v: &mut Vec<u8>, x: u64, big_endian: bool) {
    if big_endian {
        v.extend_from_slice(&x.to_be_bytes());
    } else {
        v.extend_from_slice(&x.to_le_bytes());
    }
}

fn header(flags: u32, folders: u32, files: u32, tfnl: u32) -> Header {
    Header {
        file_id: ['B', 'S', 'A', '\0'],
        version: 103,
        offset: 36,
        archive_flags: flags,
        folder_count: folders,
        file_count: files,
        total_folder_name_length: 4,
        total_file_name_length: tfnl,
        file_flags: 0,
    }
}

/// Two named folders, "a" with one file and "b" with two, all stored raw.
fn two_folder_archive(big_endian: bool) -> Vec<u8> {
    let flags = if big_endian { 0x1 | 0x40 } else { 0x1 };
    let mut d = serialize_header(&header(flags, 2, 3, 18));
    // folder table: blocks at 68 and 87, declared with the name-table length added
    push64(&mut d, 0xA, big_endian);
    push32(&mut d, 1, big_endian);
    push32(&mut d, 68 + 18, big_endian);
    push64(&mut d, 0xB, big_endian);
    push32(&mut d, 2, big_endian);
    push32(&mut d, 87 + 18, big_endian);
    assert_eq!(d.len(), 68);
    d.extend_from_slice(&[2, b'a', 0]);
    push64(&mut d, 100, big_endian);
    push32(&mut d, 3, big_endian);
    push32(&mut d, 140, big_endian);
    assert_eq!(d.len(), 87);
    d.extend_from_slice(&[2, b'b', 0]);
    push64(&mut d, 200, big_endian);
    push32(&mut d, 2, big_endian);
    push32(&mut d, 143, big_endian);
    push64(&mut d, 300, big_endian);
    push32(&mut d, 4, big_endian);
    push32(&mut d, 145, big_endian);
    assert_eq!(d.len(), 122);
    d.extend_from_slice(b"x.txt\0y.txt\0z.txt\0");
    assert_eq!(d.len(), 140);
    d.extend_from_slice(b"abcdewxyz");
    d
}

#[test]
fn header_round_trip() {
    let h = header(0x7, 3, 9, 120);
    let bytes = serialize_header(&h);
    assert_eq!(bytes.len(), 36);
    assert_eq!(get_header(&bytes), Ok(h));
}

#[test]
fn header_bad_magic() {
    let mut bytes = serialize_header(&header(0, 0, 0, 0));
    bytes[2] = b'B';
    assert_eq!(get_header(&bytes), Err(BsaError::BadMagic));
}

#[test]
fn header_too_small() {
    let bytes = serialize_header(&header(0, 0, 0, 0));
    assert_eq!(get_header(&bytes[..35]), Err(BsaError::TooSmall));
}

#[test]
fn header_wrong_size_checked_before_version() {
    let mut h = header(0, 0, 0, 0);
    h.offset = 40;
    h.version = 104;
    assert_eq!(get_header(&serialize_header(&h)), Err(BsaError::UnsupportedHeaderSize));
}

#[test]
fn header_wrong_version() {
    let mut h = header(0, 0, 0, 0);
    h.version = 104;
    assert_eq!(get_header(&serialize_header(&h)), Err(BsaError::UnsupportedVersion));
}

#[test]
fn header_ignores_big_endian_flag() {
    let h = header(0x40, 1, 2, 3);
    assert_eq!(get_header(&serialize_header(&h)), Ok(h));
}

#[test]
fn integers_both_orders() {
    let b = [1u8, 2, 3, 4, 5, 6, 7, 8];
    assert_eq!(ulong(&b, false), Some(0x04030201));
    assert_eq!(ulong(&b, true), Some(0x01020304));
    assert_eq!(hash(&b, false), Some(0x0807060504030201));
    assert_eq!(hash(&b, true), Some(0x0102030405060708));
    assert_eq!(ulong(&b[..3], false), None);
    assert_eq!(hash(&b[..7], true), None);
}

#[test]
fn bzstring_round_trip() {
    let r = bzstring(&[6, b'h', b'e', b'l', b'l', b'o', 0, 99]);
    assert_eq!(r, Some(("hello".to_string(), 7)));
}

#[test]
fn bstring_round_trip() {
    let r = bstring(&[5, b'h', b'e', b'l', b'l', b'o', 99]);
    assert_eq!(r, Some(("hello".to_string(), 6)));
}

#[test]
fn zstring_round_trip() {
    let r = zstring(b"hello\0world\0");
    assert_eq!(r, Some(("hello".to_string(), 6)));
    assert_eq!(zstring(b"\0"), Some((String::new(), 1)));
}

#[test]
fn utf8_multibyte_strings() {
    let e = "é".as_bytes();
    let mut z = e.to_vec();
    z.push(0);
    assert_eq!(zstring(&z), Some(("é".to_string(), 3)));
    let b = [2u8, e[0], e[1]];
    assert_eq!(bstring(&b), Some(("é".to_string(), 3)));
}

#[test]
fn strings_reject_bad_input() {
    assert_eq!(bzstring(&[]), None);
    assert_eq!(bzstring(&[0]), None);
    assert_eq!(bzstring(&[6, b'h', b'i']), None);
    assert_eq!(bstring(&[5, b'h']), None);
    assert_eq!(zstring(b"no terminator"), None);
    assert_eq!(zstring(&[0xff, 0xfe, 0]), None);
    assert_eq!(bstring(&[2, 0xc3, 0x28]), None);
}

#[test]
fn archive_flag_bits() {
    assert_eq!(ArchiveFlags::NamedDirs.val(), 0x1);
    assert_eq!(ArchiveFlags::NamedFiles.val(), 0x2);
    assert_eq!(ArchiveFlags::DefComp.val(), 0x4);
    assert_eq!(ArchiveFlags::BigEnd.val(), 0x40);
    assert_eq!(ArchiveFlags::Unknown3.val(), 0x400);
}

#[test]
fn compression_toggle_flips_default() {
    assert_eq!(effective_compression(1 << 30, true), false);
    assert_eq!(effective_compression(0, false), false);
    assert_eq!(effective_compression(0, true), true);
    assert_eq!(effective_compression((1 << 30) | 12, false), true);
}

#[test]
fn folder_records_read_and_truncated() {
    let d = two_folder_archive(false);
    let v = get_folder_records(&d, 2, false).unwrap();
    assert_eq!(v[0], FolderRecord { name_hash: 0xA, count: 1, offset: 86 });
    assert_eq!(v[1], FolderRecord { name_hash: 0xB, count: 2, offset: 105 });
    assert_eq!(get_folder_records(&d[..60], 2, false), Err(BsaError::TruncatedInput));
}

#[test]
fn name_block_start_of_named_folder() {
    let tfnl = 7u32;
    let mut d = vec![0u8; 10];
    d.extend_from_slice(&[6, b'f', b'o', b'l', b'd', b'r', 0]);
    for k in 0..3u64 {
        push64(&mut d, k, false);
        push32(&mut d, 1, false);
        push32(&mut d, 0, false);
    }
    let folder = FolderRecord { name_hash: 1, count: 3, offset: tfnl + 10 };
    assert_eq!(folder_block_end(&d, &folder, tfnl, true), Ok(65));
    let block = get_file_record_block(&d, &folder, tfnl, true, false).unwrap();
    assert_eq!(block.name, Some("foldr".to_string()));
    assert_eq!(block.file_records.len(), 3);
    assert_eq!(block.file_records[2], FileRecord { name_hash: 2, size: 1, offset: 0 });
    assert_eq!(folder_block_end(&d, &folder, tfnl, false), Ok(58));
}

#[test]
fn file_record_block_errors() {
    let d = vec![0u8; 20];
    let below = FolderRecord { name_hash: 1, count: 0, offset: 3 };
    assert_eq!(get_file_record_block(&d, &below, 4, false, false).err(), Some(BsaError::TruncatedInput));
    let long = FolderRecord { name_hash: 1, count: 2, offset: 0 };
    assert_eq!(get_file_record_block(&d, &long, 0, false, false).err(), Some(BsaError::TruncatedInput));
    assert_eq!(get_file_record_block(&d, &long, 0, true, false).err(), Some(BsaError::InvalidEncoding));
}

#[test]
fn file_names_in_order_and_truncated() {
    let d = b"one\0two\0three\0".to_vec();
    assert_eq!(get_file_names(&d, 0, 3), Ok(vec!["one".to_string(), "two".to_string(), "three".to_string()]));
    assert_eq!(get_file_names(&d, 4, 1), Ok(vec!["two".to_string()]));
    assert_eq!(get_file_names(&d, 0, 4), Err(BsaError::TruncatedInput));
    assert_eq!(get_file_names(&d, 100, 0), Ok(vec![]));
}

#[test]
fn data_blocks_raw_and_compressed() {
    let mut d = vec![9u8, 9];
    push32(&mut d, 1000, false);
    d.extend_from_slice(&[1, 2, 3]);
    let rec = FileRecord { name_hash: 5, size: 7 | (1 << 30), offset: 2 };
    let c = get_compressed_file_block(&d, &rec, false, false).unwrap();
    assert_eq!(c.hash, 5);
    assert_eq!(c.original_size, 1000);
    assert_eq!(c.data, vec![1, 2, 3]);
    assert_eq!(c.name, None);
    let u = get_uncompressed_file_block(&d, &rec, false).unwrap();
    assert_eq!(u.data, d[2..9].to_vec());
    let long = FileRecord { name_hash: 5, size: 8, offset: 2 };
    assert_eq!(get_uncompressed_file_block(&d, &long, false).err(), Some(BsaError::TruncatedInput));
    let short = FileRecord { name_hash: 5, size: 3, offset: 2 };
    assert_eq!(get_compressed_file_block(&d, &short, false, false).err(), Some(BsaError::TruncatedInput));
}

#[test]
fn data_block_with_embedded_name() {
    let d = vec![2u8, b'p', b'q', 7, 8];
    let rec = FileRecord { name_hash: 1, size: 5, offset: 0 };
    let u = get_uncompressed_file_block(&d, &rec, true).unwrap();
    assert_eq!(u.name, Some("pq".to_string()));
    assert_eq!(u.data, vec![7, 8]);
}

#[test]
fn parse_two_folder_archive_pairs_names_with_records() {
    for big_endian in [false, true] {
        let mut parser = BSAParser::new(two_folder_archive(big_endian));
        let bsa = parser.parse().unwrap();
        assert_eq!(bsa.file_names, vec!["x.txt".to_string(), "y.txt".to_string(), "z.txt".to_string()]);
        assert_eq!(bsa.file_names.len(), bsa.header.file_count as usize);
        assert_eq!(bsa.file_record_blocks[0].name, Some("a".to_string()));
        assert_eq!(bsa.file_record_blocks[1].name, Some("b".to_string()));
        assert_eq!(bsa.compressed_file_blocks.len(), 0);
        assert_eq!(bsa.uncompressed_file_blocks[0].data, b"abc".to_vec());
        assert_eq!(bsa.uncompressed_file_blocks[1].data, b"de".to_vec());
        assert_eq!(bsa.uncompressed_file_blocks[2].data, b"wxyz".to_vec());
        let plan = bsa.export_plan();
        let pairs: Vec<(usize, usize, usize)> = plan.iter().map(|e| (e.folder_index, e.record_index, e.file_index)).collect();
        assert_eq!(pairs, vec![(0, 0, 0), (1, 0, 1), (1, 1, 2)]);
        let hashes: Vec<u64> = plan.iter().map(|e| bsa.file_record_blocks[e.folder_index].file_records[e.record_index].name_hash).collect();
        assert_eq!(hashes, vec![100, 200, 300]);
        assert_eq!(plan[2].block, Ok(BlockRef::Uncompressed(2)));
    }
}

#[test]
fn parse_compressed_record_too_short() {
    let mut d = two_folder_archive(false);
    d[12] = 0x1 | 0x4;
    // the first record is now compressed but holds three bytes: too few for its original size
    assert_eq!(BSAParser::new(d).parse().err(), Some(BsaError::TruncatedInput));
}

#[test]
fn parse_default_compression_splits_blocks() {
    let mut d = serialize_header(&header(0x4, 1, 2, 4));
    push64(&mut d, 1, false);
    push32(&mut d, 2, false);
    push32(&mut d, 52 + 4, false);
    push64(&mut d, 10, false);
    push32(&mut d, 6, false);
    push32(&mut d, 88, false);
    push64(&mut d, 20, false);
    push32(&mut d, 2 | (1 << 30), false);
    push32(&mut d, 94, false);
    assert_eq!(d.len(), 84);
    d.extend_from_slice(b"c\0r\0");
    push32(&mut d, 50, false);
    d.extend_from_slice(&[0xaa, 0xbb, 7, 8]);
    let bsa = BSAParser::new(d).parse().unwrap();
    assert_eq!(bsa.compressed_file_blocks.len(), 1);
    assert_eq!(bsa.compressed_file_blocks[0].hash, 10);
    assert_eq!(bsa.compressed_file_blocks[0].original_size, 50);
    assert_eq!(bsa.compressed_file_blocks[0].data, vec![0xaa, 0xbb]);
    assert_eq!(bsa.uncompressed_file_blocks.len(), 1);
    assert_eq!(bsa.uncompressed_file_blocks[0].data, vec![7, 8]);
    assert_eq!(bsa.file_names, vec!["c".to_string(), "r".to_string()]);
    let plan = bsa.export_plan();
    assert_eq!(plan[0].block, Ok(BlockRef::Compressed(0)));
    assert_eq!(plan[1].block, Ok(BlockRef::Uncompressed(0)));
}

#[test]
fn parse_reports_header_errors() {
    let mut d = two_folder_archive(false);
    d[0] = b'X';
    assert_eq!(BSAParser::new(d).parse().err(), Some(BsaError::BadMagic));
    assert_eq!(BSAParser::new(vec![0; 10]).parse().err(), Some(BsaError::TooSmall));
}

#[test]
fn parse_truncated_name_table() {
    let d = two_folder_archive(false);
    let mut parser = BSAParser::new(d[..130].to_vec());
    assert_eq!(parser.parse().err(), Some(BsaError::TruncatedInput));
}

#[test]
fn parse_with_embedded_names() {
    let mut d = serialize_header(&header(0, 1, 1, 2));
    push64(&mut d, 1, false);
    push32(&mut d, 1, false);
    push32(&mut d, 52 + 2, false);
    push64(&mut d, 77, false);
    push32(&mut d, 4, false);
    push32(&mut d, 70, false);
    assert_eq!(d.len(), 68);
    d.extend_from_slice(b"f\0");
    d.extend_from_slice(&[1, b'n', 5, 6]);
    let mut parser = BSAParser::new(d).with_embedded_names(true);
    let bsa = parser.parse().unwrap();
    assert_eq!(bsa.file_names, vec!["f".to_string()]);
    assert_eq!(bsa.uncompressed_file_blocks[0].name, Some("n".to_string()));
    assert_eq!(bsa.uncompressed_file_blocks[0].data, vec![5, 6]);
}

#[test]
fn export_plan_reports_missing_hash_per_file() {
    let bsa = BSA {
        header: header(0, 1, 3, 0),
        folder_records: vec![FolderRecord { name_hash: 1, count: 3, offset: 0 }],
        file_record_blocks: vec![FileRecordBlock {
            name: None,
            file_records: vec![
                FileRecord { name_hash: 10, size: 1, offset: 0 },
                FileRecord { name_hash: 99, size: 1, offset: 0 },
                FileRecord { name_hash: 20, size: 1, offset: 0 },
            ],
        }],
        compressed_file_blocks: vec![],
        uncompressed_file_blocks: vec![
            UncompressedFileBlock { hash: 20, name: None, data: vec![2] },
            UncompressedFileBlock { hash: 10, name: None, data: vec![1] },
        ],
        file_names: vec!["a".to_string(), "b".to_string(), "c".to_string()],
    };
    let plan = bsa.export_plan();
    assert_eq!(plan.len(), 3);
    assert_eq!(plan[0].block, Ok(BlockRef::Uncompressed(1)));
    assert_eq!(plan[1].block, Err(BsaError::UnresolvedContentHash));
    assert_eq!(plan[2].block, Ok(BlockRef::Uncompressed(0)));
    assert_eq!(plan[2].file_index, 2);
}

#[test]
fn folder_path_uses_forward_slashes() {
    assert_eq!(folder_path("meshes\\armor\\iron"), "meshes/armor/iron");
    assert_eq!(folder_path("plain"), "plain");
}
