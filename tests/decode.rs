use xiso_ex::decoder::{parse_root, sector_count, DecodeStep, TreeDecoder};
use xiso_ex::entry::{scan_sector, DirEntry, ParsedRecord};
use xiso_ex::error::XisoError;
use xiso_ex::layout::{get_iso_meta, header_position, read_header, IsoMeta, OFFSET_XGD2, OFFSET_XGD3};
use xiso_ex::listing::normalize_listing;

fn record(left: u16, right: u16, sector: u32, size: u32, attributes: u8, name: &str) -> Vec<u8> {
    let mut r = Vec::new();
    r.extend_from_slice(&left.to_le_bytes());
    r.extend_from_slice(&right.to_le_bytes());
    r.extend_from_slice(&sector.to_le_bytes());
    r.extend_from_slice(&size.to_le_bytes());
    r.push(attributes);
    r.push(name.len() as u8);
    r.extend_from_slice(name.as_bytes());
    while r.len() % 4 != 0 {
        r.push(0xFF);
    }
    r
}

fn sector_of(records: &[Vec<u8>]) -> Vec<u8> {
    let mut s = Vec::new();
    for r in records {
        s.extend_from_slice(r);
    }
    s.resize(2048, 0xFF);
    s
}

fn header(sector: u32, size: u32) -> Vec<u8> {
    let mut h = b"MICROSOFT*XBOX*MEDIA".to_vec();
    h.extend_from_slice(&sector.to_le_bytes());
    h.extend_from_slice(&size.to_le_bytes());
    h
}

fn entry(name: &str, sector: u32) -> DirEntry {
    DirEntry {
        left_offset: 0,
        right_offset: 0,
        sector,
        size: 1,
        attributes: 0,
        name_len: name.len() as u8,
        name: name.to_string(),
        subdir: None,
    }
}

fn names(v: &[DirEntry]) -> Vec<String> {
    v.iter().map(|e| e.name.clone()).collect()
}

#[test]
fn header_at_first_candidate_wins() {
    let meta = get_iso_meta(&header(4, 2048), &header(9, 9)).unwrap();
    assert_eq!(meta, IsoMeta { root_dir_sector: 4, root_dir_size: 2048, root_offset: OFFSET_XGD2 });
}

#[test]
fn header_at_second_candidate() {
    let meta = get_iso_meta(&[], &header(33, 4096)).unwrap();
    assert_eq!(meta, IsoMeta { root_dir_sector: 33, root_dir_size: 4096, root_offset: OFFSET_XGD3 });
}

#[test]
fn no_header_is_unsupported() {
    let mut bad = header(4, 2048);
    bad[0] = b'X';
    assert_eq!(get_iso_meta(&bad, &[0u8; 28]), Err(XisoError::UnsupportedFormat));
    assert_eq!(get_iso_meta(&header(4, 2048)[..27], &[]), Err(XisoError::UnsupportedFormat));
}

#[test]
fn header_positions() {
    assert_eq!(header_position(OFFSET_XGD2), 0xFD90000 + 0x10000);
    assert_eq!(header_position(OFFSET_XGD3), 0x2080000 + 0x10000);
    assert!(read_header(&header(1, 2), 0).is_some());
}

#[test]
fn sector_count_rounds_up() {
    assert_eq!(sector_count(4096), 2);
    assert_eq!(sector_count(4097), 3);
    assert_eq!(sector_count(0), 0);
    assert_eq!(sector_count(1), 1);
    assert_eq!(sector_count(2048), 1);
    assert_eq!(sector_count(u32::MAX), 2097152);
}

#[test]
fn record_fields_and_padding() {
    let s = sector_of(&[record(0, 0, 10, 100, 0x20, "abcde")]);
    match DirEntry::read_record(&s, 0) {
        ParsedRecord::Entry(e, next) => {
            assert_eq!(e.sector, 10);
            assert_eq!(e.size, 100);
            assert_eq!(e.attributes, 0x20);
            assert_eq!(e.name, "abcde");
            assert_eq!(e.name_len, 5);
            assert!(!e.is_dir());
            // the name ends at 19: padded to 20
            assert_eq!(next, 20);
        }
        _ => panic!("expected a record"),
    }
}

#[test]
fn record_ending_on_boundary_needs_no_padding() {
    let s = sector_of(&[record(0, 0, 1, 1, 0, "ab")]);
    match DirEntry::read_record(&s, 0) {
        ParsedRecord::Entry(_, next) => assert_eq!(next, 16),
        _ => panic!("expected a record"),
    }
}

#[test]
fn directory_attribute() {
    let s = sector_of(&[record(0, 0, 1, 1, 0x10, "d")]);
    match DirEntry::read_record(&s, 0) {
        ParsedRecord::Entry(e, _) => assert!(e.is_dir()),
        _ => panic!("expected a record"),
    }
}

#[test]
fn sentinel_records_end_the_sector() {
    let s = sector_of(&[record(4, 0, 1, 1, 0, "a"), record(0xFFFF, 0, 2, 2, 0, "gone"), record(0, 0, 3, 3, 0, "after")]);
    let v = scan_sector(&s).unwrap();
    assert_eq!(names(&v), vec!["a"]);
    let s = sector_of(&[record(0, 0xFFFF, 2, 2, 0, "gone")]);
    assert!(scan_sector(&s).unwrap().is_empty());
    assert!(matches!(DirEntry::read_record(&s, 0), ParsedRecord::End));
}

#[test]
fn records_follow_at_padded_offsets() {
    let s = sector_of(&[record(0, 0, 1, 10, 0, "one"), record(0, 0, 2, 20, 0, "second"), record(0, 0, 3, 30, 0x10, "x")]);
    let v = scan_sector(&s).unwrap();
    assert_eq!(names(&v), vec!["one", "second", "x"]);
    assert_eq!(v[1].size, 20);
    assert!(v[2].is_dir());
}

#[test]
fn name_past_sector_end_is_broken() {
    // zero bytes read as records with empty names, 16 bytes apart; the last
    // one, at 2032, claims a name of 200 bytes
    let mut t = vec![0u8; 2048];
    t[2032 + 13] = 200;
    assert!(scan_sector(&t).is_none());
    assert!(matches!(DirEntry::read_record(&t, 2032), ParsedRecord::Broken));
    t[2032 + 13] = 2;
    assert_eq!(scan_sector(&t).unwrap().len(), 128);
}

#[test]
fn listing_is_case_insensitive_and_drops_duplicates() {
    let v = normalize_listing(vec![entry("b", 1), entry("C", 2), entry("a", 3), entry("b", 4)]);
    assert_eq!(names(&v), vec!["a", "b", "C"]);
    // the first of the duplicates stays
    assert_eq!(v[1].sector, 1);
}

#[test]
fn listing_ties_are_broken_by_exact_name() {
    let v = normalize_listing(vec![entry("readme", 1), entry("README", 2), entry("Readme", 3)]);
    assert_eq!(names(&v), vec!["README", "Readme", "readme"]);
    assert!(normalize_listing(Vec::new()).is_empty());
}

fn run(mut d: TreeDecoder, image: &dyn Fn(u64) -> Vec<u8>, reads: &mut Vec<u64>) -> Result<Vec<DirEntry>, XisoError> {
    loop {
        match d.next_step() {
            DecodeStep::ReadSector { offset } => {
                reads.push(offset);
                d.feed_sector(&image(offset))?;
            }
            DecodeStep::Finished => return Ok(d.into_listing()),
        }
    }
}

#[test]
fn root_with_one_file_is_read_at_its_sector() {
    let meta = get_iso_meta(&header(4, 2048), &[]).unwrap();
    let root_sector = sector_of(&[record(0, 0, 10, 100, 0x20, "default.xbe")]);
    let base = meta.root_offset;
    let image = move |offset: u64| {
        assert_eq!(offset, base + 4 * 2048);
        root_sector.clone()
    };
    let mut reads = Vec::new();
    let root = run(parse_root(&meta), &image, &mut reads).unwrap();
    assert_eq!(reads, vec![OFFSET_XGD2 + 4 * 2048]);
    assert_eq!(root.len(), 1);
    assert_eq!(root[0].name, "default.xbe");
    assert_eq!(root[0].sector, 10);
    assert_eq!(root[0].size, 100);
    assert!(root[0].subdir.is_none());
}

#[test]
fn subdirectories_are_decoded_depth_first() {
    let meta = IsoMeta { root_dir_sector: 1, root_dir_size: 4096, root_offset: OFFSET_XGD3 };
    let base = OFFSET_XGD3;
    let image = move |offset: u64| -> Vec<u8> {
        let sector = (offset - base) / 2048;
        match sector {
            1 => sector_of(&[record(0, 0, 20, 2048, 0x10, "media"), record(0, 0, 5, 7, 0, "Zeta")]),
            2 => sector_of(&[record(0, 0, 6, 8, 0, "alpha"), record(0, 0, 30, 0, 0x10, "empty"), record(0, 0, 5, 7, 0, "Zeta")]),
            20 => sector_of(&[record(0, 0, 21, 3, 0, "b.wmv"), record(0, 0, 22, 4, 0, "A.wmv")]),
            _ => panic!("unexpected sector {}", sector),
        }
    };
    let mut reads = Vec::new();
    let root = run(parse_root(&meta), &image, &mut reads).unwrap();
    assert_eq!(reads, vec![base + 2048, base + 2 * 2048, base + 20 * 2048]);
    assert_eq!(names(&root), vec!["alpha", "empty", "media", "Zeta"]);
    assert!(root[1].subdir.as_ref().unwrap().is_empty());
    let media = root[2].subdir.as_ref().unwrap();
    assert_eq!(names(media), vec!["A.wmv", "b.wmv"]);
    assert_eq!(media[0].sector, 22);
    assert!(root[3].subdir.is_none());
}

#[test]
fn empty_root_needs_no_read() {
    let meta = IsoMeta { root_dir_sector: 1, root_dir_size: 0, root_offset: OFFSET_XGD2 };
    let d = parse_root(&meta);
    assert!(matches!(d.next_step(), DecodeStep::Finished));
    assert!(d.into_listing().is_empty());
}

#[test]
fn broken_sector_names_its_number() {
    let meta = IsoMeta { root_dir_sector: 7, root_dir_size: 3000, root_offset: OFFSET_XGD2 };
    let mut d = TreeDecoder::new(&meta, 7, 3000);
    assert!(d.feed_sector(&sector_of(&[record(0, 0, 1, 1, 0, "a")])).is_ok());
    match d.next_step() {
        DecodeStep::ReadSector { offset } => assert_eq!(offset, OFFSET_XGD2 + 8 * 2048),
        DecodeStep::Finished => panic!("a second sector is due"),
    }
    let mut t = vec![0u8; 2048];
    t[2032 + 13] = 200;
    assert_eq!(d.feed_sector(&t), Err(XisoError::BrokenDirectory { sector: 8 }));
}

#[test]
fn duplicate_names_are_counted() {
    let meta = IsoMeta { root_dir_sector: 2, root_dir_size: 4096, root_offset: OFFSET_XGD2 };
    let mut d = parse_root(&meta);
    d.feed_sector(&sector_of(&[record(0, 0, 5, 1, 0, "same"), record(0, 0, 6, 1, 0, "other")])).unwrap();
    d.feed_sector(&sector_of(&[record(0, 0, 7, 2, 0, "same")])).unwrap();
    assert!(matches!(d.next_step(), DecodeStep::Finished));
    assert_eq!(d.duplicates_dropped(), 1);
    let root = d.into_listing();
    assert_eq!(names(&root), vec!["other", "same"]);
    assert_eq!(root[1].sector, 5);
}

#[test]
fn invalid_utf8_names_are_replaced() {
    let mut r = record(0, 0, 1, 2, 0, "ab");
    r[15] = 0xFF;
    let s = sector_of(&[r]);
    match DirEntry::read_record(&s, 0) {
        ParsedRecord::Entry(e, next) => {
            assert_eq!(e.name, "a\u{FFFD}");
            assert_eq!(e.name_len, 2);
            assert_eq!(next, 16);
        }
        _ => panic!("expected a record"),
    }
}
