use talon::overlay::hash::{xxh64_from_path, xxh64_lower};
use talon::overlay::wad::archive::{names_of, overlap_keys, Archive, PackedFile};
use talon::overlay::wad::entry::{
    decompress_head, decompress_zstd_hack, detect_extension, find_zstd_magic, is_audio,
    DetectedKind, EntryData,
};
use talon::overlay::wad::marks::Marks;
use talon::overlay::wad::toc::{
    parse_v3_entry, write_header, write_v34_entry, EntryLayout, EntryLoc, EntryType, Toc, WadError,
};

fn bytes_of(archive: &Archive, marks: &mut Marks) -> Vec<u8> {
    match archive.to_bytes(marks) {
        Ok(b) => b,
        Err(_) => panic!("the archive can be written"),
    }
}

fn ok<T>(r: Result<T, WadError>) -> T {
    match r {
        Ok(t) => t,
        Err(e) => panic!("unexpected error {e:?}"),
    }
}

fn archive(marks: &mut Marks, entries: Vec<(u64, &[u8])>) -> Archive {
    let mut a = Archive::default();
    for (name, bytes) in entries {
        a.insert(name, EntryData::from_raw(bytes.to_vec(), 0, marks));
    }
    a
}

fn content(archive: &Archive, name: u64) -> Vec<u8> {
    let mut marks = Marks::new();
    match archive.entries.get(&name) {
        Some(e) => ok(e.into_decompressed(&mut marks)).bytes().to_vec(),
        None => panic!("the archive has no such entry"),
    }
}

#[test]
fn paths_hash_without_case() {
    assert_eq!(xxh64_lower("ABC"), xxhash_rust::xxh64::xxh64(b"abc", 0));
    assert_eq!(xxh64_from_path("Assets/X.dds"), xxh64_lower("assets/x.dds"));
    assert_eq!(xxh64_from_path("../assets/x.dds"), xxh64_lower("assets/x.dds"));
    assert_ne!(xxh64_lower("a"), xxh64_lower("b"));
}

#[test]
fn hash_names_stand_for_themselves() {
    assert_eq!(xxh64_from_path("00000000000000ff"), 0xFF);
    assert_eq!(xxh64_from_path("./00000000000000FF.bin"), 0xFF);
    assert_eq!(xxh64_from_path("ff"), xxh64_lower("ff"));
}

#[test]
fn toc_errors_are_told_apart() {
    let mut marks = Marks::new();
    let good = bytes_of(&archive(&mut marks, vec![(1, b"x")]), &mut marks);
    let err = |b: &[u8]| Toc::read(b).err();
    assert_eq!(err(b"RW"), Some(WadError::TooSmall));
    assert_eq!(err(&[0, 0, 0, 0]), Some(WadError::ZeroInitialized));
    assert_eq!(err(b"XYZW"), Some(WadError::BadMagic { first: b'X', second: b'Y' }));
    assert_eq!(err(&[0x52, 0x57, 2, 1]), Some(WadError::UnsupportedVersion { major: 2, minor: 1 }));
    assert_eq!(err(&good[..100]), Some(WadError::HeaderTruncated { len: 100 }));
    assert_eq!(
        err(&good[..280]),
        Some(WadError::TocTruncated { count: 1, need: 304, have: 280 })
    );
    let mut kind = good.clone();
    kind[292] = 9;
    assert_eq!(err(&kind), Some(WadError::UnknownEntryType { nibble: 9 }));
    assert_eq!(err(&good), None);
}

#[test]
fn records_depend_on_the_version() {
    assert_eq!(EntryLayout::for_minor(0), EntryLayout::V3_0);
    assert_eq!(EntryLayout::for_minor(3), EntryLayout::V3_1);
    assert_eq!(EntryLayout::for_minor(4), EntryLayout::V3_4);
    let loc = EntryLoc {
        entry_type: EntryType::ZstdMulti,
        subchunk_count: 5,
        subchunk_index: 0x01_0203,
        offset: 1000,
        size: 20,
        size_decompressed: 40,
        checksum: 0xDEAD_BEEF,
    };
    let mut record = vec![0u8; 32];
    write_v34_entry(&mut record, 0x1122, &loc);
    let back = ok(parse_v3_entry(&record, 0, EntryLayout::V3_4));
    assert_eq!(back.name, 0x1122);
    assert_eq!(back.loc, loc);
    assert_eq!(EntryType::from_nibble(0x54), Ok(EntryType::ZstdMulti));
    assert_eq!(EntryType::ZstdMulti.code(), 4);
}

#[test]
fn headers_hold_signature_checksum_and_count() {
    let mut out = vec![0xAAu8; 300];
    let mut signature = [0u8; 256];
    signature[0] = 7;
    write_header(&mut out, &signature, [1, 2, 3, 4, 5, 6, 7, 8], 9);
    assert_eq!(&out[..4], &[0x52, 0x57, 3, 4]);
    assert_eq!(out[4], 7);
    assert_eq!(&out[260..268], &[1, 2, 3, 4, 5, 6, 7, 8]);
    assert_eq!(&out[268..272], &[9, 0, 0, 0]);
    assert_eq!(out[272], 0xAA);
}

fn gzip(bytes: &[u8]) -> Vec<u8> {
    let mut encoder = flate2::write::GzEncoder::new(Vec::new(), flate2::Compression::default());
    assert!(std::io::Write::write_all(&mut encoder, bytes).is_ok());
    match encoder.finish() {
        Ok(v) => v,
        Err(_) => panic!("any bytes can be compressed"),
    }
}

#[test]
fn gzip_entries_are_compressed_anew() {
    let mut marks = Marks::new();
    let plain = b"hello hello hello hello";
    let zipped = EntryData::from_gzip(gzip(plain), 23, 0, &mut marks);
    let packed = ok(zipped.into_compressed(&mut marks));
    assert_eq!(packed.entry_type(), EntryType::Zstd);
    assert_eq!(packed.size_decompressed(), 23);
    assert_eq!(ok(packed.into_decompressed(&mut marks)).bytes(), plain);
    let declared_short = EntryData::from_gzip(gzip(plain), 22, 0, &mut marks);
    assert_eq!(declared_short.into_compressed(&mut marks).err(), Some(WadError::GzipDecompress));
    let mut cut = gzip(plain);
    cut.pop();
    let cut = EntryData::from_gzip(cut, 23, 0, &mut marks);
    assert_eq!(cut.into_compressed(&mut marks).err(), Some(WadError::GzipDecompress));
}

#[test]
fn best_form_keeps_the_content() {
    let mut marks = Marks::new();
    let text = EntryData::from_raw(b"text text text text".to_vec(), 0, &mut marks);
    let best = ok(text.into_optimal(&mut marks));
    assert_eq!(best.entry_type(), EntryType::Zstd);
    assert!(best.is_optimal(&marks));
    assert_eq!(ok(best.into_decompressed(&mut marks)).bytes(), text.bytes());
    assert!(!text.is_optimal(&marks));
    let marked = EntryData::from_gzip(vec![1, 2], 5, 0, &mut marks);
    assert_eq!(marked.into_optimal(&mut marks).err(), Some(WadError::GzipUnsupported));
    marked.mark_optimal(&mut marks);
    let kept = ok(marked.into_optimal(&mut marks));
    assert_eq!(kept.entry_type(), EntryType::Gzip);
    assert_eq!(kept.bytes(), &[1, 2]);
}

#[test]
fn clones_share_their_mark() {
    let mut marks = Marks::new();
    let entry = EntryData::from_raw(b"text text text text".to_vec(), 7, &mut marks);
    let other = EntryData::from_raw(b"text text text text".to_vec(), 7, &mut marks);
    let before = entry.clone();
    assert!(!entry.is_optimal(&marks));
    entry.mark_optimal(&mut marks);
    let after = entry.clone();
    assert!(entry.is_optimal(&marks));
    assert!(before.is_optimal(&marks));
    assert!(after.is_optimal(&marks));
    assert!(!other.is_optimal(&marks));
    for e in [&entry, &before] {
        assert_eq!(e.entry_type(), EntryType::Raw);
        assert_eq!(e.bytes(), b"text text text text");
        assert_eq!(e.size_decompressed(), 19);
        assert_eq!((e.subchunk_count(), e.subchunk_index()), (0, 0));
        assert_eq!(e.checksum(), 7);
    }
    // A clone that was made before is stored as it is.
    assert_eq!(ok(before.into_optimal(&mut marks)).entry_type(), EntryType::Raw);
    assert_eq!(ok(other.into_optimal(&mut marks)).entry_type(), EntryType::Zstd);
    assert!(!other.is_optimal(&marks));
}

#[test]
fn entries_in_their_best_form_are_marked_themselves() {
    let mut marks = Marks::new();
    let link = EntryData::from_link(b"target".to_vec(), 3, &mut marks);
    let bank = EntryData::from_raw(b"BKHD0000000000000000".to_vec(), 0, &mut marks);
    let text = EntryData::from_raw(b"text text text text".to_vec(), 0, &mut marks);
    let packed = ok(text.into_compressed(&mut marks));
    for e in [&link, &bank, &packed] {
        let clone = e.clone();
        assert!(!clone.is_optimal(&marks));
        assert!(e.into_optimal(&mut marks).is_ok());
        assert!(clone.is_optimal(&marks));
    }
    assert!(ok(text.into_optimal(&mut marks)).is_optimal(&marks));
    assert!(!text.is_optimal(&marks));
}

#[test]
fn records_of_one_checksum_share_their_mark() {
    let mut marks = Marks::new();
    let a = archive(&mut marks, vec![(1, b"same same same same"), (2, b"same same same same"), (3, b"other")]);
    let bytes = bytes_of(&a, &mut marks);
    let back = ok(Archive::read_from_bytes(&bytes, &mut marks));
    let entry = |n: u64| match back.entries.get(&n) {
        Some(e) => e.clone(),
        None => panic!("the entry is there"),
    };
    assert!(!entry(1).is_optimal(&marks));
    entry(1).mark_optimal(&mut marks);
    assert!(entry(2).is_optimal(&marks));
    assert!(!entry(3).is_optimal(&marks));
}

#[test]
fn writing_marks_what_is_stored_as_it_is() {
    let mut marks = Marks::new();
    let mut a = archive(&mut marks, vec![(1, b"text text text text")]);
    let link = EntryData::from_link(b"target".to_vec(), 3, &mut marks);
    a.insert(2, link.clone());
    assert!(!link.is_optimal(&marks));
    let bytes = bytes_of(&a, &mut marks);
    assert!(link.is_optimal(&marks));
    assert!(!a.entries[&1].is_optimal(&marks));
    assert_eq!(bytes_of(&a, &mut marks), bytes);
}

#[test]
fn compression_keeps_the_content() {
    let mut marks = Marks::new();
    let plain = EntryData::from_raw(b"hello hello hello hello".to_vec(), 0, &mut marks);
    let packed = ok(plain.into_compressed(&mut marks));
    assert_eq!(packed.entry_type(), EntryType::Zstd);
    assert_eq!(packed.size_decompressed(), 23);
    assert_ne!(packed.bytes(), plain.bytes());
    let back = ok(packed.into_decompressed(&mut marks));
    assert_eq!(back.entry_type(), EntryType::Raw);
    assert_eq!(back.bytes(), plain.bytes());
    let link = EntryData::from_link(b"target".to_vec(), 3, &mut marks);
    assert_eq!(ok(link.into_compressed(&mut marks)).entry_type(), EntryType::Link);
    assert_eq!(ok(link.into_optimal(&mut marks)).bytes(), b"target");
}

#[test]
fn checksums_are_known_or_computed() {
    let mut marks = Marks::new();
    assert_eq!(EntryData::from_raw(b"abc".to_vec(), 77, &mut marks).checksum(), 77);
    assert_eq!(
        EntryData::from_raw(b"abc".to_vec(), 0, &mut marks).checksum(),
        xxhash_rust::xxh3::xxh3_64(b"abc")
    );
}

#[test]
fn audio_stays_unpacked() {
    let mut marks = Marks::new();
    let bank = EntryData::from_raw(b"BKHD0000000000000000".to_vec(), 0, &mut marks);
    let best = ok(bank.into_optimal(&mut marks));
    assert_eq!(best.entry_type(), EntryType::Raw);
    assert!(best.is_optimal(&marks));
    let packed = ok(bank.into_compressed(&mut marks));
    assert_eq!(ok(packed.into_optimal(&mut marks)).entry_type(), EntryType::Raw);
    let text = EntryData::from_raw(b"some text".to_vec(), 0, &mut marks);
    let best = ok(text.into_optimal(&mut marks));
    assert_eq!(best.entry_type(), EntryType::Zstd);
    assert_eq!(ok(best.into_optimal(&mut marks)).bytes(), best.bytes());
    assert_eq!(detect_extension(b"BKHD"), DetectedKind::Bnk);
    assert_eq!(detect_extension(b"r3d2...."), DetectedKind::Wpk);
    assert_eq!(detect_extension(b"PROP"), DetectedKind::Other);
    assert!(is_audio(DetectedKind::Wpk));
    assert!(!is_audio(DetectedKind::Other));
}

#[test]
fn entries_that_cannot_be_unpacked_say_why() {
    let mut marks = Marks::new();
    let gzip = EntryData::from_gzip(vec![1, 2], 5, 0, &mut marks);
    assert_eq!(gzip.into_decompressed(&mut marks).err(), Some(WadError::GzipUnsupported));
    let bad = EntryData::from_zstd(vec![1, 2, 3], 5, 0, &mut marks);
    assert_eq!(bad.into_decompressed(&mut marks).err(), Some(WadError::ZstdDecompress));
    let packed = match zstd::bulk::compress(b"abcdef", 3) {
        Ok(v) => v,
        Err(_) => panic!("zstd compresses any bytes"),
    };
    let wrong = EntryData::from_zstd_multi(packed.clone(), 9, 0, 0, 0, &mut marks);
    assert_eq!(wrong.into_decompressed(&mut marks).err(), Some(WadError::SizeMismatch { expected: 9, got: 6 }));
    let huge = EntryData::from_zstd(packed, u64::MAX, 0, &mut marks);
    assert_eq!(huge.into_decompressed(&mut marks).err(), Some(WadError::SizeOverflow { size: u64::MAX }));
}

#[test]
fn multi_frame_entries_have_a_raw_start() {
    let mut marks = Marks::new();
    let frame = match zstd::bulk::compress(b"packed part", 3) {
        Ok(v) => v,
        Err(_) => panic!("zstd compresses any bytes"),
    };
    let mut stored = b"raw ".to_vec();
    stored.extend_from_slice(&frame);
    assert_eq!(find_zstd_magic(&stored), 4);
    assert_eq!(find_zstd_magic(b"none"), 0);
    assert_eq!(decompress_zstd_hack(&stored, 15), Ok(b"raw packed part".to_vec()));
    assert_eq!(
        decompress_zstd_hack(&stored, 3),
        Err(WadError::PrefixTooLong { prefix: 4, total: 3 })
    );
    let entry = EntryData::from_zstd_multi(stored.clone(), 15, 0, 2, 6, &mut marks);
    assert_eq!(entry.subchunk_count(), 2);
    assert_eq!(entry.subchunk_index(), 6);
    assert_eq!(ok(entry.into_decompressed(&mut marks)).bytes(), b"raw packed part");
    assert_eq!(decompress_head(&stored, EntryType::ZstdMulti, 7), Ok(b"raw pac".to_vec()));
    assert_eq!(decompress_head(&frame, EntryType::Zstd, 4), Ok(b"pack".to_vec()));
}

#[test]
fn payloads_outside_the_file_are_refused() {
    let mut marks = Marks::new();
    let loc = EntryLoc {
        entry_type: EntryType::Raw,
        subchunk_count: 0,
        subchunk_index: 0,
        offset: 2,
        size: 3,
        size_decompressed: 3,
        checksum: 0,
    };
    assert_eq!(ok(EntryData::from_loc(b"abcde", &loc, &mut marks)).bytes(), b"cde");
    assert_eq!(
        EntryData::from_loc(b"abcd", &loc, &mut marks).err(),
        Some(WadError::PayloadOutOfBounds { start: 2, end: 5, len: 4 })
    );
    let far = EntryLoc { offset: u64::MAX, ..loc };
    assert_eq!(EntryData::from_loc(b"abcd", &far, &mut marks).err(), Some(WadError::PayloadOverflow));
}

#[test]
fn archives_survive_a_file() {
    let mut marks = Marks::new();
    let mut a = archive(&mut marks, vec![(30, b"thirty thirty thirty"), (10, b"ten"), (20, b"ten")]);
    a.signature[5] = 9;
    let bytes = bytes_of(&a, &mut marks);
    let back = ok(Archive::read_from_bytes(&bytes, &mut marks));
    assert_eq!(names_of(&back.entries), vec![10, 20, 30]);
    assert_eq!(back.signature[5], 9);
    assert_eq!(content(&back, 10), b"ten");
    assert_eq!(content(&back, 30), b"thirty thirty thirty");
    let toc = ok(Toc::read(&bytes));
    assert_eq!((toc.major, toc.minor), (3, 4));
    // Equal payloads are stored once.
    assert_eq!(toc.entries[0].loc.offset, toc.entries[1].loc.offset);
    assert_ne!(toc.entries[0].loc.offset, toc.entries[2].loc.offset);
}

#[test]
fn unchanged_archives_are_not_rewritten() {
    let mut marks = Marks::new();
    let a = archive(&mut marks, vec![(1, b"one"), (2, b"two")]);
    let bytes = bytes_of(&a, &mut marks);
    assert_eq!(a.header(), bytes[..272].to_vec());
    assert_eq!(a.write_to_file(Some(&bytes[..272]), &mut marks), Ok(None));
    assert_eq!(a.write_to_file(None, &mut marks), Ok(Some(bytes.clone())));
    assert_eq!(a.write_to_file(Some(b"other"), &mut marks), Ok(Some(bytes.clone())));
    let kept = archive(&mut marks, vec![(1, b"one"), (2, b"two")]);
    kept.mark_optimal(&mut marks);
    let kept_bytes = bytes_of(&kept, &mut marks);
    let back = ok(Archive::read_from_bytes(&kept_bytes, &mut marks));
    assert_eq!(back.write_to_file(Some(&kept_bytes[..272]), &mut marks), Ok(None));
    // The header's checksum covers magic, version, names and checksums.
    let mut hashed = vec![0x52, 0x57, 3, 4];
    for (name, body) in [(1u64, b"one"), (2u64, b"two")] {
        hashed.extend_from_slice(&name.to_le_bytes());
        hashed.extend_from_slice(&xxhash_rust::xxh3::xxh3_64(body).to_le_bytes());
    }
    assert_eq!(&bytes[260..268], &xxhash_rust::xxh3::xxh3_64(&hashed).to_le_bytes());
}

#[test]
fn archives_merge_and_overlap() {
    let mut marks = Marks::new();
    let lower = archive(&mut marks, vec![(1, b"a"), (2, b"b"), (3, b"c")]);
    let upper = archive(&mut marks, vec![(2, b"B"), (3, b"C"), (4, b"D")]);
    assert_eq!(overlap_keys(&lower.entries, &upper.entries), vec![2, 3]);
    let over = lower.overlapping(&upper);
    assert_eq!(names_of(&over.entries), vec![2, 3]);
    assert_eq!(content(&over, 2), b"B");
    let mut merged = lower;
    merged.merge_in(&upper);
    assert_eq!(names_of(&merged.entries), vec![1, 2, 3, 4]);
    assert_eq!(content(&merged, 3), b"C");
    assert_eq!(content(&merged, 1), b"a");
    assert!(merged.has(4));
    assert!(!merged.has(5));
}

#[test]
fn overlaps_are_visited_in_order() {
    let mut marks = Marks::new();
    let a = archive(&mut marks, vec![(1, b"a"), (5, b"eee"), (9, b"i")]);
    let b = archive(&mut marks, vec![(9, b"II"), (5, b"E")]);
    let seen = a.for_each_overlap(&b, |n: u64, x: &EntryData, y: &EntryData| {
        (n, x.bytes_len(), y.bytes_len())
    });
    assert_eq!(seen, vec![(5, 3, 1), (9, 1, 2)]);
    let mut c = archive(&mut marks, vec![(1, b"a"), (5, b"eee"), (9, b"i")]);
    c.for_each_overlap_mut(&b, |_: u64, _: &EntryData, y: &EntryData| y.clone());
    assert_eq!(content(&c, 9), b"II");
    assert_eq!(content(&c, 1), b"a");
    c.erase_overlap(&b, |n: u64, _: &EntryData, _: &EntryData| n == 5);
    assert_eq!(names_of(&c.entries), vec![1, 9]);
    c.retain(|n: u64, _: &EntryData| n != 1);
    assert_eq!(names_of(&c.entries), vec![9]);
}

#[test]
fn directories_are_packed_by_path() {
    let mut marks = Marks::new();
    let a = Archive::pack_from_directory(&vec![
        PackedFile { path: "Data/A.bin".to_string(), bytes: b"a".to_vec() },
        PackedFile { path: "0000000000000010.bin".to_string(), bytes: b"b".to_vec() },
    ], &mut marks);
    assert_eq!(content(&a, xxh64_lower("data/a.bin")), b"a");
    assert_eq!(content(&a, 0x10), b"b");
    assert_eq!(a.estimate_size(), 272 + 2 * 32 + 2);
}

#[test]
fn marked_archives_are_stored_as_they_are() {
    let mut marks = Marks::new();
    let a = archive(&mut marks, vec![(1, b"plain plain plain plain plain")]);
    a.mark_optimal(&mut marks);
    let back = ok(Archive::read_from_bytes(&bytes_of(&a, &mut marks), &mut marks));
    match back.entries.get(&1) {
        Some(e) => assert_eq!(e.entry_type(), EntryType::Raw),
        None => panic!("the entry is there"),
    }
}
