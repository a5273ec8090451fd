use risenlab::pak::{FileCompression, FileEntry, PakArchive, PakError};
use risenlab::pakmerge::merge_into_full_pak;
use risenlab::pakwrite::{write_archive_from_dir, write_archive_from_dir_with};

fn files_of(list: &[(&str, &[u8])]) -> Vec<(String, Vec<u8>)> {
    list.iter().map(|(p, d)| (p.to_string(), d.to_vec())).collect()
}

fn find<'a>(entries: &'a [FileEntry], path: &str) -> &'a FileEntry {
    entries.iter().find(|e| e.path == path).unwrap_or_else(|| panic!("missing entry {path}"))
}

#[test]
fn write_archive_preserves_subfolder_structure() {
    let files: &[(&str, &[u8])] = &[
        ("root_file.txt", b"root content"),
        ("Level/Nat_Stone.txt", b"stone texture data"),
        ("Animation/Monster/Chicken.txt", b"chicken armor data"),
    ];
    let bytes = write_archive_from_dir(&files_of(files));
    let archive = PakArchive::from_bytes(bytes).unwrap();
    let entries = archive.files();
    assert_eq!(entries.len(), files.len());
    for (rel, content) in files {
        let e = find(&entries, &format!("/{rel}"));
        assert_eq!(&archive.read_file(e).unwrap(), content);
    }
}

#[test]
fn write_archive_with_zlib_round_trips() {
    let payload = vec![0x41u8; 4096];
    let bytes = write_archive_from_dir_with(
        &vec![("_emfx36/Monster/Ogre._xmot".to_string(), payload.clone())],
        FileCompression::ZLib,
    );
    let archive = PakArchive::from_bytes(bytes).unwrap();
    let entries = archive.files();
    assert_eq!(entries.len(), 1);
    let entry = &entries[0];
    assert_eq!(entry.path, "/_emfx36/Monster/Ogre._xmot");
    assert_eq!(entry.compression, FileCompression::ZLib);
    assert_eq!(entry.file_size, payload.len() as u32);
    assert!(entry.data_size < entry.file_size);
    assert_eq!(archive.read_file(entry).unwrap(), payload);
    assert_ne!(archive.read_file_raw(entry).unwrap(), payload);
}

#[test]
fn merge_into_full_pak_overrides_adds_and_deletes() {
    let base = PakArchive::from_bytes(write_archive_from_dir(&files_of(&[
        ("Level/Kept.txt", b"unchanged"),
        ("Level/Changed.txt", b"original"),
        ("Level/Removed.txt", b"gone soon"),
    ])))
    .unwrap();
    let patch = PakArchive::from_bytes(write_archive_from_dir(&files_of(&[
        ("Level/Changed.txt", b"patched!"),
        ("Level/New.txt", b"brand new"),
    ])))
    .unwrap();
    let (merged_bytes, count) = merge_into_full_pak(&base, &patch).unwrap();
    assert_eq!(count, 4);
    let merged = PakArchive::from_bytes(merged_bytes).unwrap();
    let entries = merged.files();
    let read = |p: &str| merged.read_file(find(&entries, p)).unwrap();
    assert_eq!(read("/Level/Kept.txt"), b"unchanged");
    assert_eq!(read("/Level/Changed.txt"), b"patched!");
    assert_eq!(read("/Level/New.txt"), b"brand new");
    assert_eq!(read("/Level/Removed.txt"), b"gone soon");
}

#[test]
fn written_archive_header_is_a_g3v0_volume() {
    let archive = PakArchive::from_bytes(write_archive_from_dir(&files_of(&[("a.txt", b"x")]))).unwrap();
    assert!(archive.is_valid_g3v0());
    let h = archive.get_header();
    assert_eq!(h.version, 1);
    assert_eq!(h.compression, 0);
    assert_eq!(h.data_offset, 48);
}

#[test]
fn zlib_archives_flag_their_header_with_compression_two() {
    let bytes = write_archive_from_dir_with(&files_of(&[("a.txt", b"aaaaaaaa")]), FileCompression::ZLib);
    let archive = PakArchive::from_bytes(bytes).unwrap();
    assert_eq!(archive.get_header().compression, 2);
}

#[test]
fn an_empty_file_list_gives_an_archive_with_no_files() {
    let archive = PakArchive::from_bytes(write_archive_from_dir(&Vec::new())).unwrap();
    assert!(archive.files().is_empty());
}

#[test]
fn short_input_is_refused_as_unexpected_eof() {
    assert_eq!(PakArchive::from_bytes(vec![0u8; 10]).err(), Some(PakError::UnexpectedEof));
    assert_eq!(PakArchive::from_bytes(Vec::new()).err(), Some(PakError::UnexpectedEof));
}

#[test]
fn reading_an_entry_past_the_end_is_unexpected_eof() {
    let archive = PakArchive::from_bytes(write_archive_from_dir(&files_of(&[("a.txt", b"abc")]))).unwrap();
    let mut e = archive.files().remove(0);
    e.data_offset = 1 << 40;
    assert_eq!(archive.read_file(&e).err(), Some(PakError::UnexpectedEof));
}

#[test]
fn a_zlib_entry_that_does_not_inflate_is_invalid_data() {
    let archive = PakArchive::from_bytes(write_archive_from_dir(&files_of(&[("a.txt", b"not zlib at all")]))).unwrap();
    let mut e = archive.files().remove(0);
    e.compression = FileCompression::ZLib;
    assert_eq!(archive.read_file(&e).err(), Some(PakError::InvalidData));
}

#[test]
fn compression_words_map_to_modes() {
    assert_eq!(FileCompression::from_u32(0), FileCompression::Uncompressed);
    assert_eq!(FileCompression::from_u32(1), FileCompression::Auto);
    assert_eq!(FileCompression::from_u32(2), FileCompression::ZLib);
    assert_eq!(FileCompression::from_u32(7), FileCompression::Uncompressed);
    assert_eq!(FileCompression::ZLib.to_u32(), 2);
}

#[test]
fn deleted_bit_is_read_from_the_attributes() {
    let archive = PakArchive::from_bytes(write_archive_from_dir(&files_of(&[("a.txt", b"abc")]))).unwrap();
    let mut e = archive.files().remove(0);
    assert!(!e.is_deleted());
    e.file_attributes |= 0x8000;
    assert!(e.is_deleted());
    let d = e.duplicate();
    assert_eq!(d.path, e.path);
    assert!(d.is_deleted());
}

#[test]
fn merge_keeps_base_entries_in_order_and_appends_patch_only_ones() {
    let base = PakArchive::from_bytes(write_archive_from_dir(&files_of(&[("b.txt", b"1"), ("a.txt", b"2")]))).unwrap();
    let patch = PakArchive::from_bytes(write_archive_from_dir(&files_of(&[("c.txt", b"3")]))).unwrap();
    let (bytes, count) = merge_into_full_pak(&base, &patch).unwrap();
    assert_eq!(count, 3);
    let merged = PakArchive::from_bytes(bytes).unwrap();
    let entries = merged.files();
    assert_eq!(entries.len(), 3);
    assert_eq!(merged.read_file(find(&entries, "/c.txt")).unwrap(), b"3");
}
