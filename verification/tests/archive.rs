use vfs_core::error::AppError;
use vfs_core::zip::{zip_archive, zip_extract, ZipArchiver, ZipEntry};

fn entry(name: &str, data: &[u8]) -> ZipEntry {
    ZipEntry { name: name.as_bytes().to_vec(), data: data.to_vec() }
}

#[test]
fn zip_round_trip_preserves_files() {
    let entries = vec![entry("a.txt", b"12345"), entry("sub/b.txt", b"abc")];
    let bytes = zip_archive(&entries);
    let back = zip_extract(&bytes).unwrap();
    assert_eq!(back.len(), 2);
    assert_eq!(back[0].name, b"a.txt".to_vec());
    assert_eq!(back[0].data, b"12345".to_vec());
    assert_eq!(back[1].name, b"sub/b.txt".to_vec());
    assert_eq!(back[1].data, b"abc".to_vec());
}

#[test]
fn zip_round_trip_of_an_empty_directory() {
    let entries: Vec<ZipEntry> = Vec::new();
    let bytes = zip_archive(&entries);
    // nothing but the end-of-central-directory record
    assert_eq!(bytes.len(), 22);
    let back = zip_extract(&bytes).unwrap();
    assert!(back.is_empty());
}

#[test]
fn zip_layout_is_the_stored_format() {
    let entries = vec![entry("a", b"abc")];
    let bytes = zip_archive(&entries);
    // local entry + central directory header + end record
    assert_eq!(bytes.len(), (30 + 1 + 3) + (46 + 1) + 22);
    // local file header signature
    assert_eq!(&bytes[0..4], &[0x50, 0x4b, 0x03, 0x04]);
    // stored method
    assert_eq!(&bytes[8..10], &[0, 0]);
    // the checksum the format stores is the real CRC-32 of the data
    let crc = crc32fast::hash(b"abc");
    assert_eq!(&bytes[14..18], &crc.to_le_bytes());
    assert_eq!(crc, 0x352441c2);
    // compressed and uncompressed sizes both equal the data length
    assert_eq!(&bytes[18..22], &3u32.to_le_bytes());
    assert_eq!(&bytes[22..26], &3u32.to_le_bytes());
    // name length, then the name and the bytes themselves
    assert_eq!(&bytes[26..28], &1u16.to_le_bytes());
    assert_eq!(&bytes[30..31], b"a");
    assert_eq!(&bytes[31..34], b"abc");
    // the central directory follows, pointing back at offset 0
    assert_eq!(&bytes[34..38], &[0x50, 0x4b, 0x01, 0x02]);
    // the end record closes the stream
    assert_eq!(&bytes[81..85], &[0x50, 0x4b, 0x05, 0x06]);
}

#[test]
fn zip_entries_never_overlap() {
    // each entry's bytes begin only after the previous entry is closed
    let entries = vec![entry("x", b"AA"), entry("y", b"BB")];
    let bytes = zip_archive(&entries);
    let first_len = 30 + 1 + 2;
    assert_eq!(&bytes[0..4], &[0x50, 0x4b, 0x03, 0x04]);
    assert_eq!(&bytes[first_len..first_len + 4], &[0x50, 0x4b, 0x03, 0x04]);
}

#[test]
fn zip_streaming_matches_the_whole_archive() {
    let entries = vec![entry("a.txt", b"12345"), entry("sub/b.txt", b"abc")];
    let whole = zip_archive(&entries);
    let mut streamed: Vec<u8> = Vec::new();
    let mut ar = ZipArchiver::new();
    for e in &entries {
        let chunk = ar.add_entry(&e.name, &e.data);
        streamed.extend_from_slice(&chunk);
    }
    streamed.extend_from_slice(&ar.finish());
    assert_eq!(streamed, whole);
}

#[test]
fn zip_extract_rejects_garbage() {
    assert_eq!(zip_extract(&b"not a zip".to_vec()).unwrap_err(), AppError::ArchiveError);
    assert_eq!(zip_extract(&Vec::new()).unwrap_err(), AppError::ArchiveError);
}

#[test]
fn zip_extract_rejects_truncation() {
    let bytes = zip_archive(&vec![entry("a.txt", b"12345")]);
    let truncated = bytes[..20].to_vec();
    assert_eq!(zip_extract(&truncated).unwrap_err(), AppError::ArchiveError);
}

#[test]
fn zip_extract_rejects_corrupted_data() {
    let mut bytes = zip_archive(&vec![entry("a.txt", b"12345")]);
    // flip one data byte (the name is 5 bytes, so data starts at 35):
    // the stored checksum no longer matches
    bytes[36] ^= 0xff;
    assert_eq!(zip_extract(&bytes).unwrap_err(), AppError::ArchiveError);
}
