//! The worked example: storage root `/data`, user root `alice`, holding
//! `a.txt` (5 bytes) and `sub/b.txt` (3 bytes).

use vfs_core::path::normailze_path;
use vfs_core::stream::open_range;
use vfs_core::vfs::{read_dir, DirEntryRaw, RawMeta};
use vfs_core::zip::{zip_archive, zip_extract, ZipEntry};

const A_CONTENT: &[u8] = b"12345";
const B_CONTENT: &[u8] = b"abc";

fn meta(is_dir: bool, len: u64) -> RawMeta {
    RawMeta {
        is_dir,
        is_file: !is_dir,
        len,
        created: Some((10, 0)),
        modified: Some((20, 0)),
        accessed: Some((30, 0)),
    }
}

#[test]
fn listing_the_user_root() {
    // the walker stats each immediate child of /data/alice
    assert_eq!(normailze_path("/data", "alice", ""), "/data/alice/");
    let children = vec![
        DirEntryRaw { name: "a.txt".to_string(), meta: Some(meta(false, 5)) },
        DirEntryRaw { name: "sub".to_string(), meta: Some(meta(true, 0)) },
    ];
    let listing = read_dir(&children).unwrap();
    assert_eq!(listing.len(), 2);
    assert_eq!(listing[0].name, "a.txt");
    assert!(listing[0].stat.is_file);
    assert_eq!(listing[0].stat.size, 5);
    assert_eq!(listing[1].name, "sub");
    assert!(listing[1].stat.is_dir);
}

#[test]
fn archiving_the_user_root() {
    // the walk of /data/alice yields the two files with their paths
    // relative to the archived root
    let entries = vec![
        ZipEntry { name: b"a.txt".to_vec(), data: A_CONTENT.to_vec() },
        ZipEntry { name: b"sub/b.txt".to_vec(), data: B_CONTENT.to_vec() },
    ];
    let stream = zip_archive(&entries);
    let received = zip_extract(&stream).unwrap();
    assert_eq!(received.len(), 2);
    assert_eq!(received[0].name, b"a.txt".to_vec());
    assert_eq!(received[0].data, A_CONTENT.to_vec());
    assert_eq!(received[1].name, b"sub/b.txt".to_vec());
    assert_eq!(received[1].data, B_CONTENT.to_vec());
}

#[test]
fn ranged_read_of_the_tail() {
    let r = open_range(&A_CONTENT.to_vec(), 2, 5).unwrap();
    assert_eq!(r.len(), 3);
    assert_eq!(r, A_CONTENT[2..].to_vec());
}
