use vfs_core::error::AppError;
use vfs_core::path::{normailze_path, secure_join, secure_join_symlink};
use vfs_core::response::{AppResponseStatus, EmptyResponseData};
use vfs_core::session::UserSessionData;
use vfs_core::stream::{open_range, RangeChunk, RangeStream};
use vfs_core::transform::{ffmpeg_scale_args, relay_step, transcode_params, u32_to_decimal, RelayStep};
use vfs_core::vfs::{convert_meta_to_struct, read_dir, DirEntryRaw, FileStat, FileStatWithName, RawMeta};

#[test]
fn secure_join_rejects_parent_segments() {
    assert_eq!(secure_join("root", ".."), Err(AppError::PathError));
    assert_eq!(secure_join("root", "../etc/passwd"), Err(AppError::PathError));
    assert_eq!(secure_join("root", "a/../b"), Err(AppError::PathError));
    assert_eq!(secure_join("", "a/.."), Err(AppError::PathError));
}

#[test]
fn secure_join_rejects_absolute_paths() {
    assert_eq!(secure_join("root", "/etc/passwd"), Err(AppError::PathError));
    assert_eq!(secure_join("another", "/"), Err(AppError::PathError));
}

#[test]
fn secure_join_joins_clean_paths() {
    assert_eq!(secure_join("data", "a/b.txt"), Ok("data/a/b.txt".to_string()));
    assert_eq!(secure_join("/data/alice", "x"), Ok("/data/alice/x".to_string()));
    assert_eq!(secure_join("root", ""), Ok("root/".to_string()));
}

#[test]
fn secure_join_symlink_policies() {
    // absolute candidate: rejected before any canonical comparison
    assert_eq!(
        secure_join_symlink("root", "/x", Some("/root/x"), Some("/root")),
        Err(AppError::PathError)
    );
    // a parent-directory marker is rejected lexically, even when the
    // canonical forms exist and their component counts would pass
    assert_eq!(
        secure_join_symlink("/data/alice", "../bob", Some("/data/bob"), Some("/data/alice")),
        Err(AppError::PathError)
    );
    assert_eq!(
        secure_join_symlink("root", "a/../b", Some("/root/b"), Some("/root")),
        Err(AppError::PathError)
    );
    // canonicalization unavailable: the environment's fault, not a sandbox verdict
    assert_eq!(
        secure_join_symlink("root", "x", None, Some("/root")),
        Err(AppError::IOError)
    );
    assert_eq!(
        secure_join_symlink("root", "x", Some("/root/x"), None),
        Err(AppError::IOError)
    );
    // the canonical join escaped above the canonical root
    assert_eq!(
        secure_join_symlink("/data/alice", "link", Some("/tmp"), Some("/data/alice")),
        Err(AppError::PathError)
    );
    // an honest join resolves
    assert_eq!(
        secure_join_symlink("/data/alice", "x", Some("/data/alice/x"), Some("/data/alice")),
        Ok("/data/alice/x".to_string())
    );
}

#[test]
fn normailze_path_strips_one_leading_separator() {
    assert_eq!(normailze_path("/data", "alice", "/a.txt"), "/data/alice/a.txt");
    assert_eq!(normailze_path("/data", "alice", "a.txt"), "/data/alice/a.txt");
    assert_eq!(normailze_path("/data", "alice", ""), "/data/alice/");
}

#[test]
fn open_range_returns_exact_slice() {
    let contents: Vec<u8> = b"hello".to_vec();
    assert_eq!(open_range(&contents, 2, 5), Ok(b"llo".to_vec()));
    assert_eq!(open_range(&contents, 0, 5), Ok(b"hello".to_vec()));
    assert_eq!(open_range(&contents, 5, 5), Ok(Vec::new()));
    let empty: Vec<u8> = Vec::new();
    assert_eq!(open_range(&empty, 0, 0), Ok(Vec::new()));
}

#[test]
fn open_range_rejects_bad_ranges() {
    let contents: Vec<u8> = b"hello".to_vec();
    assert_eq!(open_range(&contents, 3, 2), Err(AppError::RangeError));
    assert_eq!(open_range(&contents, 0, 6), Err(AppError::RangeError));
    assert_eq!(open_range(&contents, 6, 6), Err(AppError::RangeError));
}

#[test]
fn range_stream_truncates_at_budget() {
    let mut s = RangeStream::new(3);
    match s.poll_chunk(&b"ab".to_vec()) {
        RangeChunk::Data(d) => assert_eq!(d, b"ab".to_vec()),
        _ => panic!("expected data"),
    }
    match s.poll_chunk(&Vec::new()) {
        RangeChunk::Skip => {}
        _ => panic!("expected an empty chunk to be skipped"),
    }
    match s.poll_chunk(&b"cd".to_vec()) {
        RangeChunk::Data(d) => assert_eq!(d, b"c".to_vec()),
        _ => panic!("expected truncated data"),
    }
    match s.poll_chunk(&b"ef".to_vec()) {
        RangeChunk::Finished => {}
        _ => panic!("expected the stream to be finished"),
    }
}

#[test]
fn range_stream_serves_a_sub_range() {
    // the reader was seeked to offset 2 of "hello world"; the budget is 5..=2
    let mut s = RangeStream::new(3);
    let mut served: Vec<u8> = Vec::new();
    for chunk in [b"ll".to_vec(), b"o world".to_vec()] {
        match s.poll_chunk(&chunk) {
            RangeChunk::Data(d) => served.extend_from_slice(&d),
            RangeChunk::Skip => {}
            RangeChunk::Finished => break,
        }
    }
    assert_eq!(served, b"llo".to_vec());
}

fn some_meta() -> RawMeta {
    RawMeta {
        is_dir: false,
        is_file: true,
        len: 5,
        created: Some((1, 0)),
        modified: Some((2, 2_500_000)),
        accessed: Some((3, 999_999)),
    }
}

#[test]
fn convert_meta_normalizes_to_millis() {
    let stat = convert_meta_to_struct(some_meta()).unwrap();
    assert!(stat.is_file);
    assert!(!stat.is_dir);
    assert_eq!(stat.size, 5);
    assert_eq!(stat.file_type, "");
    assert_eq!(stat.created, 1000);
    assert_eq!(stat.modified, 2002);
    assert_eq!(stat.accessed, 3000);
}

#[test]
fn convert_meta_reports_pre_epoch_times() {
    let mut meta = some_meta();
    meta.modified = None;
    assert!(matches!(convert_meta_to_struct(meta), Err(AppError::ClockError)));
}

#[test]
fn file_stat_with_name_carries_the_stat() {
    let stat = convert_meta_to_struct(some_meta()).unwrap();
    let named = FileStatWithName::new(&stat, "a.txt");
    assert_eq!(named.name, "a.txt");
    assert_eq!(named.stat.size, 5);
    assert!(named.stat.is_file);
    assert_eq!(named.stat.created, 1000);
}

#[test]
fn read_dir_lists_all_children() {
    let entries = vec![
        DirEntryRaw { name: "a.txt".to_string(), meta: Some(some_meta()) },
        DirEntryRaw {
            name: "sub".to_string(),
            meta: Some(RawMeta {
                is_dir: true,
                is_file: false,
                len: 0,
                created: Some((0, 0)),
                modified: Some((0, 0)),
                accessed: Some((0, 0)),
            }),
        },
    ];
    let listing = read_dir(&entries).unwrap();
    assert_eq!(listing.len(), 2);
    assert_eq!(listing[0].name, "a.txt");
    assert!(listing[0].stat.is_file);
    assert_eq!(listing[0].stat.size, 5);
    assert_eq!(listing[1].name, "sub");
    assert!(listing[1].stat.is_dir);
}

#[test]
fn read_dir_aborts_on_any_failure() {
    let entries = vec![
        DirEntryRaw { name: "a.txt".to_string(), meta: Some(some_meta()) },
        DirEntryRaw { name: "broken".to_string(), meta: None },
    ];
    assert!(matches!(read_dir(&entries), Err(AppError::IOError)));
    let mut bad = some_meta();
    bad.created = None;
    let entries = vec![DirEntryRaw { name: "b".to_string(), meta: Some(bad) }];
    assert!(matches!(read_dir(&entries), Err(AppError::ClockError)));
}

#[test]
fn decimals_print_exactly() {
    assert_eq!(u32_to_decimal(0), "0");
    assert_eq!(u32_to_decimal(7), "7");
    assert_eq!(u32_to_decimal(720), "720");
    assert_eq!(u32_to_decimal(2000), "2000");
    assert_eq!(u32_to_decimal(u32::MAX), "4294967295");
}

#[test]
fn ffmpeg_arguments_are_exact() {
    let args = ffmpeg_scale_args("in.mp4", 720, 2000);
    assert_eq!(
        args,
        vec![
            "-i".to_string(),
            "in.mp4".to_string(),
            "-filter:v".to_string(),
            "scale=-1:720".to_string(),
            "-b:v".to_string(),
            "2000k".to_string(),
            "-movflags".to_string(),
            "frag_keyframe+empty_moov".to_string(),
            "-f".to_string(),
            "mp4".to_string(),
            "pipe:1".to_string(),
        ]
    );
}

#[test]
fn transcode_defaults_fill_in() {
    assert_eq!(transcode_params(None, None), (720, 2000));
    assert_eq!(transcode_params(Some(480), None), (480, 2000));
    assert_eq!(transcode_params(None, Some(1200)), (720, 1200));
    assert_eq!(transcode_params(Some(1080), Some(4000)), (1080, 4000));
}

#[test]
fn relay_policy_kills_on_consumer_loss() {
    assert!(matches!(relay_step(None, true), RelayStep::Done));
    assert!(matches!(relay_step(Some(0), true), RelayStep::Done));
    assert!(matches!(relay_step(Some(10), true), RelayStep::Forwarded));
    assert!(matches!(relay_step(Some(10), false), RelayStep::Killed));
}

#[test]
fn error_messages_name_each_kind() {
    assert_eq!(AppError::PathError.message(), "path error");
    assert_eq!(AppError::NotFound.message(), "not found");
    assert_eq!(AppError::IOError.message(), "io error");
    assert_eq!(AppError::RangeError.message(), "range error");
    assert_eq!(AppError::ArchiveError.message(), "archive error");
    assert_eq!(AppError::TranscodeError.message(), "transcode error");
    assert_eq!(AppError::ClockError.message(), "clock error");
    assert_eq!(AppError::DbError.message(), "db error");
}

#[test]
fn response_status_codes() {
    assert_eq!(AppResponseStatus::Success.code(), 0);
    assert_eq!(AppResponseStatus::Error.code(), 1);
    let _ = EmptyResponseData::new();
}

#[test]
fn session_data_marks_login() {
    let data = UserSessionData::new("admin", "alice");
    assert_eq!(data.username, "admin");
    assert_eq!(data.user_root, "alice");
    assert!(data.is_login);
    assert_eq!(data.last_login, 0);
}

#[test]
fn stat_type_is_left_for_the_caller() {
    let stat: FileStat = convert_meta_to_struct(some_meta()).unwrap();
    assert_eq!(stat.file_type, "");
}
