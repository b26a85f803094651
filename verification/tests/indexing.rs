use vfs_core::catalog::{basename, guess_format, join_pipe, Catalog, CatalogEntry, WalkedEntry};
use vfs_core::scheduler::{JobStatus, UpdateGalleryJob};

fn file(path: &str, size: u64) -> WalkedEntry {
    WalkedEntry { path: path.to_string(), size, is_dir: false }
}

fn dir(path: &str) -> WalkedEntry {
    WalkedEntry { path: path.to_string(), size: 0, is_dir: true }
}

fn row<'a>(catalog: &'a Catalog, path: &str) -> Option<&'a CatalogEntry> {
    catalog.rows.iter().find(|r| r.file_path == path)
}

#[test]
fn basename_takes_the_last_segment() {
    assert_eq!(basename("sub/b.txt"), "b.txt");
    assert_eq!(basename("a.txt"), "a.txt");
    assert_eq!(basename("a/b/c"), "c");
    assert_eq!(basename(""), "");
}

#[test]
fn guess_format_reads_the_extension() {
    assert_eq!(guess_format("photo.png"), "image/png");
    assert_eq!(guess_format("a.txt"), "text/plain");
    assert_eq!(guess_format("no_extension"), "");
}

#[test]
fn join_pipe_separates_parts() {
    assert_eq!(join_pipe(&vec![]), "");
    assert_eq!(join_pipe(&vec!["a".to_string()]), "a");
    assert_eq!(join_pipe(&vec!["a".to_string(), "b".to_string(), "c".to_string()]), "a|b|c");
}

#[test]
fn a_pass_indexes_the_whole_tree() {
    let mut job = UpdateGalleryJob::new();
    let mut catalog = Catalog::new();
    let tree = vec![file("a.txt", 5), dir("sub"), file("sub/b.txt", 3)];
    let trace = job.update(&mut catalog, &tree, 100);
    assert_eq!(job.get_status(), JobStatus::Idle);
    assert_eq!(catalog.rows.len(), 3);
    let a = row(&catalog, "a.txt").unwrap();
    assert_eq!(a.file_name, "a.txt");
    assert_eq!(a.size, 5);
    assert_eq!(a.format, "text/plain");
    assert_eq!(a.username, "");
    assert_eq!(a.created_at, 0);
    assert_eq!(a.modified_at, 0);
    assert_eq!(a.updated_at, 100);
    assert!(!a.is_dir);
    let sub = row(&catalog, "sub").unwrap();
    assert!(sub.is_dir);
    let b = row(&catalog, "sub/b.txt").unwrap();
    assert_eq!(b.file_name, "b.txt");
    assert_eq!(b.size, 3);
    assert_eq!(b.updated_at, 100);
    assert_eq!(trace, vec![JobStatus::Running(0), JobStatus::Running(3), JobStatus::Idle]);
}

#[test]
fn a_second_pass_only_restamps() {
    let mut job = UpdateGalleryJob::new();
    let mut catalog = Catalog::new();
    let tree = vec![file("a.txt", 5), dir("sub"), file("sub/b.txt", 3)];
    job.update(&mut catalog, &tree, 100);
    let snapshot: Vec<(String, String, u64, bool, String)> = catalog
        .rows
        .iter()
        .map(|r| (r.file_path.clone(), r.file_name.clone(), r.size, r.is_dir, r.format.clone()))
        .collect();
    job.update(&mut catalog, &tree, 200);
    assert_eq!(catalog.rows.len(), 3);
    for (path, name, size, is_dir, format) in snapshot {
        let r = row(&catalog, &path).unwrap();
        assert_eq!(r.file_name, name);
        assert_eq!(r.size, size);
        assert_eq!(r.is_dir, is_dir);
        assert_eq!(r.format, format);
        assert_eq!(r.updated_at, 200);
    }
}

#[test]
fn a_removed_file_loses_its_row() {
    let mut job = UpdateGalleryJob::new();
    let mut catalog = Catalog::new();
    job.update(&mut catalog, &vec![file("a.txt", 5), file("b.txt", 7)], 100);
    assert!(row(&catalog, "b.txt").is_some());
    job.update(&mut catalog, &vec![file("a.txt", 5)], 200);
    assert_eq!(catalog.rows.len(), 1);
    assert!(row(&catalog, "b.txt").is_none());
    assert!(row(&catalog, "a.txt").is_some());
}

#[test]
fn a_new_file_gains_exactly_one_row() {
    let mut job = UpdateGalleryJob::new();
    let mut catalog = Catalog::new();
    job.update(&mut catalog, &vec![file("a.txt", 5)], 100);
    job.update(&mut catalog, &vec![file("a.txt", 5), file("c.png", 9)], 200);
    let matches: Vec<&CatalogEntry> =
        catalog.rows.iter().filter(|r| r.file_path == "c.png").collect();
    assert_eq!(matches.len(), 1);
    assert_eq!(matches[0].updated_at, 200);
    assert_eq!(matches[0].format, "image/png");
}

#[test]
fn a_running_job_ignores_a_second_trigger() {
    let mut job = UpdateGalleryJob::new();
    let mut catalog = Catalog::new();
    job.update(&mut catalog, &vec![file("a.txt", 5)], 100);
    job.status = JobStatus::Running(7);
    let trace = job.update(&mut catalog, &vec![file("b.txt", 1)], 200);
    assert!(trace.is_empty());
    assert_eq!(job.get_status(), JobStatus::Running(7));
    assert_eq!(catalog.rows.len(), 1);
    assert!(row(&catalog, "a.txt").is_some());
    assert!(row(&catalog, "b.txt").is_none());
}

#[test]
fn the_count_grows_batch_by_batch() {
    let mut job = UpdateGalleryJob::new();
    let mut catalog = Catalog::new();
    let tree: Vec<WalkedEntry> =
        (0..60).map(|i| file(&(i.to_string() + ".txt"), i as u64)).collect();
    let trace = job.update(&mut catalog, &tree, 100);
    assert_eq!(catalog.rows.len(), 60);
    assert_eq!(trace.first(), Some(&JobStatus::Running(0)));
    assert_eq!(trace.last(), Some(&JobStatus::Idle));
    let counts: Vec<u64> = trace
        .iter()
        .filter_map(|s| match s {
            JobStatus::Running(n) => Some(*n),
            JobStatus::Idle => None,
        })
        .collect();
    assert!(counts.windows(2).all(|w| w[0] <= w[1]));
    assert_eq!(*counts.last().unwrap(), 60);
}

#[test]
fn a_stepped_pass_matches_the_whole_pass() {
    // drive one pass through the step interface, as a caller who walks the
    // tree itself does
    let mut job = UpdateGalleryJob::new();
    let mut catalog = Catalog::new();
    assert!(job.try_begin_pass());
    assert_eq!(job.get_status(), JobStatus::Running(0));
    // a second trigger meets the guard while the pass is underway
    assert!(!job.try_begin_pass());
    assert_eq!(job.get_status(), JobStatus::Running(0));
    job.process_batch(&mut catalog, &vec![file("a.txt", 5), dir("sub")], 100);
    assert_eq!(job.get_status(), JobStatus::Running(2));
    job.process_batch(&mut catalog, &vec![file("sub/b.txt", 3)], 100);
    assert_eq!(job.get_status(), JobStatus::Running(3));
    job.finish_pass(&mut catalog, 100);
    assert_eq!(job.get_status(), JobStatus::Idle);
    // the catalog agrees with the one-call pass over the same tree
    let mut job2 = UpdateGalleryJob::new();
    let mut catalog2 = Catalog::new();
    job2.update(&mut catalog2, &vec![file("a.txt", 5), dir("sub"), file("sub/b.txt", 3)], 100);
    assert_eq!(catalog.rows.len(), catalog2.rows.len());
    for r in &catalog.rows {
        let o = row(&catalog2, &r.file_path).unwrap();
        assert_eq!(o.file_name, r.file_name);
        assert_eq!(o.size, r.size);
        assert_eq!(o.is_dir, r.is_dir);
        assert_eq!(o.format, r.format);
        assert_eq!(o.updated_at, r.updated_at);
    }
}

#[test]
fn finish_pass_deletes_unstamped_rows() {
    let mut job = UpdateGalleryJob::new();
    let mut catalog = Catalog::new();
    job.update(&mut catalog, &vec![file("a.txt", 5), file("b.txt", 7)], 100);
    assert!(job.try_begin_pass());
    job.process_batch(&mut catalog, &vec![file("a.txt", 5)], 200);
    job.finish_pass(&mut catalog, 200);
    assert_eq!(catalog.rows.len(), 1);
    assert!(row(&catalog, "a.txt").is_some());
    assert!(row(&catalog, "b.txt").is_none());
}

#[test]
fn abort_pass_unsticks_the_job_without_cleanup() {
    let mut job = UpdateGalleryJob::new();
    let mut catalog = Catalog::new();
    job.update(&mut catalog, &vec![file("a.txt", 5), file("b.txt", 7)], 100);
    assert!(job.try_begin_pass());
    job.process_batch(&mut catalog, &vec![file("a.txt", 5)], 200);
    job.abort_pass();
    assert_eq!(job.get_status(), JobStatus::Idle);
    // no cleanup ran: the row the aborted walk never reached survives
    assert_eq!(catalog.rows.len(), 2);
    assert!(row(&catalog, "b.txt").is_some());
}

#[test]
fn set_file_root_keeps_the_status() {
    let mut job = UpdateGalleryJob::new();
    assert!(job.file_root.is_none());
    job.set_file_root("/data");
    assert_eq!(job.file_root.as_deref(), Some("/data"));
    assert_eq!(job.get_status(), JobStatus::Idle);
}
