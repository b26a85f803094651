use vstd::prelude::*;

use crate::catalog::{
    Catalog, CatalogEntryView, WalkedEntry, WalkedEntryView, distinct_paths, distinct_walk,
    fresh_entry, has_path, lemma_row_of_index, reconciled, row_of, stamped, walk_entry, walk_has,
};

verus! {

/// The transient state of the index job: idle, or running with the number of
/// entries processed so far in the current pass.
#[derive(Clone, Copy, Debug, PartialEq, Eq, Structural)]
pub enum JobStatus {
    Running(u64),
    Idle,
}

/// The running total a status reports; zero when idle.
pub open spec fn running_count(s: JobStatus) -> u64 {
    match s {
        JobStatus::Running(n) => n,
        JobStatus::Idle => 0,
    }
}

/// What one complete pass over the walked tree leaves in the catalog: a row
/// for exactly the walked paths; re-observed rows stamped with the pass
/// timestamp and otherwise unchanged; newly observed paths freshly indexed;
/// everything else deleted.
pub open spec fn pass_complete(
    old: Seq<CatalogEntryView>,
    new: Seq<CatalogEntryView>,
    tree: Seq<WalkedEntryView>,
    now: u64,
) -> bool {
    &&& forall|p: Seq<char>| #![trigger has_path(new, p)] has_path(new, p) <==> walk_has(tree, p)
    &&& forall|p: Seq<char>|
        #![trigger row_of(new, p)]
        walk_has(tree, p) && has_path(old, p) ==> row_of(new, p) == stamped(row_of(old, p), now)
    &&& forall|p: Seq<char>|
        #![trigger row_of(new, p)]
        walk_has(tree, p) && !has_path(old, p) ==> row_of(new, p) == fresh_entry(
            walk_entry(tree, p),
            now,
        )
}

/// The background index job: the walked root, and the status cell that
/// concurrent readers poll.
pub struct UpdateGalleryJob {
    pub file_root: Option<String>,
    pub status: JobStatus,
}

impl UpdateGalleryJob {
    /// A fresh job: no root configured, nothing running.
    pub fn new() -> (j: UpdateGalleryJob)
        ensures
            j.file_root is None,
            j.status == JobStatus::Idle,
    {
        UpdateGalleryJob { file_root: None, status: JobStatus::Idle }
    }

    /// Configure the root the recurring pass walks.
    pub fn set_file_root(&mut self, file_root: &str)
        ensures
            final(self).file_root matches Some(p) && p@ == file_root@,
            final(self).status == old(self).status,
    {
        self.file_root = Some(file_root.to_owned());
    }

    /// The status as a concurrent reader would see it.
    pub fn get_status(&self) -> (s: JobStatus)
        ensures
            s == self.status,
    {
        self.status
    }

    /// The pass guard, taken alone: begin a pass if none is running.
    ///
    /// A trigger that finds the job already `Running` starts nothing and
    /// changes nothing; an idle job transitions to `Running(0)`. A caller
    /// that walks the tree itself begins the pass here, feeds batches
    /// through `process_batch`, and closes with `finish_pass` — or with
    /// `abort_pass` when its walk fails.
    pub fn try_begin_pass(&mut self) -> (started: bool)
        ensures
            final(self).file_root == old(self).file_root,
            old(self).status is Running ==> !started && *final(self) == *old(self),
            old(self).status is Idle ==> started && final(self).status == JobStatus::Running(0),
    {
        match self.status {
            JobStatus::Running(_) => false,
            JobStatus::Idle => {
                self.status = JobStatus::Running(0);
                true
            },
        }
    }

    /// One batch of a running pass: reconcile it into the catalog and
    /// advance the published count by the batch's size.
    pub fn process_batch(&mut self, catalog: &mut Catalog, batch: &Vec<WalkedEntry>, now: u64)
        requires
            old(self).status is Running,
            old(catalog).wf(),
            distinct_walk(batch.deep_view()),
            running_count(old(self).status) + batch@.len() <= u64::MAX,
        ensures
            final(self).file_root == old(self).file_root,
            final(self).status == JobStatus::Running(
                (running_count(old(self).status) + batch@.len()) as u64,
            ),
            final(catalog).wf(),
            reconciled(old(catalog).rows_view(), final(catalog).rows_view(), batch.deep_view(), now),
    {
        catalog.insert_files_into_db(batch, now);
        let n = match self.status {
            JobStatus::Running(n) => n,
            JobStatus::Idle => 0,
        };
        self.status = JobStatus::Running(n + batch.len() as u64);
    }

    /// Close a running pass: delete every row the pass did not stamp, and
    /// return to `Idle`.
    pub fn finish_pass(&mut self, catalog: &mut Catalog, now: u64)
        requires
            old(self).status is Running,
            old(catalog).wf(),
        ensures
            final(self).file_root == old(self).file_root,
            final(self).status == JobStatus::Idle,
            final(catalog).wf(),
            forall|p: Seq<char>|
                #![trigger has_path(final(catalog).rows_view(), p)]
                has_path(final(catalog).rows_view(), p) <==> (has_path(
                    old(catalog).rows_view(),
                    p,
                ) && row_of(old(catalog).rows_view(), p).updated_at == now),
            forall|p: Seq<char>|
                #![trigger row_of(final(catalog).rows_view(), p)]
                has_path(final(catalog).rows_view(), p) ==> row_of(final(catalog).rows_view(), p)
                    == row_of(old(catalog).rows_view(), p),
    {
        catalog.cleanup_db(now);
        self.status = JobStatus::Idle;
    }

    /// Abandon a running pass after a failure in the caller's walk: the job
    /// returns to `Idle` instead of staying stuck `Running`, the catalog
    /// keeps whatever batches were already reconciled, and no cleanup runs —
    /// entries the failed walk never reached may merely be unread, not gone.
    pub fn abort_pass(&mut self)
        ensures
            final(self).file_root == old(self).file_root,
            final(self).status == JobStatus::Idle,
    {
        self.status = JobStatus::Idle;
    }

    /// One index pass: reconcile the catalog against the walked tree.
    ///
    /// A pass that finds the job already `Running` is a no-op: it changes
    /// neither the job nor the catalog. Otherwise the job runs to
    /// completion: it stamps every walked path into the catalog in batches,
    /// deletes every row not re-observed, and returns to `Idle`. The
    /// returned trace holds every status the job published, in order: a
    /// single `Running(count)` sequence with a monotonically non-decreasing
    /// count, closed by `Idle`.
    pub fn update(&mut self, catalog: &mut Catalog, tree: &Vec<WalkedEntry>, now: u64) -> (trace:
        Vec<JobStatus>)
        requires
            old(catalog).wf(),
            distinct_walk(tree.deep_view()),
            forall|j: int|
                0 <= j < old(catalog).rows_view().len() ==> (
                #[trigger] old(catalog).rows_view()[j]).updated_at < now,
        ensures
            final(self).file_root == old(self).file_root,
            old(self).status is Running ==> *final(self) == *old(self) && *final(catalog) == *old(
                catalog
            ) && trace@ == Seq::<JobStatus>::empty(),
            old(self).status is Idle ==> final(self).status == JobStatus::Idle && final(
                catalog
            ).wf() && pass_complete(
                old(catalog).rows_view(),
                final(catalog).rows_view(),
                tree.deep_view(),
                now,
            ),
            old(self).status is Idle ==> trace@.len() >= 2 && trace@[0] == JobStatus::Running(0)
                && trace@[trace@.len() - 1] == JobStatus::Idle && trace@[trace@.len() - 2]
                == JobStatus::Running(tree.deep_view().len() as u64),
            old(self).status is Idle ==> (forall|k: int|
                0 <= k < trace@.len() - 1 ==> (#[trigger] trace@[k]) is Running),
            old(self).status is Idle ==> (forall|k: int|
                0 <= k < trace@.len() - 2 ==> running_count(#[trigger] trace@[k]) <= running_count(
                    trace@[k + 1],
                )),
    {
        match self.status {
            JobStatus::Running(_) => {
                let trace: Vec<JobStatus> = Vec::new();
                proof {
                    assert(trace@ =~= Seq::<JobStatus>::empty());
                }
                return trace;
            },
            JobStatus::Idle => {},
        }
        self.status = JobStatus::Running(0);
        let mut trace: Vec<JobStatus> = Vec::new();
        trace.push(JobStatus::Running(0));
        let ghost all = tree.deep_view();
        let ghost old_rows = catalog.rows_view();
        let mut count: u64 = 0;
        let ghost done: int = 0;
        let mut batch: Vec<WalkedEntry> = Vec::new();
        let mut i: usize = 0;
        proof {
            assert(all.take(0) =~= Seq::<WalkedEntryView>::empty());
            assert(batch.deep_view() =~= all.subrange(0, 0));
            assert(reconciled(old_rows, catalog.rows_view(), all.take(0), now));
        }
        while i < tree.len()
            invariant
                all == tree.deep_view(),
                old_rows.len() == old(catalog).rows_view().len(),
                old_rows == old(catalog).rows_view(),
                distinct_walk(all),
                all.len() == tree@.len(),
                0 <= done <= i <= all.len(),
                count == done,
                batch.deep_view() =~= all.subrange(done, i as int),
                catalog.wf(),
                reconciled(old_rows, catalog.rows_view(), all.take(done), now),
                self.status == JobStatus::Running(count),
                self.file_root == old(self).file_root,
                trace@.len() >= 1,
                trace@[0] == JobStatus::Running(0),
                forall|k: int| 0 <= k < trace@.len() ==> (#[trigger] trace@[k]) is Running,
                trace@[trace@.len() - 1] == JobStatus::Running(count),
                forall|k: int|
                    0 <= k < trace@.len() - 1 ==> running_count(#[trigger] trace@[k])
                        <= running_count(trace@[k + 1]),
            decreases all.len() - i,
        {
            let entry = &tree[i];
            let copy = WalkedEntry {
                path: entry.path.clone(),
                size: entry.size,
                is_dir: entry.is_dir,
            };
            let ghost prev_batch = batch.deep_view();
            batch.push(copy);
            proof {
                assert(batch.deep_view() =~= prev_batch.push(all[i as int]));
                assert(batch.deep_view() =~= all.subrange(done, i + 1));
            }
            if batch.len() > 25 {
                let len = batch.len() as u64;
                proof {
                    lemma_subrange_distinct(all, done, i + 1);
                }
                let ghost mid = catalog.rows_view();
                catalog.insert_files_into_db(&batch, now);
                proof {
                    lemma_reconciled_compose(
                        old_rows,
                        mid,
                        catalog.rows_view(),
                        all,
                        done,
                        i + 1,
                        now,
                    );
                }
                count = count + len;
                proof {
                    done = i + 1;
                }
                self.status = JobStatus::Running(count);
                let ghost prev_trace = trace@;
                trace.push(JobStatus::Running(count));
                batch = Vec::new();
                proof {
                    assert(trace@ =~= prev_trace.push(JobStatus::Running(count)));
                    assert(batch.deep_view() =~= all.subrange(done, i + 1));
                }
            }
            i += 1;
        }
        if batch.len() > 0 {
            let len = batch.len() as u64;
            proof {
                lemma_subrange_distinct(all, done, all.len() as int);
            }
            let ghost mid = catalog.rows_view();
            catalog.insert_files_into_db(&batch, now);
            proof {
                lemma_reconciled_compose(
                    old_rows,
                    mid,
                    catalog.rows_view(),
                    all,
                    done,
                    all.len() as int,
                    now,
                );
            }
            count = count + len;
            proof {
                done = all.len() as int;
            }
            self.status = JobStatus::Running(count);
            let ghost prev_trace = trace@;
            trace.push(JobStatus::Running(count));
            proof {
                assert(trace@ =~= prev_trace.push(JobStatus::Running(count)));
            }
        }
        proof {
            assert(all.take(all.len() as int) =~= all);
        }
        let ghost merged = catalog.rows_view();
        catalog.cleanup_db(now);
        proof {
            lemma_pass_from_cleanup(old_rows, merged, catalog.rows_view(), all, now);
        }
        self.status = JobStatus::Idle;
        let ghost prev_trace = trace@;
        trace.push(JobStatus::Idle);
        proof {
            assert(trace@ =~= prev_trace.push(JobStatus::Idle));
        }
        trace
    }
}

/// A window of a duplicate-free walk is itself duplicate-free.
proof fn lemma_subrange_distinct(all: Seq<WalkedEntryView>, a: int, b: int)
    requires
        distinct_walk(all),
        0 <= a <= b <= all.len(),
    ensures
        distinct_walk(all.subrange(a, b)),
{
    let sub = all.subrange(a, b);
    assert forall|i: int, j: int| 0 <= i < j < sub.len() implies (#[trigger] sub[i]).path != (
    #[trigger] sub[j]).path by {
        assert(all[a + i].path != all[a + j].path);
    }
}

/// Walked windows agree on their entries: under a duplicate-free walk, the
/// entry a window yields for a path is the walk's own entry for it.
proof fn lemma_walk_entry_subrange(all: Seq<WalkedEntryView>, a: int, b: int, p: Seq<char>)
    requires
        distinct_walk(all),
        0 <= a <= b <= all.len(),
        walk_has(all.subrange(a, b), p),
    ensures
        walk_has(all, p),
        walk_entry(all.subrange(a, b), p) == walk_entry(all, p),
{
    let sub = all.subrange(a, b);
    let i = choose|i: int| 0 <= i < sub.len() && (#[trigger] sub[i]).path == p;
    assert(all[a + i].path == p);
    assert(walk_has(all, p));
    let j = choose|j: int| 0 <= j < all.len() && (#[trigger] all[j]).path == p;
    if j < a + i {
        assert(false);
    } else if a + i < j {
        assert(false);
    }
}

/// Two reconciling steps over adjacent windows compose into one over their
/// union.
proof fn lemma_reconciled_compose(
    old0: Seq<CatalogEntryView>,
    mid: Seq<CatalogEntryView>,
    new: Seq<CatalogEntryView>,
    all: Seq<WalkedEntryView>,
    done: int,
    upto: int,
    now: u64,
)
    requires
        distinct_walk(all),
        0 <= done <= upto <= all.len(),
        reconciled(old0, mid, all.take(done), now),
        reconciled(mid, new, all.subrange(done, upto), now),
    ensures
        reconciled(old0, new, all.take(upto), now),
{
    let head = all.take(done);
    let batch = all.subrange(done, upto);
    let whole = all.take(upto);
    assert forall|q: Seq<char>| #[trigger] walk_has(whole, q) implies walk_has(head, q)
        || walk_has(batch, q) by {
        let i = choose|i: int| 0 <= i < whole.len() && (#[trigger] whole[i]).path == q;
        if i < done {
            assert(head[i].path == q);
        } else {
            assert(batch[i - done].path == q);
        }
    }
    assert forall|q: Seq<char>| walk_has(head, q) implies #[trigger] walk_has(whole, q) by {
        let i = choose|i: int| 0 <= i < head.len() && (#[trigger] head[i]).path == q;
        assert(whole[i].path == q);
    }
    assert forall|q: Seq<char>| walk_has(batch, q) implies #[trigger] walk_has(whole, q) by {
        let i = choose|i: int| 0 <= i < batch.len() && (#[trigger] batch[i]).path == q;
        assert(whole[done + i].path == q);
    }
    // a path cannot sit in both windows
    assert forall|q: Seq<char>| walk_has(head, q) && walk_has(batch, q) implies false by {
        let i = choose|i: int| 0 <= i < head.len() && (#[trigger] head[i]).path == q;
        let j = choose|j: int| 0 <= j < batch.len() && (#[trigger] batch[j]).path == q;
        assert(all[i].path == q);
        assert(all[done + j].path == q);
    }
    assert forall|p: Seq<char>| #[trigger] has_path(new, p) <==> has_path(old0, p) || walk_has(
        whole,
        p,
    ) by {}
    assert forall|p: Seq<char>| has_path(old0, p) && walk_has(whole, p) implies #[trigger] row_of(
        new,
        p,
    ) == stamped(row_of(old0, p), now) by {
        if walk_has(batch, p) {
            assert(row_of(mid, p) == row_of(old0, p));
        } else {
            assert(walk_has(head, p));
            assert(row_of(new, p) == row_of(mid, p));
        }
    }
    assert forall|p: Seq<char>| has_path(old0, p) && !walk_has(whole, p) implies #[trigger] row_of(
        new,
        p,
    ) == row_of(old0, p) by {}
    assert forall|p: Seq<char>| !has_path(old0, p) && walk_has(whole, p) implies #[trigger] row_of(
        new,
        p,
    ) == fresh_entry(walk_entry(whole, p), now) by {
        if walk_has(batch, p) {
            assert(!has_path(mid, p));
            assert(row_of(new, p) == fresh_entry(walk_entry(batch, p), now));
            lemma_walk_entry_subrange(all, done, upto, p);
            lemma_walk_entry_subrange(all, 0, upto, p);
        } else {
            assert(walk_has(head, p));
            assert(row_of(new, p) == row_of(mid, p));
            assert(row_of(mid, p) == fresh_entry(walk_entry(head, p), now));
            lemma_walk_entry_subrange(all, 0, done, p);
            lemma_walk_entry_subrange(all, 0, upto, p);
        }
    }
}

/// Two consecutive passes over an unchanged tree leave the catalog's row
/// count and membership unchanged, and every row unchanged except its
/// `updated_at`, which carries the second pass's timestamp.
pub proof fn lemma_passes_idempotent(
    c0: Seq<CatalogEntryView>,
    c1: Seq<CatalogEntryView>,
    c2: Seq<CatalogEntryView>,
    tree: Seq<WalkedEntryView>,
    now1: u64,
    now2: u64,
)
    requires
        distinct_paths(c1),
        distinct_paths(c2),
        pass_complete(c0, c1, tree, now1),
        pass_complete(c1, c2, tree, now2),
    ensures
        c1.len() == c2.len(),
        forall|p: Seq<char>| #![trigger has_path(c2, p)] has_path(c2, p) <==> has_path(c1, p),
        forall|p: Seq<char>|
            #![trigger row_of(c2, p)]
            has_path(c1, p) ==> row_of(c2, p) == stamped(row_of(c1, p), now2),
{
    assert forall|p: Seq<char>| has_path(c1, p) implies #[trigger] row_of(c2, p) == stamped(
        row_of(c1, p),
        now2,
    ) by {
        assert(walk_has(tree, p));
    }
    let paths1 = c1.map_values(|e: CatalogEntryView| e.file_path);
    let paths2 = c2.map_values(|e: CatalogEntryView| e.file_path);
    assert(paths1.no_duplicates()) by {
        assert forall|i: int, j: int| 0 <= i < paths1.len() && 0 <= j < paths1.len() && i != j implies paths1[i]
            != paths1[j] by {
            assert(paths1[i] == c1[i].file_path && paths1[j] == c1[j].file_path);
        }
    }
    assert(paths2.no_duplicates()) by {
        assert forall|i: int, j: int| 0 <= i < paths2.len() && 0 <= j < paths2.len() && i != j implies paths2[i]
            != paths2[j] by {
            assert(paths2[i] == c2[i].file_path && paths2[j] == c2[j].file_path);
        }
    }
    assert forall|a: Seq<char>| #[trigger] paths1.contains(a) implies paths2.contains(a) by {
        let i = choose|i: int| 0 <= i < paths1.len() && paths1[i] == a;
        assert(c1[i].file_path == a);
        assert(has_path(c1, a));
        assert(has_path(c2, a));
        let j = choose|j: int| 0 <= j < c2.len() && (#[trigger] c2[j]).file_path == a;
        assert(paths2[j] == a);
    }
    assert forall|a: Seq<char>| #[trigger] paths2.contains(a) implies paths1.contains(a) by {
        let i = choose|i: int| 0 <= i < paths2.len() && paths2[i] == a;
        assert(c2[i].file_path == a);
        assert(has_path(c2, a));
        assert(has_path(c1, a));
        let j = choose|j: int| 0 <= j < c1.len() && (#[trigger] c1[j]).file_path == a;
        assert(paths1[j] == a);
    }
    assert(paths1.to_set() =~= paths2.to_set());
    paths1.unique_seq_to_set();
    paths2.unique_seq_to_set();
}

/// A path that disappeared from the tree between two passes has no catalog
/// row once the later pass completes.
pub proof fn lemma_pass_deletes_removed(
    c0: Seq<CatalogEntryView>,
    c1: Seq<CatalogEntryView>,
    tree: Seq<WalkedEntryView>,
    now: u64,
    p: Seq<char>,
)
    requires
        pass_complete(c0, c1, tree, now),
        !walk_has(tree, p),
    ensures
        !has_path(c1, p),
{
}

/// A path that appeared in the tree between two passes has exactly one
/// catalog row once the next pass completes: the freshly indexed entry,
/// stamped with that pass's timestamp.
pub proof fn lemma_pass_indexes_new(
    c0: Seq<CatalogEntryView>,
    c1: Seq<CatalogEntryView>,
    tree: Seq<WalkedEntryView>,
    now: u64,
    p: Seq<char>,
)
    requires
        distinct_paths(c1),
        pass_complete(c0, c1, tree, now),
        walk_has(tree, p),
        !has_path(c0, p),
    ensures
        has_path(c1, p),
        row_of(c1, p) == fresh_entry(walk_entry(tree, p), now),
        row_of(c1, p).updated_at == now,
        forall|i: int, j: int|
            0 <= i < j < c1.len() ==> !((#[trigger] c1[i]).file_path == p && (
            #[trigger] c1[j]).file_path == p),
{
}

/// After the cleanup step, a fully reconciled catalog holds exactly the
/// walked paths.
proof fn lemma_pass_from_cleanup(
    old0: Seq<CatalogEntryView>,
    merged: Seq<CatalogEntryView>,
    cleaned: Seq<CatalogEntryView>,
    all: Seq<WalkedEntryView>,
    now: u64,
)
    requires
        distinct_paths(old0),
        forall|j: int| 0 <= j < old0.len() ==> (#[trigger] old0[j]).updated_at < now,
        reconciled(old0, merged, all, now),
        forall|p: Seq<char>|
            #![trigger has_path(cleaned, p)]
            has_path(cleaned, p) <==> (has_path(merged, p) && row_of(merged, p).updated_at == now),
        forall|p: Seq<char>|
            #![trigger row_of(cleaned, p)]
            has_path(cleaned, p) ==> row_of(cleaned, p) == row_of(merged, p),
    ensures
        pass_complete(old0, cleaned, all, now),
{
    assert forall|p: Seq<char>| #[trigger] has_path(cleaned, p) <==> walk_has(all, p) by {
        if has_path(cleaned, p) {
            if !walk_has(all, p) {
                assert(has_path(merged, p));
                assert(has_path(old0, p));
                assert(row_of(merged, p) == row_of(old0, p));
                let j = choose|j: int| 0 <= j < old0.len() && (#[trigger] old0[j]).file_path == p;
                lemma_row_of_index(old0, j);
                assert(row_of(old0, p).updated_at < now);
                assert(false);
            }
        }
        if walk_has(all, p) {
            assert(has_path(merged, p));
            if has_path(old0, p) {
                assert(row_of(merged, p) == stamped(row_of(old0, p), now));
            } else {
                assert(row_of(merged, p) == fresh_entry(walk_entry(all, p), now));
            }
            assert(row_of(merged, p).updated_at == now);
        }
    }
    assert forall|p: Seq<char>| walk_has(all, p) && has_path(old0, p) implies #[trigger] row_of(
        cleaned,
        p,
    ) == stamped(row_of(old0, p), now) by {}
    assert forall|p: Seq<char>| walk_has(all, p) && !has_path(old0, p) implies #[trigger] row_of(
        cleaned,
        p,
    ) == fresh_entry(walk_entry(all, p), now) by {}
}

} // verus!
