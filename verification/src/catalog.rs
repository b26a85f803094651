use vstd::prelude::*;

verus! {

// ---------------------------------------------------------------------------
// Media type guessing
// ---------------------------------------------------------------------------
/// The media types that the extension table associates with a path; a pure
/// function of the path's text.
pub uninterp spec fn mime_all_of(path: Seq<char>) -> Seq<Seq<char>>;

/// Relies on `mime_guess::from_path`: the guessed media types depend on the
/// path's extension alone, read from a table compiled into the crate.
#[verifier::external_body]
fn mime_guess_all(path: &str) -> (r: Vec<String>)
    ensures
        r.deep_view() == mime_all_of(path@),
{
    mime_guess::from_path(path).iter_raw().map(|m| m.to_string()).collect()
}

/// The parts joined with a single `|` between consecutive parts.
pub open spec fn join_pipe_spec(parts: Seq<Seq<char>>) -> Seq<char>
    decreases parts.len(),
{
    if parts.len() == 0 {
        Seq::empty()
    } else if parts.len() == 1 {
        parts[0]
    } else {
        parts[0] + seq!['|'] + join_pipe_spec(parts.skip(1))
    }
}

proof fn lemma_join_pipe_push(parts: Seq<Seq<char>>, x: Seq<char>)
    requires
        parts.len() >= 1,
    ensures
        join_pipe_spec(parts.push(x)) == join_pipe_spec(parts) + seq!['|'] + x,
    decreases parts.len(),
{
    if parts.len() == 1 {
        assert(parts.push(x).skip(1) =~= seq![x]);
        assert(parts.push(x)[0] == parts[0]);
        assert(join_pipe_spec(seq![x]) == x);
        assert(join_pipe_spec(parts.push(x)) =~= join_pipe_spec(parts) + seq!['|'] + x);
    } else {
        assert(parts.push(x).skip(1) =~= parts.skip(1).push(x));
        assert(parts.push(x)[0] == parts[0]);
        lemma_join_pipe_push(parts.skip(1), x);
        assert(join_pipe_spec(parts.push(x)) =~= join_pipe_spec(parts) + seq!['|'] + x);
    }
}

/// Join string parts with a `|` separator, as the catalog's `format` column
/// stores a list of media types.
pub fn join_pipe(parts: &Vec<String>) -> (r: String)
    ensures
        r@ == join_pipe_spec(parts.deep_view()),
{
    let ghost all = parts.deep_view();
    if parts.len() == 0 {
        let r = String::new();
        return r;
    }
    let mut s: String = parts[0].clone();
    let mut i: usize = 1;
    proof {
        assert(all.take(1) =~= seq![all[0]]);
    }
    while i < parts.len()
        invariant
            all == parts.deep_view(),
            1 <= i <= all.len(),
            all.len() == parts@.len(),
            s@ == join_pipe_spec(all.take(i as int)),
        decreases all.len() - i,
    {
        s.append("|");
        s.append(parts[i].as_str());
        proof {
            reveal_strlit("|");
            assert(("|")@ =~= seq!['|']);
            lemma_join_pipe_push(all.take(i as int), all[i as int]);
            assert(all.take(i as int).push(all[i as int]) =~= all.take(i + 1));
        }
        i += 1;
    }
    proof {
        assert(all.take(all.len() as int) =~= all);
    }
    s
}

/// The catalog's `format` text for a path: every guessed media type, joined
/// with `|`.
pub open spec fn format_of(path: Seq<char>) -> Seq<char> {
    join_pipe_spec(mime_all_of(path))
}

/// The best-guess media types of a path, in the catalog's textual form.
pub fn guess_format(path: &str) -> (r: String)
    ensures
        r@ == format_of(path@),
{
    let guesses = mime_guess_all(path);
    join_pipe(&guesses)
}

// ---------------------------------------------------------------------------
// Basenames
// ---------------------------------------------------------------------------
/// The characters after the last separator of `s`: the entry's own name.
pub open spec fn basename_spec(s: Seq<char>) -> Seq<char>
    decreases s.len(),
{
    if s.len() == 0 {
        s
    } else if s.last() == '/' {
        Seq::empty()
    } else {
        basename_spec(s.drop_last()).push(s.last())
    }
}

proof fn lemma_basename_no_slash(s: Seq<char>)
    requires
        forall|k: int| 0 <= k < s.len() ==> s[k] != '/',
    ensures
        basename_spec(s) == s,
    decreases s.len(),
{
    if s.len() == 0 {
    } else {
        lemma_basename_no_slash(s.drop_last());
        assert(basename_spec(s) =~= s);
    }
}

proof fn lemma_basename_after_slash(s: Seq<char>, j: int)
    requires
        0 <= j < s.len(),
        s[j] == '/',
        forall|k: int| j < k < s.len() ==> s[k] != '/',
    ensures
        basename_spec(s) == s.skip(j + 1),
    decreases s.len(),
{
    if j == s.len() - 1 {
        assert(s.last() == '/');
        assert(s.skip(j + 1) =~= Seq::<char>::empty());
    } else {
        assert(s.last() != '/');
        lemma_basename_after_slash(s.drop_last(), j);
        assert(s.drop_last().skip(j + 1).push(s.last()) =~= s.skip(j + 1));
    }
}

/// The entry's own name: everything after the last separator.
pub fn basename(s: &str) -> (r: String)
    ensures
        r@ == basename_spec(s@),
{
    let n: usize = s.unicode_len();
    let mut last_slash: usize = n;  // `n` stands for "none seen"
    let mut i: usize = 0;
    while i < n
        invariant
            n == s@.len(),
            i <= n,
            last_slash == n || (last_slash < i && s@[last_slash as int] == '/'),
            forall|k: int|
                (if last_slash == n {
                    0
                } else {
                    last_slash + 1
                }) <= k < i ==> s@[k] != '/',
        decreases n - i,
    {
        if s.get_char(i) == '/' {
            last_slash = i;
        }
        i += 1;
    }
    if last_slash == n {
        proof {
            lemma_basename_no_slash(s@);
        }
        s.to_owned()
    } else {
        let r = s.substring_char(last_slash + 1, n).to_owned();
        proof {
            lemma_basename_after_slash(s@, last_slash as int);
            assert(s@.subrange(last_slash + 1, n as int) =~= s@.skip(last_slash + 1));
        }
        r
    }
}

// ---------------------------------------------------------------------------
// Catalog rows
// ---------------------------------------------------------------------------
/// One persisted catalog row: a filesystem entry as last seen by an index
/// pass. `file_path` is the unique key; `updated_at` is the timestamp of the
/// pass that last observed the entry.
#[derive(Debug)]
pub struct CatalogEntry {
    pub file_name: String,
    pub file_path: String,
    pub username: String,
    pub size: u64,
    pub format: String,
    pub created_at: u64,
    pub modified_at: u64,
    pub updated_at: u64,
    pub is_dir: bool,
}

/// The mathematical image of a `CatalogEntry`.
#[verifier::ext_equal]
pub struct CatalogEntryView {
    pub file_name: Seq<char>,
    pub file_path: Seq<char>,
    pub username: Seq<char>,
    pub size: u64,
    pub format: Seq<char>,
    pub created_at: u64,
    pub modified_at: u64,
    pub updated_at: u64,
    pub is_dir: bool,
}

impl View for CatalogEntry {
    type V = CatalogEntryView;

    open spec fn view(&self) -> CatalogEntryView {
        CatalogEntryView {
            file_name: self.file_name@,
            file_path: self.file_path@,
            username: self.username@,
            size: self.size,
            format: self.format@,
            created_at: self.created_at,
            modified_at: self.modified_at,
            updated_at: self.updated_at,
            is_dir: self.is_dir,
        }
    }
}

impl DeepView for CatalogEntry {
    type V = CatalogEntryView;

    open spec fn deep_view(&self) -> CatalogEntryView {
        self.view()
    }
}

/// One entry yielded by the storage tree walk, as plain values: the path
/// relative to the walked root, and the metadata the walker read for it.
#[derive(Debug)]
pub struct WalkedEntry {
    pub path: String,
    pub size: u64,
    pub is_dir: bool,
}

/// The mathematical image of a `WalkedEntry`.
#[verifier::ext_equal]
pub struct WalkedEntryView {
    pub path: Seq<char>,
    pub size: u64,
    pub is_dir: bool,
}

impl View for WalkedEntry {
    type V = WalkedEntryView;

    open spec fn view(&self) -> WalkedEntryView {
        WalkedEntryView { path: self.path@, size: self.size, is_dir: self.is_dir }
    }
}

impl DeepView for WalkedEntry {
    type V = WalkedEntryView;

    open spec fn deep_view(&self) -> WalkedEntryView {
        self.view()
    }
}

// ---------------------------------------------------------------------------
// Spec-level catalog reasoning
// ---------------------------------------------------------------------------
/// Whether some row carries the path `p`.
pub open spec fn has_path(rows: Seq<CatalogEntryView>, p: Seq<char>) -> bool {
    exists|i: int| 0 <= i < rows.len() && (#[trigger] rows[i]).file_path == p
}

/// The row carrying the path `p`; meaningful under `distinct_paths`.
pub open spec fn row_of(rows: Seq<CatalogEntryView>, p: Seq<char>) -> CatalogEntryView {
    rows[choose|i: int| 0 <= i < rows.len() && (#[trigger] rows[i]).file_path == p]
}

/// No two rows share a path: `file_path` is a unique key.
pub open spec fn distinct_paths(rows: Seq<CatalogEntryView>) -> bool {
    forall|i: int, j: int|
        0 <= i < j < rows.len() ==> (#[trigger] rows[i]).file_path != (#[trigger] rows[j]).file_path
}

/// Whether the walk yielded the path `p`.
pub open spec fn walk_has(tree: Seq<WalkedEntryView>, p: Seq<char>) -> bool {
    exists|i: int| 0 <= i < tree.len() && (#[trigger] tree[i]).path == p
}

/// The walked entry carrying the path `p`; meaningful under `distinct_walk`.
pub open spec fn walk_entry(tree: Seq<WalkedEntryView>, p: Seq<char>) -> WalkedEntryView {
    tree[choose|i: int| 0 <= i < tree.len() && (#[trigger] tree[i]).path == p]
}

/// The walk yielded every path at most once.
pub open spec fn distinct_walk(tree: Seq<WalkedEntryView>) -> bool {
    forall|i: int, j: int|
        0 <= i < j < tree.len() ==> (#[trigger] tree[i]).path != (#[trigger] tree[j]).path
}

/// The row `e` with its `updated_at` stamped to `now`, all else kept.
pub open spec fn stamped(e: CatalogEntryView, now: u64) -> CatalogEntryView {
    CatalogEntryView { updated_at: now, ..e }
}

/// The row a pass inserts for a newly sighted entry: named after the path's
/// basename, sized and flagged from the walk, typed by the extension table,
/// and stamped with the pass timestamp.
pub open spec fn fresh_entry(w: WalkedEntryView, now: u64) -> CatalogEntryView {
    CatalogEntryView {
        file_name: basename_spec(w.path),
        file_path: w.path,
        username: Seq::empty(),
        size: w.size,
        format: format_of(w.path),
        created_at: 0,
        modified_at: 0,
        updated_at: now,
        is_dir: w.is_dir,
    }
}

/// How one reconciling step changes the catalog: every batch path is present
/// afterwards, rows already present are stamped, rows for new paths are
/// freshly built, and rows off the batch are untouched.
pub open spec fn reconciled(
    old: Seq<CatalogEntryView>,
    new: Seq<CatalogEntryView>,
    batch: Seq<WalkedEntryView>,
    now: u64,
) -> bool {
    &&& forall|p: Seq<char>|
        #![trigger has_path(new, p)]
        has_path(new, p) <==> has_path(old, p) || walk_has(batch, p)
    &&& forall|p: Seq<char>|
        #![trigger row_of(new, p)]
        has_path(old, p) && walk_has(batch, p) ==> row_of(new, p) == stamped(row_of(old, p), now)
    &&& forall|p: Seq<char>|
        #![trigger row_of(new, p)]
        has_path(old, p) && !walk_has(batch, p) ==> row_of(new, p) == row_of(old, p)
    &&& forall|p: Seq<char>|
        #![trigger row_of(new, p)]
        !has_path(old, p) && walk_has(batch, p) ==> row_of(new, p) == fresh_entry(
            walk_entry(batch, p),
            now,
        )
}

/// Under a unique key, the row found at an index is the row of its path.
pub proof fn lemma_row_of_index(rows: Seq<CatalogEntryView>, i: int)
    requires
        distinct_paths(rows),
        0 <= i < rows.len(),
    ensures
        has_path(rows, rows[i].file_path),
        row_of(rows, rows[i].file_path) == rows[i],
{
    assert(has_path(rows, rows[i].file_path));
    let j = choose|j: int| 0 <= j < rows.len() && (#[trigger] rows[j]).file_path
        == rows[i].file_path;
    if j < i {
        assert(false);
    } else if i < j {
        assert(false);
    }
}

/// Updating one row in place, without changing its path, leaves every other
/// path's row alone.
proof fn lemma_update_frame(rows: Seq<CatalogEntryView>, i: int, e: CatalogEntryView)
    requires
        distinct_paths(rows),
        0 <= i < rows.len(),
        e.file_path == rows[i].file_path,
    ensures
        distinct_paths(rows.update(i, e)),
        has_path(rows.update(i, e), e.file_path),
        row_of(rows.update(i, e), e.file_path) == e,
        forall|q: Seq<char>|
            q != e.file_path ==> (#[trigger] has_path(rows.update(i, e), q)) == has_path(rows, q),
        forall|q: Seq<char>|
            q != e.file_path && has_path(rows, q) ==> (#[trigger] row_of(rows.update(i, e), q))
                == row_of(rows, q),
{
    let new = rows.update(i, e);
    assert(distinct_paths(new)) by {
        assert forall|a: int, b: int| 0 <= a < b < new.len() implies (#[trigger] new[a]).file_path
            != (#[trigger] new[b]).file_path by {
            assert(rows[a].file_path != rows[b].file_path);
        }
    }
    lemma_row_of_index(new, i);
    assert forall|q: Seq<char>| q != e.file_path implies (#[trigger] has_path(new, q)) == has_path(
        rows,
        q,
    ) by {
        if has_path(new, q) {
            let a = choose|a: int| 0 <= a < new.len() && (#[trigger] new[a]).file_path == q;
            assert(a != i);
            assert(rows[a].file_path == q);
        }
        if has_path(rows, q) {
            let a = choose|a: int| 0 <= a < rows.len() && (#[trigger] rows[a]).file_path == q;
            assert(a != i);
            assert(new[a].file_path == q);
        }
    }
    assert forall|q: Seq<char>| q != e.file_path && has_path(rows, q) implies (#[trigger] row_of(
        new,
        q,
    )) == row_of(rows, q) by {
        let a = choose|a: int| 0 <= a < rows.len() && (#[trigger] rows[a]).file_path == q;
        assert(a != i);
        assert(new[a].file_path == q);
        lemma_row_of_index(rows, a);
        lemma_row_of_index(new, a);
    }
}

/// Appending a row with a path nobody carries leaves every other path's row
/// alone.
proof fn lemma_push_frame(rows: Seq<CatalogEntryView>, e: CatalogEntryView)
    requires
        distinct_paths(rows),
        !has_path(rows, e.file_path),
    ensures
        distinct_paths(rows.push(e)),
        has_path(rows.push(e), e.file_path),
        row_of(rows.push(e), e.file_path) == e,
        forall|q: Seq<char>|
            q != e.file_path ==> (#[trigger] has_path(rows.push(e), q)) == has_path(rows, q),
        forall|q: Seq<char>|
            q != e.file_path && has_path(rows, q) ==> (#[trigger] row_of(rows.push(e), q))
                == row_of(rows, q),
{
    let new = rows.push(e);
    assert(new[rows.len() as int] == e);
    assert(distinct_paths(new)) by {
        assert forall|a: int, b: int| 0 <= a < b < new.len() implies (#[trigger] new[a]).file_path
            != (#[trigger] new[b]).file_path by {
            if b < rows.len() {
                assert(rows[a].file_path != rows[b].file_path);
            } else {
                assert(new[b] == e);
                assert(new[a] == rows[a]);
            }
        }
    }
    lemma_row_of_index(new, rows.len() as int);
    assert forall|q: Seq<char>| q != e.file_path implies (#[trigger] has_path(new, q)) == has_path(
        rows,
        q,
    ) by {
        if has_path(new, q) {
            let a = choose|a: int| 0 <= a < new.len() && (#[trigger] new[a]).file_path == q;
            assert(a < rows.len());
            assert(rows[a].file_path == q);
        }
        if has_path(rows, q) {
            let a = choose|a: int| 0 <= a < rows.len() && (#[trigger] rows[a]).file_path == q;
            assert(new[a].file_path == q);
        }
    }
    assert forall|q: Seq<char>| q != e.file_path && has_path(rows, q) implies (#[trigger] row_of(
        new,
        q,
    )) == row_of(rows, q) by {
        let a = choose|a: int| 0 <= a < rows.len() && (#[trigger] rows[a]).file_path == q;
        assert(new[a].file_path == q);
        lemma_row_of_index(rows, a);
        lemma_row_of_index(new, a);
    }
}

/// Removing one row leaves every other path's row alone.
proof fn lemma_remove_frame(rows: Seq<CatalogEntryView>, i: int)
    requires
        distinct_paths(rows),
        0 <= i < rows.len(),
    ensures
        distinct_paths(rows.remove(i)),
        !has_path(rows.remove(i), rows[i].file_path),
        forall|q: Seq<char>|
            q != rows[i].file_path ==> (#[trigger] has_path(rows.remove(i), q)) == has_path(
                rows,
                q,
            ),
        forall|q: Seq<char>|
            q != rows[i].file_path && has_path(rows, q) ==> (#[trigger] row_of(rows.remove(i), q))
                == row_of(rows, q),
{
    let new = rows.remove(i);
    assert forall|a: int| 0 <= a < new.len() implies #[trigger] new[a] == (if a < i {
        rows[a]
    } else {
        rows[a + 1]
    }) by {}
    assert(distinct_paths(new)) by {
        assert forall|a: int, b: int| 0 <= a < b < new.len() implies (#[trigger] new[a]).file_path
            != (#[trigger] new[b]).file_path by {
            let a0 = if a < i {
                a
            } else {
                a + 1
            };
            let b0 = if b < i {
                b
            } else {
                b + 1
            };
            assert(rows[a0].file_path != rows[b0].file_path);
        }
    }
    assert(!has_path(new, rows[i].file_path)) by {
        if has_path(new, rows[i].file_path) {
            let a = choose|a: int| 0 <= a < new.len() && (#[trigger] new[a]).file_path
                == rows[i].file_path;
            let a0 = if a < i {
                a
            } else {
                a + 1
            };
            assert(rows[a0].file_path == rows[i].file_path);
            assert(a0 != i);
            assert(false);
        }
    }
    assert forall|q: Seq<char>| q != rows[i].file_path implies (#[trigger] has_path(new, q))
        == has_path(rows, q) by {
        if has_path(new, q) {
            let a = choose|a: int| 0 <= a < new.len() && (#[trigger] new[a]).file_path == q;
            let a0 = if a < i {
                a
            } else {
                a + 1
            };
            assert(rows[a0].file_path == q);
        }
        if has_path(rows, q) {
            let a = choose|a: int| 0 <= a < rows.len() && (#[trigger] rows[a]).file_path == q;
            assert(a != i);
            if a < i {
                assert(new[a].file_path == q);
            } else {
                assert(new[a - 1].file_path == q);
            }
        }
    }
    assert forall|q: Seq<char>| q != rows[i].file_path && has_path(rows, q) implies (
    #[trigger] row_of(new, q)) == row_of(rows, q) by {
        let a = choose|a: int| 0 <= a < rows.len() && (#[trigger] rows[a]).file_path == q;
        assert(a != i);
        lemma_row_of_index(rows, a);
        if a < i {
            assert(new[a].file_path == q);
            lemma_row_of_index(new, a);
        } else {
            assert(new[a - 1].file_path == q);
            lemma_row_of_index(new, a - 1);
        }
    }
}

// ---------------------------------------------------------------------------
// The catalog itself
// ---------------------------------------------------------------------------
/// The persisted catalog: one row per filesystem entry, keyed by `file_path`.
pub struct Catalog {
    pub rows: Vec<CatalogEntry>,
}

impl Catalog {
    /// The rows as mathematical values.
    pub open spec fn rows_view(&self) -> Seq<CatalogEntryView> {
        self.rows.deep_view()
    }

    /// The table's key invariant: paths are unique.
    pub open spec fn wf(&self) -> bool {
        distinct_paths(self.rows_view())
    }

    /// An empty catalog.
    pub fn new() -> (c: Catalog)
        ensures
            c.wf(),
            c.rows_view() == Seq::<CatalogEntryView>::empty(),
    {
        let c = Catalog { rows: Vec::new() };
        proof {
            assert(c.rows_view() =~= Seq::<CatalogEntryView>::empty());
        }
        c
    }

    /// The number of rows.
    pub fn len(&self) -> (n: usize)
        ensures
            n == self.rows_view().len(),
    {
        self.rows.len()
    }

    fn find_row(&self, path: &String) -> (r: Option<usize>)
        ensures
            (match r {
                Some(i) => i < self.rows_view().len() && self.rows_view()[i as int].file_path
                    == path@,
                None => !has_path(self.rows_view(), path@),
            }),
    {
        let mut i: usize = 0;
        while i < self.rows.len()
            invariant
                i <= self.rows_view().len(),
                self.rows_view().len() == self.rows@.len(),
                forall|j: int| 0 <= j < i ==> (#[trigger] self.rows_view()[j]).file_path != path@,
            decreases self.rows@.len() - i,
        {
            if self.rows[i].file_path.eq(path) {
                return Some(i);
            }
            i += 1;
        }
        None
    }

    /// One reconciling step of an index pass: stamp the rows of batch paths
    /// already present with the pass timestamp, and insert a fresh row for
    /// every batch path not seen before.
    pub fn insert_files_into_db(&mut self, batch: &Vec<WalkedEntry>, now: u64)
        requires
            old(self).wf(),
            distinct_walk(batch.deep_view()),
        ensures
            final(self).wf(),
            reconciled(old(self).rows_view(), final(self).rows_view(), batch.deep_view(), now),
    {
        let ghost old_rows = self.rows_view();
        let ghost all = batch.deep_view();
        let mut k: usize = 0;
        proof {
            assert(all.take(0) =~= Seq::<WalkedEntryView>::empty());
            assert(reconciled(old_rows, self.rows_view(), all.take(0), now));
        }
        while k < batch.len()
            invariant
                all == batch.deep_view(),
                k <= all.len(),
                all.len() == batch@.len(),
                distinct_walk(all),
                self.wf(),
                reconciled(old_rows, self.rows_view(), all.take(k as int), now),
            decreases all.len() - k,
        {
            let ghost cur = self.rows_view();
            let ghost p = all[k as int].path;
            proof {
                lemma_take_extend(all, k as int);
                assert forall|j: int| 0 <= j < k implies (#[trigger] all.take(k as int)[j]).path
                    != p by {
                    assert(all[j].path != all[k as int].path);
                }
                assert(!walk_has(all.take(k as int), p));
            }
            let entry = &batch[k];
            match self.find_row(&entry.path) {
                Some(i) => {
                    proof {
                        lemma_row_of_index(cur, i as int);
                        // the path was already present before this batch
                        assert(has_path(cur, p));
                        assert(has_path(old_rows, p));
                        assert(row_of(cur, p) == row_of(old_rows, p));
                    }
                    self.rows[i].updated_at = now;
                    proof {
                        assert(self.rows_view() =~= cur.update(
                            i as int,
                            stamped(row_of(old_rows, p), now),
                        ));
                        lemma_update_frame(cur, i as int, stamped(row_of(old_rows, p), now));
                        lemma_reconciled_extend(
                            old_rows,
                            cur,
                            self.rows_view(),
                            all,
                            k as int,
                            now,
                        );
                    }
                },
                None => {
                    proof {
                        assert(!has_path(cur, p));
                        assert(!has_path(old_rows, p));
                    }
                    let file_name = basename(entry.path.as_str());
                    let format = guess_format(entry.path.as_str());
                    let row = CatalogEntry {
                        file_name,
                        file_path: entry.path.clone(),
                        username: String::new(),
                        size: entry.size,
                        format,
                        created_at: 0,
                        modified_at: 0,
                        updated_at: now,
                        is_dir: entry.is_dir,
                    };
                    proof {
                        assert(row@ =~= fresh_entry(all[k as int], now));
                    }
                    let ghost rv = row@;
                    self.rows.push(row);
                    proof {
                        assert(self.rows_view() =~= cur.push(rv));
                        lemma_push_frame(cur, rv);
                        lemma_reconciled_extend(
                            old_rows,
                            cur,
                            self.rows_view(),
                            all,
                            k as int,
                            now,
                        );
                    }
                },
            }
            k += 1;
        }
        proof {
            assert(all.take(all.len() as int) =~= all);
        }
    }

    /// The cleanup step of an index pass: delete every row whose
    /// `updated_at` is not the current pass timestamp — the entries that
    /// existed before the pass but were not re-observed.
    pub fn cleanup_db(&mut self, now: u64)
        requires
            old(self).wf(),
        ensures
            final(self).wf(),
            forall|p: Seq<char>|
                #![trigger has_path(final(self).rows_view(), p)]
                has_path(final(self).rows_view(), p) <==> (has_path(old(self).rows_view(), p)
                    && row_of(old(self).rows_view(), p).updated_at == now),
            forall|p: Seq<char>|
                #![trigger row_of(final(self).rows_view(), p)]
                has_path(final(self).rows_view(), p) ==> row_of(final(self).rows_view(), p)
                    == row_of(old(self).rows_view(), p),
    {
        let ghost old_rows = self.rows_view();
        let mut i: usize = 0;
        while i < self.rows.len()
            invariant
                distinct_paths(old_rows),
                self.wf(),
                i <= self.rows_view().len(),
                self.rows_view().len() == self.rows@.len(),
                forall|j: int| 0 <= j < i ==> (#[trigger] self.rows_view()[j]).updated_at == now,
                forall|p: Seq<char>|
                    #![trigger has_path(self.rows_view(), p)]
                    has_path(self.rows_view(), p) ==> has_path(old_rows, p) && row_of(
                        self.rows_view(),
                        p,
                    ) == row_of(old_rows, p),
                forall|p: Seq<char>|
                    #![trigger has_path(old_rows, p)]
                    has_path(old_rows, p) && row_of(old_rows, p).updated_at == now ==> has_path(
                        self.rows_view(),
                        p,
                    ),
            decreases self.rows@.len() - i,
    {
            let ghost cur = self.rows_view();
            if self.rows[i].updated_at == now {
                i += 1;
            } else {
                proof {
                    lemma_row_of_index(cur, i as int);
                }
                let ghost gone = cur[i as int].file_path;
                self.rows.remove(i);
                proof {
                    assert(self.rows_view() =~= cur.remove(i as int));
                    lemma_remove_frame(cur, i as int);
                    assert forall|p: Seq<char>|
                        has_path(old_rows, p) && row_of(old_rows, p).updated_at
                            == now implies #[trigger] has_path(self.rows_view(), p) by {
                        if p == gone {
                            assert(row_of(old_rows, p) == row_of(cur, p));
                            assert(row_of(cur, p) == cur[i as int]);
                            assert(false);
                        } else {
                            assert(has_path(cur, p));
                        }
                    }
                }
            }
        }
    }
}

/// Extending a taken prefix by one element.
proof fn lemma_take_extend(all: Seq<WalkedEntryView>, k: int)
    requires
        0 <= k < all.len(),
    ensures
        all.take(k + 1) == all.take(k).push(all[k]),
{
    assert(all.take(k + 1) =~= all.take(k).push(all[k]));
}

/// One element more of the batch carries the reconciliation one step: the
/// new state differs from the previous exactly at the processed path.
proof fn lemma_reconciled_extend(
    old_rows: Seq<CatalogEntryView>,
    cur: Seq<CatalogEntryView>,
    new: Seq<CatalogEntryView>,
    all: Seq<WalkedEntryView>,
    k: int,
    now: u64,
)
    requires
        0 <= k < all.len(),
        distinct_walk(all),
        reconciled(old_rows, cur, all.take(k), now),
        !walk_has(all.take(k), all[k].path),
        // how the step changed the rows at the one path it touched:
        has_path(new, all[k].path),
        row_of(new, all[k].path) == (if has_path(old_rows, all[k].path) {
            stamped(row_of(old_rows, all[k].path), now)
        } else {
            fresh_entry(all[k], now)
        }),
        forall|q: Seq<char>| q != all[k].path ==> (#[trigger] has_path(new, q)) == has_path(cur, q),
        forall|q: Seq<char>|
            q != all[k].path && has_path(cur, q) ==> (#[trigger] row_of(new, q)) == row_of(cur, q),
    ensures
        reconciled(old_rows, new, all.take(k + 1), now),
{
    let p = all[k].path;
    let done = all.take(k);
    let done1 = all.take(k + 1);
    lemma_take_extend(all, k);
    assert forall|q: Seq<char>| #[trigger] walk_has(done1, q) implies q == p || walk_has(
        done,
        q,
    ) by {
        let a = choose|a: int| 0 <= a < done1.len() && (#[trigger] done1[a]).path == q;
        if a < k {
            assert(done[a].path == q);
        }
    }
    assert forall|q: Seq<char>| walk_has(done, q) implies #[trigger] walk_has(done1, q) by {
        let a = choose|a: int| 0 <= a < done.len() && (#[trigger] done[a]).path == q;
        assert(done1[a].path == q);
    }
    assert(walk_has(done1, p)) by {
        assert(done1[k].path == p);
    }
    assert(walk_entry(done1, p) == all[k]) by {
        let a = choose|a: int| 0 <= a < done1.len() && (#[trigger] done1[a]).path == p;
        if a < k {
            assert(done[a].path == p);
            assert(walk_has(done, p));
            assert(false);
        }
    }
    assert forall|q: Seq<char>| walk_has(done, q) implies q != p && walk_entry(done1, q)
        == walk_entry(done, q) by {
        let a = choose|a: int| 0 <= a < done.len() && (#[trigger] done[a]).path == q;
        assert(all[a].path == q);
        if q == p {
            assert(all[a].path == all[k].path);
            assert(false);
        }
        let b = choose|b: int| 0 <= b < done1.len() && (#[trigger] done1[b]).path == q;
        if b == k {
            assert(false);
        }
        assert(done[b].path == q);
        // both chosen entries sit in `all` and carry the same path
        assert(all[a].path == all[b].path);
        if a < b {
            assert(false);
        } else if b < a {
            assert(false);
        }
    }
}

} // verus!
