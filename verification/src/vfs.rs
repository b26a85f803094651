use vstd::prelude::*;

use crate::error::AppError;

verus! {

/// Raw filesystem metadata of one entry, as plain values: the flags and
/// length, and each timestamp as seconds and nanoseconds since the epoch,
/// `None` when the OS reported a time before the epoch.
#[derive(Clone, Copy, Debug)]
pub struct RawMeta {
    pub is_dir: bool,
    pub is_file: bool,
    pub len: u64,
    pub created: Option<(u64, u32)>,
    pub modified: Option<(u64, u32)>,
    pub accessed: Option<(u64, u32)>,
}

/// The stable wire representation of one filesystem entry's metadata, with
/// every timestamp in milliseconds since the epoch.
#[derive(Debug)]
pub struct FileStat {
    pub is_dir: bool,
    pub is_file: bool,
    pub file_type: String,
    pub size: u64,
    pub created: u128,
    pub modified: u128,
    pub accessed: u128,
}

/// The mathematical image of a `FileStat`.
#[verifier::ext_equal]
pub struct FileStatView {
    pub is_dir: bool,
    pub is_file: bool,
    pub file_type: Seq<char>,
    pub size: u64,
    pub created: u128,
    pub modified: u128,
    pub accessed: u128,
}

impl View for FileStat {
    type V = FileStatView;

    open spec fn view(&self) -> FileStatView {
        FileStatView {
            is_dir: self.is_dir,
            is_file: self.is_file,
            file_type: self.file_type@,
            size: self.size,
            created: self.created,
            modified: self.modified,
            accessed: self.accessed,
        }
    }
}

impl DeepView for FileStat {
    type V = FileStatView;

    open spec fn deep_view(&self) -> FileStatView {
        self.view()
    }
}

/// A directory child's stat, labelled with the child's name.
#[derive(Debug)]
pub struct FileStatWithName {
    pub name: String,
    pub stat: FileStat,
}

/// The mathematical image of a `FileStatWithName`.
#[verifier::ext_equal]
pub struct FileStatWithNameView {
    pub name: Seq<char>,
    pub stat: FileStatView,
}

impl View for FileStatWithName {
    type V = FileStatWithNameView;

    open spec fn view(&self) -> FileStatWithNameView {
        FileStatWithNameView { name: self.name@, stat: self.stat@ }
    }
}

impl DeepView for FileStatWithName {
    type V = FileStatWithNameView;

    open spec fn deep_view(&self) -> FileStatWithNameView {
        self.view()
    }
}

impl FileStatWithName {
    /// Label a stat with the entry's name.
    pub fn new(file_stat: &FileStat, name: &str) -> (r: FileStatWithName)
        ensures
            r@.name == name@,
            r@.stat == file_stat@,
    {
        FileStatWithName {
            name: name.to_owned(),
            stat: FileStat {
                is_dir: file_stat.is_dir,
                is_file: file_stat.is_file,
                file_type: file_stat.file_type.clone(),
                size: file_stat.size,
                created: file_stat.created,
                modified: file_stat.modified,
                accessed: file_stat.accessed,
            },
        }
    }
}

/// A timestamp in milliseconds since the epoch, from seconds and
/// nanoseconds.
pub open spec fn millis_of(t: (u64, u32)) -> int {
    t.0 * 1000 + t.1 / 1_000_000
}

/// What converting raw metadata yields: a `ClockError` when any timestamp
/// lay before the epoch, otherwise the stat with every time in milliseconds
/// and an empty media type.
pub open spec fn stat_of(meta: RawMeta) -> Result<FileStatView, AppError> {
    if meta.created is None || meta.modified is None || meta.accessed is None {
        Err(AppError::ClockError)
    } else {
        Ok(
            FileStatView {
                is_dir: meta.is_dir,
                is_file: meta.is_file,
                file_type: Seq::empty(),
                size: meta.len,
                created: millis_of(meta.created.unwrap()) as u128,
                modified: millis_of(meta.modified.unwrap()) as u128,
                accessed: millis_of(meta.accessed.unwrap()) as u128,
            },
        )
    }
}

fn to_millis(t: (u64, u32)) -> (r: u128)
    ensures
        r == millis_of(t),
{
    (t.0 as u128) * 1000 + (t.1 / 1_000_000) as u128
}

/// Normalize raw filesystem metadata into the wire representation.
pub fn convert_meta_to_struct(meta: RawMeta) -> (r: Result<FileStat, AppError>)
    ensures
        (match r {
            Ok(st) => stat_of(meta) == Ok::<FileStatView, AppError>(st@),
            Err(e) => stat_of(meta) == Err::<FileStatView, AppError>(e),
        }),
{
    let created = match meta.created {
        Some(t) => t,
        None => {
            return Err(AppError::ClockError);
        },
    };
    let modified = match meta.modified {
        Some(t) => t,
        None => {
            return Err(AppError::ClockError);
        },
    };
    let accessed = match meta.accessed {
        Some(t) => t,
        None => {
            return Err(AppError::ClockError);
        },
    };
    let st = FileStat {
        is_dir: meta.is_dir,
        is_file: meta.is_file,
        file_type: String::new(),
        size: meta.len,
        created: to_millis(created),
        modified: to_millis(modified),
        accessed: to_millis(accessed),
    };
    Ok(st)
}

/// One child of a listed directory as handed in by the caller: its name and
/// the raw metadata, `None` when the metadata read itself failed.
#[derive(Debug)]
pub struct DirEntryRaw {
    pub name: String,
    pub meta: Option<RawMeta>,
}

/// The mathematical image of a `DirEntryRaw`.
#[verifier::ext_equal]
pub struct DirEntryRawView {
    pub name: Seq<char>,
    pub meta: Option<RawMeta>,
}

impl View for DirEntryRaw {
    type V = DirEntryRawView;

    open spec fn view(&self) -> DirEntryRawView {
        DirEntryRawView { name: self.name@, meta: self.meta }
    }
}

impl DeepView for DirEntryRaw {
    type V = DirEntryRawView;

    open spec fn deep_view(&self) -> DirEntryRawView {
        self.view()
    }
}

/// What listing a directory yields: one labelled stat per child in order,
/// or, at the first child whose metadata could not be read or converted,
/// that child's error and no partial listing.
pub open spec fn read_dir_spec(entries: Seq<DirEntryRawView>) -> Result<
    Seq<FileStatWithNameView>,
    AppError,
>
    decreases entries.len(),
{
    if entries.len() == 0 {
        Ok(Seq::empty())
    } else {
        let e = entries[0];
        if e.meta is None {
            Err(AppError::IOError)
        } else {
            match stat_of(e.meta.unwrap()) {
                Err(err) => Err(err),
                Ok(st) => match read_dir_spec(entries.skip(1)) {
                    Err(err) => Err(err),
                    Ok(rest) => Ok(seq![FileStatWithNameView { name: e.name, stat: st }] + rest),
                },
            }
        }
    }
}

/// List the immediate children of a directory from their raw metadata.
///
/// Any child whose metadata is missing or malformed aborts the whole
/// listing with its error: the listing is all-or-nothing on purpose, so a
/// caller never sees partial results.
pub fn read_dir(entries: &Vec<DirEntryRaw>) -> (r: Result<Vec<FileStatWithName>, AppError>)
    ensures
        (match r {
            Ok(v) => read_dir_spec(entries.deep_view()) == Ok::<
                Seq<FileStatWithNameView>,
                AppError,
            >(v.deep_view()),
            Err(e) => read_dir_spec(entries.deep_view()) == Err::<
                Seq<FileStatWithNameView>,
                AppError,
            >(e),
        }),
{
    let ghost all = entries.deep_view();
    let mut out: Vec<FileStatWithName> = Vec::new();
    let mut i: usize = 0;
    proof {
        assert(all.skip(0) =~= all);
        assert(out.deep_view() =~= Seq::<FileStatWithNameView>::empty());
    }
    while i < entries.len()
        invariant
            all == entries.deep_view(),
            i <= entries@.len(),
            all.len() == entries@.len(),
            out.deep_view().len() == i,
            (match read_dir_spec(all) {
                Ok(v) => read_dir_spec(all.skip(i as int)) matches Ok(rest) && v == out.deep_view()
                    + rest,
                Err(e) => read_dir_spec(all.skip(i as int)) == Err::<
                    Seq<FileStatWithNameView>,
                    AppError,
                >(e),
            }),
        decreases entries@.len() - i,
    {
        proof {
            assert(all.skip(i as int).skip(1) =~= all.skip(i + 1));
            assert(all.skip(i as int)[0] == all[i as int]);
        }
        let entry = &entries[i];
        let meta = match entry.meta {
            Some(m) => m,
            None => {
                return Err(AppError::IOError);
            },
        };
        let file_stat = match convert_meta_to_struct(meta) {
            Ok(st) => st,
            Err(e) => {
                return Err(e);
            },
        };
        let with_name = FileStatWithName::new(&file_stat, entry.name.as_str());
        let ghost prev = out.deep_view();
        out.push(with_name);
        proof {
            assert(out.deep_view() =~= prev.push(with_name.deep_view()));
        }
        i += 1;
    }
    proof {
        assert(all.skip(entries@.len() as int) =~= Seq::<DirEntryRawView>::empty());
    }
    Ok(out)
}

/// The request shape of a directory-or-file action: the target path.
pub struct GetFilesOfDirReq {
    pub file: Option<String>,
}

/// The response shape of a directory listing.
pub struct GetFilesOfDirResp {
    pub files: Vec<FileStatWithName>,
}

/// The request shape of an image read: the target path and an optional
/// bounding size for a thumbnail.
pub struct ReadImageReq {
    pub file: Option<String>,
    pub resize: Option<u32>,
}

/// The request shape of a transcoded video read: the target path, an
/// optional output height and an optional bitrate.
pub struct ReadVideoReq {
    pub file: Option<String>,
    pub resize: Option<u32>,
    pub bitrate: Option<u32>,
}

} // verus!
