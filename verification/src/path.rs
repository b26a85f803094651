use vstd::prelude::*;

use crate::error::AppError;

verus! {

/// True when the character sequence holds two consecutive dots, the textual
/// marker of a parent-directory segment.
pub open spec fn has_dotdot(s: Seq<char>) -> bool {
    exists|i: int| 0 <= i && i + 1 < s.len() && #[trigger] s[i] == '.' && s[i + 1] == '.'
}

/// True when the path is absolute, i.e. begins with a separator.
pub open spec fn is_rooted(s: Seq<char>) -> bool {
    s.len() > 0 && s[0] == '/'
}

/// The characters of `root`, a separator, and the characters of `rel`.
pub open spec fn joined_path(root: Seq<char>, rel: Seq<char>) -> Seq<char> {
    root + seq!['/'] + rel
}

/// What `secure_join` returns: a sandbox violation is a `PathError`, any
/// other relative path resolves to the plain join.
pub open spec fn secure_join_spec(root: Seq<char>, unsafe_path: Seq<char>) -> Result<
    Seq<char>,
    AppError,
> {
    if is_rooted(unsafe_path) || has_dotdot(unsafe_path) {
        Err(AppError::PathError)
    } else {
        Ok(joined_path(root, unsafe_path))
    }
}

/// Whether the textual form of `s` contains a parent-directory marker `..`.
pub fn contains_dotdot(s: &str) -> (r: bool)
    ensures
        r == has_dotdot(s@),
{
    let n: usize = s.unicode_len();
    if n < 2 {
        return false;
    }
    let mut i: usize = 0;
    while i + 1 < n
        invariant
            n == s@.len(),
            2 <= n,
            i + 1 <= n,
            forall|j: int| 0 <= j < i ==> !(#[trigger] s@[j] == '.' && s@[j + 1] == '.'),
        decreases n - i,
    {
        if s.get_char(i) == '.' && s.get_char(i + 1) == '.' {
            assert(s@[i as int] == '.' && s@[i + 1] == '.');
            return true;
        }
        i += 1;
    }
    false
}

/// Whether `s` begins with a separator.
pub fn starts_rooted(s: &str) -> (r: bool)
    ensures
        r == is_rooted(s@),
{
    let n: usize = s.unicode_len();
    if n == 0 {
        false
    } else {
        s.get_char(0) == '/'
    }
}

/// `root`, a separator, and `rel`, as one owned path.
pub fn join_path(root: &str, rel: &str) -> (r: String)
    ensures
        r@ == joined_path(root@, rel@),
{
    let mut s = root.to_owned();
    s.append("/");
    s.append(rel);
    proof {
        reveal_strlit("/");
        assert(s@ =~= joined_path(root@, rel@));
    }
    s
}

/// Path Sandbox: resolve a caller-supplied relative path against `root`.
///
/// A path that is absolute, or whose textual form holds a parent-directory
/// marker, is rejected with `PathError` before any joining happens; everything
/// else resolves to `root`, a separator, and the path, with no further
/// canonicalization.
pub fn secure_join(root: &str, unsafe_path: &str) -> (r: Result<String, AppError>)
    ensures
        (match r {
            Ok(p) => secure_join_spec(root@, unsafe_path@) == Ok::<Seq<char>, AppError>(p@),
            Err(e) => secure_join_spec(root@, unsafe_path@) == Err::<Seq<char>, AppError>(e),
        }),
{
    if starts_rooted(unsafe_path) {
        return Err(AppError::PathError);
    }
    if contains_dotdot(unsafe_path) {
        return Err(AppError::PathError);
    }
    Ok(join_path(root, unsafe_path))
}

/// The joined form of a user file path: the storage root, the user's root
/// directory, and the user-supplied path with at most one leading separator
/// dropped.
pub open spec fn normalized_path(
    file_root: Seq<char>,
    user_root: Seq<char>,
    file: Seq<char>,
) -> Seq<char> {
    let stripped = if is_rooted(file) {
        file.skip(1)
    } else {
        file
    };
    joined_path(joined_path(file_root, user_root), stripped)
}

/// Resolve a user-supplied path under `file_root/user_root`, tolerating one
/// leading separator on the user path.
pub fn normailze_path(file_root: &str, user_root: &str, file: &str) -> (r: String)
    ensures
        r@ == normalized_path(file_root@, user_root@, file@),
{
    let user_abs_root = join_path(file_root, user_root);
    if starts_rooted(file) {
        let n: usize = file.unicode_len();
        let stripped = file.substring_char(1, n);
        join_path(user_abs_root.as_str(), stripped)
    } else {
        join_path(user_abs_root.as_str(), file)
    }
}

/// The number of path segments of `s` still ahead, `in_seg` telling whether a
/// segment is already underway at the front.
pub open spec fn seg_count_from(s: Seq<char>, in_seg: bool) -> nat
    decreases s.len(),
{
    if s.len() == 0 {
        0
    } else if s[0] == '/' {
        seg_count_from(s.skip(1), false)
    } else if in_seg {
        seg_count_from(s.skip(1), true)
    } else {
        1 + seg_count_from(s.skip(1), true)
    }
}

/// The number of components of a path in textual form: its nonempty
/// separator-free segments, plus one for a leading separator.
pub open spec fn component_count(s: Seq<char>) -> nat {
    (if is_rooted(s) {
        1nat
    } else {
        0nat
    }) + seg_count_from(s, false)
}

fn count_components(s: &str) -> (r: u128)
    ensures
        r == component_count(s@),
{
    let n: usize = s.unicode_len();
    let mut count: u128 = if starts_rooted(s) {
        1
    } else {
        0
    };
    let mut in_seg = false;
    let mut i: usize = 0;
    proof {
        assert(s@.skip(0) =~= s@);
    }
    while i < n
        invariant
            n == s@.len(),
            i <= n,
            count <= 1 + i as u128,
            component_count(s@) == count + seg_count_from(s@.skip(i as int), in_seg),
        decreases n - i,
    {
        proof {
            assert(s@.skip(i as int).skip(1) =~= s@.skip(i + 1));
            assert(s@.skip(i as int)[0] == s@[i as int]);
        }
        let c = s.get_char(i);
        if c == '/' {
            in_seg = false;
        } else {
            if !in_seg {
                count = count + 1;
            }
            in_seg = true;
        }
        i += 1;
    }
    proof {
        assert(s@.skip(n as int) =~= Seq::<char>::empty());
    }
    count
}

/// The stricter sandbox: the lexical rejections of `secure_join`, and then a
/// comparison of the already canonicalized join and root, which the caller
/// obtains from the filesystem.
///
/// A path that is absolute, or whose textual form holds a parent-directory
/// marker, is rejected with `PathError` before any canonical comparison. A
/// canonical form that could not be computed (`None`, e.g. because the
/// target does not exist) fails with `IOError`. A canonical join with fewer
/// components than the canonical root escaped through a symlink and is
/// rejected with `PathError`; anything else resolves to the plain join.
pub fn secure_join_symlink(
    root: &str,
    unsafe_path: &str,
    canonical_joined: Option<&str>,
    canonical_root: Option<&str>,
) -> (r: Result<String, AppError>)
    ensures
        is_rooted(unsafe_path@) || has_dotdot(unsafe_path@) ==> r == Err::<String, AppError>(
            AppError::PathError,
        ),
        !is_rooted(unsafe_path@) && !has_dotdot(unsafe_path@) && (canonical_joined is None
            || canonical_root is None) ==> r == Err::<String, AppError>(AppError::IOError),
        !is_rooted(unsafe_path@) && !has_dotdot(unsafe_path@) && canonical_joined is Some
            && canonical_root is Some ==> (if component_count(canonical_joined.unwrap()@)
            < component_count(canonical_root.unwrap()@) {
            r == Err::<String, AppError>(AppError::PathError)
        } else {
            r matches Ok(p) && p@ == joined_path(root@, unsafe_path@)
        }),
{
    if starts_rooted(unsafe_path) {
        return Err(AppError::PathError);
    }
    if contains_dotdot(unsafe_path) {
        return Err(AppError::PathError);
    }
    let (cj, cr) = match (canonical_joined, canonical_root) {
        (Some(cj), Some(cr)) => (cj, cr),
        _ => {
            return Err(AppError::IOError);
        },
    };
    if count_components(cj) < count_components(cr) {
        return Err(AppError::PathError);
    }
    Ok(join_path(root, unsafe_path))
}

/// Every relative path that is absolute or holds a parent-directory marker
/// resolves to `PathError`, whatever the root.
pub proof fn lemma_secure_join_rejects_escapes(root: Seq<char>, unsafe_path: Seq<char>)
    requires
        is_rooted(unsafe_path) || has_dotdot(unsafe_path),
    ensures
        secure_join_spec(root, unsafe_path) == Err::<Seq<char>, AppError>(AppError::PathError),
{
}

} // verus!
