//! Vault path normalization and the write guard: which paths may be written.

use vstd::prelude::*;

use crate::encoding::{
    lemma_decode_without_percent, percent_decode_utf8, percent_decode_utf8_spec,
};
use crate::text::{
    chars_eq, chars_eq_str, chars_of, contains_char, contains_exec, contains_seq, extend_chars,
    extend_str, is_ws, join, join_chars, lemma_split_char_nonempty, lemma_split_char_pieces,
    lemma_split_char_pieces_avoid, lemma_split_join, lemma_trim_shape, occurs_at, split_char, split_chars, starts_with,
    starts_with_exec, string_of, string_views, trim, trim_chars, trim_start, views,
};

verus! {

/// A normalized vault path: segments joined by `/`, none of them empty,
/// `.`, `..` or padded with white space.
#[derive(Debug, Clone, PartialEq, Eq)]
pub struct VaultPath(String);

impl View for VaultPath {
    type V = Seq<char>;

    closed spec fn view(&self) -> Seq<char> {
        self.0@
    }
}

impl VaultPath {
    pub fn as_str(&self) -> (r: &str)
        ensures
            r@ == self@,
    {
        self.0.as_str()
    }

    pub fn into_string(self) -> (r: String)
        ensures
            r@ == self@,
    {
        self.0
    }
}

/// Why a path was refused.
#[derive(Debug, PartialEq, Eq)]
pub enum PathError {
    Absolute(String),
    UrlLike(String),
    InvalidEncoding,
    Traversal(String),
    Protected(String),
    WriteNotAllowed { path: String, allowed: String },
}

/// The abstract value of a `PathError`.
pub enum PathFault {
    Absolute(Seq<char>),
    UrlLike(Seq<char>),
    InvalidEncoding,
    Traversal(Seq<char>),
    Protected(Seq<char>),
    WriteNotAllowed { path: Seq<char>, allowed: Seq<char> },
}

impl View for PathError {
    type V = PathFault;

    open spec fn view(&self) -> PathFault {
        match self {
            PathError::Absolute(s) => PathFault::Absolute(s@),
            PathError::UrlLike(s) => PathFault::UrlLike(s@),
            PathError::InvalidEncoding => PathFault::InvalidEncoding,
            PathError::Traversal(s) => PathFault::Traversal(s@),
            PathError::Protected(s) => PathFault::Protected(s@),
            PathError::WriteNotAllowed { path, allowed } => PathFault::WriteNotAllowed {
                path: path@,
                allowed: allowed@,
            },
        }
    }
}

impl PathError {
    /// The error's message.
    pub fn message(&self) -> (r: String)
        ensures
            r@ == path_error_message(self@),
    {
        let mut v: Vec<char> = Vec::new();
        match self {
            PathError::Absolute(s) => {
                extend_str(&mut v, "absolute paths are not allowed: ");
                extend_str(&mut v, s.as_str());
            },
            PathError::UrlLike(s) => {
                extend_str(&mut v, "URL-like paths are not allowed: ");
                extend_str(&mut v, s.as_str());
            },
            PathError::InvalidEncoding => {
                extend_str(&mut v, "path contains invalid UTF-8 after percent decoding");
            },
            PathError::Traversal(s) => {
                extend_str(&mut v, "path traversal is not allowed: ");
                extend_str(&mut v, s.as_str());
            },
            PathError::Protected(s) => {
                extend_str(&mut v, "protected path is not writable: ");
                extend_str(&mut v, s.as_str());
            },
            PathError::WriteNotAllowed { path, allowed } => {
                extend_str(&mut v, "writing to ");
                extend_str(&mut v, path.as_str());
                extend_str(&mut v, " is not allowed; allowed write directories: ");
                extend_str(&mut v, allowed.as_str());
            },
        }
        string_of(&v)
    }
}

/// The text of each path error.
pub open spec fn path_error_message(e: PathFault) -> Seq<char> {
    match e {
        PathFault::Absolute(s) => "absolute paths are not allowed: "@ + s,
        PathFault::UrlLike(s) => "URL-like paths are not allowed: "@ + s,
        PathFault::InvalidEncoding => "path contains invalid UTF-8 after percent decoding"@,
        PathFault::Traversal(s) => "path traversal is not allowed: "@ + s,
        PathFault::Protected(s) => "protected path is not writable: "@ + s,
        PathFault::WriteNotAllowed { path, allowed } => "writing to "@ + path
            + " is not allowed; allowed write directories: "@ + allowed,
    }
}

pub open spec fn url_marker() -> Seq<char> {
    seq![':', '/', '/']
}

pub open spec fn dot() -> Seq<char> {
    seq!['.']
}

pub open spec fn dot_dot() -> Seq<char> {
    seq!['.', '.']
}

pub open spec fn slash() -> Seq<char> {
    seq!['/']
}

/// A piece that normalization drops: empty or `.` once trimmed.
pub open spec fn is_skipped_segment(t: Seq<char>) -> bool {
    t.len() == 0 || t == dot()
}

/// The trimmed pieces that normalization keeps, in order.
pub open spec fn kept_segments(parts: Seq<Seq<char>>) -> Seq<Seq<char>>
    decreases parts.len(),
{
    if parts.len() == 0 {
        Seq::empty()
    } else {
        let k = kept_segments(parts.drop_last());
        let t = trim(parts.last());
        if is_skipped_segment(t) {
            k
        } else {
            k.push(t)
        }
    }
}

/// Some piece is `..` once trimmed.
pub open spec fn has_parent_segment(parts: Seq<Seq<char>>) -> bool {
    exists|i: int| 0 <= i < parts.len() && trim(#[trigger] parts[i]) == dot_dot()
}

/// What `normalize_vault_path` gives for `raw`.
pub open spec fn normalize_spec(raw: Seq<char>) -> Result<Seq<char>, PathFault> {
    let t = trim(raw);
    if contains_seq(t, url_marker()) {
        Err(PathFault::UrlLike(t))
    } else if t.len() > 0 && (t[0] == '/' || t[0] == '\\') {
        Err(PathFault::Absolute(t))
    } else if t.contains('\\') {
        Err(PathFault::Traversal(t))
    } else {
        match percent_decode_utf8_spec(t) {
            None => Err(PathFault::InvalidEncoding),
            Some(d) => {
                let parts = split_char(d, '/');
                if d.contains('\\') || has_parent_segment(parts) {
                    Err(PathFault::Traversal(t))
                } else {
                    Ok(join(kept_segments(parts), slash()))
                }
            },
        }
    }
}

/// The abstract value of a normalization result.
pub open spec fn path_result_view(r: Result<VaultPath, PathError>) -> Result<Seq<char>, PathFault> {
    match r {
        Ok(p) => Ok(p@),
        Err(e) => Err(e@),
    }
}

fn slash_vec() -> (r: Vec<char>)
    ensures
        r@ == slash(),
{
    let mut r: Vec<char> = Vec::new();
    r.push('/');
    r
}

/// Normalizes a user-supplied vault path: refuses URLs, absolute paths and
/// backslashes, percent-decodes, refuses a backslash that decoding brings
/// in, drops empty and `.` segments, refuses `..`.
pub fn normalize_vault_path(raw: &str) -> (r: Result<VaultPath, PathError>)
    ensures
        path_result_view(r) == normalize_spec(raw@),
{
    let t = trim_chars(&chars_of(raw));
    let ts = string_of(&t);
    let mut marker: Vec<char> = Vec::new();
    marker.push(':');
    marker.push('/');
    marker.push('/');
    proof {
        assert(marker@ =~= url_marker());
    }
    if contains_exec(&t, &marker) {
        return Err(PathError::UrlLike(ts));
    }
    if t.len() > 0 && (t[0] == '/' || t[0] == '\\') {
        return Err(PathError::Absolute(ts));
    }
    if contains_char(&t, '\\') {
        return Err(PathError::Traversal(ts));
    }
    let decoded = match percent_decode_utf8(ts.as_str()) {
        Some(d) => chars_of(d.as_str()),
        None => {
            return Err(PathError::InvalidEncoding);
        },
    };
    assert(percent_decode_utf8_spec(t@) == Some(decoded@));
    if contains_char(&decoded, '\\') {
        return Err(PathError::Traversal(ts));
    }
    let parts = split_chars(&decoded, '/');
    let ghost pv = views(parts@);
    let mut kept: Vec<Vec<char>> = Vec::new();
    let mut i: usize = 0;
    while i < parts.len()
        invariant
            i <= parts@.len(),
            pv == views(parts@),
            pv == split_char(decoded@, '/'),
            ts@ == t@,
            t@ == trim(raw@),
            !contains_seq(t@, url_marker()),
            !(t@.len() > 0 && (t@[0] == '/' || t@[0] == '\\')),
            !t@.contains('\\'),
            percent_decode_utf8_spec(t@) == Some(decoded@),
            !decoded@.contains('\\'),
            views(kept@) == kept_segments(pv.take(i as int)),
            !has_parent_segment(pv.take(i as int)),
        decreases parts@.len() - i,
    {
        proof {
            assert(pv.take(i + 1).drop_last() =~= pv.take(i as int));
            assert(pv.take(i + 1).last() == parts@[i as int]@);
        }
        let part = trim_chars(&parts[i]);
        let skip = part.len() == 0 || (part.len() == 1 && part[0] == '.');
        proof {
            assert(is_skipped_segment(part@) == skip) by {
                if part@.len() == 1 && part@[0] == '.' {
                    assert(part@ =~= dot());
                }
            }
        }
        if !skip {
            if part.len() == 2 && part[0] == '.' && part[1] == '.' {
                proof {
                    assert(part@ =~= dot_dot());
                    assert(trim(pv[i as int]) == dot_dot());
                    assert(has_parent_segment(pv));
                }
                return Err(PathError::Traversal(ts));
            }
            proof {
                assert(part@ != dot_dot());
            }
            kept.push(part);
            proof {
                assert(views(kept@) =~= kept_segments(pv.take(i as int)).push(trim(pv[i as int])));
            }
        }
        proof {
            assert forall|j: int| 0 <= j < i + 1 implies trim(#[trigger] pv.take(i + 1)[j])
                != dot_dot() by {
                if j < i {
                    assert(pv.take(i + 1)[j] == pv.take(i as int)[j]);
                }
            }
        }
        i = i + 1;
    }
    proof {
        assert(pv.take(parts@.len() as int) =~= pv);
    }
    let joined = join_chars(&kept, &slash_vec());
    Ok(VaultPath(string_of(&joined)))
}


/// The top-level vault directories that no write may touch.
pub open spec fn protected_top_dirs() -> Seq<Seq<char>> {
    seq![
        ".obsidian"@,
        "Attachments"@,
        "Notes"@,
        "Projects"@,
        "Troubleshooting"@,
        "Index"@,
        "Daily"@,
        "Sources"@,
    ]
}

/// The first segment of `p` (all of it when it holds no `/`).
pub open spec fn first_segment(p: Seq<char>) -> Seq<char> {
    split_char(p, '/')[0]
}

/// `p` lies under one of the protected top-level directories.
pub open spec fn is_protected_path(p: Seq<char>) -> bool {
    protected_top_dirs().contains(first_segment(p))
}

/// `p` is the directory `d` itself or lies inside it.
pub open spec fn under_dir(p: Seq<char>, d: Seq<char>) -> bool {
    p == d || starts_with(p, d + slash())
}

/// Each directory normalized, in order; the first failure if any fails.
pub open spec fn normalize_all(dirs: Seq<Seq<char>>) -> Result<Seq<Seq<char>>, PathFault>
    decreases dirs.len(),
{
    if dirs.len() == 0 {
        Ok(Seq::empty())
    } else {
        match normalize_all(dirs.drop_last()) {
            Err(e) => Err(e),
            Ok(ps) => match normalize_spec(dirs.last()) {
                Err(e) => Err(e),
                Ok(p) => Ok(ps.push(p)),
            },
        }
    }
}

pub open spec fn list_separator() -> Seq<char> {
    seq![',', ' ']
}

/// What `assert_write_allowed` gives for `raw` and the configured
/// write directories `dirs`.
pub open spec fn write_guard_spec(raw: Seq<char>, dirs: Seq<Seq<char>>) -> Result<
    Seq<char>,
    PathFault,
> {
    match normalize_spec(raw) {
        Err(e) => Err(e),
        Ok(p) => if is_protected_path(p) {
            Err(PathFault::Protected(p))
        } else {
            match normalize_all(dirs) {
                Err(e) => Err(e),
                Ok(nd) => if exists|i: int| 0 <= i < nd.len() && under_dir(p, #[trigger] nd[i]) {
                    Ok(p)
                } else {
                    Err(PathFault::WriteNotAllowed { path: p, allowed: join(nd, list_separator()) })
                },
            }
        },
    }
}

/// Whether the first segment of `path` is a protected directory.
fn is_protected_write_path(path: &[char]) -> (r: bool)
    ensures
        r == is_protected_path(path@),
{
    let parts = split_chars(path, '/');
    proof {
        lemma_split_char_nonempty(path@, '/');
    }
    let first = &parts[0];
    let r = chars_eq_str(first, ".obsidian") || chars_eq_str(first, "Attachments")
        || chars_eq_str(first, "Notes") || chars_eq_str(first, "Projects") || chars_eq_str(
        first,
        "Troubleshooting",
    ) || chars_eq_str(first, "Index") || chars_eq_str(first, "Daily") || chars_eq_str(
        first,
        "Sources",
    );
    proof {
        let f = first_segment(path@);
        assert(f == first@);
        let l = protected_top_dirs();
        if r {
            assert(l.contains(f)) by {
                if f == ".obsidian"@ {
                    assert(l[0] == f);
                } else if f == "Attachments"@ {
                    assert(l[1] == f);
                } else if f == "Notes"@ {
                    assert(l[2] == f);
                } else if f == "Projects"@ {
                    assert(l[3] == f);
                } else if f == "Troubleshooting"@ {
                    assert(l[4] == f);
                } else if f == "Index"@ {
                    assert(l[5] == f);
                } else if f == "Daily"@ {
                    assert(l[6] == f);
                } else {
                    assert(l[7] == f);
                }
            }
        } else {
            assert(!l.contains(f)) by {
                assert forall|k: int| 0 <= k < l.len() implies l[k] != f by {
                    assert(l[k] == l[k]);
                }
            }
        }
    }
    r
}

/// Normalizes a path and checks that it may be written: it must not lie
/// under a protected directory, and it must be one of the configured write
/// directories or lie inside one.
pub fn assert_write_allowed(raw: &str, allow_write_dirs: &[String]) -> (r: Result<
    VaultPath,
    PathError,
>)
    ensures
        path_result_view(r) == write_guard_spec(raw@, string_views(allow_write_dirs@)),
{
    let path = normalize_vault_path(raw)?;
    let normalized = chars_of(path.as_str());
    if is_protected_write_path(&normalized) {
        return Err(PathError::Protected(string_of(&normalized)));
    }
    let ghost dirs = string_views(allow_write_dirs@);
    let mut normalized_allowed: Vec<Vec<char>> = Vec::new();
    let mut i: usize = 0;
    proof {
        assert(dirs.take(0) =~= Seq::<Seq<char>>::empty());
        assert(views(normalized_allowed@) =~= Seq::<Seq<char>>::empty());
    }
    while i < allow_write_dirs.len()
        invariant
            i <= allow_write_dirs@.len(),
            normalize_spec(raw@) == Ok::<Seq<char>, PathFault>(path@),
            normalized@ == path@,
            !is_protected_path(normalized@),
            dirs == string_views(allow_write_dirs@),
            normalize_all(dirs.take(i as int)) == Ok::<Seq<Seq<char>>, PathFault>(
                views(normalized_allowed@),
            ),
        decreases allow_write_dirs@.len() - i,
    {
        proof {
            assert(dirs.take(i + 1).drop_last() =~= dirs.take(i as int));
            assert(dirs.take(i + 1).last() == allow_write_dirs@[i as int]@);
        }
        let dir = match normalize_vault_path(allow_write_dirs[i].as_str()) {
            Ok(d) => d,
            Err(e) => {
                proof {
                    assert(normalize_all(dirs.take(i + 1)) == Err::<Seq<Seq<char>>, PathFault>(e@));
                    lemma_normalize_all_prefix_err(dirs, i + 1);
                }
                return Err(e);
            },
        };
        let ghost before = views(normalized_allowed@);
        normalized_allowed.push(chars_of(dir.as_str()));
        proof {
            assert(views(normalized_allowed@) =~= before.push(dir@));
        }
        i = i + 1;
    }
    proof {
        assert(dirs.take(allow_write_dirs@.len() as int) =~= dirs);
    }
    let mut sep: Vec<char> = Vec::new();
    sep.push('/');
    let ghost nd = views(normalized_allowed@);
    let mut j: usize = 0;
    while j < normalized_allowed.len()
        invariant
            j <= normalized_allowed@.len(),
            nd == views(normalized_allowed@),
            normalize_spec(raw@) == Ok::<Seq<char>, PathFault>(path@),
            normalized@ == path@,
            !is_protected_path(normalized@),
            normalize_all(string_views(allow_write_dirs@)) == Ok::<Seq<Seq<char>>, PathFault>(nd),
            sep@ == slash(),
            forall|k: int| 0 <= k < j ==> !under_dir(normalized@, #[trigger] nd[k]),
        decreases normalized_allowed@.len() - j,
    {
        let dir = &normalized_allowed[j];
        let mut prefix = dir.clone();
        extend_chars(&mut prefix, &sep);
        if chars_eq(&normalized, dir) || starts_with_exec(&normalized, &prefix) {
            proof {
                assert(under_dir(normalized@, nd[j as int]));
            }
            return Ok(path);
        }
        j = j + 1;
    }
    let mut list_sep: Vec<char> = Vec::new();
    list_sep.push(',');
    list_sep.push(' ');
    proof {
        assert(list_sep@ =~= list_separator());
    }
    let allowed = join_chars(&normalized_allowed, &list_sep);
    Err(PathError::WriteNotAllowed { path: string_of(&normalized), allowed: string_of(&allowed) })
}

/// A failure while normalizing a prefix of the directories is the failure of
/// the whole list.
pub proof fn lemma_normalize_all_prefix_err(dirs: Seq<Seq<char>>, n: int)
    requires
        0 <= n <= dirs.len(),
        normalize_all(dirs.take(n)) is Err,
    ensures
        normalize_all(dirs) == normalize_all(dirs.take(n)),
    decreases dirs.len() - n,
{
    if n == dirs.len() {
        assert(dirs.take(n) =~= dirs);
    } else {
        assert(dirs.take(n + 1).drop_last() =~= dirs.take(n));
        lemma_normalize_all_prefix_err(dirs, n + 1);
    }
}


/// A segment of a normalized path: not empty, free of `/` and `\`,
/// neither `.` nor `..`, and without white space at either end.
pub open spec fn is_clean_segment(seg: Seq<char>) -> bool {
    &&& seg.len() > 0
    &&& !seg.contains('/')
    &&& seg != dot()
    &&& seg != dot_dot()
    &&& !is_ws(seg[0])
    &&& !is_ws(seg.last())
    &&& !seg.contains('\\')
}

proof fn lemma_kept_segments_clean(parts: Seq<Seq<char>>)
    requires
        forall|i: int| 0 <= i < parts.len() ==> !(#[trigger] parts[i]).contains('/'),
        forall|i: int| 0 <= i < parts.len() ==> !(#[trigger] parts[i]).contains('\\'),
        !has_parent_segment(parts),
    ensures
        forall|i: int|
            0 <= i < kept_segments(parts).len() ==> is_clean_segment(
                #[trigger] kept_segments(parts)[i],
            ),
    decreases parts.len(),
{
    if parts.len() > 0 {
        let init = parts.drop_last();
        assert forall|i: int| 0 <= i < init.len() implies !(#[trigger] init[i]).contains('/') by {
            assert(init[i] == parts[i]);
        }
        assert forall|i: int| 0 <= i < init.len() implies !(#[trigger] init[i]).contains('\\') by {
            assert(init[i] == parts[i]);
        }
        assert(!has_parent_segment(init)) by {
            if has_parent_segment(init) {
                let i = choose|i: int| 0 <= i < init.len() && trim(#[trigger] init[i]) == dot_dot();
                assert(parts[i] == init[i]);
            }
        }
        lemma_kept_segments_clean(init);
        let t = trim(parts.last());
        lemma_trim_shape(parts.last());
        assert(parts.last() == parts[parts.len() - 1]);
        if !is_skipped_segment(t) {
            assert(trim(parts[parts.len() - 1]) != dot_dot());
            assert(!parts[parts.len() - 1].contains('/'));
            assert(!t.contains('/')) by {
                if t.contains('/') {
                    assert(parts.last().contains('/'));
                }
            }
            assert(!parts[parts.len() - 1].contains('\\'));
            assert(!t.contains('\\')) by {
                if t.contains('\\') {
                    assert(parts.last().contains('\\'));
                }
            }
            assert(is_clean_segment(t));
            let k = kept_segments(init);
            assert(kept_segments(parts) == k.push(t));
            assert forall|i: int| 0 <= i < k.push(t).len() implies is_clean_segment(
                #[trigger] k.push(t)[i],
            ) by {
                if i < k.len() {
                    assert(k.push(t)[i] == k[i]);
                }
            }
        }
    }
}

/// Law: a normalized path is its clean segments joined by `/`. So it never
/// starts or ends with `/`, never holds `//` or `\` (not even one that
/// percent-decoding brought in), and no segment is `.` or `..`.
pub proof fn law_normalized_path_is_clean(raw: Seq<char>)
    requires
        normalize_spec(raw) is Ok,
    ensures
        exists|segs: Seq<Seq<char>>|
            normalize_spec(raw) == Ok::<Seq<char>, PathFault>(join(segs, slash())) && forall|
                i: int,
            |
                0 <= i < segs.len() ==> is_clean_segment(#[trigger] segs[i]),
{
    let t = trim(raw);
    let d = percent_decode_utf8_spec(t)->0;
    let parts = split_char(d, '/');
    lemma_split_char_pieces(d, '/');
    lemma_split_char_pieces_avoid(d, '/', '\\');
    lemma_kept_segments_clean(parts);
    let segs = kept_segments(parts);
    assert(normalize_spec(raw) == Ok::<Seq<char>, PathFault>(join(segs, slash())));
}

/// Law: a path that passes the write guard is the normalized input, lies
/// under no protected directory, and is one of the normalized write
/// directories or lies inside one.
pub proof fn law_write_guard_confines(raw: Seq<char>, dirs: Seq<Seq<char>>)
    requires
        write_guard_spec(raw, dirs) is Ok,
    ensures
        normalize_spec(raw) == Ok::<Seq<char>, PathFault>(write_guard_spec(raw, dirs)->Ok_0),
        !is_protected_path(write_guard_spec(raw, dirs)->Ok_0),
        normalize_all(dirs) is Ok,
        exists|i: int|
            0 <= i < normalize_all(dirs)->Ok_0.len() && under_dir(
                write_guard_spec(raw, dirs)->Ok_0,
                #[trigger] normalize_all(dirs)->Ok_0[i],
            ),
{
}

/// Each configured directory, normalized, in order, when all normalize.
proof fn lemma_normalize_all_each(dirs: Seq<Seq<char>>)
    requires
        forall|j: int| 0 <= j < dirs.len() ==> normalize_spec(#[trigger] dirs[j]) is Ok,
    ensures
        normalize_all(dirs) is Ok,
        normalize_all(dirs)->Ok_0.len() == dirs.len(),
        forall|j: int| 0 <= j < dirs.len() ==> #[trigger] normalize_all(dirs)->Ok_0[j]
            == normalize_spec(dirs[j])->Ok_0,
    decreases dirs.len(),
{
    if dirs.len() > 0 {
        let d = dirs.drop_last();
        assert forall|j: int| 0 <= j < d.len() implies normalize_spec(#[trigger] d[j]) is Ok by {
            assert(d[j] == dirs[j]);
        }
        lemma_normalize_all_each(d);
        assert(normalize_spec(dirs[dirs.len() - 1]) is Ok);
        assert forall|j: int| 0 <= j < dirs.len() implies #[trigger] normalize_all(dirs)->Ok_0[j]
            == normalize_spec(dirs[j])->Ok_0 by {
            if j < d.len() {
                assert(d[j] == dirs[j]);
            }
        }
    }
}

proof fn lemma_normalize_all_ok(dirs: Seq<Seq<char>>)
    requires
        normalize_all(dirs) is Ok,
    ensures
        normalize_all(dirs)->Ok_0.len() == dirs.len(),
        forall|j: int| 0 <= j < dirs.len() ==> normalize_spec(#[trigger] dirs[j]) is Ok
            && normalize_all(dirs)->Ok_0[j] == normalize_spec(dirs[j])->Ok_0,
    decreases dirs.len(),
{
    if dirs.len() > 0 {
        let d = dirs.drop_last();
        lemma_normalize_all_ok(d);
        assert forall|j: int| 0 <= j < dirs.len() implies normalize_spec(#[trigger] dirs[j]) is Ok
            && normalize_all(dirs)->Ok_0[j] == normalize_spec(dirs[j])->Ok_0 by {
            if j < d.len() {
                assert(d[j] == dirs[j]);
            }
        }
    }
}

/// Law: whatever the guard lets through is the normalized input, outside
/// the protected directories, and equal to or below one of the configured
/// write directories, each of which normalizes.
pub proof fn law_write_guard_stays_inside(raw: Seq<char>, dirs: Seq<Seq<char>>)
    requires
        write_guard_spec(raw, dirs) is Ok,
    ensures
        ({
            let p = write_guard_spec(raw, dirs)->Ok_0;
            &&& normalize_spec(raw) == Ok::<Seq<char>, PathFault>(p)
            &&& !is_protected_path(p)
            &&& forall|j: int| 0 <= j < dirs.len() ==> normalize_spec(#[trigger] dirs[j]) is Ok
            &&& exists|i: int|
                0 <= i < dirs.len() && ({
                    let d = normalize_spec(#[trigger] dirs[i])->Ok_0;
                    p == d || starts_with(p, d + seq!['/'])
                })
        }),
{
    lemma_normalize_all_ok(dirs);
    let p = write_guard_spec(raw, dirs)->Ok_0;
    let nd = normalize_all(dirs)->Ok_0;
    let i = choose|i: int| 0 <= i < nd.len() && under_dir(p, #[trigger] nd[i]);
    assert(nd[i] == normalize_spec(dirs[i])->Ok_0);
    assert(slash() == seq!['/']);
    let d = normalize_spec(dirs[i])->Ok_0;
    assert(p == d || starts_with(p, d + seq!['/']));
}

/// Law: the write guard lets through every path inside any of the
/// configured write directories. When `raw` normalizes to `p`, `p` is not
/// under a protected directory, every configured directory normalizes, and
/// `p` is the normalized directory number `i` or lies below it (whichever
/// `i` it is), the guard answers `Ok(p)`.
pub proof fn law_write_guard_admits_any_write_dir(raw: Seq<char>, dirs: Seq<Seq<char>>, i: int)
    requires
        normalize_spec(raw) is Ok,
        !is_protected_path(normalize_spec(raw)->Ok_0),
        forall|j: int| 0 <= j < dirs.len() ==> normalize_spec(#[trigger] dirs[j]) is Ok,
        0 <= i < dirs.len(),
        ({
            let p = normalize_spec(raw)->Ok_0;
            let d = normalize_spec(dirs[i])->Ok_0;
            p == d || starts_with(p, d + seq!['/'])
        }),
    ensures
        write_guard_spec(raw, dirs) == Ok::<Seq<char>, PathFault>(normalize_spec(raw)->Ok_0),
{
    lemma_normalize_all_each(dirs);
    let nd = normalize_all(dirs)->Ok_0;
    assert(nd[i] == normalize_spec(dirs[i])->Ok_0);
    assert(slash() == seq!['/']);
    assert(under_dir(normalize_spec(raw)->Ok_0, nd[i]));
}

/// No two `/` stand side by side in `s`.
pub open spec fn no_double_slash(s: Seq<char>) -> bool {
    forall|i: int| 0 <= i < s.len() - 1 ==> !(#[trigger] s[i] == '/' && s[i + 1] == '/')
}

/// Pieces that are not empty and hold no `/`, joined by `/`, neither start
/// nor end with `/` and never hold `//`.
#[verifier::spinoff_prover]
pub proof fn lemma_join_slash_free(segs: Seq<Seq<char>>)
    requires
        forall|i: int| 0 <= i < segs.len() ==> (#[trigger] segs[i]).len() > 0 && !segs[i].contains('/'),
    ensures
        no_double_slash(join(segs, slash())),
        segs.len() > 0 ==> join(segs, slash()).len() > 0 && join(segs, slash())[0] != '/' && join(
            segs,
            slash(),
        ).last() != '/',
    decreases segs.len(),
{
    if segs.len() == 1 {
        let j = segs[0];
        assert(j.len() > 0 && !j.contains('/'));
        assert forall|i: int| 0 <= i < j.len() implies j[i] != '/' by {
            if j[i] == '/' {
                assert(j.contains('/'));
            }
        }
    } else if segs.len() > 1 {
        let init = segs.drop_last();
        let last = segs.last();
        assert forall|i: int| 0 <= i < init.len() implies (#[trigger] init[i]).len() > 0 && !init[i].contains('/') by {
            assert(init[i] == segs[i]);
        }
        lemma_join_slash_free(init);
        assert(segs[segs.len() - 1].len() > 0 && !segs[segs.len() - 1].contains('/'));
        let a = join(init, slash());
        let j = join(segs, slash());
        assert(j == a + slash() + last);
        assert forall|i: int| 0 <= i < last.len() implies last[i] != '/' by {
            if last[i] == '/' {
                assert(last.contains('/'));
            }
        }
        assert forall|i: int| 0 <= i < j.len() - 1 implies !(#[trigger] j[i] == '/' && j[i + 1] == '/') by {
            if i < a.len() - 1 {
                assert(j[i] == a[i] && j[i + 1] == a[i + 1]);
            } else if i == a.len() - 1 {
                assert(j[i] == a.last());
            } else if i == a.len() {
                assert(j[i + 1] == last[0]);
            } else {
                assert(j[i] == last[i - a.len() - 1]);
            }
        }
        assert(j[0] == a[0]);
        assert(j.last() == last.last());
    }
}

/// Clean segments joined by `/` neither start nor end with `/` and never
/// hold `//`.
pub proof fn lemma_join_clean(segs: Seq<Seq<char>>)
    requires
        forall|i: int| 0 <= i < segs.len() ==> is_clean_segment(#[trigger] segs[i]),
    ensures
        no_double_slash(join(segs, slash())),
        segs.len() > 0 ==> join(segs, slash()).len() > 0 && join(segs, slash())[0] != '/' && join(
            segs,
            slash(),
        ).last() != '/',
{
    assert forall|i: int| 0 <= i < segs.len() implies (#[trigger] segs[i]).len() > 0 && !segs[i].contains('/') by {
        assert(is_clean_segment(segs[i]));
    }
    lemma_join_slash_free(segs);
}

/// Text that starts and ends with characters other than white space is its
/// own trim.
proof fn lemma_trim_unpadded(s: Seq<char>)
    requires
        s.len() > 0,
        !is_ws(s[0]),
        !is_ws(s.last()),
    ensures
        trim(s) == s,
{
    assert(trim_start(s) == s);
}

/// Joined pieces start with the first piece's first character and end
/// with the last piece's last character.
proof fn lemma_join_ends(segs: Seq<Seq<char>>)
    requires
        segs.len() > 0,
        forall|i: int| 0 <= i < segs.len() ==> (#[trigger] segs[i]).len() > 0,
    ensures
        join(segs, slash()).len() > 0,
        join(segs, slash())[0] == segs[0][0],
        join(segs, slash()).last() == segs.last().last(),
    decreases segs.len(),
{
    if segs.len() > 1 {
        let init = segs.drop_last();
        assert forall|i: int| 0 <= i < init.len() implies (#[trigger] init[i]).len() > 0 by {
            assert(init[i] == segs[i]);
        }
        lemma_join_ends(init);
        let a = join(init, slash());
        assert(join(segs, slash()) == a + slash() + segs.last());
        assert(segs.last() == segs[segs.len() - 1]);
        assert(init[0] == segs[0]);
    }
}

/// Clean segments are kept as they are.
proof fn lemma_kept_clean(segs: Seq<Seq<char>>)
    requires
        forall|i: int| 0 <= i < segs.len() ==> is_clean_segment(#[trigger] segs[i]),
    ensures
        kept_segments(segs) == segs,
        !has_parent_segment(segs),
    decreases segs.len(),
{
    if segs.len() > 0 {
        let init = segs.drop_last();
        assert forall|i: int| 0 <= i < init.len() implies is_clean_segment(#[trigger] init[i]) by {
            assert(init[i] == segs[i]);
        }
        lemma_kept_clean(init);
        assert forall|i: int| 0 <= i < segs.len() implies trim(#[trigger] segs[i]) == segs[i] by {
            assert(is_clean_segment(segs[i]));
            lemma_trim_unpadded(segs[i]);
        }
        assert(segs.last() == segs[segs.len() - 1]);
        assert(!is_skipped_segment(trim(segs.last())));
        assert(init.push(segs.last()) =~= segs);
        assert(!has_parent_segment(segs)) by {
            if has_parent_segment(segs) {
                let i = choose|i: int| 0 <= i < segs.len() && trim(#[trigger] segs[i]) == dot_dot();
                assert(trim(segs[i]) == segs[i]);
            }
        }
    }
}

/// Pieces that lack a character other than `/` still lack it once joined
/// by `/`.
proof fn lemma_join_avoid(segs: Seq<Seq<char>>, x: char)
    requires
        x != '/',
        forall|i: int| 0 <= i < segs.len() ==> !(#[trigger] segs[i]).contains(x),
    ensures
        !join(segs, slash()).contains(x),
    decreases segs.len(),
{
    if segs.len() == 1 {
        assert(!segs[0].contains(x));
    } else if segs.len() > 1 {
        let init = segs.drop_last();
        assert forall|i: int| 0 <= i < init.len() implies !(#[trigger] init[i]).contains(x) by {
            assert(init[i] == segs[i]);
        }
        lemma_join_avoid(init, x);
        let a = join(init, slash());
        let last = segs.last();
        assert(!last.contains(x)) by {
            assert(last == segs[segs.len() - 1]);
        }
        let j = join(segs, slash());
        assert(j == a + slash() + last);
        if j.contains(x) {
            let k = choose|k: int| 0 <= k < j.len() && j[k] == x;
            if k < a.len() {
                assert(a[k] == x);
            } else if k == a.len() {
                assert(j[k] == '/');
            } else {
                assert(last[k - a.len() - 1] == x);
            }
        }
    }
}

/// Law: a normalized path that does not hold `%` normalizes to itself.
/// (With `%` it need not: `a%2541` normalizes to `a%41`, which normalizes
/// to `aA`.)
#[verifier::spinoff_prover]
pub proof fn law_normalization_idempotent(raw: Seq<char>)
    requires
        normalize_spec(raw) is Ok,
        !normalize_spec(raw)->Ok_0.contains('%'),
    ensures
        normalize_spec(normalize_spec(raw)->Ok_0) == normalize_spec(raw),
{
    let p = normalize_spec(raw)->Ok_0;
    law_normalized_path_is_clean(raw);
    let segs = choose|segs: Seq<Seq<char>>|
        normalize_spec(raw) == Ok::<Seq<char>, PathFault>(join(segs, slash())) && forall|i: int|
            0 <= i < segs.len() ==> is_clean_segment(#[trigger] segs[i]);
    lemma_join_clean(segs);
    lemma_kept_clean(segs);
    lemma_decode_without_percent(p);
    assert forall|i: int| 0 <= i < segs.len() implies !(#[trigger] segs[i]).contains('\\') by {
        assert(is_clean_segment(segs[i]));
    }
    lemma_join_avoid(segs, '\\');
    if segs.len() == 0 {
        assert(p =~= Seq::<char>::empty());
        assert(trim(p) =~= p);
        assert(!contains_seq(p, url_marker()));
        let parts = split_char(p, '/');
        assert(parts == seq![Seq::<char>::empty()]);
        assert(trim(parts[0]) =~= Seq::<char>::empty());
        assert(!has_parent_segment(parts)) by {
            if has_parent_segment(parts) {
                let i = choose|i: int| 0 <= i < parts.len() && trim(#[trigger] parts[i]) == dot_dot();
                assert(i == 0);
            }
        }
        assert(parts.drop_last() =~= Seq::<Seq<char>>::empty());
        assert(kept_segments(parts) =~= Seq::<Seq<char>>::empty());
    } else {
        assert forall|i: int| 0 <= i < segs.len() implies (#[trigger] segs[i]).len() > 0 by {
            assert(is_clean_segment(segs[i]));
        }
        lemma_join_ends(segs);
        assert(is_clean_segment(segs[0]));
        assert(is_clean_segment(segs[segs.len() - 1]));
        assert(segs.last() == segs[segs.len() - 1]);
        lemma_trim_unpadded(p);
        assert(!contains_seq(p, url_marker())) by {
            if contains_seq(p, url_marker()) {
                let i = choose|i: int| occurs_at(p, url_marker(), i);
                assert(p.subrange(i, i + 3) == url_marker());
                assert(p[i + 1] == p.subrange(i, i + 3)[1]);
                assert(p[i + 2] == p.subrange(i, i + 3)[2]);
                assert(!(p[i + 1] == '/' && p[i + 2] == '/'));
            }
        }
        assert(p[0] != '\\') by {
            if p[0] == '\\' {
                assert(p.contains('\\'));
            }
        }
        assert forall|i: int| 0 <= i < segs.len() implies !(#[trigger] segs[i]).contains('/') by {
            assert(is_clean_segment(segs[i]));
        }
        lemma_split_join(segs, '/');
    }
}

} // verus!
