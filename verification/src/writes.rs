//! Where writes go: the file name of a new note, the directories that
//! `mkdir -p` creates, and the gates in front of the inbox methods.

use vstd::prelude::*;

use crate::cli::{CopyArgs, DeleteArgs, LockArgs, MoveArgs, ProppatchArgs, UnlockArgs};
use crate::commands::CommandError;
use crate::config::{trim_slashes_spec, BehaviorConfig};
use crate::pathguard::{
    assert_write_allowed, is_clean_segment, law_normalized_path_is_clean, lemma_join_clean,
    list_separator, no_double_slash, normalize_spec, normalize_vault_path, slash, under_dir,
    write_guard_spec, PathError, PathFault,
};
use crate::text::{
    chars_eq, chars_eq_str, chars_of, decimal, digit_char, extend_chars, extend_str, join,
    join_strings, lemma_decimal_nonempty, lemma_split_char_nonempty, push_decimal, slice_chars,
    split_char, split_chars, starts_with, starts_with_exec, string_of, string_views, strip_chars,
    trim, trim_chars, views,
};
use crate::webdav::{ascii_lowercase, to_ascii_lowercase};

verus! {

/// How many names `new --unique` may try: the plain one and the numbered
/// ones below this bound.
pub const NOTE_NAME_ATTEMPTS: u32 = 1000;

/// `{dir}/{timestamp}-{slug}`, the directory trimmed and without `/` at
/// either end.
pub open spec fn note_stem(dir: Seq<char>, timestamp: Seq<char>, slug: Seq<char>) -> Seq<char> {
    trim_slashes_spec(dir) + seq!['/'] + timestamp + seq!['-'] + slug
}

/// The note path tried at `attempt`: the plain `{stem}.md` first, then
/// `{stem}-{attempt}.md`.
pub open spec fn note_candidate_spec(
    dir: Seq<char>,
    timestamp: Seq<char>,
    slug: Seq<char>,
    attempt: nat,
) -> Seq<char> {
    if attempt == 0 {
        note_stem(dir, timestamp, slug) + ".md"@
    } else {
        note_stem(dir, timestamp, slug) + seq!['-'] + decimal(attempt) + ".md"@
    }
}

/// The note path for one attempt; `None` once the attempts are used up.
pub fn note_candidate(dir: &str, timestamp: &str, slug: &str, attempt: u32) -> (r: Option<String>)
    ensures
        r is Some <==> attempt < NOTE_NAME_ATTEMPTS,
        r matches Some(p) ==> p@ == note_candidate_spec(dir@, timestamp@, slug@, attempt as nat),
{
    if attempt >= NOTE_NAME_ATTEMPTS {
        return None;
    }
    let mut v = strip_chars(&trim_chars(&chars_of(dir)), '/');
    v.push('/');
    extend_str(&mut v, timestamp);
    v.push('-');
    extend_str(&mut v, slug);
    if attempt > 0 {
        v.push('-');
        push_decimal(&mut v, attempt as u64);
    }
    extend_str(&mut v, ".md");
    Some(string_of(&v))
}

/// Two numbers with the same decimal digits are equal.
pub proof fn lemma_decimal_injective(a: nat, b: nat)
    requires
        decimal(a) == decimal(b),
    ensures
        a == b,
    decreases a,
{
    if a < 10 && b < 10 {
        assert(decimal(a) == seq![digit_char(a)]);
        assert(decimal(b) == seq![digit_char(b)]);
        assert(decimal(a)[0] == digit_char(a));
        assert(decimal(b)[0] == digit_char(b));
        assert(digit_char(a) as int == a + 48);
        assert(digit_char(b) as int == b + 48);
        assert(digit_char(a) == digit_char(b));
        assert(a == b);
    } else if a < 10 {
        lemma_decimal_nonempty(b / 10);
        assert(decimal(b).len() >= 2);
    } else if b < 10 {
        lemma_decimal_nonempty(a / 10);
        assert(decimal(a).len() >= 2);
    } else {
        assert(decimal(a).drop_last() =~= decimal(a / 10));
        assert(decimal(b).drop_last() =~= decimal(b / 10));
        assert(decimal(a) == decimal(a / 10).push(digit_char(a % 10)));
        assert(decimal(b) == decimal(b / 10).push(digit_char(b % 10)));
        assert(decimal(a).last() == digit_char(a % 10));
        assert(decimal(b).last() == digit_char(b % 10));
        assert(digit_char(a % 10) as int == a % 10 + 48);
        assert(digit_char(b % 10) as int == b % 10 + 48);
        lemma_decimal_injective(a / 10, b / 10);
        assert(a % 10 == b % 10);
        assert(a == b);
    }
}

/// Law: `new --unique` never tries one name twice; distinct attempts give
/// distinct note paths.
#[verifier::spinoff_prover]
pub proof fn law_note_candidates_distinct(
    dir: Seq<char>,
    timestamp: Seq<char>,
    slug: Seq<char>,
    i: nat,
    j: nat,
)
    requires
        i != j,
    ensures
        note_candidate_spec(dir, timestamp, slug, i) != note_candidate_spec(dir, timestamp, slug, j),
{
    let s = note_stem(dir, timestamp, slug);
    let ci = note_candidate_spec(dir, timestamp, slug, i);
    let cj = note_candidate_spec(dir, timestamp, slug, j);
    lemma_decimal_nonempty(i);
    lemma_decimal_nonempty(j);
    if i == 0 {
        assert(ci.len() < cj.len());
    } else if j == 0 {
        assert(cj.len() < ci.len());
    } else if ci == cj {
        reveal_strlit(".md");
        assert(ci == s + seq!['-'] + decimal(i) + ".md"@);
        assert(cj == s + seq!['-'] + decimal(j) + ".md"@);
        assert(ci.len() == cj.len());
        let a: int = s.len() as int + 1;
        assert(decimal(i).len() == decimal(j).len());
        assert(ci.subrange(a, a + decimal(i).len() as int) =~= decimal(i));
        assert(cj.subrange(a, a + decimal(j).len() as int) =~= decimal(j));
        lemma_decimal_injective(i, j);
    }
}

/// Refuses to replace an existing note unless both `--overwrite` and
/// `behavior.allow_overwrite` say so.
pub fn check_new_note_target(taken: bool, overwrite: bool, allow_overwrite: bool, path: &str) -> (r:
    Result<(), CommandError>)
    ensures
        (r is Ok) == (!taken || (overwrite && allow_overwrite)),
        r matches Err(e) ==> e matches CommandError::FileAlreadyExists(p) && p@ == path@,
{
    if taken && !(overwrite && allow_overwrite) {
        return Err(CommandError::FileAlreadyExists(path.to_owned()));
    }
    Ok(())
}

/// The next step in choosing a new note's path.
#[derive(Debug, PartialEq, Eq)]
pub enum NotePathStep {
    /// Write the note at this path.
    Write(String),
    /// Ask the server whether this path exists, then call `note_path_after`
    /// with the answer.
    Probe { path: String, attempt: u32 },
    /// Every name was taken.
    Exhausted,
}

/// The first step: without `--unique` the plain name is written whatever is
/// there; with it, the plain name is probed first.
pub fn note_path_first(dir: &str, timestamp: &str, slug: &str, unique: bool) -> (r: NotePathStep)
    ensures
        !unique ==> (r matches NotePathStep::Write(p) && p@ == note_candidate_spec(
            dir@,
            timestamp@,
            slug@,
            0,
        )),
        unique ==> (r matches NotePathStep::Probe { path, attempt } && attempt == 0 && path@
            == note_candidate_spec(dir@, timestamp@, slug@, 0)),
{
    let path = match note_candidate(dir, timestamp, slug, 0) {
        Some(p) => p,
        None => String::new(),
    };
    if unique {
        NotePathStep::Probe { path, attempt: 0 }
    } else {
        NotePathStep::Write(path)
    }
}

/// The step after probing the name of `attempt`: a free name is written;
/// a taken one moves on to the next number, until the attempts run out.
pub fn note_path_after(dir: &str, timestamp: &str, slug: &str, attempt: u32, taken: bool) -> (r:
    NotePathStep)
    requires
        attempt < NOTE_NAME_ATTEMPTS,
    ensures
        !taken ==> (r matches NotePathStep::Write(p) && p@ == note_candidate_spec(
            dir@,
            timestamp@,
            slug@,
            attempt as nat,
        )),
        taken && attempt + 1 < NOTE_NAME_ATTEMPTS ==> (r matches NotePathStep::Probe {
            path,
            attempt: next,
        } && next == attempt + 1 && path@ == note_candidate_spec(
            dir@,
            timestamp@,
            slug@,
            next as nat,
        )),
        taken && attempt + 1 >= NOTE_NAME_ATTEMPTS ==> r is Exhausted,
{
    if !taken {
        return match note_candidate(dir, timestamp, slug, attempt) {
            Some(p) => NotePathStep::Write(p),
            None => NotePathStep::Exhausted,
        };
    }
    let next = attempt + 1;
    match note_candidate(dir, timestamp, slug, next) {
        Some(path) => NotePathStep::Probe { path, attempt: next },
        None => NotePathStep::Exhausted,
    }
}

/// The error when every numbered name is taken.
pub fn names_exhausted_error() -> (r: CommandError)
    ensures
        r matches CommandError::InvalidArgs(m) && m@ == "could not generate a unique note path"@,
{
    CommandError::InvalidArgs("could not generate a unique note path".to_owned())
}

/// The first configured write directory, in order, that `target` is or
/// lies inside, each directory normalized on the way; a directory that does
/// not normalize before a match is found fails the search.
pub open spec fn matching_base(target: Seq<char>, dirs: Seq<Seq<char>>) -> Result<
    Option<Seq<char>>,
    PathFault,
>
    decreases dirs.len(),
{
    if dirs.len() == 0 {
        Ok(None)
    } else {
        match normalize_spec(dirs[0]) {
            Err(e) => Err(e),
            Ok(d) => if under_dir(target, d) {
                Ok(Some(d))
            } else {
                matching_base(target, dirs.drop_first())
            },
        }
    }
}

/// The pieces that are not empty, in order.
pub open spec fn nonempty_pieces(parts: Seq<Seq<char>>) -> Seq<Seq<char>>
    decreases parts.len(),
{
    if parts.len() == 0 {
        Seq::empty()
    } else if parts.last().len() > 0 {
        nonempty_pieces(parts.drop_last()).push(parts.last())
    } else {
        nonempty_pieces(parts.drop_last())
    }
}

/// `base` followed by `/piece` for each piece.
pub open spec fn nested_path(base: Seq<char>, pieces: Seq<Seq<char>>) -> Seq<char>
    decreases pieces.len(),
{
    if pieces.len() == 0 {
        base
    } else {
        nested_path(base, pieces.drop_last()) + seq!['/'] + pieces.last()
    }
}

/// The directories from `base` down, one piece deeper each:
/// `base/p1`, `base/p1/p2`, and so on.
pub open spec fn dir_chain(base: Seq<char>, pieces: Seq<Seq<char>>) -> Seq<Seq<char>>
    decreases pieces.len(),
{
    if pieces.len() == 0 {
        Seq::empty()
    } else {
        dir_chain(base, pieces.drop_last()).push(nested_path(base, pieces))
    }
}

/// The directories `mkdir -p` creates, in order: the target normalized, the
/// first write directory that holds it, then that directory itself when it
/// is the target, else each level below it down to the target. A target
/// under no write directory is refused, naming the configured directories.
pub open spec fn mkdir_plan_spec(target: Seq<char>, dirs: Seq<Seq<char>>) -> Result<
    Seq<Seq<char>>,
    PathFault,
> {
    match normalize_spec(target) {
        Err(e) => Err(e),
        Ok(t) => match matching_base(t, dirs) {
            Err(e) => Err(e),
            Ok(None) => Err(PathFault::WriteNotAllowed { path: t, allowed: join(dirs, list_separator()) }),
            Ok(Some(b)) => if t == b {
                Ok(seq![b])
            } else {
                Ok(
                    dir_chain(
                        b,
                        nonempty_pieces(split_char(t.subrange(b.len() as int + 1, t.len() as int), '/')),
                    ),
                )
            },
        },
    }
}

/// A directory that matching finds is one of the configured directories,
/// normalized, and holds the target.
pub proof fn lemma_matching_base_found(target: Seq<char>, dirs: Seq<Seq<char>>)
    requires
        matching_base(target, dirs) matches Ok(Some(_)),
    ensures
        ({
            let b = matching_base(target, dirs)->Ok_0->Some_0;
            &&& under_dir(target, b)
            &&& exists|i: int|
                0 <= i < dirs.len() && normalize_spec(#[trigger] dirs[i]) == Ok::<
                    Seq<char>,
                    PathFault,
                >(b)
        }),
    decreases dirs.len(),
{
    let b = matching_base(target, dirs)->Ok_0->Some_0;
    let d = normalize_spec(dirs[0])->Ok_0;
    if under_dir(target, d) {
        assert(normalize_spec(dirs[0]) == Ok::<Seq<char>, PathFault>(b));
    } else {
        let rest = dirs.drop_first();
        lemma_matching_base_found(target, rest);
        let i = choose|i: int|
            0 <= i < rest.len() && normalize_spec(#[trigger] rest[i]) == Ok::<Seq<char>, PathFault>(
                b,
            );
        assert(rest[i] == dirs[i + 1]);
    }
}

pub open spec fn base_view(r: Result<Option<Vec<char>>, PathError>) -> Result<
    Option<Seq<char>>,
    PathFault,
> {
    match r {
        Ok(Some(b)) => Ok(Some(b@)),
        Ok(None) => Ok(None),
        Err(e) => Err(e@),
    }
}

pub open spec fn plan_view(r: Result<Vec<String>, PathError>) -> Result<Seq<Seq<char>>, PathFault> {
    match r {
        Ok(v) => Ok(string_views(v@)),
        Err(e) => Err(e@),
    }
}

/// The first write directory that holds `target`, normalized.
fn find_base(target: &[char], dirs: &[String]) -> (r: Result<Option<Vec<char>>, PathError>)
    ensures
        base_view(r) == matching_base(target@, string_views(dirs@)),
{
    let ghost all = string_views(dirs@);
    let mut i: usize = 0;
    proof {
        assert(all.skip(0) =~= all);
    }
    while i < dirs.len()
        invariant
            i <= dirs@.len(),
            all == string_views(dirs@),
            matching_base(target@, all) == matching_base(target@, all.skip(i as int)),
        decreases dirs@.len() - i,
    {
        proof {
            assert(all.skip(i as int).drop_first() =~= all.skip(i + 1));
            assert(all.skip(i as int)[0] == dirs@[i as int]@);
        }
        let d = match normalize_vault_path(dirs[i].as_str()) {
            Ok(d) => d,
            Err(e) => {
                return Err(e);
            },
        };
        let dv = chars_of(d.as_str());
        let mut prefix = chars_of(d.as_str());
        prefix.push('/');
        proof {
            assert(prefix@ =~= dv@ + slash());
        }
        if chars_eq(target, &dv) || starts_with_exec(target, &prefix) {
            return Ok(Some(dv));
        }
        i = i + 1;
    }
    proof {
        assert(all.skip(i as int) =~= Seq::<Seq<char>>::empty());
    }
    Ok(None)
}

/// The directories `mkdir -p` creates for `target`, outermost first.
pub fn mkdir_plan(target: &str, allow_write_dirs: &[String]) -> (r: Result<Vec<String>, PathError>)
    ensures
        plan_view(r) == mkdir_plan_spec(target@, string_views(allow_write_dirs@)),
{
    let normalized = normalize_vault_path(target)?;
    let t = chars_of(normalized.as_str());
    let base = match find_base(&t, allow_write_dirs)? {
        Some(b) => b,
        None => {
            let allowed = join_strings(allow_write_dirs, ", ");
            proof {
                reveal_strlit(", ");
                assert(", "@ =~= list_separator());
            }
            return Err(PathError::WriteNotAllowed { path: string_of(&t), allowed });
        },
    };
    let mut plan: Vec<String> = Vec::new();
    if chars_eq(&t, &base) {
        plan.push(string_of(&base));
        proof {
            assert(string_views(plan@) =~= seq![base@]);
        }
        return Ok(plan);
    }
    proof {
        lemma_matching_base_found(t@, string_views(allow_write_dirs@));
        assert(t@.len() >= base@.len() + 1);
    }
    assert(base.len() < t.len());
    let rest = slice_chars(&t, base.len() + 1, t.len());
    let parts = split_chars(&rest, '/');
    let ghost pv = views(parts@);
    let mut current = slice_chars(&base, 0, base.len());
    proof {
        assert(base@.subrange(0, base@.len() as int) =~= base@);
        assert(pv.take(0) =~= Seq::<Seq<char>>::empty());
    }
    let mut i: usize = 0;
    while i < parts.len()
        invariant
            i <= parts@.len(),
            pv == views(parts@),
            current@ == nested_path(base@, nonempty_pieces(pv.take(i as int))),
            string_views(plan@) == dir_chain(base@, nonempty_pieces(pv.take(i as int))),
        decreases parts@.len() - i,
    {
        proof {
            assert(pv.take(i + 1).drop_last() =~= pv.take(i as int));
            assert(pv.take(i + 1).last() == pv[i as int]);
        }
        if parts[i].len() > 0 {
            current.push('/');
            extend_chars(&mut current, &parts[i]);
            let ghost before = string_views(plan@);
            plan.push(string_of(&current));
            proof {
                let np = nonempty_pieces(pv.take(i as int));
                assert(nonempty_pieces(pv.take(i + 1)) == np.push(pv[i as int]));
                assert(np.push(pv[i as int]).drop_last() =~= np);
                assert(current@ =~= nested_path(base@, np.push(pv[i as int])));
                assert(string_views(plan@) =~= before.push(current@));
            }
        }
        i = i + 1;
    }
    proof {
        assert(pv.take(parts@.len() as int) =~= pv);
    }
    Ok(plan)
}

/// A path nested at least one piece deep lies inside `base`.
proof fn lemma_nested_inside(base: Seq<char>, pieces: Seq<Seq<char>>)
    requires
        pieces.len() > 0,
    ensures
        starts_with(nested_path(base, pieces), base + slash()),
    decreases pieces.len(),
{
    let init = pieces.drop_last();
    let n = nested_path(base, pieces);
    let p = base + slash();
    if init.len() == 0 {
        assert(nested_path(base, init) == base);
        assert(n.subrange(0, p.len() as int) =~= p);
    } else {
        lemma_nested_inside(base, init);
        let m = nested_path(base, init);
        assert(n.subrange(0, p.len() as int) =~= m.subrange(0, p.len() as int));
    }
}

/// Every directory of a chain lies inside its base.
proof fn lemma_chain_inside(base: Seq<char>, pieces: Seq<Seq<char>>)
    ensures
        forall|k: int|
            0 <= k < dir_chain(base, pieces).len() ==> starts_with(
                #[trigger] dir_chain(base, pieces)[k],
                base + slash(),
            ),
    decreases pieces.len(),
{
    if pieces.len() > 0 {
        lemma_chain_inside(base, pieces.drop_last());
        lemma_nested_inside(base, pieces);
        let c = dir_chain(base, pieces);
        let prev = dir_chain(base, pieces.drop_last());
        assert forall|k: int| 0 <= k < c.len() implies starts_with(#[trigger] c[k], base + slash()) by {
            if k < prev.len() {
                assert(c[k] == prev[k]);
            }
        }
    }
}

/// Law: `mkdir -p` never reaches above the write directory that holds its
/// target. Every directory it creates is that directory or lies inside it,
/// and that directory is one of the configured write directories,
/// normalized.
pub proof fn law_mkdir_plan_confined(target: Seq<char>, dirs: Seq<Seq<char>>)
    requires
        mkdir_plan_spec(target, dirs) is Ok,
    ensures
        exists|i: int|
            0 <= i < dirs.len() && (#[trigger] normalize_spec(dirs[i])) is Ok && forall|k: int|
                0 <= k < mkdir_plan_spec(target, dirs)->Ok_0.len() ==> under_dir(
                    #[trigger] mkdir_plan_spec(target, dirs)->Ok_0[k],
                    normalize_spec(dirs[i])->Ok_0,
                ),
{
    let t = normalize_spec(target)->Ok_0;
    lemma_matching_base_found(t, dirs);
    let b = matching_base(t, dirs)->Ok_0->Some_0;
    let i = choose|i: int|
        0 <= i < dirs.len() && normalize_spec(#[trigger] dirs[i]) == Ok::<Seq<char>, PathFault>(b);
    let plan = mkdir_plan_spec(target, dirs)->Ok_0;
    if t != b {
        let pieces = nonempty_pieces(split_char(t.subrange(b.len() as int + 1, t.len() as int), '/'));
        lemma_chain_inside(b, pieces);
        assert forall|k: int| 0 <= k < plan.len() implies under_dir(#[trigger] plan[k], b) by {
            assert(plan[k] == dir_chain(b, pieces)[k]);
        }
    }
    assert(normalize_spec(dirs[i]) is Ok);
}

/// A guarded path, or the path error that refused it.
pub open spec fn guarded_view(r: Result<String, CommandError>) -> Result<Seq<char>, PathFault> {
    match r {
        Ok(p) => Ok(p@),
        Err(CommandError::Path(e)) => Err(e@),
        Err(_) => Err(PathFault::InvalidEncoding),
    }
}

/// The result is a path or a path error, nothing else.
pub open spec fn path_outcome(r: Result<String, CommandError>) -> bool {
    r matches Err(e) ==> e is Path
}

/// The write guard on one path, its error wrapped as a command error.
fn guard_path(raw: &str, allow_write_dirs: &[String]) -> (r: Result<String, CommandError>)
    ensures
        path_outcome(r),
        guarded_view(r) == write_guard_spec(raw@, string_views(allow_write_dirs@)),
{
    match assert_write_allowed(raw, allow_write_dirs) {
        Ok(p) => Ok(p.into_string()),
        Err(e) => Err(CommandError::Path(e)),
    }
}

/// Both paths guarded, the source first.
pub open spec fn pair_guard_spec(source: Seq<char>, dest: Seq<char>, dirs: Seq<Seq<char>>) -> Result<
    (Seq<char>, Seq<char>),
    PathFault,
> {
    match write_guard_spec(source, dirs) {
        Err(e) => Err(e),
        Ok(s) => match write_guard_spec(dest, dirs) {
            Err(e) => Err(e),
            Ok(d) => Ok((s, d)),
        },
    }
}

/// A guarded pair of paths, or the path error that refused one of them.
pub open spec fn pair_view(r: Result<(String, String), CommandError>) -> Result<
    (Seq<char>, Seq<char>),
    PathFault,
> {
    match r {
        Ok((s, d)) => Ok((s@, d@)),
        Err(CommandError::Path(e)) => Err(e@),
        Err(_) => Err(PathFault::InvalidEncoding),
    }
}

fn guard_pair(source: &str, dest: &str, allow_write_dirs: &[String]) -> (r: Result<
    (String, String),
    CommandError,
>)
    ensures
        r matches Err(e) ==> e is Path,
        pair_view(r) == pair_guard_spec(source@, dest@, string_views(allow_write_dirs@)),
{
    let s = guard_path(source, allow_write_dirs)?;
    let d = guard_path(dest, allow_write_dirs)?;
    Ok((s, d))
}

/// `delete` runs only when `behavior.allow_delete` is set, and only on a
/// path that the write guard lets through.
pub fn plan_delete(args: &DeleteArgs, behavior: &BehaviorConfig) -> (r: Result<String, CommandError>)
    ensures
        !behavior.allow_delete ==> (r matches Err(CommandError::InvalidArgs(m)) && m@
            == "delete requires behavior.allow_delete = true"@),
        behavior.allow_delete ==> path_outcome(r) && guarded_view(r) == write_guard_spec(
            args.path@,
            string_views(behavior.allow_write_dirs@),
        ),
{
    if !behavior.allow_delete {
        return Err(CommandError::InvalidArgs("delete requires behavior.allow_delete = true".to_owned()));
    }
    guard_path(args.path.as_str(), behavior.allow_write_dirs.as_slice())
}

/// `move` runs only when `behavior.allow_move` is set, and only between
/// paths that the write guard lets through.
pub fn plan_move(args: &MoveArgs, behavior: &BehaviorConfig) -> (r: Result<
    (String, String),
    CommandError,
>)
    ensures
        !behavior.allow_move ==> (r matches Err(CommandError::InvalidArgs(m)) && m@
            == "move requires behavior.allow_move = true"@),
        behavior.allow_move ==> (r matches Err(e) ==> e is Path) && pair_view(r)
            == pair_guard_spec(args.source@, args.dest@, string_views(behavior.allow_write_dirs@)),
{
    if !behavior.allow_move {
        return Err(CommandError::InvalidArgs("move requires behavior.allow_move = true".to_owned()));
    }
    guard_pair(args.source.as_str(), args.dest.as_str(), behavior.allow_write_dirs.as_slice())
}

/// `copy` runs between paths that the write guard lets through.
pub fn plan_copy(args: &CopyArgs, behavior: &BehaviorConfig) -> (r: Result<
    (String, String),
    CommandError,
>)
    ensures
        r matches Err(e) ==> e is Path,
        pair_view(r) == pair_guard_spec(
            args.source@,
            args.dest@,
            string_views(behavior.allow_write_dirs@),
        ),
{
    guard_pair(args.source.as_str(), args.dest.as_str(), behavior.allow_write_dirs.as_slice())
}

/// `proppatch` runs on a path that the write guard lets through.
pub fn plan_proppatch(args: &ProppatchArgs, behavior: &BehaviorConfig) -> (r: Result<
    String,
    CommandError,
>)
    ensures
        path_outcome(r),
        guarded_view(r) == write_guard_spec(args.path@, string_views(behavior.allow_write_dirs@)),
{
    guard_path(args.path.as_str(), behavior.allow_write_dirs.as_slice())
}

/// A lock timeout: `infinite` in any ASCII case, or a positive number of
/// seconds written in decimal digits.
pub open spec fn lock_timeout_valid(timeout: Seq<char>) -> bool {
    ||| ascii_lowercase(timeout) == "infinite"@
    ||| {
        &&& timeout.len() > 0
        &&& forall|k: int| 0 <= k < timeout.len() ==> '0' <= #[trigger] timeout[k] <= '9'
        &&& exists|k: int| 0 <= k < timeout.len() && #[trigger] timeout[k] != '0'
    }
}

/// Whether `timeout` is a valid lock timeout.
fn lock_timeout_ok(timeout: &str) -> (r: bool)
    ensures
        r == lock_timeout_valid(timeout@),
{
    let t = chars_of(timeout);
    if chars_eq_str(&to_ascii_lowercase(&t), "infinite") {
        return true;
    }
    if t.len() == 0 {
        return false;
    }
    let mut nonzero = false;
    let mut i: usize = 0;
    while i < t.len()
        invariant
            i <= t@.len(),
            t@ == timeout@,
            ascii_lowercase(timeout@) != "infinite"@,
            forall|k: int| 0 <= k < i ==> '0' <= #[trigger] t@[k] <= '9',
            nonzero == exists|k: int| 0 <= k < i && #[trigger] t@[k] != '0',
        decreases t@.len() - i,
    {
        let c = t[i];
        if !('0' <= c && c <= '9') {
            proof {
                assert(!('0' <= timeout@[i as int] <= '9'));
            }
            return false;
        }
        if c != '0' {
            nonzero = true;
        }
        proof {
            if !nonzero {
                assert forall|k: int| 0 <= k < i + 1 implies #[trigger] t@[k] == '0' by {
                    if k < i {
                        if t@[k] != '0' {
                            assert(exists|j: int| 0 <= j < i && #[trigger] t@[j] != '0');
                        }
                    }
                }
            } else if c != '0' {
                assert(t@[i as int] != '0');
            }
        }
        i = i + 1;
    }
    nonzero
}

/// `lock` takes a valid timeout and a path that the write guard lets
/// through.
pub fn plan_lock(args: &LockArgs, behavior: &BehaviorConfig) -> (r: Result<String, CommandError>)
    ensures
        !lock_timeout_valid(args.timeout@) ==> (r matches Err(CommandError::InvalidArgs(m)) && m@
            == "lock timeout must be \"infinite\" or a positive integer"@),
        lock_timeout_valid(args.timeout@) ==> path_outcome(r) && guarded_view(r)
            == write_guard_spec(args.path@, string_views(behavior.allow_write_dirs@)),
{
    if !lock_timeout_ok(args.timeout.as_str()) {
        return Err(
            CommandError::InvalidArgs(
                "lock timeout must be \"infinite\" or a positive integer".to_owned(),
            ),
        );
    }
    guard_path(args.path.as_str(), behavior.allow_write_dirs.as_slice())
}

/// `unlock` takes a token that is not blank and a path that the write guard
/// lets through.
pub fn plan_unlock(args: &UnlockArgs, behavior: &BehaviorConfig) -> (r: Result<String, CommandError>)
    ensures
        trim(args.token@).len() == 0 ==> (r matches Err(CommandError::InvalidArgs(m)) && m@
            == "unlock requires a non-empty token"@),
        trim(args.token@).len() > 0 ==> path_outcome(r) && guarded_view(r) == write_guard_spec(
            args.path@,
            string_views(behavior.allow_write_dirs@),
        ),
{
    if trim_chars(&chars_of(args.token.as_str())).len() == 0 {
        return Err(CommandError::InvalidArgs("unlock requires a non-empty token".to_owned()));
    }
    guard_path(args.path.as_str(), behavior.allow_write_dirs.as_slice())
}

/// `nested_path` over the non-empty pieces of a split, for a text that does
/// not start with `/` and holds no `//`: `base`, then `/` and the text
/// without its final `/`.
#[verifier::spinoff_prover]
proof fn lemma_nested_pieces(base: Seq<char>, s: Seq<char>)
    requires
        s.len() == 0 || s[0] != '/',
        no_double_slash(s),
    ensures
        nested_path(base, nonempty_pieces(split_char(s, '/'))) == if s.len() == 0 {
            base
        } else if s.last() == '/' {
            base + slash() + s.drop_last()
        } else {
            base + slash() + s
        },
    decreases s.len(),
{
    if s.len() == 0 {
        assert(split_char(s, '/') == seq![Seq::<char>::empty()]);
        let one = seq![Seq::<char>::empty()];
        assert(one.drop_last() =~= Seq::<Seq<char>>::empty());
        assert(one.last().len() == 0);
        assert(nonempty_pieces(one) == nonempty_pieces(one.drop_last()));
        assert(nonempty_pieces(one) =~= Seq::<Seq<char>>::empty());
    } else {
        let t = s.drop_last();
        let ch = s.last();
        assert forall|i: int| 0 <= i < t.len() - 1 implies !(#[trigger] t[i] == '/' && t[i + 1] == '/') by {
            assert(t[i] == s[i] && t[i + 1] == s[i + 1]);
        }
        if t.len() > 0 {
            assert(t[0] == s[0]);
        }
        lemma_nested_pieces(base, t);
        lemma_split_char_nonempty(t, '/');
        let p = split_char(t, '/');
        let y = p.last();
        if ch == '/' {
            assert(split_char(s, '/') == p.push(Seq::<char>::empty()));
            assert(p.push(Seq::<char>::empty()).drop_last() =~= p);
            assert(p.push(Seq::<char>::empty()).last().len() == 0);
            assert(nonempty_pieces(p.push(Seq::<char>::empty())) == nonempty_pieces(p));
            assert(t.len() > 0);
            assert(t.last() != '/') by {
                assert(t.last() == s[s.len() - 2] && s[s.len() - 1] == '/');
            }
        } else {
            let q = p.update(p.len() - 1, y.push(ch));
            assert(split_char(s, '/') == q);
            assert(q.drop_last() =~= p.drop_last());
            assert(q.last() == y.push(ch));
            assert(nonempty_pieces(q) == nonempty_pieces(p.drop_last()).push(y.push(ch)));
            let np = nonempty_pieces(p.drop_last());
            assert(np.push(y.push(ch)).drop_last() =~= np);
            if t.len() == 0 {
                assert(p == seq![Seq::<char>::empty()]);
                assert(y.len() == 0);
                assert(p.drop_last() =~= Seq::<Seq<char>>::empty());
                assert(y.push(ch) =~= seq![ch]);
                assert(s =~= seq![ch]);
                assert(np =~= Seq::<Seq<char>>::empty());
                assert(nested_path(base, np) == base);
                assert(nested_path(base, np.push(seq![ch])) == base + slash() + seq![ch]);
                assert(nested_path(base, nonempty_pieces(split_char(s, '/'))) =~= base + slash() + s);
            } else if t.last() == '/' {
                assert(y.len() == 0);
                assert(nonempty_pieces(p) == np);
                assert(y.push(ch) =~= seq![ch]);
                assert(s =~= t.drop_last() + slash() + seq![ch]);
                assert(nested_path(base, np.push(seq![ch])) == nested_path(base, np) + slash() + seq![ch]);
                assert(nested_path(base, nonempty_pieces(split_char(s, '/'))) =~= base + slash() + s);
            } else {
                let t2 = t.drop_last();
                lemma_split_char_nonempty(t2, '/');
                let p2 = split_char(t2, '/');
                assert(p == p2.update(p2.len() - 1, p2.last().push(t.last())));
                assert(y == p2.last().push(t.last()));
                assert(y.len() > 0);
                assert(nonempty_pieces(p) == np.push(y));
                assert(np.push(y).drop_last() =~= np);
                assert(s =~= t.push(ch));
                assert(nested_path(base, np.push(y)) == nested_path(base, np) + slash() + y);
                assert(nested_path(base, np.push(y.push(ch))) == nested_path(base, np) + slash() + y.push(ch));
                assert(nested_path(base, nonempty_pieces(p)) == base + slash() + t);
                let x = nested_path(base, np);
                assert(x + slash() + y == base + slash() + t);
                assert(x + slash() + y.push(ch) =~= (x + slash() + y).push(ch));
                assert(nested_path(base, nonempty_pieces(split_char(s, '/'))) =~= base + slash() + s);
            }
        }
    }
}

/// Law: `mkdir -p` ends at its target. The last directory it creates is
/// the target, normalized; so every level between the write directory and
/// the target is created, and nothing beyond it.
#[verifier::spinoff_prover]
pub proof fn law_mkdir_plan_reaches_target(target: Seq<char>, dirs: Seq<Seq<char>>)
    requires
        mkdir_plan_spec(target, dirs) is Ok,
    ensures
        mkdir_plan_spec(target, dirs)->Ok_0.len() > 0,
        mkdir_plan_spec(target, dirs)->Ok_0.last() == normalize_spec(target)->Ok_0,
{
    let t = normalize_spec(target)->Ok_0;
    lemma_matching_base_found(t, dirs);
    let b = matching_base(t, dirs)->Ok_0->Some_0;
    if t != b {
        law_normalized_path_is_clean(target);
        let segs = choose|segs: Seq<Seq<char>>|
            normalize_spec(target) == Ok::<Seq<char>, PathFault>(join(segs, slash())) && forall|
                i: int,
            | 0 <= i < segs.len() ==> is_clean_segment(#[trigger] segs[i]);
        lemma_join_clean(segs);
        assert(starts_with(t, b + slash()));
        let k = b.len() as int;
        assert(t[k] == (b + slash())[k]);
        assert(t.len() > k + 1) by {
            if t.len() == k + 1 {
                assert(t.last() == '/');
            }
        }
        let rest = t.subrange(k + 1, t.len() as int);
        assert(rest[0] != '/') by {
            assert(rest[0] == t[k + 1]);
            assert(!(t[k] == '/' && t[k + 1] == '/'));
        }
        assert(no_double_slash(rest)) by {
            assert forall|i: int| 0 <= i < rest.len() - 1 implies !(#[trigger] rest[i] == '/'
                && rest[i + 1] == '/') by {
                assert(rest[i] == t[k + 1 + i] && rest[i + 1] == t[k + 2 + i]);
            }
        }
        assert(rest.last() == t.last());
        lemma_nested_pieces(b, rest);
        let pieces = nonempty_pieces(split_char(rest, '/'));
        assert(b + slash() + rest =~= t);
        assert(pieces.len() > 0) by {
            if pieces.len() == 0 {
                assert(nested_path(b, pieces) == b);
                assert(t.len() > b.len());
            }
        }
        assert(dir_chain(b, pieces).last() == nested_path(b, pieces));
    }
}

} // verus!
