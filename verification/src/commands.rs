//! What the commands decide and print, apart from the I/O they drive.

use vstd::prelude::*;

use crate::cli::{CatMode, InitArgs, NewArgs, ProppatchArgs};
use crate::config::{config_error_message, AppConfig, ConfigError, InitConfig};
use crate::markdown::{
    flat_map_chars, frontmatter_spec, law_merged_tags, merge_tags_spec, note_tags, render_note_spec,
    render_template_spec, tag_lines, template_key, yaml_escape_char, yaml_quote_spec, MarkdownError,
    NoteDraft,
};
use crate::json::{
    json_array, json_array_spec, json_bool, json_bool_spec, json_object, json_object_spec,
    json_string, json_string_spec, member_views,
};
use crate::notetime::created_format;
use crate::notetime::NoteTime;
use crate::pathguard::{path_error_message, PathError};
use crate::text::{
    chars_eq_str, chars_of, clone_strings, decimal, push_decimal, contains_seq, ends_with, ends_with_exec, extend_str,
    find_first, first_occurrence, lemma_first_occurrence, lines_of, lines_spec, occurs_at,
    slice_chars, split_char, split_chars, starts_with, starts_with_exec, string_of, string_views,
    lemma_trim_shape, trim, trim_chars, views,
};
use crate::webdav::{webdav_error_message, DavEntry, WebdavError, WebdavSettings};

verus! {

/// What a command prints on success.
#[derive(Debug, Clone, PartialEq, Eq)]
pub struct CommandOutput {
    pub message: String,
}

/// Why a command failed.
#[derive(Debug)]
pub enum CommandError {
    Config(ConfigError),
    Path(PathError),
    Webdav(WebdavError),
    Markdown(MarkdownError),
    InvalidArgs(String),
    FileAlreadyExists(String),
    NotImplemented(String),
}

/// The stable code of each error, as JSON error reports carry it.
pub open spec fn command_error_code(e: CommandError) -> Seq<char> {
    match e {
        CommandError::Config(ConfigError::MissingPasswordEnv(_)) => "missing_password_env"@,
        CommandError::Config(ConfigError::AlreadyExists(_)) => "config_exists"@,
        CommandError::Config(_) => "config_error"@,
        CommandError::Path(PathError::WriteNotAllowed { .. }) => "write_not_allowed"@,
        CommandError::Path(_) => "invalid_path"@,
        CommandError::Webdav(_) => "webdav_error"@,
        CommandError::Markdown(_) => "markdown_error"@,
        CommandError::InvalidArgs(_) => "invalid_args"@,
        CommandError::FileAlreadyExists(_) => "file_already_exists"@,
        CommandError::NotImplemented(_) => "not_implemented"@,
    }
}

/// The text of each error: wrapped errors speak for themselves.
pub open spec fn command_error_message(e: CommandError) -> Seq<char> {
    match e {
        CommandError::Config(c) => config_error_message(c),
        CommandError::Path(p) => path_error_message(p@),
        CommandError::Webdav(w) => webdav_error_message(w),
        CommandError::Markdown(MarkdownError::UnknownTemplate(t)) => "unknown template: "@ + t@,
        CommandError::InvalidArgs(s) => s@,
        CommandError::FileAlreadyExists(p) => "file already exists: "@ + p@,
        CommandError::NotImplemented(c) => "command is not implemented yet: "@ + c@,
    }
}

impl CommandError {
    /// The error's stable code.
    pub fn code(&self) -> (r: &'static str)
        ensures
            r@ == command_error_code(*self),
    {
        match self {
            CommandError::Config(ConfigError::MissingPasswordEnv(_)) => "missing_password_env",
            CommandError::Config(ConfigError::AlreadyExists(_)) => "config_exists",
            CommandError::Config(_) => "config_error",
            CommandError::Path(PathError::WriteNotAllowed { .. }) => "write_not_allowed",
            CommandError::Path(_) => "invalid_path",
            CommandError::Webdav(_) => "webdav_error",
            CommandError::Markdown(_) => "markdown_error",
            CommandError::InvalidArgs(_) => "invalid_args",
            CommandError::FileAlreadyExists(_) => "file_already_exists",
            CommandError::NotImplemented(_) => "not_implemented",
        }
    }

    /// The error's message.
    pub fn message(&self) -> (r: String)
        ensures
            r@ == command_error_message(*self),
    {
        match self {
            CommandError::Config(c) => c.message(),
            CommandError::Path(p) => p.message(),
            CommandError::Webdav(w) => w.message(),
            CommandError::Markdown(m) => m.message(),
            CommandError::InvalidArgs(s) => s.clone(),
            CommandError::FileAlreadyExists(p) => {
                let mut v: Vec<char> = Vec::new();
                extend_str(&mut v, "file already exists: ");
                extend_str(&mut v, p.as_str());
                string_of(&v)
            },
            CommandError::NotImplemented(c) => {
                let mut v: Vec<char> = Vec::new();
                extend_str(&mut v, "command is not implemented yet: ");
                extend_str(&mut v, c.as_str());
                string_of(&v)
            },
        }
    }
}

/// The JSON report of a failed command, as `serde_json` writes the object
/// `{"ok": false, "error": code, "message": message}`: keys in sorted order.
pub open spec fn error_report_spec(code: Seq<char>, message: Seq<char>) -> Seq<char> {
    json_object_spec(
        seq![
            ("error"@, json_string_spec(code)),
            ("message"@, json_string_spec(message)),
            ("ok"@, json_bool_spec(false)),
        ],
    )
}

/// The JSON report of a failed command: `ok` false, the error's stable code
/// and its message.
pub fn error_json(error: &CommandError) -> (r: String)
    ensures
        r@ == error_report_spec(command_error_code(*error), command_error_message(*error)),
{
    let code = error.code();
    let message = error.message();
    let mut members: Vec<(String, String)> = Vec::new();
    members.push(("error".to_owned(), json_string(code)));
    members.push(("message".to_owned(), json_string(message.as_str())));
    members.push(("ok".to_owned(), json_bool(false)));
    proof {
        assert(member_views(members@) =~= seq![
            ("error"@, json_string_spec(code@)),
            ("message"@, json_string_spec(message@)),
            ("ok"@, json_bool_spec(false)),
        ]);
    }
    json_object(&members)
}

/// The value `init` takes for one setting: the argument when it is not
/// blank; else the next stdin line, trimmed, when there is one and it is
/// not blank; else the default; else the error. `Some` in the second place
/// when a stdin line was read.
pub open spec fn init_value_spec(
    arg: Option<Seq<char>>,
    line: Option<Seq<char>>,
    default: Option<Seq<char>>,
) -> (Option<Seq<char>>, bool) {
    if arg is Some && trim(arg->0).len() > 0 {
        (Some(trim(arg->0)), false)
    } else if line is Some && trim(line->0).len() > 0 {
        (Some(trim(line->0)), true)
    } else {
        (default, line is Some)
    }
}

pub open spec fn opt_view(o: Option<String>) -> Option<Seq<char>> {
    match o {
        Some(s) => Some(s@),
        None => None,
    }
}

/// One value for `init`, reading at most one line of `stdin_lines` from
/// `*cursor` (and advancing it when it does).
pub fn init_value(
    arg: Option<String>,
    stdin_lines: &Vec<Vec<char>>,
    cursor: &mut usize,
    default: Option<&str>,
    missing_message: &str,
) -> (r: Result<String, CommandError>)
    ensures
        ({
            let line = if *old(cursor) < stdin_lines@.len() {
                Some(stdin_lines@[*old(cursor) as int]@)
            } else {
                None::<Seq<char>>
            };
            let (v, used) = init_value_spec(
                opt_view(arg),
                line,
                match default {
                    Some(d) => Some(d@),
                    None => None,
                },
            );
            &&& *final(cursor) == *old(cursor) + if used {
                1int
            } else {
                0int
            }
            &&& match v {
                Some(s) => r matches Ok(t) && t@ == s,
                None => r matches Err(CommandError::InvalidArgs(m)) && m@ == missing_message@,
            }
        }),
{
    if let Some(value) = &arg {
        let trimmed = trim_chars(&chars_of(value.as_str()));
        if trimmed.len() > 0 {
            return Ok(string_of(&trimmed));
        }
    }
    if *cursor < stdin_lines.len() {
        let trimmed = trim_chars(&stdin_lines[*cursor]);
        *cursor = *cursor + 1;
        if trimmed.len() > 0 {
            return Ok(string_of(&trimmed));
        }
    }
    match default {
        Some(d) => Ok(d.to_owned()),
        None => Err(CommandError::InvalidArgs(missing_message.to_owned())),
    }
}

/// Line `k` of `lines`, if there is one.
pub open spec fn line_at(lines: Seq<Seq<char>>, k: int) -> Option<Seq<char>> {
    if 0 <= k < lines.len() {
        Some(lines[k])
    } else {
        None
    }
}

pub open spec fn step_of(used: bool) -> int {
    if used {
        1
    } else {
        0
    }
}

/// The four `init` settings (URL, username, password variable, write
/// directory) from the arguments and the stdin lines, each reading the next
/// line only when its argument is missing or blank; or the message of the
/// first one that has neither value nor default.
pub open spec fn resolve_init_spec(args: InitArgs, lines: Seq<Seq<char>>) -> Result<
    Seq<Seq<char>>,
    Seq<char>,
> {
    let (url, u1) = init_value_spec(opt_view(args.url), line_at(lines, 0), None);
    let c1 = step_of(u1);
    let (user, u2) = init_value_spec(opt_view(args.username), line_at(lines, c1), None);
    let c2 = c1 + step_of(u2);
    let (pw, u3) = init_value_spec(
        opt_view(args.password_env),
        line_at(lines, c2),
        Some("OBSIDIAN_WEBDAV_PASSWORD"@),
    );
    let c3 = c2 + step_of(u3);
    let (dir, _u4) = init_value_spec(
        opt_view(args.write_dir),
        line_at(lines, c3),
        Some("Inbox/Hermes"@),
    );
    if url is None {
        Err("init requires WebDAV URL"@)
    } else if user is None {
        Err("init requires username"@)
    } else if pw is None {
        Err("init requires password env name"@)
    } else if dir is None {
        Err("init requires default write directory"@)
    } else {
        Ok(seq![url->0, user->0, pw->0, dir->0])
    }
}

/// The settings `init` writes, from its arguments and, for the ones not
/// given, the lines piped to it: URL, username, password variable (default
/// `OBSIDIAN_WEBDAV_PASSWORD`), write directory (default `Inbox/Hermes`).
pub fn resolve_init_config(args: &InitArgs, stdin: &str) -> (r: Result<InitConfig, CommandError>)
    ensures
        match resolve_init_spec(*args, lines_spec(stdin@)) {
            Ok(v) => r matches Ok(c) && c.url@ == v[0] && c.username@ == v[1] && c.password_env@
                == v[2] && c.write_dir@ == v[3],
            Err(m) => r matches Err(CommandError::InvalidArgs(e)) && e@ == m,
        },
{
    let lines = lines_of(&chars_of(stdin));
    let mut cursor: usize = 0;
    let url = init_value(args.url.clone(), &lines, &mut cursor, None, "init requires WebDAV URL")?;
    let username = init_value(args.username.clone(), &lines, &mut cursor, None, "init requires username")?;
    let password_env = init_value(
        args.password_env.clone(),
        &lines,
        &mut cursor,
        Some("OBSIDIAN_WEBDAV_PASSWORD"),
        "init requires password env name",
    )?;
    let write_dir = init_value(
        args.write_dir.clone(),
        &lines,
        &mut cursor,
        Some("Inbox/Hermes"),
        "init requires default write directory",
    )?;
    Ok(InitConfig { url, username, password_env, write_dir })
}


/// The frontmatter of a note and its body: `content` must open with
/// `---\n`, and the frontmatter runs to the first `\n---`; up to two line
/// breaks after it are dropped from the body. Without both markers there is
/// no frontmatter and the body is the whole content.
pub open spec fn split_frontmatter_spec(content: Seq<char>) -> (Option<Seq<char>>, Seq<char>) {
    let open = "---\n"@;
    let close = "\n---"@;
    if !starts_with(content, open) {
        (None, content)
    } else {
        let rest = content.subrange(open.len() as int, content.len() as int);
        match first_occurrence(rest, close) {
            None => (None, content),
            Some(end) => {
                let after = rest.subrange(end + close.len(), rest.len() as int);
                let b1 = if starts_with(after, seq!['\n']) {
                    after.drop_first()
                } else {
                    after
                };
                let b2 = if starts_with(b1, seq!['\n']) {
                    b1.drop_first()
                } else {
                    b1
                };
                (Some(rest.subrange(0, end)), b2)
            },
        }
    }
}

/// Law: the frontmatter and body that `cat --frontmatter` and `cat --body`
/// show put the note back together: the opening `---` line, the
/// frontmatter, the closing `\n---`, the line breaks dropped (none, one or
/// two), then the body. The frontmatter never holds the closing marker.
/// Without frontmatter the body is the whole note.
#[verifier::spinoff_prover]
pub proof fn law_frontmatter_split_reassembles(content: Seq<char>)
    ensures
        split_frontmatter_spec(content).0 is None ==> split_frontmatter_spec(content).1 == content,
        split_frontmatter_spec(content).0 matches Some(front) ==> {
            let body = split_frontmatter_spec(content).1;
            &&& !contains_seq(front, "\n---"@)
            &&& {
                ||| content == "---\n"@ + front + "\n---"@ + body
                ||| content == "---\n"@ + front + "\n---"@ + "\n"@ + body
                ||| content == "---\n"@ + front + "\n---"@ + "\n\n"@ + body
            }
        },
{
    reveal_strlit("---\n");
    reveal_strlit("\n---");
    reveal_strlit("\n");
    reveal_strlit("\n\n");
    let open = "---\n"@;
    let close = "\n---"@;
    if starts_with(content, open) {
        let rest = content.subrange(open.len() as int, content.len() as int);
        if contains_seq(rest, close) {
            lemma_first_occurrence(rest, close);
            let end = first_occurrence(rest, close)->0;
            let front = rest.subrange(0, end);
            let after = rest.subrange(end + close.len(), rest.len() as int);
            assert(content =~= open + rest);
            assert(rest =~= front + close + after);
            assert(!contains_seq(front, close)) by {
                if contains_seq(front, close) {
                    let j = choose|j: int| occurs_at(front, close, j);
                    assert(front.subrange(j, j + close.len()) =~= rest.subrange(j, j + close.len()));
                    assert(occurs_at(rest, close, j));
                }
            }
            let b1 = if starts_with(after, seq!['\n']) {
                after.drop_first()
            } else {
                after
            };
            let b2 = split_frontmatter_spec(content).1;
            if starts_with(after, seq!['\n']) {
                assert(after =~= seq!['\n'] + b1);
            }
            if starts_with(b1, seq!['\n']) {
                assert(b1 =~= seq!['\n'] + b2);
            }
            assert(content =~= open + front + close + after);
            if starts_with(after, seq!['\n']) && starts_with(b1, seq!['\n']) {
                assert(after =~= "\n\n"@ + b2);
            } else if starts_with(after, seq!['\n']) {
                assert(after =~= "\n"@ + b2);
            } else if starts_with(b1, seq!['\n']) {
                assert(after =~= "\n"@ + b2);
            } else {
                assert(after =~= b2);
            }
        }
    }
}

/// No line after the first starts with `-`.
pub open spec fn no_dash_line(s: Seq<char>) -> bool {
    forall|i: int| 0 <= i < s.len() - 1 && #[trigger] s[i] == '\n' ==> s[i + 1] != '-'
}

/// Whole lines: nothing, or lines that end with a line break, none of
/// which starts with `-`.
pub open spec fn line_block(s: Seq<char>) -> bool {
    s.len() == 0 || (s[0] != '-' && s.last() == '\n' && no_dash_line(s))
}

proof fn lemma_line_block_concat(a: Seq<char>, b: Seq<char>)
    requires
        line_block(a),
        line_block(b),
    ensures
        line_block(a + b),
{
    if a.len() == 0 {
        assert(a + b =~= b);
    } else if b.len() == 0 {
        assert(a + b =~= a);
    } else {
        let c = a + b;
        assert(c[0] == a[0]);
        assert(c.last() == b.last());
        assert forall|i: int| 0 <= i < c.len() - 1 && #[trigger] c[i] == '\n' implies c[i + 1]
            != '-' by {
            if i < a.len() - 1 {
                assert(c[i] == a[i] && c[i + 1] == a[i + 1]);
            } else if i == a.len() - 1 {
                assert(c[i + 1] == b[0]);
            } else {
                assert(c[i] == b[i - a.len()] && c[i + 1] == b[i - a.len() + 1]);
            }
        }
    }
}

proof fn lemma_no_char_concat(a: Seq<char>, b: Seq<char>, ch: char)
    requires
        !a.contains(ch),
        !b.contains(ch),
    ensures
        !(a + b).contains(ch),
{
    if (a + b).contains(ch) {
        let i = choose|i: int| 0 <= i < (a + b).len() && (a + b)[i] == ch;
        if i < a.len() {
            assert(a[i] == ch);
        } else {
            assert(b[i - a.len()] == ch);
        }
    }
}

/// A single line that does not start with `-` is a line block.
proof fn lemma_single_line(x: Seq<char>)
    requires
        x.len() > 0,
        x[0] != '-',
        x.last() == '\n',
        !x.drop_last().contains('\n'),
    ensures
        line_block(x),
{
    assert forall|i: int| 0 <= i < x.len() - 1 && #[trigger] x[i] == '\n' implies x[i + 1] != '-' by {
        assert(x.drop_last()[i] == x[i]);
    }
}

/// `key`, then a value and `end` (one line break at its end) make one line.
proof fn lemma_value_line(key: Seq<char>, v: Seq<char>, end: Seq<char>)
    requires
        key.len() > 0,
        key[0] != '-',
        !key.contains('\n'),
        !v.contains('\n'),
        end.len() > 0,
        end.last() == '\n',
        !end.drop_last().contains('\n'),
    ensures
        line_block(key + v + end),
{
    let x = key + v + end;
    assert(x.drop_last() =~= key + v + end.drop_last());
    lemma_no_char_concat(key, v, '\n');
    lemma_no_char_concat(key + v, end.drop_last(), '\n');
    assert(x[0] == key[0]);
    lemma_single_line(x);
}

proof fn lemma_yaml_quote_one_line(s: Seq<char>)
    requires
        !s.contains('\n'),
    ensures
        !yaml_quote_spec(s).contains('\n'),
    decreases s.len(),
{
    if s.len() > 0 {
        let init = s.drop_last();
        assert(!init.contains('\n')) by {
            if init.contains('\n') {
                let j = choose|j: int| 0 <= j < init.len() && init[j] == '\n';
                assert(s[j] == '\n');
            }
        }
        lemma_yaml_quote_one_line(init);
        assert(s.last() != '\n') by {
            assert(s[s.len() - 1] == s.last());
        }
        let e = yaml_escape_char(s.last());
        assert(!e.contains('\n')) by {
            if e.contains('\n') {
                let j = choose|j: int| 0 <= j < e.len() && e[j] == '\n';
                assert(e[j] == '\n');
            }
        }
        lemma_no_char_concat(yaml_quote_spec(init), e, '\n');
        assert(yaml_quote_spec(s) == flat_map_chars(s.drop_last(), |c: char| yaml_escape_char(c))
            + yaml_escape_char(s.last()));
    }
}

proof fn lemma_tag_lines_block(tags: Seq<Seq<char>>)
    requires
        forall|i: int| 0 <= i < tags.len() ==> !(#[trigger] tags[i]).contains('\n'),
    ensures
        line_block(tag_lines(tags)),
    decreases tags.len(),
{
    if tags.len() > 0 {
        let init = tags.drop_last();
        assert forall|i: int| 0 <= i < init.len() implies !(#[trigger] init[i]).contains('\n') by {
            assert(init[i] == tags[i]);
        }
        lemma_tag_lines_block(init);
        reveal_strlit("  - ");
        reveal_strlit("\n");
        assert(tags.last() == tags[tags.len() - 1]);
        assert("\n"@.drop_last() =~= Seq::<char>::empty());
        lemma_value_line("  - "@, tags.last(), "\n"@);
        lemma_line_block_concat(tag_lines(init), "  - "@ + tags.last() + "\n"@);
        assert(tag_lines(tags) =~= tag_lines(init) + ("  - "@ + tags.last() + "\n"@));
    }
}

/// The tags a rendered note carries hold no line break when the given tags
/// hold none.
proof fn lemma_note_tags_one_line(d: NoteDraft)
    requires
        render_note_spec(d) is Ok,
        forall|k: int| 0 <= k < d.default_tags@.len() ==> !(#[trigger] d.default_tags@[k])@.contains('\n'),
        forall|k: int| 0 <= k < d.tags@.len() ==> !(#[trigger] d.tags@[k])@.contains('\n'),
    ensures
        forall|i: int| 0 <= i < note_tags(d).len() ==> !(#[trigger] note_tags(d)[i]).contains('\n'),
{
    let all = string_views(d.default_tags@) + string_views(d.tags@);
    assert forall|k: int| 0 <= k < all.len() implies !(#[trigger] all[k]).contains('\n') by {
        if k < d.default_tags@.len() {
            assert(all[k] == d.default_tags@[k]@);
        } else {
            assert(all[k] == d.tags@[k - d.default_tags@.len()]@);
        }
    }
    let merged = merge_tags_spec(string_views(d.default_tags@), string_views(d.tags@));
    law_merged_tags(string_views(d.default_tags@), string_views(d.tags@));
    assert forall|i: int| 0 <= i < merged.len() implies !(#[trigger] merged[i]).contains('\n') by {
        let k = choose|k: int| 0 <= k < all.len() && trim(#[trigger] all[k]) == merged[i];
        lemma_trim_shape(all[k]);
    }
    let key = template_key(d);
    reveal_strlit("basic");
    reveal_strlit("troubleshooting");
    reveal_strlit("daily");
    reveal_strlit("project");
    reveal_strlit("source");
    reveal_strlit("meeting");
    assert(!key.contains('\n'));
    lemma_trim_shape(key);
    let tags = note_tags(d);
    assert forall|i: int| 0 <= i < tags.len() implies !(#[trigger] tags[i]).contains('\n') by {
        if i < merged.len() {
            assert(tags[i] == merged[i]);
        } else {
            assert(tags[i] == trim(key));
        }
    }
}

/// The lines between the `---` markers of a rendered note's frontmatter.
pub open spec fn frontmatter_lines(d: NoteDraft) -> Seq<char> {
    let f = frontmatter_spec(d, note_tags(d));
    f.subrange(4, f.len() - 6)
}

/// The frontmatter of a rendered note: `---`, the YAML lines, none of
/// which starts with `-`, then `---` and a blank line.
#[verifier::spinoff_prover]
proof fn lemma_frontmatter_block(d: NoteDraft)
    requires
        render_note_spec(d) is Ok,
        !d.title@.contains('\n'),
        !d.source@.contains('\n'),
        forall|k: int| 0 <= k < d.default_tags@.len() ==> !(#[trigger] d.default_tags@[k])@.contains('\n'),
        forall|k: int| 0 <= k < d.tags@.len() ==> !(#[trigger] d.tags@[k])@.contains('\n'),
        d.add_created_time ==> !d.created.rendered(created_format())->0.contains('\n'),
    ensures
        frontmatter_spec(d, note_tags(d)) == "---\n"@ + frontmatter_lines(d) + "\n---"@ + "\n\n"@,
        no_dash_line(frontmatter_lines(d)),
{
    reveal_strlit("---\n");
    reveal_strlit("title: \"");
    reveal_strlit("\"\n");
    reveal_strlit("created: \"");
    reveal_strlit("source: \"");
    reveal_strlit("status: \"inbox\"\n");
    reveal_strlit("tags:\n");
    reveal_strlit("---\n\n");
    reveal_strlit("\n---");
    reveal_strlit("\n\n");
    lemma_note_tags_one_line(d);
    let tags = note_tags(d);
    let end = "\"\n"@;
    assert(end.drop_last() =~= seq!['"']);
    lemma_yaml_quote_one_line(d.title@);
    lemma_value_line("title: \""@, yaml_quote_spec(d.title@), end);
    let ln_title = "title: \""@ + yaml_quote_spec(d.title@) + end;
    let ln_created = if d.add_created_time {
        "created: \""@ + d.created.rendered(created_format())->0 + end
    } else {
        Seq::empty()
    };
    if d.add_created_time {
        lemma_value_line("created: \""@, d.created.rendered(created_format())->0, end);
    }
    let ln_source = if d.add_source {
        "source: \""@ + yaml_quote_spec(d.source@) + end
    } else {
        Seq::empty()
    };
    if d.add_source {
        lemma_yaml_quote_one_line(d.source@);
        lemma_value_line("source: \""@, yaml_quote_spec(d.source@), end);
    }
    lemma_single_line("status: \"inbox\"\n"@);
    lemma_single_line("tags:\n"@);
    lemma_tag_lines_block(tags);
    let a1 = ln_title + ln_created;
    let a2 = a1 + ln_source;
    let a3 = a2 + "status: \"inbox\"\n"@;
    let a4 = a3 + "tags:\n"@;
    let lines = a4 + tag_lines(tags);
    lemma_line_block_concat(ln_title, ln_created);
    lemma_line_block_concat(a1, ln_source);
    lemma_line_block_concat(a2, "status: \"inbox\"\n"@);
    lemma_line_block_concat(a3, "tags:\n"@);
    lemma_line_block_concat(a4, tag_lines(tags));
    let f = frontmatter_spec(d, tags);
    assert(f =~= "---\n"@ + lines + "---\n\n"@);
    assert(lines.len() > 0 && lines.last() == '\n' && no_dash_line(lines));
    let y = lines.drop_last();
    assert(frontmatter_lines(d) =~= y);
    assert(f =~= "---\n"@ + y + "\n---"@ + "\n\n"@);
    assert forall|i: int| 0 <= i < y.len() - 1 && #[trigger] y[i] == '\n' implies y[i + 1] != '-' by {
        assert(y[i] == lines[i] && y[i + 1] == lines[i + 1]);
    }
}

/// A note that opens with `---`, lines none of which starts with `-`, the
/// closing `---` and a blank line splits into those lines and what follows.
#[verifier::spinoff_prover]
proof fn lemma_split_block(y: Seq<char>, b: Seq<char>)
    requires
        no_dash_line(y),
    ensures
        split_frontmatter_spec("---\n"@ + y + "\n---"@ + "\n\n"@ + b) == (Some(y), b),
{
    reveal_strlit("---\n");
    reveal_strlit("\n---");
    reveal_strlit("\n\n");
    let content = "---\n"@ + y + "\n---"@ + "\n\n"@ + b;
    let close = "\n---"@;
    let rest = content.subrange(4, content.len() as int);
    assert(rest =~= y + close + "\n\n"@ + b);
    assert(starts_with(content, "---\n"@)) by {
        assert(content.subrange(0, 4) =~= "---\n"@);
    }
    let n = y.len() as int;
    assert(occurs_at(rest, close, n)) by {
        assert(rest.subrange(n, n + 4) =~= close);
    }
    lemma_first_occurrence(rest, close);
    let k = first_occurrence(rest, close)->0;
    assert(k == n) by {
        if k < n {
            assert(rest.subrange(k, k + 4) == close);
            assert(rest[k] == rest.subrange(k, k + 4)[0]);
            assert(rest[k + 1] == rest.subrange(k, k + 4)[1]);
            if k + 1 < n {
                assert(rest[k] == y[k] && rest[k + 1] == y[k + 1]);
            } else {
                assert(rest[k + 1] == close[0]);
            }
        } else if k > n {
            assert(!occurs_at(rest, close, n));
        }
    }
    let after = rest.subrange(n + 4, rest.len() as int);
    assert(after =~= seq!['\n', '\n'] + b);
    assert(after.drop_first() =~= seq!['\n'] + b);
    assert((seq!['\n'] + b).drop_first() =~= b);
    assert(starts_with(after, seq!['\n'])) by {
        assert(after.subrange(0, 1) =~= seq!['\n']);
    }
    assert(starts_with(seq!['\n'] + b, seq!['\n'])) by {
        assert((seq!['\n'] + b).subrange(0, 1) =~= seq!['\n']);
    }
    assert(rest.subrange(0, n) =~= y);
}

/// Law: `cat` reads back what `new` wrote. For a note rendered with
/// frontmatter, `cat --body` shows the rendered template and
/// `cat --frontmatter` the YAML lines between the `---` markers. Left out:
/// a title, source, tag or creation time that holds a line break, which can
/// put a `---` line inside the frontmatter.
pub proof fn law_cat_reads_back_rendered_note(d: NoteDraft)
    requires
        d.frontmatter,
        render_note_spec(d) is Ok,
        !d.title@.contains('\n'),
        !d.source@.contains('\n'),
        forall|k: int| 0 <= k < d.default_tags@.len() ==> !(#[trigger] d.default_tags@[k])@.contains('\n'),
        forall|k: int| 0 <= k < d.tags@.len() ==> !(#[trigger] d.tags@[k])@.contains('\n'),
        d.add_created_time ==> !d.created.rendered(created_format())->0.contains('\n'),
    ensures
        split_frontmatter_spec(render_note_spec(d)->Ok_0) == (
            Some(frontmatter_lines(d)),
            render_template_spec(template_key(d), d.title@, d.body@, d.heading_title)->0,
        ),
{
    let b = render_template_spec(template_key(d), d.title@, d.body@, d.heading_title)->0;
    lemma_frontmatter_block(d);
    lemma_split_block(frontmatter_lines(d), b);
    assert(render_note_spec(d)->Ok_0 == frontmatter_spec(d, note_tags(d)) + b);
}

fn drop_one_newline(v: Vec<char>) -> (r: Vec<char>)
    ensures
        r@ == if starts_with(v@, seq!['\n']) {
            v@.drop_first()
        } else {
            v@
        },
{
    if v.len() > 0 && v[0] == '\n' {
        proof {
            assert(v@.subrange(0, 1) =~= seq!['\n']);
        }
        slice_chars(&v, 1, v.len())
    } else {
        proof {
            if starts_with(v@, seq!['\n']) {
                assert(v@.subrange(0, 1)[0] == v@[0]);
            }
        }
        v
    }
}

/// Splits a note into its frontmatter (if any) and its body.
pub fn split_frontmatter(content: &str) -> (r: (Option<String>, String))
    ensures
        opt_view(r.0) == split_frontmatter_spec(content@).0,
        r.1@ == split_frontmatter_spec(content@).1,
{
    let c = chars_of(content);
    let open = chars_of("---\n");
    let close = chars_of("\n---");
    if !starts_with_exec(&c, &open) {
        return (None, content.to_owned());
    }
    let rest = slice_chars(&c, open.len(), c.len());
    let end = match find_first(&rest, &close) {
        Some(e) => e,
        None => {
            return (None, content.to_owned());
        },
    };
    let front = slice_chars(&rest, 0, end);
    let after = slice_chars(&rest, end + close.len(), rest.len());
    let body = drop_one_newline(drop_one_newline(after));
    (Some(string_of(&front)), string_of(&body))
}

/// What `cat` prints of a note.
pub open spec fn render_cat_spec(content: Seq<char>, mode: CatMode) -> Seq<char> {
    let (front, body) = split_frontmatter_spec(content);
    match mode {
        CatMode::Full => content,
        CatMode::Frontmatter => match front {
            Some(f) => f,
            None => Seq::empty(),
        },
        CatMode::Body => body,
    }
}

/// The whole note, only its frontmatter (empty when it has none), or only
/// its body.
pub fn render_cat(content: &str, mode: CatMode) -> (r: String)
    ensures
        r@ == render_cat_spec(content@, mode),
{
    let (front, body) = split_frontmatter(content);
    match mode {
        CatMode::Full => content.to_owned(),
        CatMode::Frontmatter => match front {
            Some(f) => f,
            None => String::new(),
        },
        CatMode::Body => body,
    }
}

/// An entry's name as listed under the requested directory.
pub open spec fn child_display_name_spec(requested: Seq<char>, entry_path: Seq<char>) -> Seq<char> {
    let prefix = requested.push('/');
    if requested.len() == 0 {
        entry_path
    } else if starts_with(entry_path, prefix) {
        entry_path.subrange(prefix.len() as int, entry_path.len() as int)
    } else {
        entry_path
    }
}

/// The entry path without the requested directory in front.
pub fn child_display_name(requested: &[char], entry_path: &[char]) -> (r: Vec<char>)
    ensures
        r@ == child_display_name_spec(requested@, entry_path@),
{
    if requested.len() == 0 {
        return slice_chars(entry_path, 0, entry_path.len());
    }
    let mut prefix = slice_chars(requested, 0, requested.len());
    prefix.push('/');
    proof {
        assert(requested@.subrange(0, requested@.len() as int) =~= requested@);
        assert(entry_path@.subrange(0, entry_path@.len() as int) =~= entry_path@);
    }
    if starts_with_exec(entry_path, &prefix) {
        slice_chars(entry_path, prefix.len(), entry_path.len())
    } else {
        slice_chars(entry_path, 0, entry_path.len())
    }
}

/// One listing line: the child name, with `/` after a directory.
pub open spec fn ls_line(requested: Seq<char>, e: (Seq<char>, bool)) -> Seq<char> {
    let name = child_display_name_spec(requested, e.0);
    if e.1 {
        name.push('/')
    } else {
        name
    }
}

/// The listing lines for the entries, in order.
pub open spec fn ls_lines(requested: Seq<char>, entries: Seq<(Seq<char>, bool)>) -> Seq<Seq<char>>
    decreases entries.len(),
{
    if entries.len() == 0 {
        Seq::empty()
    } else {
        ls_lines(requested, entries.drop_last()).push(ls_line(requested, entries.last()))
    }
}

/// The text `ls` prints: one line per entry, the requested directory (when
/// it normalizes) taken off each path.
pub open spec fn format_ls_spec(requested: Seq<char>, entries: Seq<(Seq<char>, bool)>) -> Seq<char> {
    let req = match crate::pathguard::normalize_spec(requested) {
        Ok(p) => p,
        Err(_) => Seq::empty(),
    };
    crate::text::join(ls_lines(req, entries), seq!['\n'])
}

/// The plain-text listing of a directory.
pub fn format_ls(requested: &str, entries: &Vec<DavEntry>) -> (r: String)
    ensures
        r@ == format_ls_spec(requested@, crate::webdav::entry_views(entries@)),
{
    let req: Vec<char> = match crate::pathguard::normalize_vault_path(requested) {
        Ok(p) => chars_of(p.as_str()),
        Err(_) => Vec::new(),
    };
    let ghost ev = crate::webdav::entry_views(entries@);
    let mut lines: Vec<Vec<char>> = Vec::new();
    let mut i: usize = 0;
    proof {
        assert(ev.take(0) =~= Seq::<(Seq<char>, bool)>::empty());
        assert(views(lines@) =~= Seq::<Seq<char>>::empty());
    }
    while i < entries.len()
        invariant
            i <= entries@.len(),
            ev == crate::webdav::entry_views(entries@),
            views(lines@) == ls_lines(req@, ev.take(i as int)),
        decreases entries@.len() - i,
    {
        proof {
            assert(ev.take(i + 1).drop_last() =~= ev.take(i as int));
            assert(ev.take(i + 1).last() == entries@[i as int]@);
        }
        let mut name = child_display_name(&req, &chars_of(entries[i].path.as_str()));
        if entries[i].is_dir {
            name.push('/');
        }
        let ghost before = views(lines@);
        lines.push(name);
        proof {
            assert(views(lines@) =~= before.push(ls_line(req@, ev[i as int])));
        }
        i = i + 1;
    }
    proof {
        assert(ev.take(entries@.len() as int) =~= ev);
    }
    let mut nl: Vec<char> = Vec::new();
    nl.push('\n');
    string_of(&crate::text::join_chars(&lines, &nl))
}


/// One hit of a search.
#[derive(Debug, Clone, PartialEq, Eq)]
pub struct SearchMatch {
    pub path: String,
    pub line: usize,
    pub snippet: String,
}

impl View for SearchMatch {
    type V = (Seq<char>, int, Seq<char>);

    open spec fn view(&self) -> (Seq<char>, int, Seq<char>) {
        (self.path@, self.line as int, self.snippet@)
    }
}

/// A listed entry as JSON: `{"is_dir":..,"path":..}`.
pub open spec fn entry_json_spec(e: (Seq<char>, bool)) -> Seq<char> {
    json_object_spec(seq![("is_dir"@, json_bool_spec(e.1)), ("path"@, json_string_spec(e.0))])
}

/// The JSON report of `ls`: `ok` true, the action `listed` and the entries
/// in listing order.
pub open spec fn listing_json_spec(entries: Seq<(Seq<char>, bool)>) -> Seq<char> {
    json_object_spec(
        seq![
            ("action"@, json_string_spec("listed"@)),
            (
                "entries"@,
                json_array_spec(entries.map_values(|e: (Seq<char>, bool)| entry_json_spec(e))),
            ),
            ("ok"@, json_bool_spec(true)),
        ],
    )
}

/// The JSON report of `ls` for the listed entries.
pub fn listing_json(entries: &Vec<DavEntry>) -> (r: String)
    ensures
        r@ == listing_json_spec(crate::webdav::entry_views(entries@)),
{
    let ghost ev = crate::webdav::entry_views(entries@);
    let mut items: Vec<Vec<char>> = Vec::new();
    let mut i: usize = 0;
    while i < entries.len()
        invariant
            i <= entries@.len(),
            ev == crate::webdav::entry_views(entries@),
            views(items@) =~= ev.map_values(|e: (Seq<char>, bool)| entry_json_spec(e)).take(
                i as int,
            ),
        decreases entries@.len() - i,
    {
        let e = &entries[i];
        let mut m: Vec<(String, String)> = Vec::new();
        m.push(("is_dir".to_owned(), json_bool(e.is_dir)));
        m.push(("path".to_owned(), json_string(e.path.as_str())));
        proof {
            assert(member_views(m@) =~= seq![
                ("is_dir"@, json_bool_spec(e.is_dir)),
                ("path"@, json_string_spec(e.path@)),
            ]);
        }
        let t = chars_of(json_object(&m).as_str());
        let ghost before = views(items@);
        items.push(t);
        proof {
            assert(ev[i as int] == entries@[i as int]@);
            assert(views(items@) =~= before.push(entry_json_spec(ev[i as int])));
            assert(ev.map_values(|e: (Seq<char>, bool)| entry_json_spec(e)).take(i + 1)
                =~= ev.map_values(|e: (Seq<char>, bool)| entry_json_spec(e)).take(
                i as int,
            ).push(entry_json_spec(ev[i as int])));
        }
        i = i + 1;
    }
    proof {
        assert(ev.map_values(|e: (Seq<char>, bool)| entry_json_spec(e)).take(i as int)
            =~= ev.map_values(|e: (Seq<char>, bool)| entry_json_spec(e)));
    }
    let arr = json_array(&items);
    let mut m: Vec<(String, String)> = Vec::new();
    m.push(("action".to_owned(), json_string("listed")));
    m.push(("entries".to_owned(), arr));
    m.push(("ok".to_owned(), json_bool(true)));
    proof {
        assert(member_views(m@) =~= seq![
            ("action"@, json_string_spec("listed"@)),
            (
                "entries"@,
                json_array_spec(ev.map_values(|e: (Seq<char>, bool)| entry_json_spec(e))),
            ),
            ("ok"@, json_bool_spec(true)),
        ]);
    }
    json_object(&m)
}

/// A search hit as JSON: `{"line":..,"path":..,"snippet":..}`, the line
/// number in decimal.
pub open spec fn match_json_spec(m: (Seq<char>, int, Seq<char>)) -> Seq<char> {
    json_object_spec(
        seq![
            ("line"@, decimal(m.1 as nat)),
            ("path"@, json_string_spec(m.0)),
            ("snippet"@, json_string_spec(m.2)),
        ],
    )
}

/// The JSON report of `search`: `ok` true, the action `searched` and the
/// hits in the order they were found.
pub open spec fn search_json_spec(matches: Seq<(Seq<char>, int, Seq<char>)>) -> Seq<char> {
    json_object_spec(
        seq![
            ("action"@, json_string_spec("searched"@)),
            (
                "matches"@,
                json_array_spec(
                    matches.map_values(|m: (Seq<char>, int, Seq<char>)| match_json_spec(m)),
                ),
            ),
            ("ok"@, json_bool_spec(true)),
        ],
    )
}

/// The JSON text of one hit.
fn match_json(h: &SearchMatch) -> (r: Vec<char>)
    ensures
        r@ == match_json_spec(h@),
{
    let mut line: Vec<char> = Vec::new();
    push_decimal(&mut line, h.line as u64);
    let mut m: Vec<(String, String)> = Vec::new();
    m.push(("line".to_owned(), string_of(&line)));
    m.push(("path".to_owned(), json_string(h.path.as_str())));
    m.push(("snippet".to_owned(), json_string(h.snippet.as_str())));
    proof {
        assert(line@ =~= decimal(h.line as nat));
        assert(member_views(m@) =~= seq![
            ("line"@, decimal(h@.1 as nat)),
            ("path"@, json_string_spec(h@.0)),
            ("snippet"@, json_string_spec(h@.2)),
        ]);
    }
    chars_of(json_object(&m).as_str())
}

/// The JSON report of `search` for the hits found.
pub fn search_json(matches: &Vec<SearchMatch>) -> (r: String)
    ensures
        r@ == search_json_spec(match_views(matches@)),
{
    let ghost mv = match_views(matches@);
    let mut items: Vec<Vec<char>> = Vec::new();
    let mut i: usize = 0;
    while i < matches.len()
        invariant
            i <= matches@.len(),
            mv == match_views(matches@),
            views(items@) =~= mv.map_values(
                |m: (Seq<char>, int, Seq<char>)| match_json_spec(m),
            ).take(i as int),
        decreases matches@.len() - i,
    {
        let t = match_json(&matches[i]);
        let ghost before = views(items@);
        items.push(t);
        proof {
            assert(mv[i as int] == matches@[i as int]@);
            assert(views(items@) =~= before.push(match_json_spec(mv[i as int])));
            assert(mv.map_values(|m: (Seq<char>, int, Seq<char>)| match_json_spec(m)).take(i + 1)
                =~= mv.map_values(|m: (Seq<char>, int, Seq<char>)| match_json_spec(m)).take(
                i as int,
            ).push(match_json_spec(mv[i as int])));
        }
        i = i + 1;
    }
    proof {
        assert(mv.map_values(|m: (Seq<char>, int, Seq<char>)| match_json_spec(m)).take(i as int)
            =~= mv.map_values(|m: (Seq<char>, int, Seq<char>)| match_json_spec(m)));
    }
    let arr = json_array(&items);
    let mut m: Vec<(String, String)> = Vec::new();
    m.push(("action".to_owned(), json_string("searched")));
    m.push(("matches".to_owned(), arr));
    m.push(("ok".to_owned(), json_bool(true)));
    proof {
        assert(member_views(m@) =~= seq![
            ("action"@, json_string_spec("searched"@)),
            (
                "matches"@,
                json_array_spec(
                    mv.map_values(|m: (Seq<char>, int, Seq<char>)| match_json_spec(m)),
                ),
            ),
            ("ok"@, json_bool_spec(true)),
        ]);
    }
    json_object(&m)
}

/// The hits among `lines`: each line whose text (lower-cased unless the
/// search is case sensitive) holds `needle`, with its 1-based number and
/// its trimmed text.
pub open spec fn note_matches(
    path: Seq<char>,
    lines: Seq<Seq<char>>,
    needle: Seq<char>,
    case_sensitive: bool,
) -> Seq<(Seq<char>, int, Seq<char>)>
    decreases lines.len(),
{
    if lines.len() == 0 {
        Seq::empty()
    } else {
        let prev = note_matches(path, lines.drop_last(), needle, case_sensitive);
        let l = lines.last();
        let hay = if case_sensitive {
            l
        } else {
            crate::text::lowercase(l)
        };
        if contains_seq(hay, needle) {
            prev.push((path, lines.len() as int, trim(l)))
        } else {
            prev
        }
    }
}

/// What `find_in_note` gives.
pub open spec fn find_in_note_spec(
    path: Seq<char>,
    content: Seq<char>,
    query: Seq<char>,
    case_sensitive: bool,
) -> Seq<(Seq<char>, int, Seq<char>)> {
    let needle = if case_sensitive {
        query
    } else {
        crate::text::lowercase(query)
    };
    note_matches(path, lines_spec(content), needle, case_sensitive)
}

/// What a line is searched in: the line itself, or its lower-case form
/// for a case-insensitive search.
pub open spec fn search_hay(line: Seq<char>, case_sensitive: bool) -> Seq<char> {
    if case_sensitive {
        line
    } else {
        crate::text::lowercase(line)
    }
}

proof fn lemma_note_matches_shape(
    path: Seq<char>,
    lines: Seq<Seq<char>>,
    needle: Seq<char>,
    case_sensitive: bool,
)
    ensures
        ({
            let r = note_matches(path, lines, needle, case_sensitive);
            &&& forall|k: int| 0 <= k < r.len() ==> {
                let n = (#[trigger] r[k]).1;
                &&& r[k].0 == path
                &&& 1 <= n <= lines.len()
                &&& r[k].2 == trim(lines[n - 1])
                &&& contains_seq(search_hay(lines[n - 1], case_sensitive), needle)
            }
            &&& forall|i: int| 0 <= i < lines.len() && contains_seq(
                search_hay(#[trigger] lines[i], case_sensitive),
                needle,
            ) ==> exists|k: int| 0 <= k < r.len() && (#[trigger] r[k]).1 == i + 1
            &&& forall|k1: int, k2: int| 0 <= k1 < k2 < r.len() ==> (#[trigger] r[k1]).1 < (
            #[trigger] r[k2]).1
        }),
    decreases lines.len(),
{
    if lines.len() > 0 {
        let d = lines.drop_last();
        lemma_note_matches_shape(path, d, needle, case_sensitive);
        let prev = note_matches(path, d, needle, case_sensitive);
        let r = note_matches(path, lines, needle, case_sensitive);
        assert forall|k: int| 0 <= k < prev.len() implies #[trigger] r[k] == prev[k] by {}
        assert forall|k: int| 0 <= k < r.len() implies {
            let n = (#[trigger] r[k]).1;
            &&& r[k].0 == path
            &&& 1 <= n <= lines.len()
            &&& r[k].2 == trim(lines[n - 1])
            &&& contains_seq(search_hay(lines[n - 1], case_sensitive), needle)
        } by {
            if k < prev.len() {
                assert(r[k] == prev[k]);
                assert(lines[prev[k].1 - 1] == d[prev[k].1 - 1]);
            }
        }
        assert forall|i: int| 0 <= i < lines.len() && contains_seq(
            search_hay(#[trigger] lines[i], case_sensitive),
            needle,
        ) implies exists|k: int| 0 <= k < r.len() && (#[trigger] r[k]).1 == i + 1 by {
            if i < d.len() {
                assert(lines[i] == d[i]);
                let k = choose|k: int| 0 <= k < prev.len() && (#[trigger] prev[k]).1 == i + 1;
                assert(r[k] == prev[k]);
            } else {
                assert(r[r.len() - 1].1 == i + 1);
            }
        }
        assert forall|k1: int, k2: int| 0 <= k1 < k2 < r.len() implies (#[trigger] r[k1]).1 < (
        #[trigger] r[k2]).1 by {
            assert(r[k1] == prev[k1]);
            if k2 < prev.len() {
                assert(r[k2] == prev[k2]);
            } else {
                assert(prev[k1].1 <= d.len());
            }
        }
    }
}

/// Law: search reports, for each line of the note, whether it holds the
/// query, and nothing else. Every hit names the note, a line number within
/// it and that line's trimmed text, and that line holds the query; for a
/// case-insensitive search, the line's lower-case form holds the query's
/// lower-case form. Every line that holds the query in this sense is
/// reported, and hits come in line order.
pub proof fn law_search_reports_matching_lines(
    path: Seq<char>,
    content: Seq<char>,
    query: Seq<char>,
    case_sensitive: bool,
)
    ensures
        ({
            let lines = lines_spec(content);
            let r = find_in_note_spec(path, content, query, case_sensitive);
            let holds = |line: Seq<char>|
                if case_sensitive {
                    contains_seq(line, query)
                } else {
                    contains_seq(crate::text::lowercase(line), crate::text::lowercase(query))
                };
            &&& forall|k: int| 0 <= k < r.len() ==> {
                let n = (#[trigger] r[k]).1;
                &&& r[k].0 == path
                &&& 1 <= n <= lines.len()
                &&& r[k].2 == trim(lines[n - 1])
                &&& holds(lines[n - 1])
            }
            &&& forall|i: int| 0 <= i < lines.len() && holds(#[trigger] lines[i]) ==> exists|k: int|
                0 <= k < r.len() && (#[trigger] r[k]).1 == i + 1
            &&& forall|k1: int, k2: int| 0 <= k1 < k2 < r.len() ==> (#[trigger] r[k1]).1 < (
            #[trigger] r[k2]).1
        }),
{
    let needle = if case_sensitive {
        query
    } else {
        crate::text::lowercase(query)
    };
    lemma_note_matches_shape(path, lines_spec(content), needle, case_sensitive);
}

/// The abstract value of a list of hits.
pub open spec fn match_views(v: Seq<SearchMatch>) -> Seq<(Seq<char>, int, Seq<char>)> {
    v.map_values(|m: SearchMatch| m@)
}

/// The lines of a note that hold the query, in order.
pub fn find_in_note(path: &str, content: &str, query: &str, case_sensitive: bool) -> (r: Vec<
    SearchMatch,
>)
    ensures
        match_views(r@) == find_in_note_spec(path@, content@, query@, case_sensitive),
{
    let needle: Vec<char> = if case_sensitive {
        chars_of(query)
    } else {
        chars_of(crate::text::to_lowercase(query).as_str())
    };
    let lines = lines_of(&chars_of(content));
    let ghost lv = views(lines@);
    let mut out: Vec<SearchMatch> = Vec::new();
    let mut i: usize = 0;
    proof {
        assert(lv.take(0) =~= Seq::<Seq<char>>::empty());
        assert(match_views(out@) =~= Seq::<(Seq<char>, int, Seq<char>)>::empty());
    }
    while i < lines.len()
        invariant
            i <= lines@.len(),
            lv == views(lines@),
            match_views(out@) == note_matches(path@, lv.take(i as int), needle@, case_sensitive),
        decreases lines@.len() - i,
    {
        proof {
            assert(lv.take(i + 1).drop_last() =~= lv.take(i as int));
            assert(lv.take(i + 1).last() == lines@[i as int]@);
            assert(lv.take(i + 1).len() == i + 1);
        }
        let line_text = string_of(&lines[i]);
        let hay: Vec<char> = if case_sensitive {
            chars_of(line_text.as_str())
        } else {
            chars_of(crate::text::to_lowercase(line_text.as_str()).as_str())
        };
        if crate::text::contains_exec(&hay, &needle) {
            let ghost before = match_views(out@);
            out.push(
                SearchMatch {
                    path: path.to_owned(),
                    line: i + 1,
                    snippet: string_of(&trim_chars(&lines[i])),
                },
            );
            proof {
                assert(match_views(out@) =~= before.push((path@, i + 1, trim(lv[i as int]))));
            }
        }
        i = i + 1;
    }
    proof {
        assert(lv.take(lines@.len() as int) =~= lv);
    }
    out
}

/// One line of the plain search output: `path:line: snippet`.
pub open spec fn match_line(m: (Seq<char>, int, Seq<char>)) -> Seq<char> {
    m.0 + seq![':'] + crate::text::decimal(m.1 as nat) + seq![':', ' '] + m.2
}

/// The lines of the plain search output.
pub open spec fn match_lines(ms: Seq<(Seq<char>, int, Seq<char>)>) -> Seq<Seq<char>>
    decreases ms.len(),
{
    if ms.len() == 0 {
        Seq::empty()
    } else {
        match_lines(ms.drop_last()).push(match_line(ms.last()))
    }
}

/// The plain search output: one `path:line: snippet` line per hit.
pub fn format_search_matches(matches: &Vec<SearchMatch>) -> (r: String)
    ensures
        r@ == crate::text::join(match_lines(match_views(matches@)), seq!['\n']),
{
    let ghost mv = match_views(matches@);
    let mut lines: Vec<Vec<char>> = Vec::new();
    let mut i: usize = 0;
    proof {
        assert(mv.take(0) =~= Seq::<(Seq<char>, int, Seq<char>)>::empty());
        assert(views(lines@) =~= Seq::<Seq<char>>::empty());
    }
    while i < matches.len()
        invariant
            i <= matches@.len(),
            mv == match_views(matches@),
            views(lines@) == match_lines(mv.take(i as int)),
        decreases matches@.len() - i,
    {
        proof {
            assert(mv.take(i + 1).drop_last() =~= mv.take(i as int));
            assert(mv.take(i + 1).last() == matches@[i as int]@);
        }
        let m = &matches[i];
        let mut l = chars_of(m.path.as_str());
        l.push(':');
        crate::text::push_decimal(&mut l, m.line as u64);
        l.push(':');
        l.push(' ');
        extend_str(&mut l, m.snippet.as_str());
        let ghost before = views(lines@);
        proof {
            assert(mv[i as int] == m@);
            assert(l@ =~= match_line(m@));
        }
        lines.push(l);
        proof {
            assert(views(lines@) =~= before.push(match_line(mv[i as int])));
        }
        i = i + 1;
    }
    proof {
        assert(mv.take(matches@.len() as int) =~= mv);
    }
    let mut nl: Vec<char> = Vec::new();
    nl.push('\n');
    string_of(&crate::text::join_chars(&lines, &nl))
}

/// Paths that search never enters or reads: anything with an `.obsidian`
/// segment, and everything under `Attachments/`.
pub open spec fn skip_search_path_spec(path: Seq<char>) -> bool {
    split_char(path, '/').contains(".obsidian"@) || starts_with(path, "Attachments/"@)
}

/// Whether search passes over a path.
pub fn should_skip_search_path(path: &str) -> (r: bool)
    ensures
        r == skip_search_path_spec(path@),
{
    let p = chars_of(path);
    let parts = split_chars(&p, '/');
    let ghost pv = views(parts@);
    let mut i: usize = 0;
    while i < parts.len()
        invariant
            i <= parts@.len(),
            pv == views(parts@),
            pv == split_char(p@, '/'),
            p@ == path@,
            forall|j: int| 0 <= j < i ==> pv[j] != ".obsidian"@,
        decreases parts@.len() - i,
    {
        if chars_eq_str(&parts[i], ".obsidian") {
            proof {
                assert(pv[i as int] == ".obsidian"@);
                assert(pv.contains(".obsidian"@));
            }
            return true;
        }
        i = i + 1;
    }
    proof {
        assert(!pv.contains(".obsidian"@));
    }
    starts_with_exec(&p, &chars_of("Attachments/"))
}

/// Law: the lines of text written as lines joined by `\n` are those lines,
/// for lines without `\n` or `\r` whose last one is not empty; and no line
/// of any text holds a `\n`.
pub proof fn law_lines_read_back(parts: Seq<Seq<char>>, content: Seq<char>)
    ensures
        (parts.len() > 0 && parts.last().len() > 0 && forall|i: int|
            0 <= i < parts.len() ==> !(#[trigger] parts[i]).contains('\n') && !parts[i].contains(
                '\r',
            )) ==> lines_spec(crate::text::join(parts, seq!['\n'])) == parts,
        forall|i: int|
            0 <= i < lines_spec(content).len() ==> !(#[trigger] lines_spec(content)[i]).contains(
                '\n',
            ),
{
    if parts.len() > 0 && parts.last().len() > 0 && forall|i: int|
        0 <= i < parts.len() ==> !(#[trigger] parts[i]).contains('\n') && !parts[i].contains(
            '\r',
        ) {
        crate::text::lemma_split_join(parts, '\n');
        let p = split_char(crate::text::join(parts, seq!['\n']), '\n');
        assert(p == parts);
        let body = p.take(p.len() - 1).map_values(|l: Seq<char>| crate::text::strip_cr(l));
        assert forall|i: int| 0 <= i < body.len() implies body[i] == parts[i] by {
            assert(!parts[i].contains('\r'));
            if parts[i].len() > 0 {
                assert(parts[i].contains(parts[i].last()));
            }
        }
        assert(body.push(p.last()) =~= parts);
    }
    let p = split_char(content, '\n');
    crate::text::lemma_split_char_pieces(content, '\n');
    crate::text::lemma_split_char_nonempty(content, '\n');
    let l = lines_spec(content);
    assert forall|i: int| 0 <= i < l.len() implies !(#[trigger] l[i]).contains('\n') by {
        if i < p.len() - 1 {
            let q = p[i];
            assert(!q.contains('\n'));
            if q.len() > 0 && q.last() == '\r' {
                assert(l[i] == q.drop_last());
                if l[i].contains('\n') {
                    let k = choose|k: int| 0 <= k < l[i].len() && l[i][k] == '\n';
                    assert(q[k] == '\n');
                }
            } else {
                assert(l[i] == q);
            }
        } else {
            assert(l[i] == p.last());
        }
    }
}

/// What search does with one listed entry.
#[derive(Debug, Clone, Copy, PartialEq, Eq, Structural)]
pub enum SearchStep {
    /// Pass over it.
    Skip,
    /// List it as a directory.
    Descend,
    /// Read it and look for the query.
    Read,
}

/// Search descends into directories and reads Markdown files (`.md`), both
/// outside `.obsidian` and `Attachments/`.
pub fn search_step(entry: &DavEntry) -> (r: SearchStep)
    ensures
        r == (if skip_search_path_spec(entry.path@) {
            SearchStep::Skip
        } else if entry.is_dir {
            SearchStep::Descend
        } else if !ends_with(entry.path@, ".md"@) {
            SearchStep::Skip
        } else {
            SearchStep::Read
        }),
{
    if should_skip_search_path(entry.path.as_str()) {
        return SearchStep::Skip;
    }
    if entry.is_dir {
        return SearchStep::Descend;
    }
    if !ends_with_exec(&chars_of(entry.path.as_str()), &chars_of(".md")) {
        return SearchStep::Skip;
    }
    SearchStep::Read
}

/// What search does with an entry, by its path and kind.
pub open spec fn search_step_spec(e: (Seq<char>, bool)) -> SearchStep {
    if skip_search_path_spec(e.0) {
        SearchStep::Skip
    } else if e.1 {
        SearchStep::Descend
    } else if !ends_with(e.0, ".md"@) {
        SearchStep::Skip
    } else {
        SearchStep::Read
    }
}

/// The paths of the listed entries that search descends into, in order.
pub open spec fn descended_paths(entries: Seq<(Seq<char>, bool)>) -> Seq<Seq<char>>
    decreases entries.len(),
{
    if entries.len() == 0 {
        Seq::empty()
    } else {
        let prev = descended_paths(entries.drop_last());
        if search_step_spec(entries.last()) == SearchStep::Descend {
            prev.push(entries.last().0)
        } else {
            prev
        }
    }
}

/// The paths of the listed entries that search reads, in order.
pub open spec fn read_paths(entries: Seq<(Seq<char>, bool)>) -> Seq<Seq<char>>
    decreases entries.len(),
{
    if entries.len() == 0 {
        Seq::empty()
    } else {
        let prev = read_paths(entries.drop_last());
        if search_step_spec(entries.last()) == SearchStep::Read {
            prev.push(entries.last().0)
        } else {
            prev
        }
    }
}

/// Law: search reads only Markdown files and descends only into
/// directories, and neither under `.obsidian` nor `Attachments/`.
pub proof fn law_search_reads_only_markdown(entries: Seq<(Seq<char>, bool)>)
    ensures
        forall|i: int| 0 <= i < read_paths(entries).len() ==> ends_with(
            #[trigger] read_paths(entries)[i],
            ".md"@,
        ) && !skip_search_path_spec(read_paths(entries)[i]),
        forall|i: int| 0 <= i < descended_paths(entries).len() ==> !skip_search_path_spec(
            #[trigger] descended_paths(entries)[i],
        ),
    decreases entries.len(),
{
    if entries.len() > 0 {
        law_search_reads_only_markdown(entries.drop_last());
        let r = read_paths(entries);
        let rp = read_paths(entries.drop_last());
        assert forall|i: int| 0 <= i < r.len() implies ends_with(#[trigger] r[i], ".md"@)
            && !skip_search_path_spec(r[i]) by {
            if i < rp.len() {
                assert(r[i] == rp[i]);
            }
        }
        let d = descended_paths(entries);
        let dp = descended_paths(entries.drop_last());
        assert forall|i: int| 0 <= i < d.len() implies !skip_search_path_spec(#[trigger] d[i]) by {
            if i < dp.len() {
                assert(d[i] == dp[i]);
            }
        }
    }
}

/// A search between two requests: the directories still to list (the last
/// one is listed next, as from a stack) and the hits found so far.
pub struct SearchWalk {
    pending: Vec<String>,
    found: Vec<SearchMatch>,
}

impl View for SearchWalk {
    type V = (Seq<Seq<char>>, Seq<(Seq<char>, int, Seq<char>)>);

    closed spec fn view(&self) -> (Seq<Seq<char>>, Seq<(Seq<char>, int, Seq<char>)>) {
        (string_views(self.pending@), match_views(self.found@))
    }
}

impl SearchWalk {
    /// The walk from the search root: the normalized root is the one
    /// directory to list, and nothing is found yet; a root that does not
    /// normalize is refused with its path error.
    pub fn start(root: &str) -> (r: Result<SearchWalk, CommandError>)
        ensures
            match crate::pathguard::normalize_spec(root@) {
                Ok(p) => r matches Ok(w) && w@ == (seq![p], Seq::<(Seq<char>, int, Seq<char>)>::empty()),
                Err(e) => r matches Err(CommandError::Path(pe)) && pe@ == e,
            },
    {
        match crate::pathguard::normalize_vault_path(root) {
            Ok(p) => {
                let mut pending: Vec<String> = Vec::new();
                pending.push(p.into_string());
                let w = SearchWalk { pending, found: Vec::new() };
                proof {
                    assert(string_views(w.pending@) =~= seq![crate::pathguard::normalize_spec(
                        root@,
                    )->Ok_0]);
                    assert(match_views(w.found@) =~= Seq::<(Seq<char>, int, Seq<char>)>::empty());
                }
                Ok(w)
            },
            Err(e) => Err(CommandError::Path(e)),
        }
    }

    /// The next directory to list, taken off the pending ones; `None` when
    /// the walk is over.
    pub fn next_dir(&mut self) -> (r: Option<String>)
        ensures
            old(self)@.0.len() == 0 ==> r is None && final(self)@ == old(self)@,
            old(self)@.0.len() > 0 ==> (r matches Some(d) && d@ == old(self)@.0.last()
                && final(self)@ == (old(self)@.0.drop_last(), old(self)@.1)),
    {
        let r = self.pending.pop();
        proof {
            assert(string_views(self.pending@) =~= string_views(old(self).pending@).drop_last()
                || old(self).pending@.len() == 0);
        }
        r
    }

    /// Takes a directory's listing: the directories in it become pending,
    /// in listing order (so the last of them is listed next), and the
    /// Markdown files to read are returned in listing order.
    pub fn on_listing(&mut self, entries: &Vec<DavEntry>) -> (r: Vec<String>)
        ensures
            final(self)@.0 == old(self)@.0 + descended_paths(crate::webdav::entry_views(entries@)),
            final(self)@.1 == old(self)@.1,
            string_views(r@) == read_paths(crate::webdav::entry_views(entries@)),
    {
        let ghost ev = crate::webdav::entry_views(entries@);
        let ghost start = string_views(self.pending@);
        let mut reads: Vec<String> = Vec::new();
        let mut i: usize = 0;
        proof {
            assert(ev.take(0) =~= Seq::<(Seq<char>, bool)>::empty());
            assert(string_views(reads@) =~= Seq::<Seq<char>>::empty());
            assert(start + descended_paths(ev.take(0)) =~= start);
        }
        while i < entries.len()
            invariant
                i <= entries@.len(),
                ev == crate::webdav::entry_views(entries@),
                string_views(self.pending@) == start + descended_paths(ev.take(i as int)),
                match_views(self.found@) == match_views(old(self).found@),
                start == string_views(old(self).pending@),
                string_views(reads@) == read_paths(ev.take(i as int)),
            decreases entries@.len() - i,
        {
            proof {
                assert(ev.take(i + 1).drop_last() =~= ev.take(i as int));
                assert(ev.take(i + 1).last() == entries@[i as int]@);
            }
            let e = &entries[i];
            match search_step(e) {
                SearchStep::Descend => {
                    let ghost before = string_views(self.pending@);
                    self.pending.push(e.path.clone());
                    proof {
                        assert(string_views(self.pending@) =~= before.push(e.path@));
                        assert(start + descended_paths(ev.take(i + 1)) =~= (start
                            + descended_paths(ev.take(i as int))).push(e.path@));
                    }
                },
                SearchStep::Read => {
                    let ghost before = string_views(reads@);
                    reads.push(e.path.clone());
                    proof {
                        assert(string_views(reads@) =~= before.push(e.path@));
                    }
                },
                SearchStep::Skip => {},
            }
            i = i + 1;
        }
        proof {
            assert(ev.take(entries@.len() as int) =~= ev);
        }
        reads
    }

    /// Takes a read note's content: its hits are added after those found
    /// so far.
    pub fn on_content(&mut self, path: &str, content: &str, query: &str, case_sensitive: bool)
        ensures
            final(self)@.0 == old(self)@.0,
            final(self)@.1 == old(self)@.1 + find_in_note_spec(
                path@,
                content@,
                query@,
                case_sensitive,
            ),
    {
        let mut hits = find_in_note(path, content, query, case_sensitive);
        let ghost before = self.found@;
        self.found.append(&mut hits);
        proof {
            assert(match_views(self.found@) =~= match_views(before) + find_in_note_spec(
                path@,
                content@,
                query@,
                case_sensitive,
            ));
        }
    }

    /// The hits found, in the order they were found.
    pub fn into_matches(self) -> (r: Vec<SearchMatch>)
        ensures
            match_views(r@) == self@.1,
    {
        self.found
    }
}

/// The connection settings: the configured server, user and timeout, and
/// the password read from the variable that `webdav.password_env` names
/// (`None` when it is not set).
pub fn settings_from_config(config: &AppConfig, env_value: Option<String>) -> (r: Result<
    WebdavSettings,
    CommandError,
>)
    ensures
        env_value is None ==> (r matches Err(CommandError::Config(ConfigError::MissingPasswordEnv(n)))
            && n@ == config.webdav.password_env@),
        env_value matches Some(v) ==> (r matches Ok(s) && s.base_url@ == config.webdav.base_url@
            && s.username@ == config.webdav.username@ && s.password@ == v@ && s.timeout_secs
            == config.webdav.timeout),
{
    let password = match config.resolve_password(env_value) {
        Ok(p) => p,
        Err(e) => {
            return Err(CommandError::Config(e));
        },
    };
    Ok(
        WebdavSettings {
            base_url: config.webdav.base_url.clone(),
            username: config.webdav.username.clone(),
            password,
            timeout_secs: config.webdav.timeout,
        },
    )
}

/// The directory a new note goes to: `--dir`, else the configured default.
pub open spec fn note_dir_spec(args: NewArgs, config: AppConfig) -> Seq<char> {
    match args.dir {
        Some(d) => d@,
        None => config.vault.default_write_dir@,
    }
}

/// The directory a new note goes to.
pub fn note_write_dir(args: &NewArgs, config: &AppConfig) -> (r: String)
    ensures
        r@ == note_dir_spec(*args, *config),
{
    match &args.dir {
        Some(d) => d.clone(),
        None => config.vault.default_write_dir.clone(),
    }
}

/// What a new note is rendered from: the title and tags as given; the body
/// from `--body`, else from stdin; the source from `--source`, else the
/// configured default; the template from `--template`, else `basic`; the
/// default tags and layout switches from the configuration.
pub fn note_draft(args: &NewArgs, config: &AppConfig, stdin: &str, created: NoteTime) -> (r:
    NoteDraft)
    ensures
        r.title@ == args.title@,
        r.body@ == (match args.body {
            Some(b) => b@,
            None => stdin@,
        }),
        r.source@ == (match args.source {
            Some(v) => v@,
            None => config.markdown.default_source@,
        }),
        string_views(r.default_tags@) == string_views(config.vault.default_tags@),
        string_views(r.tags@) == string_views(args.tags@),
        r.template@ == (match args.template {
            Some(t) => t@,
            None => "basic"@,
        }),
        r.created == created,
        r.frontmatter == config.markdown.frontmatter,
        r.heading_title == config.markdown.heading_title,
        r.add_created_time == config.markdown.add_created_time,
        r.add_source == config.markdown.add_source,
{
    let body = match &args.body {
        Some(b) => b.clone(),
        None => stdin.to_owned(),
    };
    let source = match &args.source {
        Some(v) => v.clone(),
        None => config.markdown.default_source.clone(),
    };
    let template = match &args.template {
        Some(t) => t.clone(),
        None => "basic".to_owned(),
    };
    NoteDraft {
        title: args.title.clone(),
        body,
        source,
        default_tags: clone_strings(&config.vault.default_tags),
        tags: clone_strings(&args.tags),
        template,
        created,
        frontmatter: config.markdown.frontmatter,
        heading_title: config.markdown.heading_title,
        add_created_time: config.markdown.add_created_time,
        add_source: config.markdown.add_source,
    }
}

/// Where the XML of a PROPPATCH comes from.
#[derive(Debug, Clone, PartialEq, Eq)]
pub enum XmlSource {
    /// Given on the command line.
    Inline(String),
    /// Read from this file.
    File(String),
}

/// The PROPPATCH body comes from `--xml`, else from the file `--xml-file`
/// names; one of them is needed.
pub fn proppatch_source(args: &ProppatchArgs) -> (r: Result<XmlSource, CommandError>)
    ensures
        args.xml matches Some(x) ==> (r matches Ok(XmlSource::Inline(y)) && y@ == x@),
        args.xml is None ==> (args.xml_file matches Some(f) ==> (r matches Ok(XmlSource::File(g))
            && g@ == f@)),
        args.xml is None && args.xml_file is None ==> (r matches Err(CommandError::InvalidArgs(m))
            && m@ == "proppatch requires --xml or --xml-file"@),
{
    match (&args.xml, &args.xml_file) {
        (Some(x), _) => Ok(XmlSource::Inline(x.clone())),
        (None, Some(f)) => Ok(XmlSource::File(f.clone())),
        (None, None) => Err(CommandError::InvalidArgs("proppatch requires --xml or --xml-file".to_owned())),
    }
}

/// What a finished command did.
#[derive(Debug, Clone, PartialEq, Eq)]
pub enum Outcome {
    ConfigWritten(String),
    Created { path: String, url: String },
    CreatedDirectory(String),
    Deleted(String),
    Moved(String, String),
    Copied(String, String),
    Proppatched(String),
    Locked { path: String, token: Option<String>, body: String },
    Unlocked(String),
}

/// The line a finished command prints.
pub open spec fn outcome_message(o: Outcome) -> Seq<char> {
    match o {
        Outcome::ConfigWritten(p) => "Config written: "@ + p@,
        Outcome::Created { path, .. } => "Created: "@ + path@,
        Outcome::CreatedDirectory(p) => "Created directory: "@ + p@,
        Outcome::Deleted(p) => "Deleted: "@ + p@,
        Outcome::Moved(a, b) => "Moved: "@ + a@ + " -> "@ + b@,
        Outcome::Copied(a, b) => "Copied: "@ + a@ + " -> "@ + b@,
        Outcome::Proppatched(p) => "Proppatched: "@ + p@,
        Outcome::Locked { path, token, .. } => match token {
            Some(t) => "Locked: "@ + path@ + "\nLock-Token: "@ + t@,
            None => "Locked: "@ + path@,
        },
        Outcome::Unlocked(p) => "Unlocked: "@ + p@,
    }
}

/// The `action` a JSON report gives for each outcome.
pub open spec fn outcome_action(o: Outcome) -> Seq<char> {
    match o {
        Outcome::ConfigWritten(_) => "config_written"@,
        Outcome::Created { .. } => "created"@,
        Outcome::CreatedDirectory(_) => "created_directory"@,
        Outcome::Deleted(_) => "deleted"@,
        Outcome::Moved(_, _) => "moved"@,
        Outcome::Copied(_, _) => "copied"@,
        Outcome::Proppatched(_) => "proppatched"@,
        Outcome::Locked { .. } => "locked"@,
        Outcome::Unlocked(_) => "unlocked"@,
    }
}

/// The members of a report that names one path.
pub open spec fn path_members(action: Seq<char>, p: Seq<char>) -> Seq<(Seq<char>, Seq<char>)> {
    seq![
        ("action"@, json_string_spec(action)),
        ("ok"@, json_bool_spec(true)),
        ("path"@, json_string_spec(p)),
    ]
}

/// The members of a report that names a source and a destination.
pub open spec fn pair_members(action: Seq<char>, s: Seq<char>, d: Seq<char>) -> Seq<
    (Seq<char>, Seq<char>),
> {
    seq![
        ("action"@, json_string_spec(action)),
        ("dest"@, json_string_spec(d)),
        ("ok"@, json_bool_spec(true)),
        ("source"@, json_string_spec(s)),
    ]
}

/// The members of the report of a created note: its path and its URL.
pub open spec fn created_members(path: Seq<char>, url: Seq<char>) -> Seq<(Seq<char>, Seq<char>)> {
    seq![
        ("action"@, json_string_spec("created"@)),
        ("ok"@, json_bool_spec(true)),
        ("path"@, json_string_spec(path)),
        ("url"@, json_string_spec(url)),
    ]
}

/// The JSON value of an optional string: the string, or `null`.
pub open spec fn json_opt_string_spec(t: Option<Seq<char>>) -> Seq<char> {
    match t {
        Some(t) => json_string_spec(t),
        None => "null"@,
    }
}

/// The members of the report of a lock: the response body, the lock token
/// (or `null`) and the path.
pub open spec fn locked_members(path: Seq<char>, token: Option<Seq<char>>, body: Seq<char>) -> Seq<
    (Seq<char>, Seq<char>),
> {
    seq![
        ("action"@, json_string_spec("locked"@)),
        ("body"@, json_string_spec(body)),
        ("lock_token"@, json_opt_string_spec(token)),
        ("ok"@, json_bool_spec(true)),
        ("path"@, json_string_spec(path)),
    ]
}

/// The JSON report of a finished command, as `serde_json` writes the object
/// of `ok` true, the `action`, and the outcome's paths (and, for a lock, its
/// token, or `null`, and the response body): keys in sorted order.
pub open spec fn outcome_json(o: Outcome) -> Seq<char> {
    json_object_spec(
        match o {
            Outcome::Created { path, url } => created_members(path@, url@),
            Outcome::Moved(s, d) => pair_members("moved"@, s@, d@),
            Outcome::Copied(s, d) => pair_members("copied"@, s@, d@),
            Outcome::Locked { path, token, body } => locked_members(
                path@,
                opt_view(token),
                body@,
            ),
            Outcome::ConfigWritten(p) => path_members("config_written"@, p@),
            Outcome::CreatedDirectory(p) => path_members("created_directory"@, p@),
            Outcome::Deleted(p) => path_members("deleted"@, p@),
            Outcome::Proppatched(p) => path_members("proppatched"@, p@),
            Outcome::Unlocked(p) => path_members("unlocked"@, p@),
        },
    )
}

/// A member whose value is a JSON string.
fn string_member(key: &str, value: &str) -> (r: (String, String))
    ensures
        r.0@ == key@,
        r.1@ == json_string_spec(value@),
{
    (key.to_owned(), json_string(value))
}

/// The `ok` member of a successful report.
fn ok_member() -> (r: (String, String))
    ensures
        r.0@ == "ok"@,
        r.1@ == json_bool_spec(true),
{
    ("ok".to_owned(), json_bool(true))
}

/// The members of a report that names one path.
fn path_report(action: &str, p: &str) -> (m: Vec<(String, String)>)
    ensures
        member_views(m@) == path_members(action@, p@),
{
    let mut m: Vec<(String, String)> = Vec::new();
    m.push(string_member("action", action));
    m.push(ok_member());
    m.push(string_member("path", p));
    proof {
        assert(member_views(m@) =~= path_members(action@, p@));
    }
    m
}

/// The members of a report that names a source and a destination.
fn pair_report(action: &str, s: &str, d: &str) -> (m: Vec<(String, String)>)
    ensures
        member_views(m@) == pair_members(action@, s@, d@),
{
    let mut m: Vec<(String, String)> = Vec::new();
    m.push(string_member("action", action));
    m.push(string_member("dest", d));
    m.push(ok_member());
    m.push(string_member("source", s));
    proof {
        assert(member_views(m@) =~= pair_members(action@, s@, d@));
    }
    m
}

/// The members of the report of a created note.
fn created_report(path: &str, url: &str) -> (m: Vec<(String, String)>)
    ensures
        member_views(m@) == created_members(path@, url@),
{
    let mut m: Vec<(String, String)> = Vec::new();
    m.push(string_member("action", "created"));
    m.push(ok_member());
    m.push(string_member("path", path));
    m.push(string_member("url", url));
    proof {
        assert(member_views(m@) =~= created_members(path@, url@));
    }
    m
}

/// The members of the report of a lock.
fn locked_report(path: &str, token: &Option<String>, body: &str) -> (m: Vec<(String, String)>)
    ensures
        member_views(m@) == locked_members(path@, opt_view(*token), body@),
{
    let mut m: Vec<(String, String)> = Vec::new();
    m.push(string_member("action", "locked"));
    m.push(string_member("body", body));
    match token {
        Some(t) => m.push(string_member("lock_token", t.as_str())),
        None => m.push(("lock_token".to_owned(), "null".to_owned())),
    }
    m.push(ok_member());
    m.push(string_member("path", path));
    proof {
        assert(member_views(m@) =~= locked_members(path@, opt_view(*token), body@));
    }
    m
}

impl Outcome {
    /// The line the command prints.
    pub fn message(&self) -> (r: String)
        ensures
            r@ == outcome_message(*self),
    {
        let mut v: Vec<char> = Vec::new();
        match self {
            Outcome::ConfigWritten(p) => {
                extend_str(&mut v, "Config written: ");
                extend_str(&mut v, p.as_str());
            },
            Outcome::Created { path, .. } => {
                extend_str(&mut v, "Created: ");
                extend_str(&mut v, path.as_str());
            },
            Outcome::CreatedDirectory(p) => {
                extend_str(&mut v, "Created directory: ");
                extend_str(&mut v, p.as_str());
            },
            Outcome::Deleted(p) => {
                extend_str(&mut v, "Deleted: ");
                extend_str(&mut v, p.as_str());
            },
            Outcome::Moved(a, b) => {
                extend_str(&mut v, "Moved: ");
                extend_str(&mut v, a.as_str());
                extend_str(&mut v, " -> ");
                extend_str(&mut v, b.as_str());
            },
            Outcome::Copied(a, b) => {
                extend_str(&mut v, "Copied: ");
                extend_str(&mut v, a.as_str());
                extend_str(&mut v, " -> ");
                extend_str(&mut v, b.as_str());
            },
            Outcome::Proppatched(p) => {
                extend_str(&mut v, "Proppatched: ");
                extend_str(&mut v, p.as_str());
            },
            Outcome::Locked { path, token, .. } => {
                extend_str(&mut v, "Locked: ");
                extend_str(&mut v, path.as_str());
                if let Some(t) = token {
                    extend_str(&mut v, "\nLock-Token: ");
                    extend_str(&mut v, t.as_str());
                }
            },
            Outcome::Unlocked(p) => {
                extend_str(&mut v, "Unlocked: ");
                extend_str(&mut v, p.as_str());
            },
        }
        string_of(&v)
    }

    /// The JSON report of the command.
    pub fn json(&self) -> (r: String)
        ensures
            r@ == outcome_json(*self),
    {
        let m = match self {
            Outcome::Created { path, url } => created_report(path.as_str(), url.as_str()),
            Outcome::Moved(s, d) => pair_report("moved", s.as_str(), d.as_str()),
            Outcome::Copied(s, d) => pair_report("copied", s.as_str(), d.as_str()),
            Outcome::Locked { path, token, body } => locked_report(
                path.as_str(),
                token,
                body.as_str(),
            ),
            Outcome::ConfigWritten(p) => path_report("config_written", p.as_str()),
            Outcome::CreatedDirectory(p) => path_report("created_directory", p.as_str()),
            Outcome::Deleted(p) => path_report("deleted", p.as_str()),
            Outcome::Proppatched(p) => path_report("proppatched", p.as_str()),
            Outcome::Unlocked(p) => path_report("unlocked", p.as_str()),
        };
        json_object(&m)
    }

    /// The `action` of the JSON report.
    pub fn action(&self) -> (r: &'static str)
        ensures
            r@ == outcome_action(*self),
    {
        match self {
            Outcome::ConfigWritten(_) => "config_written",
            Outcome::Created { .. } => "created",
            Outcome::CreatedDirectory(_) => "created_directory",
            Outcome::Deleted(_) => "deleted",
            Outcome::Moved(_, _) => "moved",
            Outcome::Copied(_, _) => "copied",
            Outcome::Proppatched(_) => "proppatched",
            Outcome::Locked { .. } => "locked",
            Outcome::Unlocked(_) => "unlocked",
        }
    }
}

} // verus!
