//! Note rendering: frontmatter, templates, tags and file-name slugs.

use vstd::prelude::*;

use crate::notetime::{created_format, NoteTime};
use crate::text::{
    char_is_ascii_alnum, chars_eq_str, chars_of, extend_chars, extend_str, is_ascii_alnum,
    ascii_lower, ascii_or_cjk, contains_seq, ends_with, is_ws, occurs_at, starts_with, lemma_strip_end_shape, lemma_strip_start_shape, lowercase,
    no_ascii_upper, slice_chars, strip_end_char, string_of, string_views, strip_char, strip_chars,
    strip_start_char, to_lowercase, trim, trim_chars, trim_end, trim_start,
};

verus! {

/// Everything a note is rendered from.
#[derive(Clone)]
pub struct NoteDraft {
    pub title: String,
    pub body: String,
    pub source: String,
    pub default_tags: Vec<String>,
    pub tags: Vec<String>,
    pub template: String,
    pub created: NoteTime,
    pub frontmatter: bool,
    pub heading_title: bool,
    pub add_created_time: bool,
    pub add_source: bool,
}

/// A template name that no template answers to.
#[derive(Debug)]
pub enum MarkdownError {
    UnknownTemplate(String),
}

impl MarkdownError {
    /// The error's message.
    pub fn message(&self) -> (r: String)
        ensures
            match self {
                MarkdownError::UnknownTemplate(t) => r@ == "unknown template: "@ + t@,
            },
    {
        match self {
            MarkdownError::UnknownTemplate(t) => {
                let mut v: Vec<char> = Vec::new();
                extend_str(&mut v, "unknown template: ");
                extend_str(&mut v, t.as_str());
                string_of(&v)
            },
        }
    }
}

/// CJK ideographs, Hiragana/Katakana and Hangul syllables, which slugs keep.
pub open spec fn is_cjk(c: char) -> bool {
    let u = c as u32;
    ||| 0x4E00 <= u && u <= 0x9FFF
    ||| 0x3400 <= u && u <= 0x4DBF
    ||| 0xF900 <= u && u <= 0xFAFF
    ||| 0x3040 <= u && u <= 0x30FF
    ||| 0xAC00 <= u && u <= 0xD7AF
}

fn char_is_cjk(c: char) -> (r: bool)
    ensures
        r == is_cjk(c),
{
    let u = c as u32;
    (0x4E00 <= u && u <= 0x9FFF) || (0x3400 <= u && u <= 0x4DBF) || (0xF900 <= u && u <= 0xFAFF)
        || (0x3040 <= u && u <= 0x30FF) || (0xAC00 <= u && u <= 0xD7AF)
}

/// A character that a slug keeps as it is.
pub open spec fn is_slug_char(c: char) -> bool {
    is_ascii_alnum(c) || is_cjk(c)
}

/// Each run of other characters collapsed into one `-`.
pub open spec fn collapse_to_dashes(s: Seq<char>) -> Seq<char>
    decreases s.len(),
{
    if s.len() == 0 {
        Seq::empty()
    } else {
        let prev = collapse_to_dashes(s.drop_last());
        if is_slug_char(s.last()) {
            prev.push(s.last())
        } else if prev.len() > 0 && prev.last() == '-' {
            prev
        } else {
            prev.push('-')
        }
    }
}

/// The slug of a title: lower-cased, runs of other characters as one `-`,
/// no `-` at either end, and `note` when nothing is left.
pub open spec fn slugify_spec(title: Seq<char>) -> Seq<char> {
    let s = strip_char(collapse_to_dashes(lowercase(trim(title))), '-');
    if s.len() == 0 {
        "note"@
    } else {
        s
    }
}

/// The file-name slug of a note title.
pub fn slugify_title(title: &str) -> (r: String)
    ensures
        r@ == slugify_spec(title@),
        no_ascii_upper(r@),
{
    let trimmed = string_of(&trim_chars(&chars_of(title)));
    let lower = chars_of(to_lowercase(trimmed.as_str()).as_str());
    let mut slug: Vec<char> = Vec::new();
    let mut last_dash = false;
    let mut i: usize = 0;
    while i < lower.len()
        invariant
            i <= lower@.len(),
            slug@ == collapse_to_dashes(lower@.take(i as int)),
            last_dash == (slug@.len() > 0 && slug@.last() == '-'),
            no_ascii_upper(lower@),
            no_ascii_upper(slug@),
        decreases lower@.len() - i,
    {
        let ch = lower[i];
        proof {
            assert(lower@.take(i + 1).drop_last() =~= lower@.take(i as int));
            assert(lower@.take(i + 1).last() == ch);
        }
        if char_is_ascii_alnum(ch) || char_is_cjk(ch) {
            slug.push(ch);
            proof {
                assert(ch != '-');
            }
            last_dash = false;
        } else if !last_dash {
            slug.push('-');
            last_dash = true;
        }
        i = i + 1;
    }
    proof {
        assert(lower@.take(lower@.len() as int) =~= lower@);
    }
    let stripped = strip_chars(&slug, '-');
    proof {
        let a = lemma_strip_start_shape(slug@, '-');
        let b = lemma_strip_end_shape(strip_start_char(slug@, '-'), '-');
        assert forall|i: int| 0 <= i < stripped@.len() implies !('A' <= #[trigger] stripped@[i]
            && stripped@[i] <= 'Z') by {
            assert(stripped@[i] == slug@[a + i]);
        }
    }
    if stripped.len() == 0 {
        proof {
            reveal_strlit("note");
        }
        "note".to_owned()
    } else {
        string_of(&stripped)
    }
}


/// A slug: not empty, only slug characters and `-`, no `-` at either end
/// and never two `-` in a row.
pub open spec fn is_well_formed_slug(s: Seq<char>) -> bool {
    &&& s.len() > 0
    &&& forall|i: int| 0 <= i < s.len() ==> is_slug_char(#[trigger] s[i]) || s[i] == '-'
    &&& s[0] != '-'
    &&& s.last() != '-'
    &&& forall|i: int| 0 <= i < s.len() - 1 ==> !(#[trigger] s[i] == '-' && s[i + 1] == '-')
}

/// Only slug characters and `-`, never two `-` in a row.
pub open spec fn dash_collapsed(s: Seq<char>) -> bool {
    &&& forall|i: int| 0 <= i < s.len() ==> is_slug_char(#[trigger] s[i]) || s[i] == '-'
    &&& forall|i: int| 0 <= i < s.len() - 1 ==> !(#[trigger] s[i] == '-' && s[i + 1] == '-')
}

proof fn lemma_collapse_shape(s: Seq<char>)
    ensures
        dash_collapsed(collapse_to_dashes(s)),
    decreases s.len(),
{
    if s.len() > 0 {
        lemma_collapse_shape(s.drop_last());
        let prev = collapse_to_dashes(s.drop_last());
        let r = collapse_to_dashes(s);
        assert forall|i: int| 0 <= i < r.len() implies is_slug_char(#[trigger] r[i]) || r[i]
            == '-' by {
            if i < prev.len() {
                assert(r[i] == prev[i]);
            }
        }
        assert forall|i: int| 0 <= i < r.len() - 1 implies !(#[trigger] r[i] == '-' && r[i + 1]
            == '-') by {
            if i + 1 < prev.len() {
                assert(r[i] == prev[i] && r[i + 1] == prev[i + 1]);
            } else if i + 1 == prev.len() && r.len() > prev.len() {
                assert(r[i] == prev.last());
            }
        }
    }
}

/// Law: every slug is well formed, whatever the title.
pub proof fn law_slug_is_well_formed(title: Seq<char>)
    ensures
        is_well_formed_slug(slugify_spec(title)),
{
    let c = collapse_to_dashes(lowercase(trim(title)));
    lemma_collapse_shape(lowercase(trim(title)));
    let a = lemma_strip_start_shape(c, '-');
    let t = strip_start_char(c, '-');
    let b = lemma_strip_end_shape(t, '-');
    let s = strip_char(c, '-');
    assert forall|i: int| 0 <= i < s.len() implies is_slug_char(#[trigger] s[i]) || s[i] == '-' by {
        assert(s[i] == t[i]);
        assert(t[i] == c[a + i]);
    }
    assert forall|i: int| 0 <= i < s.len() - 1 implies !(#[trigger] s[i] == '-' && s[i + 1] == '-') by {
        assert(s[i] == c[a + i]);
        assert(s[i + 1] == c[a + i + 1]);
    }
    if s.len() > 0 {
        assert(s[0] == t[0]);
    } else {
        reveal_strlit("note");
        let n = "note"@;
        assert(n.len() == 4);
        assert forall|i: int| 0 <= i < n.len() implies is_slug_char(#[trigger] n[i]) || n[i] == '-' by {
            assert(is_ascii_alnum(n[i]));
        }
    }
}


proof fn lemma_collapse_keeps_collapsed(s: Seq<char>)
    requires
        dash_collapsed(s),
        s.len() > 0 ==> s[0] != '-',
    ensures
        collapse_to_dashes(s) == s,
    decreases s.len(),
{
    if s.len() > 0 {
        let p = s.drop_last();
        assert forall|i: int| 0 <= i < p.len() implies is_slug_char(#[trigger] p[i]) || p[i]
            == '-' by {
            assert(p[i] == s[i]);
        }
        assert forall|i: int| 0 <= i < p.len() - 1 implies !(#[trigger] p[i] == '-' && p[i + 1]
            == '-') by {
            assert(p[i] == s[i] && p[i + 1] == s[i + 1]);
        }
        lemma_collapse_keeps_collapsed(p);
        if !is_slug_char(s.last()) {
            assert(s.len() >= 2);
            assert(!(s[s.len() - 2] == '-' && s[s.len() - 1] == '-'));
        }
        assert(p.push(s.last()) =~= s);
    }
}

/// Law: a slug without upper-case ASCII letters is made of characters that
/// `to_lowercase` lower-cases as ASCII, and wherever `lowercase` leaves it
/// as it is, slugifying it again gives it back.
pub proof fn law_slug_is_a_fixed_point(s: Seq<char>)
    requires
        is_well_formed_slug(s),
        no_ascii_upper(s),
    ensures
        forall|i: int| 0 <= i < s.len() ==> ascii_or_cjk(#[trigger] s[i]),
        s.map_values(|c: char| ascii_lower(c)) == s,
        lowercase(s) == s ==> slugify_spec(s) == s,
{
    assert forall|i: int| 0 <= i < s.len() implies ascii_or_cjk(#[trigger] s[i]) by {
        assert(is_slug_char(s[i]) || s[i] == '-');
    }
    assert(s.map_values(|c: char| ascii_lower(c)) =~= s);
    assert(!is_ws(s[0])) by {
        assert(is_slug_char(s[0]));
    }
    assert(!is_ws(s.last())) by {
        assert(is_slug_char(s[s.len() - 1]));
    }
    assert(trim_start(s) == s);
    assert(trim_end(s) == s);
    assert(trim(s) == s);
    lemma_collapse_keeps_collapsed(s);
    assert(strip_start_char(s, '-') == s);
    assert(strip_end_char(s, '-') == s);
    assert(strip_char(s, '-') == s);
}

/// `tag` trimmed and appended, unless it is blank or already present.
pub open spec fn push_tag_spec(tags: Seq<Seq<char>>, tag: Seq<char>) -> Seq<Seq<char>> {
    let n = trim(tag);
    if n.len() == 0 || tags.contains(n) {
        tags
    } else {
        tags.push(n)
    }
}

/// Each tag of `extra` pushed in order onto `tags`.
pub open spec fn add_tags(tags: Seq<Seq<char>>, extra: Seq<Seq<char>>) -> Seq<Seq<char>>
    decreases extra.len(),
{
    if extra.len() == 0 {
        tags
    } else {
        push_tag_spec(add_tags(tags, extra.drop_last()), extra.last())
    }
}

/// The default tags, then the extra tags, trimmed, without blanks and
/// without repeats, in order of first appearance.
pub open spec fn merge_tags_spec(default_tags: Seq<Seq<char>>, extra: Seq<Seq<char>>) -> Seq<
    Seq<char>,
> {
    add_tags(Seq::empty(), default_tags + extra)
}

fn contains_tag(tags: &Vec<String>, t: &[char]) -> (r: bool)
    ensures
        r == string_views(tags@).contains(t@),
{
    let mut i: usize = 0;
    while i < tags.len()
        invariant
            i <= tags@.len(),
            forall|j: int| 0 <= j < i ==> tags@[j]@ != t@,
        decreases tags@.len() - i,
    {
        let c = chars_of(tags[i].as_str());
        if crate::text::chars_eq(&c, t) {
            proof {
                assert(string_views(tags@)[i as int] == t@);
            }
            return true;
        }
        i = i + 1;
    }
    proof {
        assert forall|j: int| 0 <= j < string_views(tags@).len() implies string_views(tags@)[j]
            != t@ by {
            assert(string_views(tags@)[j] == tags@[j]@);
        }
    }
    false
}

/// Appends `tag`, trimmed, unless it is blank or already present.
fn push_tag(tags: &mut Vec<String>, tag: &str)
    ensures
        string_views(final(tags)@) == push_tag_spec(string_views(old(tags)@), tag@),
{
    let normalized = trim_chars(&chars_of(tag));
    if normalized.len() == 0 {
        return;
    }
    if !contains_tag(tags, &normalized) {
        let ghost before = string_views(tags@);
        tags.push(string_of(&normalized));
        proof {
            assert(string_views(tags@) =~= before.push(normalized@));
        }
    }
}

/// The default tags followed by the extra tags, trimmed, blanks dropped and
/// repeats dropped.
fn merge_tags(default_tags: &[String], extra_tags: &[String]) -> (r: Vec<String>)
    ensures
        string_views(r@) == merge_tags_spec(string_views(default_tags@), string_views(extra_tags@)),
{
    let ghost all = string_views(default_tags@) + string_views(extra_tags@);
    let mut tags: Vec<String> = Vec::new();
    let mut i: usize = 0;
    proof {
        assert(all.take(0) =~= Seq::<Seq<char>>::empty());
        assert(string_views(tags@) =~= Seq::<Seq<char>>::empty());
    }
    while i < default_tags.len()
        invariant
            i <= default_tags@.len(),
            all == string_views(default_tags@) + string_views(extra_tags@),
            string_views(tags@) == add_tags(Seq::empty(), all.take(i as int)),
        decreases default_tags@.len() - i,
    {
        proof {
            assert(all.take(i + 1).drop_last() =~= all.take(i as int));
            assert(all.take(i + 1).last() == default_tags@[i as int]@);
        }
        push_tag(&mut tags, default_tags[i].as_str());
        i = i + 1;
    }
    let mut j: usize = 0;
    while j < extra_tags.len()
        invariant
            j <= extra_tags@.len(),
            all == string_views(default_tags@) + string_views(extra_tags@),
            string_views(tags@) == add_tags(Seq::empty(), all.take((default_tags@.len() + j) as int)),
        decreases extra_tags@.len() - j,
    {
        proof {
            let k = (default_tags@.len() + j) as int;
            assert(all.take(k + 1).drop_last() =~= all.take(k));
            assert(all.take(k + 1).last() == extra_tags@[j as int]@);
        }
        push_tag(&mut tags, extra_tags[j].as_str());
        j = j + 1;
    }
    proof {
        assert(all.take((default_tags@.len() + extra_tags@.len()) as int) =~= all);
    }
    tags
}

/// The characters of `s` with every character replaced by `f` of it.
pub open spec fn flat_map_chars(s: Seq<char>, f: spec_fn(char) -> Seq<char>) -> Seq<char>
    decreases s.len(),
{
    if s.len() == 0 {
        Seq::empty()
    } else {
        flat_map_chars(s.drop_last(), f) + f(s.last())
    }
}

/// A backslash or a double quote preceded by a backslash.
pub open spec fn yaml_escape_char(c: char) -> Seq<char> {
    if c == '\\' {
        seq!['\\', '\\']
    } else if c == '"' {
        seq!['\\', '"']
    } else {
        seq![c]
    }
}

/// `s` made safe inside a double-quoted YAML scalar.
pub open spec fn yaml_quote_spec(s: Seq<char>) -> Seq<char> {
    flat_map_chars(s, |c: char| yaml_escape_char(c))
}

/// Escapes backslashes, then double quotes, with a backslash.
fn yaml_quote(input: &[char]) -> (r: Vec<char>)
    ensures
        r@ == yaml_quote_spec(input@),
{
    let mut r: Vec<char> = Vec::new();
    let mut i: usize = 0;
    while i < input.len()
        invariant
            i <= input@.len(),
            r@ == yaml_quote_spec(input@.take(i as int)),
        decreases input@.len() - i,
    {
        let c = input[i];
        proof {
            assert(input@.take(i + 1).drop_last() =~= input@.take(i as int));
            assert(input@.take(i + 1).last() == c);
        }
        let ghost before = r@;
        if c == '\\' {
            r.push('\\');
            r.push('\\');
        } else if c == '"' {
            r.push('\\');
            r.push('"');
        } else {
            r.push(c);
        }
        proof {
            assert(r@ =~= before + yaml_escape_char(c));
        }
        i = i + 1;
    }
    proof {
        assert(input@.take(input@.len() as int) =~= input@);
    }
    r
}

/// The `tags:` list items, one per line.
pub open spec fn tag_lines(tags: Seq<Seq<char>>) -> Seq<char>
    decreases tags.len(),
{
    if tags.len() == 0 {
        Seq::empty()
    } else {
        tag_lines(tags.drop_last()) + "  - "@ + tags.last() + "\n"@
    }
}

/// The note body for a template, or `None` for a template that does not
/// exist.
pub open spec fn render_template_spec(
    template: Seq<char>,
    title: Seq<char>,
    body: Seq<char>,
    heading_title: bool,
) -> Option<Seq<char>> {
    let clean = trim_end(body);
    if template.len() == 0 || template == "basic"@ {
        if heading_title {
            Some("# "@ + title + "\n\n"@ + clean + "\n"@)
        } else {
            Some(clean + "\n"@)
        }
    } else if template == "troubleshooting"@ {
        Some(
            "# "@ + title + "\n\n## 问题\n\n"@ + clean
                + "\n\n## 环境\n\n## 现象\n\n## 日志\n\n## 初步判断\n\n## 解决方案\n\n## 验证命令\n\n## 相关笔记\n"@,
        )
    } else if template == "daily"@ {
        Some("# "@ + title + "\n\n## 记录\n\n"@ + clean + "\n"@)
    } else if template == "project"@ {
        Some("# "@ + title + "\n\n## 目标\n\n"@ + clean + "\n\n## 进展\n\n## 下一步\n"@)
    } else if template == "source"@ {
        Some("# "@ + title + "\n\n## 来源\n\n"@ + clean + "\n\n## 摘要\n\n## 关键点\n"@)
    } else if template == "meeting"@ {
        Some("# "@ + title + "\n\n## 议题\n\n"@ + clean + "\n\n## 结论\n\n## 待办\n"@)
    } else {
        None
    }
}

proof fn lemma_middle_occurs(a: Seq<char>, c: Seq<char>, b: Seq<char>)
    ensures
        occurs_at(a + c + b, c, a.len() as int),
        contains_seq(a + c + b, c),
        starts_with(a + c + b, a),
{
    assert((a + c + b).subrange(a.len() as int, (a.len() + c.len()) as int) =~= c);
    assert((a + c + b).subrange(0, a.len() as int) =~= a);
}

/// The template names that exist: empty (the basic one), `basic`,
/// `troubleshooting`, `daily`, `project`, `source` and `meeting`.
pub open spec fn known_template(t: Seq<char>) -> bool {
    ||| t.len() == 0
    ||| t == "basic"@
    ||| t == "troubleshooting"@
    ||| t == "daily"@
    ||| t == "project"@
    ||| t == "source"@
    ||| t == "meeting"@
}

/// Law: every known template renders, and its text holds the body with its
/// trailing white space removed; apart from the basic template without a
/// heading, it starts with the heading `# title` and a blank line, and the
/// body comes after that heading. Any other template name renders nothing.
pub proof fn law_template_keeps_body(
    template: Seq<char>,
    title: Seq<char>,
    body: Seq<char>,
    heading_title: bool,
)
    ensures
        known_template(template) <==> render_template_spec(template, title, body, heading_title)
            is Some,
        known_template(template) ==> ({
            let r = render_template_spec(template, title, body, heading_title)->Some_0;
            let heading = "# "@ + title + "\n\n"@;
            &&& contains_seq(r, trim_end(body))
            &&& ends_with(r, "\n"@)
            &&& ((heading_title || (template.len() > 0 && template != "basic"@)) ==> (starts_with(
                r,
                heading,
            ) && exists|k: int| k >= heading.len() && occurs_at(r, trim_end(body), k)))
        }),
{
    reveal_strlit("\n");
    reveal_strlit("basic");
    reveal_strlit("troubleshooting");
    reveal_strlit("daily");
    reveal_strlit("project");
    reveal_strlit("source");
    reveal_strlit("meeting");
    let clean = trim_end(body);
    let heading = "# "@ + title + "\n\n"@;
    if known_template(template) {
        let r = render_template_spec(template, title, body, heading_title)->Some_0;
        let (a, b): (Seq<char>, Seq<char>) = if template.len() == 0 || template == "basic"@ {
            if heading_title {
                ("# "@ + title + "\n\n"@, "\n"@)
            } else {
                (Seq::empty(), "\n"@)
            }
        } else if template == "troubleshooting"@ {
            (
                "# "@ + title + "\n\n## 问题\n\n"@,
                "\n\n## 环境\n\n## 现象\n\n## 日志\n\n## 初步判断\n\n## 解决方案\n\n## 验证命令\n\n## 相关笔记\n"@,
            )
        } else if template == "daily"@ {
            ("# "@ + title + "\n\n## 记录\n\n"@, "\n"@)
        } else if template == "project"@ {
            ("# "@ + title + "\n\n## 目标\n\n"@, "\n\n## 进展\n\n## 下一步\n"@)
        } else if template == "source"@ {
            ("# "@ + title + "\n\n## 来源\n\n"@, "\n\n## 摘要\n\n## 关键点\n"@)
        } else {
            ("# "@ + title + "\n\n## 议题\n\n"@, "\n\n## 结论\n\n## 待办\n"@)
        };
        assert(r =~= a + clean + b);
        lemma_middle_occurs(a, clean, b);
        assert(b.len() >= 1 && b.last() == '\n') by {
            reveal_strlit("\n\n## 环境\n\n## 现象\n\n## 日志\n\n## 初步判断\n\n## 解决方案\n\n## 验证命令\n\n## 相关笔记\n");
            reveal_strlit("\n\n## 进展\n\n## 下一步\n");
            reveal_strlit("\n\n## 摘要\n\n## 关键点\n");
            reveal_strlit("\n\n## 结论\n\n## 待办\n");
        }
        assert(r.subrange(r.len() - 1, r.len() as int) =~= "\n"@);
        if heading_title || (template.len() > 0 && template != "basic"@) {
            assert(a.len() >= heading.len() && a.subrange(0, heading.len() as int) =~= heading) by {
                reveal_strlit("\n\n## 问题\n\n");
                reveal_strlit("\n\n## 记录\n\n");
                reveal_strlit("\n\n## 目标\n\n");
                reveal_strlit("\n\n## 来源\n\n");
                reveal_strlit("\n\n## 议题\n\n");
                reveal_strlit("\n\n");
                reveal_strlit("# ");
            }
            assert(r.subrange(0, heading.len() as int) =~= a.subrange(0, heading.len() as int));
            assert(occurs_at(r, clean, a.len() as int));
        }
    }
}

/// Law: the layout of each template. The body, with trailing white space
/// removed, goes under the template's first section; the basic template is
/// the body alone, with the `# title` heading only when asked for.
pub proof fn law_template_layouts(title: Seq<char>, body: Seq<char>, heading_title: bool)
    ensures
        ({
            let b = trim_end(body);
            let h = "# "@ + title;
            &&& render_template_spec(""@, title, body, heading_title) == render_template_spec(
                "basic"@,
                title,
                body,
                heading_title,
            )
            &&& render_template_spec("basic"@, title, body, false) == Some(b + "\n"@)
            &&& render_template_spec("basic"@, title, body, true) == Some(h + "\n\n"@ + b + "\n"@)
            &&& render_template_spec("daily"@, title, body, heading_title) == Some(
                h + "\n\n## 记录\n\n"@ + b + "\n"@,
            )
            &&& render_template_spec("project"@, title, body, heading_title) == Some(
                h + "\n\n## 目标\n\n"@ + b + "\n\n## 进展\n\n## 下一步\n"@,
            )
            &&& render_template_spec("source"@, title, body, heading_title) == Some(
                h + "\n\n## 来源\n\n"@ + b + "\n\n## 摘要\n\n## 关键点\n"@,
            )
            &&& render_template_spec("meeting"@, title, body, heading_title) == Some(
                h + "\n\n## 议题\n\n"@ + b + "\n\n## 结论\n\n## 待办\n"@,
            )
            &&& render_template_spec("troubleshooting"@, title, body, heading_title) == Some(
                h + "\n\n## 问题\n\n"@ + b
                    + "\n\n## 环境\n\n## 现象\n\n## 日志\n\n## 初步判断\n\n## 解决方案\n\n## 验证命令\n\n## 相关笔记\n"@,
            )
        }),
{
    reveal_strlit("");
    reveal_strlit("basic");
    reveal_strlit("troubleshooting");
    reveal_strlit("daily");
    reveal_strlit("project");
    reveal_strlit("source");
    reveal_strlit("meeting");
    assert(""@.len() == 0);
    assert("basic"@.len() == 5);
    assert("daily"@[0] != "basic"@[0]);
    assert("daily"@ != "basic"@ && "daily"@.len() > 0);
    assert("project"@ != "basic"@ && "project"@ != "daily"@ && "project"@.len() > 0);
    assert("source"@ != "basic"@ && "source"@ != "daily"@ && "source"@ != "project"@ && "source"@.len() > 0);
    assert("meeting"@[0] != "project"@[0]);
    assert("meeting"@ != "basic"@ && "meeting"@ != "daily"@ && "meeting"@ != "project"@ && "meeting"@ != "source"@ && "meeting"@ != "troubleshooting"@ && "meeting"@.len() > 0);
    assert("troubleshooting"@ != "basic"@ && "troubleshooting"@.len() > 0);
    assert("daily"@ != "troubleshooting"@);
    assert("project"@ != "troubleshooting"@);
    assert("source"@ != "troubleshooting"@);
}

fn trim_end_chars(v: &[char]) -> (r: Vec<char>)
    ensures
        r@ == trim_end(v@),
{
    let n = v.len();
    let mut b: usize = n;
    proof {
        assert(v@.subrange(0, n as int) =~= v@);
    }
    while b > 0 && crate::text::char_is_ws(v[b - 1])
        invariant
            b <= n == v@.len(),
            trim_end(v@) == trim_end(v@.subrange(0, b as int)),
        decreases b,
    {
        proof {
            crate::text::lemma_trim_end_step(v@, 0, b as int);
        }
        b = b - 1;
    }
    slice_chars(v, 0, b)
}

/// Renders the body part of a note with one of the built-in templates.
fn render_template(template: &[char], title: &str, body: &str, heading_title: bool) -> (r: Option<
    Vec<char>,
>)
    ensures
        match r {
            Some(v) => render_template_spec(template@, title@, body@, heading_title) == Some(v@),
            None => render_template_spec(template@, title@, body@, heading_title) is None,
        },
{
    let clean = trim_end_chars(&chars_of(body));
    let mut out: Vec<char> = Vec::new();
    if template.len() == 0 || chars_eq_str(template, "basic") {
        if heading_title {
            extend_str(&mut out, "# ");
            extend_str(&mut out, title);
            extend_str(&mut out, "\n\n");
            extend_chars(&mut out, &clean);
            extend_str(&mut out, "\n");
        } else {
            extend_chars(&mut out, &clean);
            extend_str(&mut out, "\n");
        }
    } else if chars_eq_str(template, "troubleshooting") {
        extend_str(&mut out, "# ");
        extend_str(&mut out, title);
        extend_str(&mut out, "\n\n## 问题\n\n");
        extend_chars(&mut out, &clean);
        extend_str(
            &mut out,
            "\n\n## 环境\n\n## 现象\n\n## 日志\n\n## 初步判断\n\n## 解决方案\n\n## 验证命令\n\n## 相关笔记\n",
        );
    } else if chars_eq_str(template, "daily") {
        extend_str(&mut out, "# ");
        extend_str(&mut out, title);
        extend_str(&mut out, "\n\n## 记录\n\n");
        extend_chars(&mut out, &clean);
        extend_str(&mut out, "\n");
    } else if chars_eq_str(template, "project") {
        extend_str(&mut out, "# ");
        extend_str(&mut out, title);
        extend_str(&mut out, "\n\n## 目标\n\n");
        extend_chars(&mut out, &clean);
        extend_str(&mut out, "\n\n## 进展\n\n## 下一步\n");
    } else if chars_eq_str(template, "source") {
        extend_str(&mut out, "# ");
        extend_str(&mut out, title);
        extend_str(&mut out, "\n\n## 来源\n\n");
        extend_chars(&mut out, &clean);
        extend_str(&mut out, "\n\n## 摘要\n\n## 关键点\n");
    } else if chars_eq_str(template, "meeting") {
        extend_str(&mut out, "# ");
        extend_str(&mut out, title);
        extend_str(&mut out, "\n\n## 议题\n\n");
        extend_chars(&mut out, &clean);
        extend_str(&mut out, "\n\n## 结论\n\n## 待办\n");
    } else {
        return None;
    }
    Some(out)
}

/// The YAML frontmatter block of a note with the given tags.
pub open spec fn frontmatter_spec(d: NoteDraft, tags: Seq<Seq<char>>) -> Seq<char> {
    "---\n"@ + "title: \""@ + yaml_quote_spec(d.title@) + "\"\n"@ + (if d.add_created_time {
        "created: \""@ + d.created.rendered(created_format())->0 + "\"\n"@
    } else {
        Seq::empty()
    }) + (if d.add_source {
        "source: \""@ + yaml_quote_spec(d.source@) + "\"\n"@
    } else {
        Seq::empty()
    }) + "status: \"inbox\"\n"@ + "tags:\n"@ + tag_lines(tags) + "---\n\n"@
}

/// The template name as the renderer reads it.
pub open spec fn template_key(d: NoteDraft) -> Seq<char> {
    lowercase(trim(d.template@))
}

/// The tags a note carries: the merged tags, then the template's name
/// unless the template is the basic one.
pub open spec fn note_tags(d: NoteDraft) -> Seq<Seq<char>> {
    let key = template_key(d);
    let merged = merge_tags_spec(string_views(d.default_tags@), string_views(d.tags@));
    if key != "basic"@ && key.len() > 0 {
        push_tag_spec(merged, key)
    } else {
        merged
    }
}

/// What `render_note` gives: the frontmatter (when enabled) followed by the
/// template body; the template name when no template has it.
pub open spec fn render_note_spec(d: NoteDraft) -> Result<Seq<char>, Seq<char>> {
    let front = if d.frontmatter {
        frontmatter_spec(d, note_tags(d))
    } else {
        Seq::empty()
    };
    match render_template_spec(template_key(d), d.title@, d.body@, d.heading_title) {
        None => Err(template_key(d)),
        Some(b) => Ok(front + b),
    }
}

/// The abstract value of a rendering result.
pub open spec fn render_result_view(r: Result<String, MarkdownError>) -> Result<
    Seq<char>,
    Seq<char>,
> {
    match r {
        Ok(s) => Ok(s@),
        Err(MarkdownError::UnknownTemplate(t)) => Err(t@),
    }
}

fn push_tag_lines(out: &mut Vec<char>, tags: &Vec<String>)
    ensures
        final(out)@ == old(out)@ + tag_lines(string_views(tags@)),
{
    let ghost tv = string_views(tags@);
    let mut i: usize = 0;
    proof {
        assert(tv.take(0) =~= Seq::<Seq<char>>::empty());
        assert(old(out)@ + tag_lines(tv.take(0)) =~= old(out)@);
    }
    while i < tags.len()
        invariant
            i <= tags@.len(),
            tv == string_views(tags@),
            out@ == old(out)@ + tag_lines(tv.take(i as int)),
        decreases tags@.len() - i,
    {
        proof {
            assert(tv.take(i + 1).drop_last() =~= tv.take(i as int));
            assert(tv.take(i + 1).last() == tags@[i as int]@);
        }
        extend_str(out, "  - ");
        extend_str(out, tags[i].as_str());
        extend_str(out, "\n");
        proof {
            assert(out@ =~= old(out)@ + tag_lines(tv.take(i + 1)));
        }
        i = i + 1;
    }
    proof {
        assert(tv.take(tags@.len() as int) =~= tv);
    }
}

/// Renders a note: YAML frontmatter with title, creation time, source,
/// status and the merged tags, then the body laid out by the template.
pub fn render_note(draft: NoteDraft) -> (r: Result<String, MarkdownError>)
    ensures
        render_result_view(r) == render_note_spec(draft),
{
    let template = chars_of(to_lowercase(string_of(&trim_chars(&chars_of(draft.template.as_str()))).as_str()).as_str());
    let template_str = string_of(&template);
    let mut tags = merge_tags(&draft.default_tags, &draft.tags);
    if !chars_eq_str(&template, "basic") && template.len() > 0 {
        push_tag(&mut tags, template_str.as_str());
    }
    let mut out: Vec<char> = Vec::new();
    if draft.frontmatter {
        extend_str(&mut out, "---\n");
        extend_str(&mut out, "title: \"");
        extend_chars(&mut out, &yaml_quote(&chars_of(draft.title.as_str())));
        extend_str(&mut out, "\"\n");
        if draft.add_created_time {
            let created = match draft.created.render("%Y-%m-%d %H:%M:%S") {
                Some(c) => c,
                None => {
                    proof {
                        assert(false);
                    }
                    String::new()
                },
            };
            extend_str(&mut out, "created: \"");
            extend_str(&mut out, created.as_str());
            extend_str(&mut out, "\"\n");
        }
        if draft.add_source {
            extend_str(&mut out, "source: \"");
            extend_chars(&mut out, &yaml_quote(&chars_of(draft.source.as_str())));
            extend_str(&mut out, "\"\n");
        }
        extend_str(&mut out, "status: \"inbox\"\n");
        extend_str(&mut out, "tags:\n");
        push_tag_lines(&mut out, &tags);
        extend_str(&mut out, "---\n\n");
    }
    proof {
        assert(string_views(tags@) == note_tags(draft));
        if draft.frontmatter {
            assert(out@ =~= frontmatter_spec(draft, note_tags(draft)));
        } else {
            assert(out@ =~= Seq::<char>::empty());
        }
    }
    let ghost front = out@;
    match render_template(&template, draft.title.as_str(), draft.body.as_str(), draft.heading_title) {
        Some(b) => {
            extend_chars(&mut out, &b);
            Ok(string_of(&out))
        },
        None => Err(MarkdownError::UnknownTemplate(template_str)),
    }
}


/// No tag appears twice.
pub open spec fn all_distinct(tags: Seq<Seq<char>>) -> bool {
    forall|i: int, j: int| 0 <= i < j < tags.len() ==> tags[i] != tags[j]
}

proof fn lemma_add_tags(tags: Seq<Seq<char>>, extra: Seq<Seq<char>>)
    requires
        all_distinct(tags),
        forall|i: int| 0 <= i < tags.len() ==> (#[trigger] tags[i]).len() > 0,
    ensures
        all_distinct(add_tags(tags, extra)),
        forall|i: int|
            0 <= i < add_tags(tags, extra).len() ==> (#[trigger] add_tags(tags, extra)[i]).len()
                > 0,
        forall|i: int|
            0 <= i < add_tags(tags, extra).len() ==> tags.contains(
                #[trigger] add_tags(tags, extra)[i],
            ) || exists|k: int| 0 <= k < extra.len() && trim(#[trigger] extra[k]) == add_tags(
                tags,
                extra,
            )[i],
        forall|k: int|
            0 <= k < extra.len() && trim(#[trigger] extra[k]).len() > 0 ==> add_tags(
                tags,
                extra,
            ).contains(trim(extra[k])),
        forall|i: int| 0 <= i < tags.len() ==> add_tags(tags, extra).contains(#[trigger] tags[i]),
    decreases extra.len(),
{
    if extra.len() > 0 {
        let init = extra.drop_last();
        lemma_add_tags(tags, init);
        let prev = add_tags(tags, init);
        let n = trim(extra.last());
        let r = add_tags(tags, extra);
        assert(r == push_tag_spec(prev, extra.last()));
        assert forall|i: int| 0 <= i < r.len() implies tags.contains(#[trigger] r[i]) || exists|
            k: int,
        | 0 <= k < extra.len() && trim(#[trigger] extra[k]) == r[i] by {
            if i < prev.len() {
                assert(r[i] == prev[i]);
                if !tags.contains(prev[i]) {
                    let k = choose|k: int| 0 <= k < init.len() && trim(#[trigger] init[k]) == prev[i];
                    assert(extra[k] == init[k]);
                }
            } else {
                assert(r[i] == n);
                assert(trim(extra[extra.len() - 1]) == r[i]);
            }
        }
        assert forall|k: int| 0 <= k < extra.len() && trim(#[trigger] extra[k]).len() > 0 implies r.contains(
            trim(extra[k]),
        ) by {
            if k < init.len() {
                assert(extra[k] == init[k]);
                assert(prev.contains(trim(init[k])));
                let j = choose|j: int| 0 <= j < prev.len() && prev[j] == trim(init[k]);
                assert(r[j] == prev[j]);
            } else {
                assert(extra[k] == extra.last());
                if prev.contains(n) {
                    let j = choose|j: int| 0 <= j < prev.len() && prev[j] == n;
                    assert(r[j] == prev[j]);
                } else {
                    assert(r[prev.len() as int] == n);
                }
            }
        }
        assert forall|i: int| 0 <= i < tags.len() implies r.contains(#[trigger] tags[i]) by {
            assert(prev.contains(tags[i]));
            let j = choose|j: int| 0 <= j < prev.len() && prev[j] == tags[i];
            assert(r[j] == prev[j]);
        }
    }
}

/// Law: merged tags never repeat and are never blank; each is the trimmed
/// form of an input tag, and every input tag that is not blank appears,
/// trimmed.
pub proof fn law_merged_tags(default_tags: Seq<Seq<char>>, extra: Seq<Seq<char>>)
    ensures
        all_distinct(merge_tags_spec(default_tags, extra)),
        forall|i: int|
            0 <= i < merge_tags_spec(default_tags, extra).len() ==> (#[trigger] merge_tags_spec(
                default_tags,
                extra,
            )[i]).len() > 0 && exists|k: int|
                0 <= k < (default_tags + extra).len() && trim(#[trigger] (default_tags + extra)[k])
                    == merge_tags_spec(default_tags, extra)[i],
        forall|k: int|
            0 <= k < (default_tags + extra).len() && trim(#[trigger] (default_tags + extra)[k]).len()
                > 0 ==> merge_tags_spec(default_tags, extra).contains(trim((default_tags + extra)[k])),
{
    lemma_add_tags(Seq::empty(), default_tags + extra);
}

} // verus!
