use obsidian_cli::markdown::{render_note, slugify_title, NoteDraft};
use obsidian_cli::notetime::NoteTime;

fn shanghai(secs: i64) -> NoteTime {
    NoteTime::new(secs, 0, "Asia/Shanghai").unwrap()
}

fn draft(template: &str) -> NoteDraft {
    NoteDraft {
        title: "Hermes Gateway Debug".to_string(),
        body: "原始日志内容".to_string(),
        source: "telegram".to_string(),
        default_tags: vec!["hermes".to_string(), "inbox".to_string()],
        tags: vec!["hermes".to_string(), "debug".to_string()],
        template: template.to_string(),
        // 2026-04-24 15:30:12 in Asia/Shanghai
        created: shanghai(1777015812),
        frontmatter: true,
        heading_title: true,
        add_created_time: true,
        add_source: true,
    }
}

#[test]
fn slugifies_title_without_dropping_cjk_text() {
    assert_eq!(
        slugify_title("Hermes Telegram 流式卡顿排查"),
        "hermes-telegram-流式卡顿排查"
    );
    assert_eq!(slugify_title("  SSH: dead?  "), "ssh-dead");
}

#[test]
fn renders_troubleshooting_note_with_frontmatter_and_deduped_tags() {
    let note = render_note(draft("troubleshooting")).unwrap();

    assert!(note.contains("title: \"Hermes Gateway Debug\""));
    assert!(note.contains("created: \"2026-04-24 15:30:12\""));
    assert!(note.contains("source: \"telegram\""));
    assert!(note.contains("  - hermes\n  - inbox\n  - debug\n  - troubleshooting"));
    assert!(note.contains("## 问题\n\n原始日志内容\n"));
    assert!(note.contains("## 解决方案"));
}

#[test]
fn slug_of_punctuation_only_title_is_note() {
    assert_eq!(slugify_title("?!  ..."), "note");
    assert_eq!(slugify_title(""), "note");
    assert_eq!(slugify_title("a -- b"), "a-b");
}

#[test]
fn slug_has_no_leading_trailing_or_double_dashes() {
    for title in ["--Hello,   World!--", "  x  y  ", "日本語 テキスト 한국어"] {
        let slug = slugify_title(title);
        assert!(!slug.is_empty());
        assert!(!slug.starts_with('-'));
        assert!(!slug.ends_with('-'));
        assert!(!slug.contains("--"));
    }
    assert_eq!(
        slugify_title("日本語 テキスト 한국어"),
        "日本語-テキスト-한국어"
    );
}

#[test]
fn renders_basic_note_exactly() {
    let mut d = draft("basic");
    d.body = "hello  \n\n".to_string();
    d.tags = vec![" debug ".to_string(), "".to_string(), "inbox".to_string()];
    let note = render_note(d).unwrap();
    assert_eq!(
        note,
        "---\ntitle: \"Hermes Gateway Debug\"\ncreated: \"2026-04-24 15:30:12\"\nsource: \"telegram\"\nstatus: \"inbox\"\ntags:\n  - hermes\n  - inbox\n  - debug\n---\n\n# Hermes Gateway Debug\n\nhello\n"
    );
}

#[test]
fn renders_without_frontmatter_or_heading() {
    let mut d = draft("");
    d.frontmatter = false;
    d.heading_title = false;
    d.body = "just text".to_string();
    assert_eq!(render_note(d).unwrap(), "just text\n");
}

#[test]
fn template_name_is_trimmed_and_lowercased_and_becomes_a_tag() {
    let mut d = draft("  Daily ");
    d.add_created_time = false;
    d.add_source = false;
    d.title = "Say \"hi\" \\ bye".to_string();
    let note = render_note(d).unwrap();
    assert_eq!(
        note,
        "---\ntitle: \"Say \\\"hi\\\" \\\\ bye\"\nstatus: \"inbox\"\ntags:\n  - hermes\n  - inbox\n  - debug\n  - daily\n---\n\n# Say \"hi\" \\ bye\n\n## 记录\n\n原始日志内容\n"
    );
}

#[test]
fn unknown_template_is_an_error() {
    let err = render_note(draft("weekly")).unwrap_err();
    assert_eq!(err.message(), "unknown template: weekly");
}

#[test]
fn slugify_again_gives_the_same_slug() {
    for title in ["Hermes Gateway Debug", "  Ünïcode ÄÖ 中文 Title!! ", "---", "ＡＢＣ Ｋ", "already-a-slug"] {
        let slug = slugify_title(title);
        assert_eq!(slugify_title(&slug), slug);
        assert!(!slug.chars().any(|c| c.is_ascii_uppercase()));
    }
}
