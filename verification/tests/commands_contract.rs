use obsidian_cli::cli::{CatMode, NewArgs, ProppatchArgs};
use obsidian_cli::commands::{
    error_json, find_in_note, format_ls, format_search_matches, listing_json, note_draft,
    note_write_dir, proppatch_source, render_cat, search_json, search_step, settings_from_config,
    should_skip_search_path, split_frontmatter, CommandError, Outcome, SearchMatch, SearchStep,
    SearchWalk, XmlSource,
};
use obsidian_cli::config::{AppConfig, ConfigError, InitConfig};
use obsidian_cli::markdown::{render_note, MarkdownError, NoteDraft};
use obsidian_cli::notetime::NoteTime;
use obsidian_cli::pathguard::PathError;
use obsidian_cli::webdav::{DavEntry, WebdavError};

fn config() -> AppConfig {
    AppConfig::from_init(InitConfig {
        url: "https://example.com/webdav/".to_string(),
        username: "hermes".to_string(),
        password_env: "OBSIDIAN_WEBDAV_PASSWORD".to_string(),
        write_dir: "Inbox/Hermes".to_string(),
    })
}

fn entry(path: &str, is_dir: bool) -> DavEntry {
    DavEntry {
        path: path.to_string(),
        is_dir,
    }
}

#[test]
fn command_errors_have_stable_json_codes() {
    let json = error_json(&CommandError::FileAlreadyExists(
        "Inbox/Hermes/test.md".into(),
    ));
    let json: serde_json::Value = serde_json::from_str(&json).unwrap();

    assert_eq!(json["ok"], false);
    assert_eq!(json["error"], "file_already_exists");
    assert!(json["message"]
        .as_str()
        .unwrap()
        .contains("Inbox/Hermes/test.md"));
}

#[test]
fn every_error_kind_has_its_code_and_message() {
    let cases: Vec<(CommandError, &str, &str)> = vec![
        (
            CommandError::Config(ConfigError::MissingPasswordEnv("PW".into())),
            "missing_password_env",
            "environment variable PW is not set",
        ),
        (
            CommandError::Config(ConfigError::AlreadyExists("c.yaml".into())),
            "config_exists",
            "config file already exists: c.yaml",
        ),
        (
            CommandError::Config(ConfigError::MissingHome),
            "config_error",
            "home directory is unavailable; pass --config explicitly",
        ),
        (
            CommandError::Path(PathError::WriteNotAllowed {
                path: "Notes/x.md".into(),
                allowed: "Inbox/Hermes".into(),
            }),
            "write_not_allowed",
            "writing to Notes/x.md is not allowed; allowed write directories: Inbox/Hermes",
        ),
        (
            CommandError::Path(PathError::InvalidEncoding),
            "invalid_path",
            "path contains invalid UTF-8 after percent decoding",
        ),
        (
            CommandError::Webdav(WebdavError::Xml("bad".into())),
            "webdav_error",
            "failed to parse WebDAV XML: bad",
        ),
        (
            CommandError::Markdown(MarkdownError::UnknownTemplate("x".into())),
            "markdown_error",
            "unknown template: x",
        ),
        (
            CommandError::InvalidArgs("nope".into()),
            "invalid_args",
            "nope",
        ),
        (
            CommandError::NotImplemented("sync".into()),
            "not_implemented",
            "command is not implemented yet: sync",
        ),
    ];
    for (error, code, message) in cases {
        assert_eq!(error.code(), code);
        assert_eq!(error.message(), message);
        let json: serde_json::Value = serde_json::from_str(&error_json(&error)).unwrap();
        assert_eq!(json["ok"], false);
        assert_eq!(json["error"], code);
        assert_eq!(json["message"], message);
    }
}

#[test]
fn cat_prints_body_frontmatter_or_everything() {
    let note = "---\ntitle: Hermes\n---\n\n# Hermes\n\nBody text\n";
    assert_eq!(render_cat(note, CatMode::Body), "# Hermes\n\nBody text\n");
    assert_eq!(render_cat(note, CatMode::Frontmatter), "title: Hermes");
    assert_eq!(render_cat(note, CatMode::Full), note);
    assert_eq!(render_cat("no frontmatter", CatMode::Frontmatter), "");
    assert_eq!(render_cat("no frontmatter", CatMode::Body), "no frontmatter");
}

#[test]
fn frontmatter_split_puts_the_note_back_together() {
    for note in [
        "---\na: 1\n---\n\n\nbody",
        "---\na: 1\n---\nbody",
        "---\na: 1\n---body",
        "---\n\n---\n",
        "---\nunterminated",
        "plain",
    ] {
        let (front, body) = split_frontmatter(note);
        match front {
            None => assert_eq!(body, note),
            Some(front) => {
                assert!(!front.contains("\n---"));
                let candidates = [
                    format!("---\n{front}\n---{body}"),
                    format!("---\n{front}\n---\n{body}"),
                    format!("---\n{front}\n---\n\n{body}"),
                ];
                assert!(candidates.iter().any(|c| c == note), "{note:?}");
            }
        }
    }
    assert_eq!(
        split_frontmatter("---\na: 1\n---\n\n\nbody"),
        (Some("a: 1".to_string()), "\nbody".to_string())
    );
}

#[test]
fn ls_lists_child_names_with_directory_slashes() {
    let entries = vec![entry("Notes/Hermes.md", false), entry("Notes/Subdir", true)];
    assert_eq!(format_ls("Notes", &entries), "Hermes.md\nSubdir/");
    assert_eq!(format_ls("/bad", &entries), "Notes/Hermes.md\nNotes/Subdir/");
    assert_eq!(format_ls("", &[entry("Notes", true)].to_vec()), "Notes/");
    assert_eq!(format_ls("Notes", &Vec::new()), "");
}

#[test]
fn search_finds_lines_and_formats_hits() {
    let hits = find_in_note(
        "Notes/Hermes.md",
        "# Hermes\n  Hermes GATEWAY connects Telegram.  \r\nnothing\n",
        "gateway",
        false,
    );
    assert_eq!(
        hits,
        vec![SearchMatch {
            path: "Notes/Hermes.md".to_string(),
            line: 2,
            snippet: "Hermes GATEWAY connects Telegram.".to_string(),
        }]
    );
    assert!(find_in_note("a.md", "GATEWAY", "gateway", true).is_empty());
    assert_eq!(
        format_search_matches(&hits),
        "Notes/Hermes.md:2: Hermes GATEWAY connects Telegram."
    );
}

#[test]
fn search_skips_obsidian_and_attachments_and_reads_only_markdown() {
    assert!(should_skip_search_path("Notes/.obsidian/x.md"));
    assert!(should_skip_search_path("Attachments/a.md"));
    assert!(!should_skip_search_path("Notes/Attachments/a.md"));
    assert_eq!(search_step(&entry("Notes/sub", true)), SearchStep::Descend);
    assert_eq!(search_step(&entry("Notes/a.md", false)), SearchStep::Read);
    assert_eq!(search_step(&entry("Notes/image.png", false)), SearchStep::Skip);
    assert_eq!(search_step(&entry(".obsidian", true)), SearchStep::Skip);
}

#[test]
fn settings_take_the_password_from_the_environment_value() {
    let c = config();
    let s = settings_from_config(&c, Some("secret".to_string())).unwrap();
    assert_eq!(s.base_url, "https://example.com/webdav/");
    assert_eq!(s.username, "hermes");
    assert_eq!(s.password, "secret");
    assert_eq!(s.timeout_secs, 30);
    let err = settings_from_config(&c, None).unwrap_err();
    assert_eq!(err.code(), "missing_password_env");
}

fn new_args() -> NewArgs {
    NewArgs {
        title: "Test".to_string(),
        body: None,
        tags: vec!["debug".to_string()],
        source: None,
        template: None,
        dir: None,
        unique: false,
        overwrite: false,
        json: false,
    }
}

#[test]
fn new_note_draft_takes_defaults_from_config_and_stdin() {
    let c = config();
    let created = NoteTime::new(1777015812, 0, "Asia/Shanghai").unwrap();
    let d = note_draft(&new_args(), &c, "from stdin", created);
    assert_eq!(d.title, "Test");
    assert_eq!(d.body, "from stdin");
    assert_eq!(d.source, "hermes");
    assert_eq!(d.template, "basic");
    assert_eq!(d.default_tags, vec!["hermes", "inbox"]);
    assert_eq!(d.tags, vec!["debug"]);
    assert_eq!(d.created.secs(), 1777015812);
    assert!(d.frontmatter && d.heading_title && d.add_created_time && d.add_source);
    assert_eq!(note_write_dir(&new_args(), &c), "Inbox/Hermes");

    let mut args = new_args();
    args.body = Some("given".to_string());
    args.source = Some("shell".to_string());
    args.template = Some("daily".to_string());
    args.dir = Some("Inbox/Hermes/sub".to_string());
    let created = NoteTime::new(0, 0, "UTC").unwrap();
    let d = note_draft(&args, &c, "ignored", created);
    assert_eq!(d.body, "given");
    assert_eq!(d.source, "shell");
    assert_eq!(d.template, "daily");
    assert_eq!(note_write_dir(&args, &c), "Inbox/Hermes/sub");
}

#[test]
fn proppatch_body_comes_from_xml_or_file() {
    let mut args = ProppatchArgs {
        path: "Inbox/Hermes/a.md".to_string(),
        xml: Some("<propertyupdate />".to_string()),
        xml_file: Some("p.xml".to_string()),
        json: false,
    };
    assert_eq!(
        proppatch_source(&args).unwrap(),
        XmlSource::Inline("<propertyupdate />".to_string())
    );
    args.xml = None;
    assert_eq!(
        proppatch_source(&args).unwrap(),
        XmlSource::File("p.xml".to_string())
    );
    args.xml_file = None;
    assert_eq!(proppatch_source(&args).unwrap_err().code(), "invalid_args");
}

#[test]
fn outcomes_print_their_lines_and_actions() {
    let cases = [
        (Outcome::ConfigWritten("c.yaml".into()), "Config written: c.yaml", "config_written"),
        (
            Outcome::Created {
                path: "Inbox/Hermes/a.md".into(),
                url: "https://example.com/webdav/Inbox/Hermes/a.md".into(),
            },
            "Created: Inbox/Hermes/a.md",
            "created",
        ),
        (
            Outcome::CreatedDirectory("Inbox/Hermes/subdir".into()),
            "Created directory: Inbox/Hermes/subdir",
            "created_directory",
        ),
        (Outcome::Deleted("Inbox/Hermes/old.md".into()), "Deleted: Inbox/Hermes/old.md", "deleted"),
        (
            Outcome::Moved("Inbox/Hermes/old.md".into(), "Inbox/Hermes/new.md".into()),
            "Moved: Inbox/Hermes/old.md -> Inbox/Hermes/new.md",
            "moved",
        ),
        (
            Outcome::Copied("Inbox/Hermes/old.md".into(), "Inbox/Hermes/new.md".into()),
            "Copied: Inbox/Hermes/old.md -> Inbox/Hermes/new.md",
            "copied",
        ),
        (Outcome::Proppatched("a".into()), "Proppatched: a", "proppatched"),
        (
            Outcome::Locked {
                path: "a".into(),
                token: Some("<t>".into()),
                body: "<ok/>".into(),
            },
            "Locked: a\nLock-Token: <t>",
            "locked",
        ),
        (
            Outcome::Locked {
                path: "a".into(),
                token: None,
                body: String::new(),
            },
            "Locked: a",
            "locked",
        ),
        (Outcome::Unlocked("a".into()), "Unlocked: a", "unlocked"),
    ];
    for (outcome, message, action) in cases {
        assert_eq!(outcome.message(), message);
        assert_eq!(outcome.action(), action);
    }
}

#[test]
fn cat_reads_back_a_rendered_note() {
    let draft = NoteDraft {
        title: "Hermes Gateway Debug".to_string(),
        body: "原始日志内容\n--- not a marker\n".to_string(),
        source: "telegram".to_string(),
        default_tags: vec!["hermes".to_string(), "inbox".to_string()],
        tags: vec!["-dash".to_string()],
        template: "troubleshooting".to_string(),
        created: NoteTime::new(1777015812, 0, "Asia/Shanghai").unwrap(),
        frontmatter: true,
        heading_title: true,
        add_created_time: true,
        add_source: true,
    };
    let note = render_note(draft).unwrap();
    assert_eq!(
        render_cat(&note, CatMode::Frontmatter),
        "title: \"Hermes Gateway Debug\"\ncreated: \"2026-04-24 15:30:12\"\nsource: \"telegram\"\nstatus: \"inbox\"\ntags:\n  - hermes\n  - inbox\n  - -dash\n  - troubleshooting"
    );
    assert!(render_cat(&note, CatMode::Body).starts_with("# Hermes Gateway Debug\n\n## 问题\n\n原始日志内容\n--- not a marker\n\n## 环境"));
}

#[test]
fn refused_write_reports_exact_error_json() {
    let error = CommandError::Path(PathError::WriteNotAllowed {
        path: "Notes/test.md".into(),
        allowed: "Inbox/Hermes".into(),
    });
    assert_eq!(
        error_json(&error),
        r#"{"error":"write_not_allowed","message":"writing to Notes/test.md is not allowed; allowed write directories: Inbox/Hermes","ok":false}"#
    );
}

#[test]
fn error_json_escapes_strings_as_serde_json_does() {
    let error = CommandError::InvalidArgs("a\"b\\c\nd\u{1}e\u{7f}/f".into());
    let json = error_json(&error);
    assert_eq!(
        json,
        "{\"error\":\"invalid_args\",\"message\":\"a\\\"b\\\\c\\nd\\u0001e\u{7f}/f\",\"ok\":false}"
    );
    let value: serde_json::Value = serde_json::from_str(&json).unwrap();
    assert_eq!(value["message"], "a\"b\\c\nd\u{1}e\u{7f}/f");
}

#[test]
fn outcomes_report_exact_json() {
    assert_eq!(
        Outcome::Created {
            path: "Inbox/Hermes/a.md".into(),
            url: "https://example.com/webdav/Inbox/Hermes/a.md".into(),
        }
        .json(),
        r#"{"action":"created","ok":true,"path":"Inbox/Hermes/a.md","url":"https://example.com/webdav/Inbox/Hermes/a.md"}"#
    );
    assert_eq!(
        Outcome::Moved("Inbox/Hermes/old.md".into(), "Inbox/Hermes/new.md".into()).json(),
        r#"{"action":"moved","dest":"Inbox/Hermes/new.md","ok":true,"source":"Inbox/Hermes/old.md"}"#
    );
    assert_eq!(
        Outcome::Locked {
            path: "a".into(),
            token: None,
            body: "<x a=\"1\"/>".into(),
        }
        .json(),
        r#"{"action":"locked","body":"<x a=\"1\"/>","lock_token":null,"ok":true,"path":"a"}"#
    );
    assert_eq!(
        Outcome::Locked {
            path: "a".into(),
            token: Some("<t>".into()),
            body: String::new(),
        }
        .json(),
        r#"{"action":"locked","body":"","lock_token":"<t>","ok":true,"path":"a"}"#
    );
    assert_eq!(
        Outcome::Deleted("Inbox/Hermes/old.md".into()).json(),
        r#"{"action":"deleted","ok":true,"path":"Inbox/Hermes/old.md"}"#
    );
}

#[test]
fn ls_and_search_report_exact_json() {
    let entries = vec![
        DavEntry { path: "Notes".into(), is_dir: true },
        DavEntry { path: "a.md".into(), is_dir: false },
    ];
    assert_eq!(
        listing_json(&entries),
        r#"{"action":"listed","entries":[{"is_dir":true,"path":"Notes"},{"is_dir":false,"path":"a.md"}],"ok":true}"#
    );
    assert_eq!(listing_json(&Vec::new()), r#"{"action":"listed","entries":[],"ok":true}"#);
    let matches = vec![SearchMatch {
        path: "Notes/a.md".into(),
        line: 120,
        snippet: "say \"hi\"".into(),
    }];
    assert_eq!(
        search_json(&matches),
        r#"{"action":"searched","matches":[{"line":120,"path":"Notes/a.md","snippet":"say \"hi\""}],"ok":true}"#
    );
}

#[test]
fn search_walk_lists_descends_and_reads_in_order() {
    let mut walk = SearchWalk::start("Notes").unwrap();
    assert_eq!(walk.next_dir().as_deref(), Some("Notes"));
    let reads = walk.on_listing(&vec![
        DavEntry { path: "Notes/a.md".into(), is_dir: false },
        DavEntry { path: "Notes/image.png".into(), is_dir: false },
        DavEntry { path: "Notes/Sub".into(), is_dir: true },
        DavEntry { path: "Notes/.obsidian".into(), is_dir: true },
        DavEntry { path: "Notes/.obsidian/x.md".into(), is_dir: false },
    ]);
    assert_eq!(reads, vec!["Notes/a.md".to_string()]);
    walk.on_content("Notes/a.md", "one\nHermes here\n", "hermes", false);
    assert_eq!(walk.next_dir().as_deref(), Some("Notes/Sub"));
    let reads = walk.on_listing(&vec![DavEntry { path: "Notes/Sub/b.md".into(), is_dir: false }]);
    assert_eq!(reads, vec!["Notes/Sub/b.md".to_string()]);
    walk.on_content("Notes/Sub/b.md", "hermes", "Hermes", true);
    walk.on_content("Notes/Sub/b.md", "  hermes again  ", "hermes", true);
    assert_eq!(walk.next_dir(), None);
    assert_eq!(
        walk.into_matches(),
        vec![
            SearchMatch { path: "Notes/a.md".into(), line: 2, snippet: "Hermes here".into() },
            SearchMatch { path: "Notes/Sub/b.md".into(), line: 1, snippet: "hermes again".into() },
        ]
    );
    assert!(matches!(SearchWalk::start("../x"), Err(CommandError::Path(_))));
}
