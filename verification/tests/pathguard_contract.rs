use obsidian_cli::pathguard::{assert_write_allowed, normalize_vault_path, PathError};

#[test]
fn normalizes_safe_relative_paths() {
    let path = normalize_vault_path("Notes//Hermes Gateway.md").unwrap();
    assert_eq!(path.as_str(), "Notes/Hermes Gateway.md");

    let root = normalize_vault_path("").unwrap();
    assert_eq!(root.as_str(), "");
}

#[test]
fn rejects_absolute_traversal_and_encoded_traversal() {
    for raw in [
        "/Notes/Hermes.md",
        "../Notes/Hermes.md",
        "Inbox/%2e%2e/Notes/Hermes.md",
        "Inbox/%2E%2E/Notes/Hermes.md",
        "https://example.com/webdav/Notes/Hermes.md",
    ] {
        assert!(
            normalize_vault_path(raw).is_err(),
            "path should be rejected: {raw}"
        );
    }
}

#[test]
fn rejects_writes_to_protected_or_unlisted_directories() {
    let allowed = ["Inbox/Hermes".to_string()];

    for raw in [
        ".obsidian/app.json",
        "Attachments/image.png",
        "Notes/test.md",
        "Inbox/Hermes2/test.md",
    ] {
        assert!(
            assert_write_allowed(raw, &allowed).is_err(),
            "write should be rejected: {raw}"
        );
    }
}

#[test]
fn allows_writes_inside_configured_write_directories() {
    let allowed = ["Inbox/Hermes".to_string()];

    assert_eq!(
        assert_write_allowed("Inbox/Hermes/test.md", &allowed)
            .unwrap()
            .as_str(),
        "Inbox/Hermes/test.md"
    );
    assert_eq!(
        assert_write_allowed("Inbox/Hermes/subdir", &allowed)
            .unwrap()
            .as_str(),
        "Inbox/Hermes/subdir"
    );
}

#[test]
fn normalization_drops_dot_and_blank_segments_and_trims_them() {
    let path = normalize_vault_path("  ./Inbox/ Hermes /./note.md/  ").unwrap();
    assert_eq!(path.as_str(), "Inbox/Hermes/note.md");
    assert_eq!(path.into_string(), "Inbox/Hermes/note.md");
}

#[test]
fn normalization_decodes_percent_escapes() {
    let path = normalize_vault_path("Inbox/Hermes%20Gateway/%E4%B8%AD.md").unwrap();
    assert_eq!(path.as_str(), "Inbox/Hermes Gateway/中.md");
}

#[test]
fn each_path_error_variant_has_its_input() {
    assert_eq!(
        normalize_vault_path("https://x/y").unwrap_err(),
        PathError::UrlLike("https://x/y".to_string())
    );
    assert_eq!(
        normalize_vault_path(" /etc/passwd").unwrap_err(),
        PathError::Absolute("/etc/passwd".to_string())
    );
    assert_eq!(
        normalize_vault_path("\\server").unwrap_err(),
        PathError::Absolute("\\server".to_string())
    );
    assert_eq!(
        normalize_vault_path("a\\b").unwrap_err(),
        PathError::Traversal("a\\b".to_string())
    );
    assert_eq!(
        normalize_vault_path("a/../b").unwrap_err(),
        PathError::Traversal("a/../b".to_string())
    );
    assert_eq!(
        normalize_vault_path("a/%FF").unwrap_err(),
        PathError::InvalidEncoding
    );
}

#[test]
fn write_guard_errors_name_the_path() {
    let allowed = ["Inbox/Hermes".to_string(), "/Inbox/Agent/".to_string()];
    let protected = assert_write_allowed("Notes/test.md", &allowed).unwrap_err();
    assert_eq!(protected, PathError::Protected("Notes/test.md".to_string()));
    assert_eq!(
        protected.message(),
        "protected path is not writable: Notes/test.md"
    );

    let allowed = ["Inbox/Hermes".to_string(), "Inbox/Agent/".to_string()];
    let outside = assert_write_allowed("Inbox/Other/x.md", &allowed).unwrap_err();
    assert_eq!(
        outside,
        PathError::WriteNotAllowed {
            path: "Inbox/Other/x.md".to_string(),
            allowed: "Inbox/Hermes, Inbox/Agent".to_string(),
        }
    );
    assert_eq!(
        outside.message(),
        "writing to Inbox/Other/x.md is not allowed; allowed write directories: Inbox/Hermes, Inbox/Agent"
    );
}

#[test]
fn write_guard_accepts_the_write_directory_itself_and_trailing_slashes() {
    let allowed = ["Inbox/Hermes/".to_string()];
    assert_eq!(
        assert_write_allowed("Inbox/Hermes", &allowed).unwrap().as_str(),
        "Inbox/Hermes"
    );
    assert_eq!(
        assert_write_allowed("Inbox//Hermes/a/b.md", &allowed)
            .unwrap()
            .as_str(),
        "Inbox/Hermes/a/b.md"
    );
}

#[test]
fn write_guard_reports_a_write_directory_that_does_not_normalize() {
    let allowed = ["../x".to_string()];
    assert_eq!(
        assert_write_allowed("Inbox/Hermes/a.md", &allowed).unwrap_err(),
        PathError::Traversal("../x".to_string())
    );
}

#[test]
fn normalized_paths_without_percent_normalize_to_themselves() {
    for raw in ["Notes//Hermes Gateway.md", " ./a/ b /./c ", "中文/テキスト.md", ""] {
        let once = normalize_vault_path(raw).unwrap().into_string();
        let twice = normalize_vault_path(&once).unwrap().into_string();
        assert_eq!(once, twice);
    }
    let once = normalize_vault_path("a%2541").unwrap().into_string();
    assert_eq!(once, "a%41");
    assert_eq!(normalize_vault_path(&once).unwrap().as_str(), "aA");
}

#[test]
fn percent_encoded_backslash_is_refused_like_a_literal_one() {
    assert_eq!(
        normalize_vault_path("%5C").unwrap_err(),
        PathError::Traversal("%5C".to_string())
    );
    assert_eq!(
        normalize_vault_path("Inbox/..%5CNotes").unwrap_err(),
        PathError::Traversal("Inbox/..%5CNotes".to_string())
    );
    assert!(assert_write_allowed("Inbox/Hermes/a%5cb.md", &["Inbox/Hermes".to_string()]).is_err());
}
