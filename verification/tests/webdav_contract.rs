use obsidian_cli::webdav::{
    base_path_of, ensure_success, entry_from_href, escape_xml, exists_outcome, lock_body,
    lock_timeout_header, mkcol_outcome, normalize_lock_token, overwrite_header,
    parse_allow_header, parse_propfind, url_for, DavEntry, WebdavError,
};

fn entry(path: &str, is_dir: bool) -> DavEntry {
    DavEntry {
        path: path.to_string(),
        is_dir,
    }
}

#[test]
fn propfind_response_lists_children_of_the_requested_directory() {
    let xml = r#"<?xml version="1.0" encoding="utf-8"?>
<d:multistatus xmlns:d="DAV:">
  <d:response><d:href>/webdav/Notes/</d:href></d:response>
  <d:response><d:href>/webdav/Notes/Hermes.md</d:href></d:response>
  <d:response><d:href>/webdav/Notes/Subdir/</d:href></d:response>
</d:multistatus>"#;
    assert_eq!(
        parse_propfind("/webdav/", xml, "Notes").unwrap(),
        vec![entry("Notes/Hermes.md", false), entry("Notes/Subdir", true)]
    );
}

#[test]
fn propfind_hrefs_may_be_full_urls_and_percent_encoded() {
    let xml = r#"<multistatus xmlns="DAV:">
  <response><href>http://host/webdav/</href></response>
  <response><href>http://host/webdav/Inbox/Hermes%20Gateway.md</href></response>
  <response><href>/webdav/%E4%B8%AD/</href></response>
</multistatus>"#;
    assert_eq!(
        parse_propfind("/webdav/", xml, "").unwrap(),
        vec![entry("Inbox/Hermes Gateway.md", false), entry("中", true)]
    );
}

#[test]
fn propfind_reports_malformed_xml() {
    let err = parse_propfind("/webdav/", "<d:multistatus><d:href>x</d:multistatus>", "")
        .unwrap_err();
    assert!(matches!(err, WebdavError::Xml(_)));
}

#[test]
fn href_entries_skip_the_listed_directory_and_the_root() {
    assert_eq!(entry_from_href("/webdav/", "/webdav/", "").unwrap(), None);
    assert_eq!(entry_from_href("/webdav/", "/webdav/Notes/", "Notes").unwrap(), None);
    assert_eq!(
        entry_from_href("/webdav/", "/webdav/Notes/a.md", "Notes").unwrap(),
        Some(entry("Notes/a.md", false))
    );
    assert_eq!(
        entry_from_href("/webdav", "/webdav/Notes/", "").unwrap(),
        Some(entry("Notes", true))
    );
    assert!(matches!(
        entry_from_href("/webdav/", "/webdav/%FF", ""),
        Err(WebdavError::Xml(m)) if m == "href is not valid UTF-8"
    ));
}

#[test]
fn urls_encode_segments_and_mark_directories() {
    assert_eq!(
        url_for("https://example.com/webdav/", "Notes/Hermes Gateway.md", false).unwrap(),
        "https://example.com/webdav/Notes/Hermes%20Gateway.md"
    );
    assert_eq!(
        url_for("https://example.com/webdav/", "Inbox/Hermes/subdir", true).unwrap(),
        "https://example.com/webdav/Inbox/Hermes/subdir/"
    );
    assert_eq!(
        url_for("https://example.com/webdav", "", true).unwrap(),
        "https://example.com/webdav/"
    );
    assert_eq!(
        url_for("https://example.com/", "中#?.md", false).unwrap(),
        "https://example.com/%E4%B8%AD%23%3F.md"
    );
    assert!(matches!(
        url_for("not a url", "a", false),
        Err(WebdavError::InvalidBaseUrl(_))
    ));
    assert!(matches!(
        url_for("https://example.com/", "../a", false),
        Err(WebdavError::InvalidPath(_))
    ));
    assert_eq!(base_path_of("https://example.com/webdav/").unwrap(), "/webdav/");
}

#[test]
fn status_outcomes() {
    assert!(ensure_success(207, "PROPFIND").is_ok());
    let err = ensure_success(404, "PROPFIND").unwrap_err();
    assert_eq!(
        err.message(),
        "WebDAV request failed with status 404 Not Found: PROPFIND"
    );
    assert!(mkcol_outcome(201).is_ok());
    assert!(mkcol_outcome(405).is_ok());
    assert!(matches!(
        mkcol_outcome(409),
        Err(WebdavError::Status { status: 409, .. })
    ));
    assert_eq!(exists_outcome(404).unwrap(), false);
    assert_eq!(exists_outcome(200).unwrap(), true);
    assert!(exists_outcome(500).is_err());
}

#[test]
fn method_headers() {
    assert_eq!(overwrite_header(true), "T");
    assert_eq!(overwrite_header(false), "F");
    assert_eq!(lock_timeout_header("INFINITE"), "Infinite");
    assert_eq!(lock_timeout_header("120"), "Second-120");
    assert_eq!(lock_timeout_header("second-30"), "second-30");
    assert_eq!(normalize_lock_token(" opaquelocktoken:123 "), "<opaquelocktoken:123>");
    assert_eq!(normalize_lock_token("<opaquelocktoken:123>"), "<opaquelocktoken:123>");
}

#[test]
fn lock_body_and_escaping() {
    assert_eq!(escape_xml("a&b<c>\"d'"), "a&amp;b&lt;c&gt;&quot;d&apos;");
    assert_eq!(
        lock_body("SHARED", Some("<me>")),
        "<?xml version=\"1.0\" encoding=\"utf-8\"?><d:lockinfo xmlns:d=\"DAV:\"><d:lockscope><d:shared/></d:lockscope><d:locktype><d:write/></d:locktype><d:owner>&lt;me&gt;</d:owner></d:lockinfo>"
    );
    assert_eq!(
        lock_body("whatever", None),
        "<?xml version=\"1.0\" encoding=\"utf-8\"?><d:lockinfo xmlns:d=\"DAV:\"><d:lockscope><d:exclusive/></d:lockscope><d:locktype><d:write/></d:locktype></d:lockinfo>"
    );
}

#[test]
fn allow_header_is_split_trimmed_and_uppercased() {
    assert_eq!(
        parse_allow_header("GET, head ,, PROPFIND"),
        vec!["GET", "HEAD", "PROPFIND"]
    );
    assert!(parse_allow_header("").is_empty());
}

#[test]
fn listing_reads_back_the_path_a_url_was_built_for() {
    for (path, as_dir) in [
        ("Inbox/Hermes Gateway/中.md", false),
        ("Inbox/Hermes/sub dir", true),
        ("a:b/c#d?e", false),
    ] {
        for base in ["https://example.com/webdav/", "https://example.com/webdav"] {
            let url = url_for(base, path, as_dir).unwrap();
            let base_path = base_path_of(base).unwrap();
            let href = &url["https://example.com".len()..];
            assert_eq!(
                entry_from_href(&base_path, href, "Inbox").unwrap(),
                Some(entry(path, as_dir)),
                "{url}"
            );
        }
    }
}

#[test]
fn invalid_base_url_carries_the_parse_error() {
    let err = base_path_of("not a url").unwrap_err();
    assert_eq!(
        err.message(),
        "invalid WebDAV base URL: relative URL without a base"
    );
    let err = url_for("not a url", "a", false).unwrap_err();
    assert_eq!(
        err.message(),
        "invalid WebDAV base URL: relative URL without a base"
    );
    let err = entry_from_href("/webdav/", "http://", "").unwrap_err();
    assert_eq!(err.message(), "invalid WebDAV base URL: empty host");
}
