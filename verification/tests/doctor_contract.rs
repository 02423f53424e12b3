use obsidian_cli::commands::CommandError;
use obsidian_cli::doctor::{
    check_full_permissions, check_readonly, contains_write_or_destructive_method, doctor_checks,
    doctor_json, doctor_probes, doctor_report, doctor_write_marker, DoctorProbe, missing_methods,
};
use obsidian_cli::webdav::parse_allow_header;

#[test]
fn doctor_report_lists_checks_without_write_probe() {
    let checks = doctor_checks("Inbox/Hermes", true, Some("Notes"));
    assert_eq!(
        doctor_report(&checks),
        "[OK] Config loaded\n[OK] WebDAV connected\n[OK] Root vault readable\n[OK] Inbox/Hermes exists\n[OK] Inbox/Hermes full HTTP permissions\n[OK] Write test skipped\n[OK] Notes directory readonly"
    );
}

#[test]
fn doctor_report_lists_checks_with_write_probe() {
    let checks = doctor_checks("Inbox/Hermes", false, Some("Notes"));
    assert_eq!(
        doctor_report(&checks),
        "[OK] Config loaded\n[OK] WebDAV connected\n[OK] Root vault readable\n[OK] Inbox/Hermes exists\n[OK] Inbox/Hermes full HTTP permissions\n[OK] Inbox/Hermes writable\n[OK] Notes directory readonly"
    );
    assert_eq!(doctor_checks("Inbox/Hermes", false, None).len(), 6);
    assert_eq!(doctor_report(&[]), "");
}

#[test]
fn write_directory_missing_methods_is_refused_with_the_missing_ones() {
    let allow = parse_allow_header("GET, HEAD, OPTIONS, PROPFIND, PUT, MKCOL");
    let err = check_full_permissions("Inbox/Hermes", &allow).unwrap_err();
    assert!(matches!(
        &err,
        CommandError::InvalidArgs(m)
            if m == "Inbox/Hermes lacks full HTTP permissions; missing: DELETE, MOVE, COPY, PROPPATCH, LOCK, UNLOCK"
    ));
    assert_eq!(
        missing_methods(&allow),
        vec!["DELETE", "MOVE", "COPY", "PROPPATCH", "LOCK", "UNLOCK"]
    );

    let full = parse_allow_header(
        "get, HEAD, OPTIONS, PROPFIND, PUT, MKCOL, DELETE, MOVE, COPY, PROPPATCH, LOCK, UNLOCK",
    );
    assert!(check_full_permissions("Inbox/Hermes", &full).is_ok());
    assert!(missing_methods(&full).is_empty());
    assert_eq!(missing_methods(&[]).len(), 12);
}

#[test]
fn readonly_directory_must_not_allow_writes() {
    let read = parse_allow_header("GET, HEAD, OPTIONS, PROPFIND");
    assert!(!contains_write_or_destructive_method(&read));
    assert!(check_readonly("Notes", &read).is_ok());

    let write = parse_allow_header("GET, PUT");
    assert!(contains_write_or_destructive_method(&write));
    let err = check_readonly("Notes", &write).unwrap_err();
    assert!(matches!(
        &err,
        CommandError::InvalidArgs(m) if m == "Notes is not readonly; server allows: GET, PUT"
    ));
}

#[test]
fn write_probe_is_named_after_the_time() {
    assert_eq!(
        doctor_write_marker("/Inbox/Hermes/", 1777015812),
        "Inbox/Hermes/.webdav-cli-doctor-write-1777015812.md"
    );
    assert_eq!(
        doctor_write_marker("Inbox/Hermes", -5),
        "Inbox/Hermes/.webdav-cli-doctor-write--5.md"
    );
    assert_eq!(
        doctor_write_marker("x", i64::MIN),
        "x/.webdav-cli-doctor-write--9223372036854775808.md"
    );
}

#[test]
fn doctor_json_lists_each_check_as_passed() {
    let checks = vec!["Config loaded".to_string(), "Inbox/Hermes exists".to_string()];
    assert_eq!(
        doctor_json(&checks),
        r#"{"action":"doctor","checks":[{"name":"Config loaded","ok":true},{"name":"Inbox/Hermes exists","ok":true}],"ok":true}"#
    );
}

#[test]
fn doctor_probes_in_order_and_their_checks() {
    let probes = doctor_probes("Inbox/Hermes", false, "Inbox/Hermes/.m.md", Some("Notes"));
    assert_eq!(
        probes,
        vec![
            DoctorProbe::Connect,
            DoctorProbe::List(String::new()),
            DoctorProbe::List("Inbox/Hermes".into()),
            DoctorProbe::FullPermissions("Inbox/Hermes".into()),
            DoctorProbe::WriteMarker("Inbox/Hermes/.m.md".into()),
            DoctorProbe::Readonly("Notes".into()),
        ]
    );
    let skipped = doctor_probes("Inbox/Hermes", true, "Inbox/Hermes/.m.md", None);
    assert_eq!(skipped.len(), 4);
    let allowed = vec!["Inbox/Hermes".to_string()];
    assert!(probes[4].check_before(&allowed).is_ok());
    let refused = DoctorProbe::WriteMarker("Other/x.md".into()).check_before(&allowed);
    assert_eq!(refused.unwrap_err().code(), "write_not_allowed");
    let write_allow: Vec<String> = ["GET", "PUT", "DELETE"].iter().map(|m| m.to_string()).collect();
    assert!(probes[5].check_allow(&write_allow).is_err());
    assert!(probes[0].check_allow(&write_allow).is_ok());
    let read_allow: Vec<String> = ["GET", "HEAD", "OPTIONS", "PROPFIND"].iter().map(|m| m.to_string()).collect();
    assert!(probes[5].check_allow(&read_allow).is_ok());
    assert!(probes[3].check_allow(&read_allow).is_err());
}
