use obsidian_cli::notetime::{filename_timestamp, note_time_at, try_filename_timestamp, NoteTime};

#[test]
fn note_time_reads_the_instant_in_its_zone() {
    let t = NoteTime::new(1777015812, 0, "Asia/Shanghai").unwrap();
    assert_eq!(t.local(), (2026, 4, 24, 15, 30, 12));
    assert_eq!(t.render("%Y-%m-%d %H:%M:%S").unwrap(), "2026-04-24 15:30:12");
    assert_eq!(t.secs(), 1777015812);
    assert_eq!(t.nanos(), 0);
    assert_eq!(t.zone(), "Asia/Shanghai");
    assert!(NoteTime::new(0, 0, "Mars/Olympus").is_none());
}

#[test]
fn filename_timestamps() {
    let t = NoteTime::new(1777015812, 0, "Asia/Shanghai").unwrap();
    assert_eq!(filename_timestamp(&t, "%Y-%m-%d-%H%M%S"), "2026-04-24-153012");
    assert_eq!(filename_timestamp(&t, "2006-01-02-150405"), "2026-04-24-153012");
    assert_eq!(filename_timestamp(&t, "fixed"), "fixed");
    assert_eq!(filename_timestamp(&t, ""), "2026-04-24-153012");
    assert_eq!(filename_timestamp(&t, "  "), "2026-04-24-153012");
    assert_eq!(try_filename_timestamp(&t, "%Y").unwrap(), "2026");
    assert!(try_filename_timestamp(&t, "%Q").is_none());
}

#[test]
fn unknown_zone_falls_back_to_shanghai() {
    let t = note_time_at(1777015812, 0, "Nowhere/Zone").unwrap();
    assert_eq!(t.zone(), "Asia/Shanghai");
    assert_eq!(t.local(), (2026, 4, 24, 15, 30, 12));
    let u = note_time_at(1777015812, 0, "UTC").unwrap();
    assert_eq!(u.zone(), "UTC");
    assert_eq!(u.local(), (2026, 4, 24, 7, 30, 12));
}
