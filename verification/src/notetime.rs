//! The creation instant of a note, and what `chrono` renders of it.

use std::fmt::Write;

use chrono::{Datelike, Timelike};
use vstd::prelude::*;

use crate::text::{
    chars_eq_str, chars_of, padded_int, push_padded_int, string_of, trim, trim_chars,
};

verus! {

/// The local calendar fields (year, month, day, hour, minute, second) that
/// `chrono` gives for the instant `secs`/`nanos` after the Unix epoch in the
/// IANA time zone named `zone`; `None` when the zone is unknown to
/// `chrono_tz` or the instant is out of `chrono`'s range.
pub uninterp spec fn zoned_fields(secs: i64, nanos: u32, zone: Seq<char>) -> Option<
    (i32, u32, u32, u32, u32, u32),
>;

/// What `chrono` renders for the same instant with the strftime-style
/// format `fmt`; `None` also when `fmt` holds a specifier that `chrono`
/// rejects.
pub uninterp spec fn zoned_format(secs: i64, nanos: u32, zone: Seq<char>, fmt: Seq<char>) -> Option<
    Seq<char>,
>;

/// The format of the `created` line of a note.
pub open spec fn created_format() -> Seq<char> {
    "%Y-%m-%d %H:%M:%S"@
}

/// Calls `chrono_tz::Tz::from_str`, `chrono::DateTime::from_timestamp` and
/// `DateTime::with_timezone`, and reads the local fields. The result is a
/// function of the arguments, named `zoned_fields`.
#[verifier::external_body]
fn local_fields(secs: i64, nanos: u32, zone: &str) -> (r: Option<(i32, u32, u32, u32, u32, u32)>)
    ensures
        r == zoned_fields(secs, nanos, zone@),
{
    let tz: chrono_tz::Tz = zone.parse().ok()?;
    let t = chrono::DateTime::from_timestamp(secs, nanos)?.with_timezone(&tz);
    Some((t.year(), t.month(), t.day(), t.hour(), t.minute(), t.second()))
}

/// Builds the same zoned instant and renders `DateTime::format(fmt)` into a
/// `String`; `None` when the instant cannot be built or `chrono` reports a
/// formatting error. The result is a function of the arguments, named
/// `zoned_format`. As `chrono`'s source shows, the numeric specifiers of
/// `created_format` never fail, so for that format the rendering succeeds
/// exactly when the instant can be built.
#[verifier::external_body]
fn format_local(secs: i64, nanos: u32, zone: &str, fmt: &str) -> (r: Option<String>)
    ensures
        match r {
            Some(s) => zoned_format(secs, nanos, zone@, fmt@) == Some(s@),
            None => zoned_format(secs, nanos, zone@, fmt@) is None,
        },
        r is Some ==> zoned_fields(secs, nanos, zone@) is Some,
        fmt@ == created_format() && zoned_fields(secs, nanos, zone@) is Some ==> r is Some,
{
    let tz: chrono_tz::Tz = zone.parse().ok()?;
    let t = chrono::DateTime::from_timestamp(secs, nanos)?.with_timezone(&tz);
    let mut out = String::new();
    write!(out, "{}", t.format(fmt)).ok()?;
    Some(out)
}

/// An instant, as seconds and nanoseconds after the Unix epoch, together
/// with the name of the IANA time zone it is read in. `chrono` can always
/// build the zoned date-time it stands for.
pub struct NoteTime {
    secs: i64,
    nanos: u32,
    zone: String,
}

impl NoteTime {
    #[verifier::type_invariant]
    spec fn inv(self) -> bool {
        zoned_fields(self.secs, self.nanos, self.zone@) is Some
    }

    pub closed spec fn secs_of(self) -> i64 {
        self.secs
    }

    pub closed spec fn nanos_of(self) -> u32 {
        self.nanos
    }

    pub closed spec fn zone_of(self) -> Seq<char> {
        self.zone@
    }

    /// The local fields of the instant.
    pub open spec fn fields(self) -> (i32, u32, u32, u32, u32, u32) {
        zoned_fields(self.secs_of(), self.nanos_of(), self.zone_of())->0
    }

    /// The instant rendered with `fmt`, if `chrono` accepts `fmt`.
    pub open spec fn rendered(self, fmt: Seq<char>) -> Option<Seq<char>> {
        zoned_format(self.secs_of(), self.nanos_of(), self.zone_of(), fmt)
    }

    /// The note time for an instant and a zone name; `None` when `chrono`
    /// cannot build it (unknown zone, instant out of range).
    pub fn new(secs: i64, nanos: u32, zone: &str) -> (r: Option<NoteTime>)
        ensures
            r is Some <==> zoned_fields(secs, nanos, zone@) is Some,
            r matches Some(t) ==> t.secs_of() == secs && t.nanos_of() == nanos && t.zone_of()
                == zone@,
    {
        match local_fields(secs, nanos, zone) {
            Some(_) => Some(NoteTime { secs, nanos, zone: zone.to_owned() }),
            None => None,
        }
    }

    pub fn secs(&self) -> (r: i64)
        ensures
            r == self.secs_of(),
    {
        self.secs
    }

    pub fn nanos(&self) -> (r: u32)
        ensures
            r == self.nanos_of(),
    {
        self.nanos
    }

    pub fn zone(&self) -> (r: &str)
        ensures
            r@ == self.zone_of(),
    {
        self.zone.as_str()
    }

    /// The instant rendered with `fmt`, or `None` when `chrono` rejects `fmt`.
    pub fn render(&self, fmt: &str) -> (r: Option<String>)
        ensures
            match r {
                Some(s) => self.rendered(fmt@) == Some(s@),
                None => self.rendered(fmt@) is None,
            },
            fmt@ == created_format() ==> r is Some,
    {
        proof {
            use_type_invariant(self);
        }
        format_local(self.secs, self.nanos, self.zone.as_str(), fmt)
    }

    /// The local fields of the instant.
    pub fn local(&self) -> (r: (i32, u32, u32, u32, u32, u32))
        ensures
            r == self.fields(),
    {
        proof {
            use_type_invariant(self);
        }
        match local_fields(self.secs, self.nanos, self.zone.as_str()) {
            Some(f) => f,
            None => {
                proof {
                    assert(false);
                }
                (0, 0, 0, 0, 0, 0)
            },
        }
    }
}

impl Clone for NoteTime {
    fn clone(&self) -> (r: Self)
        ensures
            r.secs_of() == self.secs_of() && r.nanos_of() == self.nanos_of() && r.zone_of()
                == self.zone_of(),
    {
        proof {
            use_type_invariant(self);
        }
        NoteTime { secs: self.secs, nanos: self.nanos, zone: self.zone.clone() }
    }
}

/// The format that an old configuration spelt in Go's reference layout.
pub open spec fn effective_filename_format(configured: Seq<char>) -> Seq<char> {
    if configured == "2006-01-02-150405"@ {
        "%Y-%m-%d-%H%M%S"@
    } else {
        configured
    }
}

/// The local fields as `YYYY-MM-DD-HHMMSS`, each zero-padded.
pub open spec fn fields_stamp(f: (i32, u32, u32, u32, u32, u32)) -> Seq<char> {
    padded_int(f.0 as int, 4) + seq!['-'] + padded_int(f.1 as int, 2) + seq!['-'] + padded_int(
        f.2 as int,
        2,
    ) + seq!['-'] + padded_int(f.3 as int, 2) + padded_int(f.4 as int, 2) + padded_int(
        f.5 as int,
        2,
    )
}

/// The timestamp part of a note's file name.
pub open spec fn filename_timestamp_spec(created: NoteTime, configured: Seq<char>) -> Seq<char> {
    let f = effective_filename_format(configured);
    if f == "fixed"@ {
        "fixed"@
    } else {
        let rendered = created.rendered(f)->0;
        if trim(rendered).len() == 0 {
            fields_stamp(created.fields())
        } else {
            rendered
        }
    }
}

/// `chrono` accepts the configured file-name format (or it is `fixed`).
pub open spec fn filename_format_usable(created: NoteTime, configured: Seq<char>) -> bool {
    let f = effective_filename_format(configured);
    f == "fixed"@ || created.rendered(f) is Some
}

/// The timestamp part of a note's file name: the configured format (Go's
/// `2006-01-02-150405` read as `%Y-%m-%d-%H%M%S`), `fixed` taken literally,
/// and the zero-padded local fields when the rendering is blank.
pub fn filename_timestamp(created: &NoteTime, configured_format: &str) -> (r: String)
    requires
        filename_format_usable(*created, configured_format@),
    ensures
        r@ == filename_timestamp_spec(*created, configured_format@),
{
    let configured = chars_of(configured_format);
    let fmt: String = if chars_eq_str(&configured, "2006-01-02-150405") {
        "%Y-%m-%d-%H%M%S".to_owned()
    } else {
        configured_format.to_owned()
    };
    let f = chars_of(fmt.as_str());
    if chars_eq_str(&f, "fixed") {
        return "fixed".to_owned();
    }
    let rendered = match created.render(fmt.as_str()) {
        Some(s) => s,
        None => {
            proof {
                assert(false);
            }
            String::new()
        },
    };
    let trimmed = trim_chars(&chars_of(rendered.as_str()));
    if trimmed.len() == 0 {
        let (year, month, day, hour, minute, second) = created.local();
        let mut v: Vec<char> = Vec::new();
        push_padded_int(&mut v, year as i64, 4);
        v.push('-');
        push_padded_int(&mut v, month as i64, 2);
        v.push('-');
        push_padded_int(&mut v, day as i64, 2);
        v.push('-');
        push_padded_int(&mut v, hour as i64, 2);
        push_padded_int(&mut v, minute as i64, 2);
        push_padded_int(&mut v, second as i64, 2);
        proof {
            assert(v@ =~= fields_stamp(created.fields()));
        }
        string_of(&v)
    } else {
        rendered
    }
}

/// The file-name timestamp when `chrono` accepts the configured format,
/// `None` when it does not.
pub fn try_filename_timestamp(created: &NoteTime, configured_format: &str) -> (r: Option<String>)
    ensures
        r is Some <==> filename_format_usable(*created, configured_format@),
        r matches Some(s) ==> s@ == filename_timestamp_spec(*created, configured_format@),
{
    let configured = chars_of(configured_format);
    let fmt: String = if chars_eq_str(&configured, "2006-01-02-150405") {
        "%Y-%m-%d-%H%M%S".to_owned()
    } else {
        configured_format.to_owned()
    };
    let f = chars_of(fmt.as_str());
    if !chars_eq_str(&f, "fixed") && created.render(fmt.as_str()).is_none() {
        return None;
    }
    Some(filename_timestamp(created, configured_format))
}

/// The zone a note falls back to when the configured one is unknown.
pub open spec fn fallback_zone() -> Seq<char> {
    "Asia/Shanghai"@
}

/// The creation time of a note at the given instant: read in the
/// configured zone, or in `Asia/Shanghai` when `chrono` cannot build it
/// there; `None` when neither works.
pub fn note_time_at(secs: i64, nanos: u32, zone: &str) -> (r: Option<NoteTime>)
    ensures
        zoned_fields(secs, nanos, zone@) is Some ==> (r matches Some(t) && t.secs_of() == secs
            && t.nanos_of() == nanos && t.zone_of() == zone@),
        zoned_fields(secs, nanos, zone@) is None ==> (r is Some <==> zoned_fields(
            secs,
            nanos,
            fallback_zone(),
        ) is Some),
        zoned_fields(secs, nanos, zone@) is None ==> (r matches Some(t) ==> t.secs_of() == secs
            && t.nanos_of() == nanos && t.zone_of() == fallback_zone()),
{
    match NoteTime::new(secs, nanos, zone) {
        Some(t) => Some(t),
        None => NoteTime::new(secs, nanos, "Asia/Shanghai"),
    }
}

} // verus!
