//! What `doctor` checks on the server and what it reports, apart from the
//! requests it makes.

use vstd::prelude::*;

use crate::commands::CommandError;
use crate::json::{
    json_array, json_array_spec, json_bool, json_bool_spec, json_object, json_object_spec,
    json_string, json_string_spec, member_views,
};
use crate::config::trim_slashes_spec;
use crate::text::{
    chars_eq, chars_of, decimal, extend_str, join, join_strings, push_decimal, string_of,
    string_views, strip_chars, trim_chars, views,
};

verus! {

/// The methods the write directory must allow.
pub open spec fn full_methods() -> Seq<Seq<char>> {
    seq![
        "GET"@,
        "HEAD"@,
        "OPTIONS"@,
        "PROPFIND"@,
        "PUT"@,
        "MKCOL"@,
        "DELETE"@,
        "MOVE"@,
        "COPY"@,
        "PROPPATCH"@,
        "LOCK"@,
        "UNLOCK"@,
    ]
}

/// The methods that write or destroy, which a read-only directory must not
/// allow.
pub open spec fn write_methods() -> Seq<Seq<char>> {
    seq!["PUT"@, "MKCOL"@, "DELETE"@, "MOVE"@, "COPY"@, "PROPPATCH"@, "LOCK"@, "UNLOCK"@]
}

fn full_method_names() -> (r: Vec<String>)
    ensures
        string_views(r@) == full_methods(),
{
    let mut r: Vec<String> = Vec::new();
    r.push("GET".to_owned());
    r.push("HEAD".to_owned());
    r.push("OPTIONS".to_owned());
    r.push("PROPFIND".to_owned());
    r.push("PUT".to_owned());
    r.push("MKCOL".to_owned());
    r.push("DELETE".to_owned());
    r.push("MOVE".to_owned());
    r.push("COPY".to_owned());
    r.push("PROPPATCH".to_owned());
    r.push("LOCK".to_owned());
    r.push("UNLOCK".to_owned());
    proof {
        assert(string_views(r@) =~= full_methods());
    }
    r
}

fn write_method_names() -> (r: Vec<String>)
    ensures
        string_views(r@) == write_methods(),
{
    let mut r: Vec<String> = Vec::new();
    r.push("PUT".to_owned());
    r.push("MKCOL".to_owned());
    r.push("DELETE".to_owned());
    r.push("MOVE".to_owned());
    r.push("COPY".to_owned());
    r.push("PROPPATCH".to_owned());
    r.push("LOCK".to_owned());
    r.push("UNLOCK".to_owned());
    proof {
        assert(string_views(r@) =~= write_methods());
    }
    r
}

/// Whether `list` holds `s`.
fn holds(list: &[String], s: &str) -> (r: bool)
    ensures
        r == string_views(list@).contains(s@),
{
    let target = chars_of(s);
    let ghost views = string_views(list@);
    let mut i: usize = 0;
    while i < list.len()
        invariant
            i <= list@.len(),
            views == string_views(list@),
            target@ == s@,
            forall|k: int| 0 <= k < i ==> views[k] != s@,
        decreases list@.len() - i,
    {
        if chars_eq(&chars_of(list[i].as_str()), &target) {
            proof {
                assert(views[i as int] == s@);
            }
            return true;
        }
        i = i + 1;
    }
    false
}

/// The methods of `required` that `allow` lacks, in the order of
/// `required`.
pub open spec fn missing_from(required: Seq<Seq<char>>, allow: Seq<Seq<char>>) -> Seq<Seq<char>>
    decreases required.len(),
{
    if required.len() == 0 {
        Seq::empty()
    } else if allow.contains(required.last()) {
        missing_from(required.drop_last(), allow)
    } else {
        missing_from(required.drop_last(), allow).push(required.last())
    }
}

/// The methods of the full set that the server does not allow, in the
/// order of the full set.
pub fn missing_methods(allow: &[String]) -> (r: Vec<String>)
    ensures
        string_views(r@) == missing_from(full_methods(), string_views(allow@)),
{
    let required = full_method_names();
    let ghost req = string_views(required@);
    let mut r: Vec<String> = Vec::new();
    let mut i: usize = 0;
    proof {
        assert(req.take(0) =~= Seq::<Seq<char>>::empty());
        assert(string_views(r@) =~= Seq::<Seq<char>>::empty());
    }
    while i < required.len()
        invariant
            i <= required@.len(),
            req == string_views(required@),
            req == full_methods(),
            string_views(r@) == missing_from(req.take(i as int), string_views(allow@)),
        decreases required@.len() - i,
    {
        proof {
            assert(req.take(i + 1).drop_last() =~= req.take(i as int));
            assert(req.take(i + 1).last() == required@[i as int]@);
        }
        if !holds(allow, required[i].as_str()) {
            let ghost before = string_views(r@);
            r.push(required[i].clone());
            proof {
                assert(string_views(r@) =~= before.push(required@[i as int]@));
            }
        }
        i = i + 1;
    }
    proof {
        assert(req.take(required@.len() as int) =~= req);
    }
    r
}

/// The methods found missing are exactly the required ones not allowed.
proof fn lemma_missing_from(required: Seq<Seq<char>>, allow: Seq<Seq<char>>)
    ensures
        forall|m: Seq<char>|
            #[trigger] missing_from(required, allow).contains(m) <==> required.contains(m)
                && !allow.contains(m),
    decreases required.len(),
{
    if required.len() > 0 {
        let init = required.drop_last();
        let last = required.last();
        lemma_missing_from(init, allow);
        let prev = missing_from(init, allow);
        assert forall|m: Seq<char>| #[trigger] missing_from(required, allow).contains(m)
            <==> required.contains(m) && !allow.contains(m) by {
            if required.contains(m) && !allow.contains(m) {
                let i = choose|i: int| 0 <= i < required.len() && required[i] == m;
                if i < init.len() {
                    assert(init[i] == m);
                    assert(prev.contains(m));
                    if !allow.contains(last) {
                        assert(prev.push(last)[prev.len() as int] == last);
                        let j = choose|j: int| 0 <= j < prev.len() && prev[j] == m;
                        assert(prev.push(last)[j] == m);
                    }
                } else {
                    assert(m == last);
                    assert(prev.push(last)[prev.len() as int] == last);
                }
            }
            if missing_from(required, allow).contains(m) {
                let r = missing_from(required, allow);
                let j = choose|j: int| 0 <= j < r.len() && r[j] == m;
                if j < prev.len() {
                    assert(r[j] == prev[j]);
                    assert(prev.contains(m));
                    let i = choose|i: int| 0 <= i < init.len() && init[i] == m;
                    assert(required[i] == m);
                } else {
                    assert(m == last);
                    assert(required[required.len() - 1] == m);
                }
            }
        }
    }
}

/// Law: `doctor` accepts a write directory exactly when the server allows
/// it every method of the full set, and the methods it reports missing are
/// exactly those of the full set that the server does not allow.
pub proof fn law_full_permissions(allow: Seq<Seq<char>>)
    ensures
        missing_from(full_methods(), allow).len() == 0 <==> forall|i: int|
            0 <= i < full_methods().len() ==> allow.contains(#[trigger] full_methods()[i]),
        forall|m: Seq<char>|
            #[trigger] missing_from(full_methods(), allow).contains(m) <==> full_methods().contains(m)
                && !allow.contains(m),
{
    lemma_missing_from(full_methods(), allow);
    let r = missing_from(full_methods(), allow);
    if r.len() == 0 {
        assert forall|i: int| 0 <= i < full_methods().len() implies allow.contains(
            #[trigger] full_methods()[i],
        ) by {
            let m = full_methods()[i];
            assert(full_methods().contains(m));
            if !allow.contains(m) {
                assert(r.contains(m));
            }
        }
    } else {
        let m = r[0];
        assert(r.contains(m));
        let i = choose|i: int| 0 <= i < full_methods().len() && full_methods()[i] == m;
        assert(!allow.contains(full_methods()[i]));
    }
}

/// The refusal of a write directory that lacks methods.
pub open spec fn permissions_message(dir: Seq<char>, missing: Seq<Seq<char>>) -> Seq<char> {
    dir + " lacks full HTTP permissions; missing: "@ + join(missing, ", "@)
}

/// The write directory must allow every method of the full set.
pub fn check_full_permissions(dir: &str, allow: &[String]) -> (r: Result<(), CommandError>)
    ensures
        (r is Ok) == (missing_from(full_methods(), string_views(allow@)).len() == 0),
        r matches Err(e) ==> (e matches CommandError::InvalidArgs(m) && m@ == permissions_message(
            dir@,
            missing_from(full_methods(), string_views(allow@)),
        )),
{
    let missing = missing_methods(allow);
    if missing.len() == 0 {
        return Ok(());
    }
    let mut v = chars_of(dir);
    extend_str(&mut v, " lacks full HTTP permissions; missing: ");
    extend_str(&mut v, join_strings(&missing, ", ").as_str());
    Err(CommandError::InvalidArgs(string_of(&v)))
}

/// `allow` holds a method that writes or destroys.
pub open spec fn has_write_method(allow: Seq<Seq<char>>) -> bool {
    exists|i: int| 0 <= i < allow.len() && write_methods().contains(#[trigger] allow[i])
}

/// Whether the server allows a method that writes or destroys.
pub fn contains_write_or_destructive_method(allow: &[String]) -> (r: bool)
    ensures
        r == has_write_method(string_views(allow@)),
{
    let writes = write_method_names();
    let ghost views = string_views(allow@);
    let mut i: usize = 0;
    while i < allow.len()
        invariant
            i <= allow@.len(),
            views == string_views(allow@),
            string_views(writes@) == write_methods(),
            forall|k: int| 0 <= k < i ==> !write_methods().contains(#[trigger] views[k]),
        decreases allow@.len() - i,
    {
        if holds(&writes, allow[i].as_str()) {
            proof {
                assert(write_methods().contains(views[i as int]));
            }
            return true;
        }
        i = i + 1;
    }
    false
}

/// The refusal of a read-only directory that allows writes.
pub open spec fn readonly_message(dir: Seq<char>, allow: Seq<Seq<char>>) -> Seq<char> {
    dir + " is not readonly; server allows: "@ + join(allow, ", "@)
}

/// A read-only directory must not allow any method that writes or
/// destroys.
pub fn check_readonly(dir: &str, allow: &[String]) -> (r: Result<(), CommandError>)
    ensures
        (r is Ok) == !has_write_method(string_views(allow@)),
        r matches Err(e) ==> (e matches CommandError::InvalidArgs(m) && m@ == readonly_message(
            dir@,
            string_views(allow@),
        )),
{
    if !contains_write_or_destructive_method(allow) {
        return Ok(());
    }
    let mut v = chars_of(dir);
    extend_str(&mut v, " is not readonly; server allows: ");
    extend_str(&mut v, join_strings(allow, ", ").as_str());
    Err(CommandError::InvalidArgs(string_of(&v)))
}

/// `n` in decimal, with a `-` in front when it is negative.
pub open spec fn signed_decimal(n: int) -> Seq<char> {
    if n < 0 {
        seq!['-'] + decimal((-n) as nat)
    } else {
        decimal(n as nat)
    }
}

/// The file that the write probe puts in the write directory, named after
/// the time in seconds since the epoch.
pub open spec fn write_marker_spec(write_dir: Seq<char>, unix_secs: i64) -> Seq<char> {
    trim_slashes_spec(write_dir) + "/.webdav-cli-doctor-write-"@ + signed_decimal(unix_secs as int)
        + ".md"@
}

/// The path of the write probe.
pub fn doctor_write_marker(write_dir: &str, unix_secs: i64) -> (r: String)
    ensures
        r@ == write_marker_spec(write_dir@, unix_secs),
{
    let mut v = strip_chars(&trim_chars(&chars_of(write_dir)), '/');
    extend_str(&mut v, "/.webdav-cli-doctor-write-");
    if unix_secs < 0 {
        v.push('-');
        let magnitude: u64 = (-(unix_secs as i128)) as u64;
        push_decimal(&mut v, magnitude);
    } else {
        push_decimal(&mut v, unix_secs as u64);
    }
    extend_str(&mut v, ".md");
    string_of(&v)
}

/// The checks that a successful run reports, in order.
pub open spec fn doctor_checks_spec(
    write_dir: Seq<char>,
    no_write_test: bool,
    readonly_dir: Option<Seq<char>>,
) -> Seq<Seq<char>> {
    let checks = seq![
        "Config loaded"@,
        "WebDAV connected"@,
        "Root vault readable"@,
        write_dir + " exists"@,
        write_dir + " full HTTP permissions"@,
        if no_write_test {
            "Write test skipped"@
        } else {
            write_dir + " writable"@
        },
    ];
    match readonly_dir {
        Some(d) => checks.push(d + " directory readonly"@),
        None => checks,
    }
}

fn labelled(dir: &str, suffix: &str) -> (r: String)
    ensures
        r@ == dir@ + suffix@,
{
    let mut v = chars_of(dir);
    extend_str(&mut v, suffix);
    string_of(&v)
}

/// The names of the checks that a successful run reports: the
/// configuration, the connection, the root listing, the write directory's
/// existence, methods and write probe (or its skipping), and the first
/// read-only directory when one is configured.
pub fn doctor_checks(write_dir: &str, no_write_test: bool, readonly_dir: Option<&str>) -> (r: Vec<
    String,
>)
    ensures
        string_views(r@) == doctor_checks_spec(
            write_dir@,
            no_write_test,
            match readonly_dir {
                Some(d) => Some(d@),
                None => None,
            },
        ),
{
    let mut r: Vec<String> = Vec::new();
    r.push("Config loaded".to_owned());
    r.push("WebDAV connected".to_owned());
    r.push("Root vault readable".to_owned());
    r.push(labelled(write_dir, " exists"));
    r.push(labelled(write_dir, " full HTTP permissions"));
    if no_write_test {
        r.push("Write test skipped".to_owned());
    } else {
        r.push(labelled(write_dir, " writable"));
    }
    if let Some(d) = readonly_dir {
        r.push(labelled(d, " directory readonly"));
    }
    proof {
        assert(string_views(r@) =~= doctor_checks_spec(
            write_dir@,
            no_write_test,
            match readonly_dir {
                Some(d) => Some(d@),
                None => None,
            },
        ));
    }
    r
}

/// One report line per check.
pub open spec fn report_lines(names: Seq<Seq<char>>) -> Seq<Seq<char>> {
    names.map_values(|n: Seq<char>| "[OK] "@ + n)
}

/// The plain-text report: `[OK] name` for each check, one per line.
pub fn doctor_report(names: &[String]) -> (r: String)
    ensures
        r@ == join(report_lines(string_views(names@)), "\n"@),
{
    let mut lines: Vec<String> = Vec::new();
    let mut i: usize = 0;
    while i < names.len()
        invariant
            i <= names@.len(),
            string_views(lines@) =~= report_lines(string_views(names@)).take(i as int),
        decreases names@.len() - i,
    {
        let ghost before = string_views(lines@);
        lines.push(labelled("[OK] ", names[i].as_str()));
        proof {
            assert(string_views(lines@) =~= before.push("[OK] "@ + names@[i as int]@));
            assert(report_lines(string_views(names@)).take(i + 1) =~= report_lines(
                string_views(names@),
            ).take(i as int).push("[OK] "@ + names@[i as int]@));
        }
        i = i + 1;
    }
    proof {
        assert(report_lines(string_views(names@)).take(i as int) =~= report_lines(
            string_views(names@),
        ));
    }
    join_strings(&lines, "\n")
}

/// A passed check as JSON: `{"name":..,"ok":true}`.
pub open spec fn check_json_spec(name: Seq<char>) -> Seq<char> {
    json_object_spec(seq![("name"@, json_string_spec(name)), ("ok"@, json_bool_spec(true))])
}

/// The JSON report of a successful `doctor`: `ok` true, the action
/// `doctor` and each check, in order, as passed.
pub open spec fn doctor_json_spec(names: Seq<Seq<char>>) -> Seq<char> {
    json_object_spec(
        seq![
            ("action"@, json_string_spec("doctor"@)),
            ("checks"@, json_array_spec(names.map_values(|n: Seq<char>| check_json_spec(n)))),
            ("ok"@, json_bool_spec(true)),
        ],
    )
}

/// The JSON report of a successful run, for the checks' names.
pub fn doctor_json(names: &[String]) -> (r: String)
    ensures
        r@ == doctor_json_spec(string_views(names@)),
{
    let ghost nv = string_views(names@);
    let mut items: Vec<Vec<char>> = Vec::new();
    let mut i: usize = 0;
    while i < names.len()
        invariant
            i <= names@.len(),
            nv == string_views(names@),
            views(items@) =~= nv.map_values(|n: Seq<char>| check_json_spec(n)).take(i as int),
        decreases names@.len() - i,
    {
        let mut m: Vec<(String, String)> = Vec::new();
        m.push(("name".to_owned(), json_string(names[i].as_str())));
        m.push(("ok".to_owned(), json_bool(true)));
        proof {
            assert(member_views(m@) =~= seq![
                ("name"@, json_string_spec(names@[i as int]@)),
                ("ok"@, json_bool_spec(true)),
            ]);
        }
        let t = chars_of(json_object(&m).as_str());
        let ghost before = views(items@);
        items.push(t);
        proof {
            assert(nv[i as int] == names@[i as int]@);
            assert(views(items@) =~= before.push(check_json_spec(nv[i as int])));
            assert(nv.map_values(|n: Seq<char>| check_json_spec(n)).take(i + 1) =~= nv.map_values(
                |n: Seq<char>| check_json_spec(n),
            ).take(i as int).push(check_json_spec(nv[i as int])));
        }
        i = i + 1;
    }
    proof {
        assert(nv.map_values(|n: Seq<char>| check_json_spec(n)).take(i as int) =~= nv.map_values(
            |n: Seq<char>| check_json_spec(n),
        ));
    }
    let arr = json_array(&items);
    let mut m: Vec<(String, String)> = Vec::new();
    m.push(("action".to_owned(), json_string("doctor")));
    m.push(("checks".to_owned(), arr));
    m.push(("ok".to_owned(), json_bool(true)));
    proof {
        assert(member_views(m@) =~= seq![
            ("action"@, json_string_spec("doctor"@)),
            ("checks"@, json_array_spec(nv.map_values(|n: Seq<char>| check_json_spec(n)))),
            ("ok"@, json_bool_spec(true)),
        ]);
    }
    json_object(&m)
}

/// One request that `doctor` makes.
#[derive(Debug, Clone, PartialEq, Eq)]
pub enum DoctorProbe {
    /// OPTIONS on the vault root: the server answers.
    Connect,
    /// PROPFIND on a directory: it can be listed.
    List(String),
    /// OPTIONS on the write directory: every method of `full_methods` is
    /// allowed.
    FullPermissions(String),
    /// PUT of the write marker, which must lie in an allowed directory.
    WriteMarker(String),
    /// OPTIONS on a read-only directory: no write method is allowed.
    Readonly(String),
}

/// The abstract value of a `DoctorProbe`.
pub enum ProbeView {
    Connect,
    List(Seq<char>),
    FullPermissions(Seq<char>),
    WriteMarker(Seq<char>),
    Readonly(Seq<char>),
}

impl View for DoctorProbe {
    type V = ProbeView;

    open spec fn view(&self) -> ProbeView {
        match self {
            DoctorProbe::Connect => ProbeView::Connect,
            DoctorProbe::List(p) => ProbeView::List(p@),
            DoctorProbe::FullPermissions(p) => ProbeView::FullPermissions(p@),
            DoctorProbe::WriteMarker(p) => ProbeView::WriteMarker(p@),
            DoctorProbe::Readonly(p) => ProbeView::Readonly(p@),
        }
    }
}

/// The views of the probes.
pub open spec fn probe_views(v: Seq<DoctorProbe>) -> Seq<ProbeView> {
    v.map_values(|p: DoctorProbe| p@)
}

/// The requests of `doctor`, in order: the root's OPTIONS, the root's and
/// the write directory's listings, the write directory's OPTIONS, the write
/// marker's PUT unless the write test is skipped, and the OPTIONS of the
/// first read-only directory when one is configured.
pub open spec fn doctor_probes_spec(
    write_dir: Seq<char>,
    no_write_test: bool,
    marker: Seq<char>,
    readonly_dir: Option<Seq<char>>,
) -> Seq<ProbeView> {
    let base = seq![
        ProbeView::Connect,
        ProbeView::List(Seq::empty()),
        ProbeView::List(write_dir),
        ProbeView::FullPermissions(write_dir),
    ];
    let written = if no_write_test {
        base
    } else {
        base.push(ProbeView::WriteMarker(marker))
    };
    match readonly_dir {
        Some(d) => written.push(ProbeView::Readonly(d)),
        None => written,
    }
}

/// The requests `doctor` makes, in order.
pub fn doctor_probes(
    write_dir: &str,
    no_write_test: bool,
    marker: &str,
    readonly_dir: Option<&str>,
) -> (r: Vec<DoctorProbe>)
    ensures
        probe_views(r@) == doctor_probes_spec(
            write_dir@,
            no_write_test,
            marker@,
            match readonly_dir {
                Some(d) => Some(d@),
                None => None,
            },
        ),
{
    let mut r: Vec<DoctorProbe> = Vec::new();
    r.push(DoctorProbe::Connect);
    r.push(DoctorProbe::List(String::new()));
    r.push(DoctorProbe::List(string_of(&chars_of(write_dir))));
    r.push(DoctorProbe::FullPermissions(string_of(&chars_of(write_dir))));
    if !no_write_test {
        r.push(DoctorProbe::WriteMarker(string_of(&chars_of(marker))));
    }
    if let Some(d) = readonly_dir {
        r.push(DoctorProbe::Readonly(string_of(&chars_of(d))));
    }
    proof {
        assert(probe_views(r@) =~= doctor_probes_spec(
            write_dir@,
            no_write_test,
            marker@,
            match readonly_dir {
                Some(d) => Some(d@),
                None => None,
            },
        ));
    }
    r
}

impl DoctorProbe {
    /// What is checked before the request is sent: the write marker must
    /// pass the write guard; nothing else is checked.
    pub fn check_before(&self, allow_write_dirs: &[String]) -> (r: Result<(), CommandError>)
        ensures
            match self@ {
                ProbeView::WriteMarker(m) => match crate::pathguard::write_guard_spec(
                    m,
                    string_views(allow_write_dirs@),
                ) {
                    Ok(_) => r is Ok,
                    Err(e) => r matches Err(CommandError::Path(pe)) && pe@ == e,
                },
                _ => r is Ok,
            },
    {
        match self {
            DoctorProbe::WriteMarker(m) => match crate::pathguard::assert_write_allowed(
                m.as_str(),
                allow_write_dirs,
            ) {
                Ok(_) => Ok(()),
                Err(e) => Err(CommandError::Path(e)),
            },
            _ => Ok(()),
        }
    }

    /// What is checked of an OPTIONS answer's `Allow` methods: the write
    /// directory must allow every method, a read-only directory none that
    /// writes; the root's answer is not checked.
    pub fn check_allow(&self, allow: &[String]) -> (r: Result<(), CommandError>)
        ensures
            match self@ {
                ProbeView::FullPermissions(d) => ((r is Ok) == (missing_from(
                    full_methods(),
                    string_views(allow@),
                ).len() == 0)) && (r matches Err(e) ==> (e matches CommandError::InvalidArgs(m)
                    && m@ == permissions_message(
                    d,
                    missing_from(full_methods(), string_views(allow@)),
                ))),
                ProbeView::Readonly(d) => ((r is Ok) == !has_write_method(string_views(allow@)))
                    && (r matches Err(e) ==> (e matches CommandError::InvalidArgs(m) && m@
                    == readonly_message(d, string_views(allow@)))),
                _ => r is Ok,
            },
    {
        match self {
            DoctorProbe::FullPermissions(d) => check_full_permissions(d.as_str(), allow),
            DoctorProbe::Readonly(d) => check_readonly(d.as_str(), allow),
            _ => Ok(()),
        }
    }
}

} // verus!
