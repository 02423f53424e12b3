//! The WebDAV side of the client that needs no network: request URLs,
//! PROPFIND response parsing, header values and status handling.

use quick_xml::events::Event;
use quick_xml::Reader;
use vstd::prelude::*;

use crate::encoding::{
    law_percent_encoding_round_trips, lemma_encode_path_split_at_slash, lemma_encoded_segment_shape,
    percent_decode_utf8, percent_decode_utf8_spec, percent_encode_path, percent_encode_path_spec,
};
use crate::pathguard::{
    is_clean_segment, law_normalization_idempotent, law_normalized_path_is_clean,
    lemma_join_slash_free, no_double_slash, normalize_spec, normalize_vault_path,
    path_error_message, slash, url_marker, PathError, PathFault,
};
use crate::text::{
    chars_eq, chars_of, contains_exec, contains_seq, ends_with, ends_with_exec, extend_chars,
    extend_str, join, join_chars, lemma_split_join, lemma_strip_end_shape, occurs_at, split_char,
    split_chars, starts_with, starts_with_exec, string_of, strip_end_char, strip_start_char, views,
};

verus! {

/// Where and how to reach the WebDAV server.
#[derive(Debug, Clone, PartialEq, Eq)]
pub struct WebdavSettings {
    pub base_url: String,
    pub username: String,
    pub password: String,
    pub timeout_secs: u64,
}

/// One entry of a directory listing.
#[derive(Debug, Clone, PartialEq, Eq)]
pub struct DavEntry {
    pub path: String,
    pub is_dir: bool,
}

/// The outcome of a LOCK request.
#[derive(Debug, Clone, PartialEq, Eq)]
pub struct LockResult {
    pub lock_token: Option<String>,
    pub body: String,
}

/// Why a WebDAV operation failed.
#[derive(Debug)]
pub enum WebdavError {
    InvalidBaseUrl(String),
    InvalidPath(PathError),
    Http(String),
    Status { status: u16, context: String },
    Xml(String),
}

/// The abstract value of a `WebdavError`.
pub enum DavFault {
    InvalidBaseUrl(Seq<char>),
    InvalidPath(PathFault),
    Http(Seq<char>),
    Status { status: u16, context: Seq<char> },
    Xml(Seq<char>),
}

impl View for WebdavError {
    type V = DavFault;

    open spec fn view(&self) -> DavFault {
        match self {
            WebdavError::InvalidBaseUrl(s) => DavFault::InvalidBaseUrl(s@),
            WebdavError::InvalidPath(e) => DavFault::InvalidPath(e@),
            WebdavError::Http(s) => DavFault::Http(s@),
            WebdavError::Status { status, context } => DavFault::Status {
                status: *status,
                context: context@,
            },
            WebdavError::Xml(s) => DavFault::Xml(s@),
        }
    }
}

/// The path component that the `url` crate gives for `s`, or `None` when
/// `s` is not a URL it accepts.
pub uninterp spec fn url_path_of(s: Seq<char>) -> Option<Seq<char>>;

/// The text (`Display`) of the `url::ParseError` that `url::Url::parse`
/// gives for `s`; the error depends on `s` alone.
pub uninterp spec fn url_error_of(s: Seq<char>) -> Seq<char>;

/// The URL that the `url` crate serializes for `s` with its path replaced by
/// `path` (which the crate escapes as it needs), or `None` when `s` is not a
/// URL it accepts.
pub uninterp spec fn url_with_path_of(s: Seq<char>, path: Seq<char>) -> Option<Seq<char>>;

/// `url::Url::parse(s)` and then `Url::path`, or the text of the parse
/// error. Both are functions of `s`, named `url_path_of` and `url_error_of`.
#[verifier::external_body]
fn url_path(s: &str) -> (r: Result<String, String>)
    ensures
        match r {
            Ok(p) => url_path_of(s@) == Some(p@),
            Err(m) => url_path_of(s@) is None && m@ == url_error_of(s@),
        },
{
    match url::Url::parse(s) {
        Ok(u) => Ok(u.path().to_owned()),
        Err(e) => Err(e.to_string()),
    }
}

/// `url::Url::parse(s)`, then `Url::set_path(path)`, then the URL's
/// serialization. The result is a function of the arguments, named
/// `url_with_path_of`; `set_path` itself never fails, so it is `Some`
/// exactly when the parse succeeds.
#[verifier::external_body]
fn url_with_path(s: &str, path: &str) -> (r: Option<String>)
    ensures
        match r {
            Some(u) => url_with_path_of(s@, path@) == Some(u@),
            None => url_with_path_of(s@, path@) is None,
        },
        r is Some <==> url_path_of(s@) is Some,
{
    let mut u = url::Url::parse(s).ok()?;
    u.set_path(path);
    Some(u.to_string())
}

/// The segments of a normalized path, percent-encoded, empty ones dropped.
pub open spec fn encoded_segments(parts: Seq<Seq<char>>) -> Seq<Seq<char>>
    decreases parts.len(),
{
    if parts.len() == 0 {
        Seq::empty()
    } else if parts.last().len() == 0 {
        encoded_segments(parts.drop_last())
    } else {
        encoded_segments(parts.drop_last()).push(percent_encode_path_spec(parts.last()))
    }
}

/// The URL path for a normalized vault path under the base URL's path.
pub open spec fn url_path_for_spec(base_path: Seq<char>, normalized: Seq<char>, as_dir: bool) -> Seq<
    char,
> {
    let base = strip_end_char(base_path, '/');
    let encoded = join(encoded_segments(split_char(normalized, '/')), seq!['/']);
    let full = if encoded.len() == 0 {
        base + seq!['/']
    } else {
        base + seq!['/'] + encoded
    };
    if as_dir && !ends_with(full, seq!['/']) {
        full.push('/')
    } else {
        full
    }
}

/// What `url_for` gives for a base URL and a raw vault path.
pub open spec fn url_for_spec(base_url: Seq<char>, raw_path: Seq<char>, as_dir: bool) -> Result<
    Seq<char>,
    DavFault,
> {
    match normalize_spec(raw_path) {
        Err(e) => Err(DavFault::InvalidPath(e)),
        Ok(p) => match url_path_of(base_url) {
            None => Err(DavFault::InvalidBaseUrl(url_error_of(base_url))),
            Some(bp) => Ok(url_with_path_of(base_url, url_path_for_spec(bp, p, as_dir))->0),
        },
    }
}

/// The abstract value of a result that carries a string.
pub open spec fn text_result_view(r: Result<String, WebdavError>) -> Result<Seq<char>, DavFault> {
    match r {
        Ok(s) => Ok(s@),
        Err(e) => Err(e@),
    }
}

fn slash_chars() -> (r: Vec<char>)
    ensures
        r@ == seq!['/'],
{
    let mut r: Vec<char> = Vec::new();
    r.push('/');
    r
}

/// The URL of a vault path: the base URL with its path replaced by the base
/// path (without trailing `/`), then `/` and the percent-encoded segments,
/// with a final `/` for a directory.
pub fn url_for(base_url: &str, raw_path: &str, as_dir: bool) -> (r: Result<String, WebdavError>)
    ensures
        text_result_view(r) == url_for_spec(base_url@, raw_path@, as_dir),
{
    let normalized = match normalize_vault_path(raw_path) {
        Ok(p) => p,
        Err(e) => {
            return Err(WebdavError::InvalidPath(e));
        },
    };
    let base_path = match url_path(base_url) {
        Ok(p) => p,
        Err(e) => {
            return Err(WebdavError::InvalidBaseUrl(e));
        },
    };
    let base = strip_trailing(&chars_of(base_path.as_str()), '/');
    let parts = split_chars(&chars_of(normalized.as_str()), '/');
    let ghost pv = views(parts@);
    let mut encoded: Vec<Vec<char>> = Vec::new();
    let mut i: usize = 0;
    proof {
        assert(pv.take(0) =~= Seq::<Seq<char>>::empty());
        assert(views(encoded@) =~= Seq::<Seq<char>>::empty());
    }
    while i < parts.len()
        invariant
            i <= parts@.len(),
            pv == views(parts@),
            views(encoded@) == encoded_segments(pv.take(i as int)),
        decreases parts@.len() - i,
    {
        proof {
            assert(pv.take(i + 1).drop_last() =~= pv.take(i as int));
            assert(pv.take(i + 1).last() == parts@[i as int]@);
        }
        if parts[i].len() > 0 {
            let seg = string_of(&parts[i]);
            let ghost before = views(encoded@);
            encoded.push(percent_encode_path(seg.as_str()));
            proof {
                assert(views(encoded@) =~= before.push(percent_encode_path_spec(pv[i as int])));
            }
        }
        i = i + 1;
    }
    proof {
        assert(pv.take(parts@.len() as int) =~= pv);
    }
    let slash = slash_chars();
    let enc = join_chars(&encoded, &slash);
    let mut full = base;
    extend_chars(&mut full, &slash);
    extend_chars(&mut full, &enc);
    proof {
        if enc@.len() == 0 {
            assert(full@ =~= base@ + seq!['/']);
        }
    }
    if as_dir && !ends_with_exec(&full, &slash) {
        full.push('/');
    }
    let path = string_of(&full);
    match url_with_path(base_url, path.as_str()) {
        Some(u) => Ok(u),
        None => {
            proof {
                assert(false);
            }
            Err(WebdavError::InvalidBaseUrl(String::new()))
        },
    }
}

/// `v` without trailing `c`s (`str::trim_end_matches`).
fn strip_trailing(v: &[char], c: char) -> (r: Vec<char>)
    ensures
        r@ == strip_end_char(v@, c),
{
    let n = v.len();
    let mut b: usize = n;
    proof {
        assert(v@.subrange(0, n as int) =~= v@);
    }
    while b > 0 && v[b - 1] == c
        invariant
            b <= n == v@.len(),
            strip_end_char(v@, c) == strip_end_char(v@.subrange(0, b as int), c),
        decreases b,
    {
        proof {
            assert(v@.subrange(0, b as int).drop_last() =~= v@.subrange(0, b - 1));
        }
        b = b - 1;
    }
    crate::text::slice_chars(v, 0, b)
}

/// `v` without leading `c`s (`str::trim_start_matches`).
fn strip_leading(v: &[char], c: char) -> (r: Vec<char>)
    ensures
        r@ == strip_start_char(v@, c),
{
    let n = v.len();
    let mut a: usize = 0;
    proof {
        assert(v@.subrange(0, n as int) =~= v@);
    }
    while a < n && v[a] == c
        invariant
            a <= n == v@.len(),
            strip_start_char(v@, c) == strip_start_char(v@.subrange(a as int, n as int), c),
        decreases n - a,
    {
        proof {
            assert(v@.subrange(a as int, n as int).drop_first() =~= v@.subrange(a + 1, n as int));
        }
        a = a + 1;
    }
    crate::text::slice_chars(v, a, n)
}


impl View for DavEntry {
    type V = (Seq<char>, bool);

    open spec fn view(&self) -> (Seq<char>, bool) {
        (self.path@, self.is_dir)
    }
}

/// The path of the base URL, or `InvalidBaseUrl` when it is not a URL.
pub fn base_path_of(base_url: &str) -> (r: Result<String, WebdavError>)
    ensures
        match r {
            Ok(p) => url_path_of(base_url@) == Some(p@),
            Err(e) => url_path_of(base_url@) is None && e@ == DavFault::InvalidBaseUrl(
                url_error_of(base_url@),
            ),
        },
{
    match url_path(base_url) {
        Ok(p) => Ok(p),
        Err(e) => Err(WebdavError::InvalidBaseUrl(e)),
    }
}

/// The path part of an href: hrefs that hold `://` are parsed as URLs.
pub open spec fn href_path_spec(href: Seq<char>) -> Option<Seq<char>> {
    if contains_seq(href, seq![':', '/', '/']) {
        url_path_of(href)
    } else {
        Some(href)
    }
}

/// The href path relative to the base path, without `/` at either end.
pub open spec fn relative_href(href_path: Seq<char>, base_path: Seq<char>) -> Seq<char> {
    let short_base = strip_end_char(base_path, '/');
    let stripped = if starts_with(href_path, base_path) {
        href_path.subrange(base_path.len() as int, href_path.len() as int)
    } else if starts_with(href_path, short_base) {
        href_path.subrange(short_base.len() as int, href_path.len() as int)
    } else {
        href_path
    };
    strip_end_char(strip_start_char(stripped, '/'), '/')
}

/// The message for an href that does not decode.
pub open spec fn bad_href_message() -> Seq<char> {
    "href is not valid UTF-8"@
}

/// The listing entry an href stands for: `None` for the listed directory
/// itself and for the vault root.
pub open spec fn entry_from_href_spec(base_path: Seq<char>, href: Seq<char>, requested: Seq<char>) -> Result<
    Option<(Seq<char>, bool)>,
    DavFault,
> {
    match href_path_spec(href) {
        None => Err(DavFault::InvalidBaseUrl(url_error_of(href))),
        Some(hp) => {
            let is_dir = ends_with(hp, seq!['/']);
            match percent_decode_utf8_spec(relative_href(hp, base_path)) {
                None => Err(DavFault::Xml(bad_href_message())),
                Some(d) => match normalize_spec(d) {
                    Err(e) => Err(DavFault::InvalidPath(e)),
                    Ok(p) => if p.len() == 0 || p == requested {
                        Ok(None)
                    } else {
                        Ok(Some((p, is_dir)))
                    },
                },
            }
        },
    }
}

/// The abstract value of an href's entry.
pub open spec fn entry_result_view(r: Result<Option<DavEntry>, WebdavError>) -> Result<
    Option<(Seq<char>, bool)>,
    DavFault,
> {
    match r {
        Ok(Some(e)) => Ok(Some(e@)),
        Ok(None) => Ok(None),
        Err(e) => Err(e@),
    }
}

/// `s` with the prefix `p` removed, if `s` starts with it.
fn strip_prefix_chars(s: &[char], p: &[char]) -> (r: Option<Vec<char>>)
    ensures
        match r {
            Some(v) => starts_with(s@, p@) && v@ == s@.subrange(p@.len() as int, s@.len() as int),
            None => !starts_with(s@, p@),
        },
{
    if starts_with_exec(s, p) {
        Some(crate::text::slice_chars(s, p.len(), s.len()))
    } else {
        None
    }
}

/// Turns one `href` of a PROPFIND response into a listing entry relative to
/// the vault root.
pub fn entry_from_href(base_path: &str, href: &str, requested: &str) -> (r: Result<
    Option<DavEntry>,
    WebdavError,
>)
    ensures
        entry_result_view(r) == entry_from_href_spec(base_path@, href@, requested@),
{
    let h = chars_of(href);
    let mut marker: Vec<char> = Vec::new();
    marker.push(':');
    marker.push('/');
    marker.push('/');
    proof {
        assert(marker@ =~= seq![':', '/', '/']);
    }
    let href_path: Vec<char> = if contains_exec(&h, &marker) {
        match url_path(href) {
            Ok(p) => chars_of(p.as_str()),
            Err(e) => {
                return Err(WebdavError::InvalidBaseUrl(e));
            },
        }
    } else {
        h
    };
    let slash = slash_chars();
    let is_dir = ends_with_exec(&href_path, &slash);
    let base = chars_of(base_path);
    let short_base = strip_trailing(&base, '/');
    let stripped = match strip_prefix_chars(&href_path, &base) {
        Some(v) => v,
        None => match strip_prefix_chars(&href_path, &short_base) {
            Some(v) => v,
            None => href_path,
        },
    };
    let relative = strip_trailing(&strip_leading(&stripped, '/'), '/');
    let decoded = match percent_decode_utf8(string_of(&relative).as_str()) {
        Some(d) => d,
        None => {
            return Err(WebdavError::Xml("href is not valid UTF-8".to_owned()));
        },
    };
    let path = match normalize_vault_path(decoded.as_str()) {
        Ok(p) => p,
        Err(e) => {
            return Err(WebdavError::InvalidPath(e));
        },
    };
    let pc = chars_of(path.as_str());
    if pc.len() == 0 || chars_eq(&pc, &chars_of(requested)) {
        return Ok(None);
    }
    Ok(Some(DavEntry { path: path.into_string(), is_dir }))
}


/// One event of the XML reader, with what the PROPFIND parser reads of it.
pub enum XmlEvent {
    /// A start tag and its qualified name.
    Start(Vec<u8>),
    /// An end tag and its qualified name.
    End(Vec<u8>),
    /// Character data, decoded, or the decoding error's message.
    Text(Result<String, String>),
    /// The end of the document.
    Eof,
    /// A syntax error, with its message.
    Failed(String),
    /// Any other event.
    Other,
}

/// The events that `quick_xml` reads from `xml` with `trim_text(true)`, in
/// order, up to and including the end of the document or the first error.
pub uninterp spec fn xml_events_of(xml: Seq<char>) -> Seq<XmlEvent>;

/// `Reader::from_str(xml)` with `trim_text(true)`, then `read_event()` until
/// `Eof` or an error; each event converted: start and end tags keep their
/// qualified name, text is decoded with `BytesText::decode`, errors keep
/// their message. The parser's events depend on the document alone, so the
/// sequence is named `xml_events_of`.
#[verifier::external_body]
fn xml_events(xml: &str) -> (r: Vec<XmlEvent>)
    ensures
        r@ == xml_events_of(xml@),
{
    let (mut reader, mut events) = (Reader::from_str(xml), vec![]);
    reader.config_mut().trim_text(true);
    let last = loop {
        let event = match reader.read_event() {
            Ok(Event::Start(e)) => XmlEvent::Start(e.name().0.to_vec()),
            Ok(Event::End(e)) => XmlEvent::End(e.name().0.to_vec()),
            Ok(Event::Text(t)) => XmlEvent::Text(t.decode().map(String::from).map_err(|e| e.to_string())),
            Ok(Event::Eof) => break XmlEvent::Eof,
            Err(e) => break XmlEvent::Failed(e.to_string()),
            Ok(_) => XmlEvent::Other,
        };
        events.push(event);
    };
    events.push(last);
    events
}

/// `href`, with or without a namespace prefix.
pub open spec fn is_href_name(name: Seq<u8>) -> bool {
    name == seq![104u8, 114u8, 101u8, 102u8] || (name.len() >= 5 && name.subrange(
        name.len() - 5,
        name.len() as int,
    ) == seq![58u8, 104u8, 114u8, 101u8, 102u8])
}

fn name_is_href(name: &Vec<u8>) -> (r: bool)
    ensures
        r == is_href_name(name@),
{
    let n = name.len();
    let exact = n == 4 && name[0] == 104 && name[1] == 114 && name[2] == 101 && name[3] == 102;
    let suffixed = n >= 5 && name[n - 5] == 58 && name[n - 4] == 104 && name[n - 3] == 114 && name[n
        - 2] == 101 && name[n - 1] == 102;
    proof {
        if exact {
            assert(name@ =~= seq![104u8, 114u8, 101u8, 102u8]);
        }
        if suffixed {
            assert(name@.subrange(n - 5, n as int) =~= seq![58u8, 104u8, 114u8, 101u8, 102u8]);
        }
        if name@ == seq![104u8, 114u8, 101u8, 102u8] {
            assert(name@[0] == 104 && name@[3] == 102);
        }
        if n >= 5 && name@.subrange(n - 5, n as int) == seq![58u8, 104u8, 114u8, 101u8, 102u8] {
            assert(name@.subrange(n - 5, n as int)[0] == name@[n - 5]);
            assert(name@.subrange(n - 5, n as int)[4] == name@[n - 1]);
            assert(name@.subrange(n - 5, n as int)[1] == name@[n - 4]);
            assert(name@.subrange(n - 5, n as int)[2] == name@[n - 3]);
            assert(name@.subrange(n - 5, n as int)[3] == name@[n - 2]);
        }
    }
    exact || suffixed
}

/// Where the PROPFIND parser stands after some events.
pub enum PropfindState {
    Reading { in_href: bool, entries: Seq<(Seq<char>, bool)> },
    Finished(Result<Seq<(Seq<char>, bool)>, DavFault>),
}

/// One event applied to the parser's state: inside an `href` element each
/// text becomes an entry (or stops the parse with its error); the end of
/// the document or a syntax error finishes the parse.
pub open spec fn propfind_step(
    base_path: Seq<char>,
    requested: Seq<char>,
    st: PropfindState,
    ev: XmlEvent,
) -> PropfindState {
    match st {
        PropfindState::Finished(r) => PropfindState::Finished(r),
        PropfindState::Reading { in_href, entries } => match ev {
            XmlEvent::Start(n) => if is_href_name(n@) {
                PropfindState::Reading { in_href: true, entries }
            } else {
                st
            },
            XmlEvent::Text(t) => if in_href {
                match t {
                    Err(m) => PropfindState::Finished(Err(DavFault::Xml(m@))),
                    Ok(h) => match entry_from_href_spec(base_path, h@, requested) {
                        Err(e) => PropfindState::Finished(Err(e)),
                        Ok(None) => st,
                        Ok(Some(e)) => PropfindState::Reading { in_href, entries: entries.push(e) },
                    },
                }
            } else {
                st
            },
            XmlEvent::End(n) => if is_href_name(n@) {
                PropfindState::Reading { in_href: false, entries }
            } else {
                st
            },
            XmlEvent::Eof => PropfindState::Finished(Ok(entries)),
            XmlEvent::Failed(m) => PropfindState::Finished(Err(DavFault::Xml(m@))),
            XmlEvent::Other => st,
        },
    }
}

/// The parser's state after the events `evs`, from the start.
pub open spec fn propfind_run(base_path: Seq<char>, requested: Seq<char>, evs: Seq<XmlEvent>) -> PropfindState
    decreases evs.len(),
{
    if evs.len() == 0 {
        PropfindState::Reading { in_href: false, entries: Seq::empty() }
    } else {
        propfind_step(base_path, requested, propfind_run(base_path, requested, evs.drop_last()), evs.last())
    }
}

/// The entries a PROPFIND response lists, in document order; a stream that
/// stops without its end counts as ended.
pub open spec fn propfind_spec(base_path: Seq<char>, requested: Seq<char>, evs: Seq<XmlEvent>) -> Result<
    Seq<(Seq<char>, bool)>,
    DavFault,
> {
    match propfind_run(base_path, requested, evs) {
        PropfindState::Finished(r) => r,
        PropfindState::Reading { entries, .. } => Ok(entries),
    }
}

/// The abstract value of a list of entries.
pub open spec fn entry_views(v: Seq<DavEntry>) -> Seq<(Seq<char>, bool)> {
    v.map_values(|e: DavEntry| e@)
}

/// The abstract value of a listing result.
pub open spec fn listing_view(r: Result<Vec<DavEntry>, WebdavError>) -> Result<
    Seq<(Seq<char>, bool)>,
    DavFault,
> {
    match r {
        Ok(v) => Ok(entry_views(v@)),
        Err(e) => Err(e@),
    }
}

/// Once finished, the parser stays finished with the same result.
proof fn lemma_propfind_finished(
    base_path: Seq<char>,
    requested: Seq<char>,
    evs: Seq<XmlEvent>,
    n: int,
)
    requires
        0 <= n <= evs.len(),
        propfind_run(base_path, requested, evs.take(n)) is Finished,
    ensures
        propfind_run(base_path, requested, evs) == propfind_run(base_path, requested, evs.take(n)),
    decreases evs.len() - n,
{
    if n == evs.len() {
        assert(evs.take(n) =~= evs);
    } else {
        assert(evs.take(n + 1).drop_last() =~= evs.take(n));
        lemma_propfind_finished(base_path, requested, evs, n + 1);
    }
}

/// An `href` start tag.
pub open spec fn is_href_start(e: XmlEvent) -> bool {
    e matches XmlEvent::Start(n) && is_href_name(n@)
}

/// An `href` end tag.
pub open spec fn is_href_end(e: XmlEvent) -> bool {
    e matches XmlEvent::End(n) && is_href_name(n@)
}

/// The event at `j` stands inside an `href` element: an `href` start tag
/// comes before it, with no `href` end tag in between.
pub open spec fn inside_href(evs: Seq<XmlEvent>, j: int) -> bool {
    exists|k: int|
        0 <= k < j && #[trigger] is_href_start(evs[k]) && forall|m: int|
            k < m < j ==> !is_href_end(#[trigger] evs[m])
}

/// The event at `j` is the text of an `href` element, and that href stands
/// for the entry `e`.
pub open spec fn href_text_gives(
    base_path: Seq<char>,
    requested: Seq<char>,
    evs: Seq<XmlEvent>,
    j: int,
    e: (Seq<char>, bool),
) -> bool {
    &&& 0 <= j < evs.len()
    &&& inside_href(evs, j)
    &&& evs[j] matches XmlEvent::Text(Ok(h)) && entry_from_href_spec(base_path, h@, requested)
        == Ok::<Option<(Seq<char>, bool)>, DavFault>(Some(e))
}

/// No end of the document among the first `j` events.
pub open spec fn no_eof_before(evs: Seq<XmlEvent>, j: int) -> bool {
    forall|m: int| 0 <= m < j ==> !(#[trigger] evs[m] is Eof)
}

proof fn lemma_inside_href_step(evs: Seq<XmlEvent>, n: int)
    requires
        0 <= n < evs.len(),
    ensures
        is_href_start(evs[n]) ==> inside_href(evs, n + 1),
        is_href_end(evs[n]) ==> !inside_href(evs, n + 1),
        !is_href_start(evs[n]) && !is_href_end(evs[n]) ==> (inside_href(evs, n + 1)
            == inside_href(evs, n)),
{
    if is_href_start(evs[n]) {
        assert(is_href_start(evs[n]) && forall|m: int| n < m < n + 1 ==> !is_href_end(
            #[trigger] evs[m],
        ));
    }
    if is_href_end(evs[n]) {
        if inside_href(evs, n + 1) {
            let k = choose|k: int|
                0 <= k < n + 1 && #[trigger] is_href_start(evs[k]) && forall|m: int|
                    k < m < n + 1 ==> !is_href_end(#[trigger] evs[m]);
            if k == n {
                assert(false);
            } else {
                assert(!is_href_end(evs[n]));
            }
        }
    }
    if !is_href_start(evs[n]) && !is_href_end(evs[n]) {
        if inside_href(evs, n + 1) {
            let k = choose|k: int|
                0 <= k < n + 1 && #[trigger] is_href_start(evs[k]) && forall|m: int|
                    k < m < n + 1 ==> !is_href_end(#[trigger] evs[m]);
            assert(k < n);
            assert(forall|m: int| k < m < n ==> !is_href_end(#[trigger] evs[m]));
        }
        if inside_href(evs, n) {
            let k = choose|k: int|
                0 <= k < n && #[trigger] is_href_start(evs[k]) && forall|m: int|
                    k < m < n ==> !is_href_end(#[trigger] evs[m]);
            assert(forall|m: int| k < m < n + 1 ==> !is_href_end(#[trigger] evs[m]));
        }
    }
}

/// Some href text among the first `n` events gives the entry `e`.
pub open spec fn href_gives_before(
    base_path: Seq<char>,
    requested: Seq<char>,
    evs: Seq<XmlEvent>,
    e: (Seq<char>, bool),
    n: int,
) -> bool {
    exists|j: int| 0 <= j < n && #[trigger] href_text_gives(base_path, requested, evs, j, e)
}

/// Every entry has an href text among the first `n` events that gives it.
pub open spec fn entries_from_hrefs(
    base_path: Seq<char>,
    requested: Seq<char>,
    evs: Seq<XmlEvent>,
    es: Seq<(Seq<char>, bool)>,
    n: int,
) -> bool {
    forall|i: int|
        0 <= i < es.len() ==> href_gives_before(base_path, requested, evs, #[trigger] es[i], n)
}

/// Every href text among the first `n` events before the document's end
/// gives an entry that is listed.
pub open spec fn hrefs_listed(
    base_path: Seq<char>,
    requested: Seq<char>,
    evs: Seq<XmlEvent>,
    es: Seq<(Seq<char>, bool)>,
    n: int,
) -> bool {
    forall|j: int, e: (Seq<char>, bool)|
        0 <= j < n && #[trigger] href_text_gives(base_path, requested, evs, j, e) && no_eof_before(
            evs,
            j,
        ) ==> es.contains(e)
}

proof fn lemma_entries_from_hrefs_grow(
    base_path: Seq<char>,
    requested: Seq<char>,
    evs: Seq<XmlEvent>,
    es: Seq<(Seq<char>, bool)>,
    p: int,
)
    requires
        entries_from_hrefs(base_path, requested, evs, es, p),
    ensures
        entries_from_hrefs(base_path, requested, evs, es, p + 1),
{
    assert forall|i: int| 0 <= i < es.len() implies href_gives_before(
        base_path,
        requested,
        evs,
        #[trigger] es[i],
        p + 1,
    ) by {
        assert(href_gives_before(base_path, requested, evs, es[i], p));
        let j = choose|j: int| 0 <= j < p && #[trigger] href_text_gives(base_path, requested, evs, j, es[i]);
        assert(href_text_gives(base_path, requested, evs, j, es[i]));
    }
}

proof fn lemma_entries_from_hrefs_push(
    base_path: Seq<char>,
    requested: Seq<char>,
    evs: Seq<XmlEvent>,
    es: Seq<(Seq<char>, bool)>,
    p: int,
    e0: (Seq<char>, bool),
)
    requires
        entries_from_hrefs(base_path, requested, evs, es, p),
        href_text_gives(base_path, requested, evs, p, e0),
    ensures
        entries_from_hrefs(base_path, requested, evs, es.push(e0), p + 1),
{
    lemma_entries_from_hrefs_grow(base_path, requested, evs, es, p);
    let es2 = es.push(e0);
    assert forall|i: int| 0 <= i < es2.len() implies href_gives_before(
        base_path,
        requested,
        evs,
        #[trigger] es2[i],
        p + 1,
    ) by {
        if i < es.len() {
            assert(es2[i] == es[i]);
            assert(href_gives_before(base_path, requested, evs, es[i], p + 1));
        } else {
            assert(es2[i] == e0);
            assert(href_text_gives(base_path, requested, evs, p, es2[i]));
        }
    }
}

proof fn lemma_propfind_prefix(base_path: Seq<char>, requested: Seq<char>, evs: Seq<XmlEvent>, n: int)
    requires
        0 <= n <= evs.len(),
    ensures
        match propfind_run(base_path, requested, evs.take(n)) {
            PropfindState::Reading { in_href, entries } => {
                &&& in_href == inside_href(evs, n)
                &&& entries_from_hrefs(base_path, requested, evs, entries, n)
                &&& hrefs_listed(base_path, requested, evs, entries, n)
            },
            PropfindState::Finished(Ok(es)) => {
                &&& entries_from_hrefs(base_path, requested, evs, es, n)
                &&& hrefs_listed(base_path, requested, evs, es, n)
                &&& !no_eof_before(evs, n)
            },
            PropfindState::Finished(Err(_)) => true,
        },
    decreases n,
{
    if n == 0 {
        assert(evs.take(0) =~= Seq::<XmlEvent>::empty());
    } else {
        let p = n - 1;
        lemma_propfind_prefix(base_path, requested, evs, p);
        assert(evs.take(n).drop_last() =~= evs.take(p));
        assert(evs.take(n).last() == evs[p]);
        let st = propfind_run(base_path, requested, evs.take(p));
        assert(propfind_run(base_path, requested, evs.take(n)) == propfind_step(
            base_path,
            requested,
            st,
            evs[p],
        ));
        lemma_inside_href_step(evs, p);
        match st {
            PropfindState::Finished(r) => {
                if r is Ok {
                    let es = r->Ok_0;
                    lemma_entries_from_hrefs_grow(base_path, requested, evs, es, p);
                    assert forall|j: int, e: (Seq<char>, bool)|
                        0 <= j < n && #[trigger] href_text_gives(base_path, requested, evs, j, e)
                            && no_eof_before(evs, j) implies es.contains(e) by {
                        if j == p {
                            assert(!no_eof_before(evs, p));
                        }
                    }
                    assert(!no_eof_before(evs, n)) by {
                        let m = choose|m: int| 0 <= m < p && #[trigger] evs[m] is Eof;
                        assert(evs[m] is Eof);
                    }
                }
            },
            PropfindState::Reading { in_href, entries } => {
                let gives = evs[p] is Text && evs[p]->Text_0 is Ok && in_href && entry_from_href_spec(
                    base_path,
                    evs[p]->Text_0->Ok_0@,
                    requested,
                ) is Ok && entry_from_href_spec(
                    base_path,
                    evs[p]->Text_0->Ok_0@,
                    requested,
                )->Ok_0 is Some;
                if gives {
                    let e0 = entry_from_href_spec(
                        base_path,
                        evs[p]->Text_0->Ok_0@,
                        requested,
                    )->Ok_0->Some_0;
                    let es = entries.push(e0);
                    assert(href_text_gives(base_path, requested, evs, p, e0));
                    lemma_entries_from_hrefs_push(base_path, requested, evs, entries, p, e0);
                    assert forall|j: int, e: (Seq<char>, bool)|
                        0 <= j < n && #[trigger] href_text_gives(base_path, requested, evs, j, e)
                            && no_eof_before(evs, j) implies es.contains(e) by {
                        if j == p {
                            assert(e == e0);
                            assert(es[es.len() - 1] == e0);
                        } else {
                            assert(entries.contains(e));
                            let q = choose|q: int| 0 <= q < entries.len() && entries[q] == e;
                            assert(es[q] == e);
                        }
                    }
                } else {
                    lemma_entries_from_hrefs_grow(base_path, requested, evs, entries, p);
                    assert forall|j: int, e: (Seq<char>, bool)|
                        0 <= j < n && #[trigger] href_text_gives(base_path, requested, evs, j, e)
                            && no_eof_before(evs, j) implies entries.contains(e) by {
                        if j == p {
                            assert(false);
                        }
                    }
                    if evs[p] is Eof {
                        assert(!no_eof_before(evs, n));
                    }
                }
            },
        }
    }
}

/// Law: a listing comes from the `href` elements of the document, and from
/// nothing else. Each listed entry is what the text of some `href` element
/// stands for (text elsewhere, such as a `status` or `displayname`, never
/// gives one), and each `href` text before the document's end whose href
/// stands for an entry is listed.
pub proof fn law_listing_comes_from_hrefs(
    base_path: Seq<char>,
    requested: Seq<char>,
    evs: Seq<XmlEvent>,
)
    ensures
        propfind_spec(base_path, requested, evs) matches Ok(es) ==> {
            &&& forall|i: int|
                0 <= i < es.len() ==> href_gives_before(
                    base_path,
                    requested,
                    evs,
                    #[trigger] es[i],
                    evs.len() as int,
                )
            &&& forall|j: int, e: (Seq<char>, bool)|
                #[trigger] href_text_gives(base_path, requested, evs, j, e) && no_eof_before(evs, j)
                    ==> es.contains(e)
        },
{
    lemma_propfind_prefix(base_path, requested, evs, evs.len() as int);
    assert(evs.take(evs.len() as int) =~= evs);
    if propfind_spec(base_path, requested, evs) is Ok {
        let es = propfind_spec(base_path, requested, evs)->Ok_0;
        assert(entries_from_hrefs(base_path, requested, evs, es, evs.len() as int));
    }
}

/// The listing entries of a PROPFIND response, given as its reader events.
pub fn propfind_entries(base_path: &str, events: &Vec<XmlEvent>, requested: &str) -> (r: Result<
    Vec<DavEntry>,
    WebdavError,
>)
    ensures
        listing_view(r) == propfind_spec(base_path@, requested@, events@),
{
    let ghost evs = events@;
    let mut in_href = false;
    let mut entries: Vec<DavEntry> = Vec::new();
    let mut i: usize = 0;
    proof {
        assert(evs.take(0) =~= Seq::<XmlEvent>::empty());
        assert(entry_views(entries@) =~= Seq::<(Seq<char>, bool)>::empty());
    }
    while i < events.len()
        invariant
            i <= evs.len(),
            evs == events@,
            propfind_run(base_path@, requested@, evs.take(i as int)) == (PropfindState::Reading {
                in_href,
                entries: entry_views(entries@),
            }),
        decreases evs.len() - i,
    {
        proof {
            assert(evs.take(i + 1).drop_last() =~= evs.take(i as int));
            assert(evs.take(i + 1).last() == evs[i as int]);
        }
        match &events[i] {
            XmlEvent::Start(n) => {
                if name_is_href(n) {
                    in_href = true;
                }
            },
            XmlEvent::Text(t) => {
                if in_href {
                    match t {
                        Err(m) => {
                            proof {
                                lemma_propfind_finished(base_path@, requested@, evs, i + 1);
                            }
                            return Err(WebdavError::Xml(m.clone()));
                        },
                        Ok(h) => {
                            match entry_from_href(base_path, h.as_str(), requested) {
                                Err(e) => {
                                    proof {
                                        lemma_propfind_finished(base_path@, requested@, evs, i + 1);
                                    }
                                    return Err(e);
                                },
                                Ok(None) => {},
                                Ok(Some(e)) => {
                                    let ghost before = entry_views(entries@);
                                    entries.push(e);
                                    proof {
                                        assert(entry_views(entries@) =~= before.push(e@));
                                    }
                                },
                            }
                        },
                    }
                }
            },
            XmlEvent::End(n) => {
                if name_is_href(n) {
                    in_href = false;
                }
            },
            XmlEvent::Eof => {
                proof {
                    lemma_propfind_finished(base_path@, requested@, evs, i + 1);
                }
                return Ok(entries);
            },
            XmlEvent::Failed(m) => {
                proof {
                    lemma_propfind_finished(base_path@, requested@, evs, i + 1);
                }
                return Err(WebdavError::Xml(m.clone()));
            },
            XmlEvent::Other => {},
        }
        i = i + 1;
    }
    proof {
        assert(evs.take(evs.len() as int) =~= evs);
    }
    Ok(entries)
}

/// Parses a PROPFIND response body into listing entries.
pub fn parse_propfind(base_path: &str, xml: &str, requested: &str) -> (r: Result<
    Vec<DavEntry>,
    WebdavError,
>)
    ensures
        listing_view(r) == propfind_spec(base_path@, requested@, xml_events_of(xml@)),
{
    let events = xml_events(xml);
    propfind_entries(base_path, &events, requested)
}

/// The reason phrase that the `http` crate knows for a status code.
pub uninterp spec fn status_reason_of(code: u16) -> Option<Seq<char>>;

/// `reqwest::StatusCode::from_u16(code)` and then `canonical_reason()`; the
/// result is a function of `code`, named `status_reason_of`.
#[verifier::external_body]
fn status_reason(code: u16) -> (r: Option<&'static str>)
    ensures
        match r {
            Some(s) => status_reason_of(code) == Some(s@),
            None => status_reason_of(code) is None,
        },
{
    reqwest::StatusCode::from_u16(code).ok().and_then(|s| s.canonical_reason())
}

/// A status code as the `http` crate displays it: the number and its reason
/// phrase.
pub open spec fn status_text(code: u16) -> Seq<char> {
    crate::text::decimal(code as nat) + seq![' '] + match status_reason_of(code) {
        Some(r) => r,
        None => "<unknown status code>"@,
    }
}

/// The text of each WebDAV error.
pub open spec fn webdav_error_message(e: WebdavError) -> Seq<char> {
    match e {
        WebdavError::InvalidBaseUrl(s) => "invalid WebDAV base URL: "@ + s@,
        WebdavError::InvalidPath(p) => "invalid vault path: "@ + path_error_message(p@),
        WebdavError::Http(s) => "HTTP request failed: "@ + s@,
        WebdavError::Status { status, context } => "WebDAV request failed with status "@
            + status_text(status) + ": "@ + context@,
        WebdavError::Xml(s) => "failed to parse WebDAV XML: "@ + s@,
    }
}

impl WebdavError {
    /// The error's message.
    pub fn message(&self) -> (r: String)
        ensures
            r@ == webdav_error_message(*self),
    {
        let mut v: Vec<char> = Vec::new();
        match self {
            WebdavError::InvalidBaseUrl(s) => {
                extend_str(&mut v, "invalid WebDAV base URL: ");
                extend_str(&mut v, s.as_str());
            },
            WebdavError::InvalidPath(p) => {
                extend_str(&mut v, "invalid vault path: ");
                extend_str(&mut v, p.message().as_str());
            },
            WebdavError::Http(s) => {
                extend_str(&mut v, "HTTP request failed: ");
                extend_str(&mut v, s.as_str());
            },
            WebdavError::Status { status, context } => {
                extend_str(&mut v, "WebDAV request failed with status ");
                crate::text::push_padded_int(&mut v, *status as i64, 1);
                proof {
                    assert(crate::text::padded_int(*status as int, 1) =~= crate::text::decimal(
                        *status as nat,
                    )) by {
                        crate::text::lemma_decimal_nonempty(*status as nat);
                    }
                }
                v.push(' ');
                match status_reason(*status) {
                    Some(r) => extend_str(&mut v, r),
                    None => extend_str(&mut v, "<unknown status code>"),
                }
                extend_str(&mut v, ": ");
                extend_str(&mut v, context.as_str());
            },
            WebdavError::Xml(s) => {
                extend_str(&mut v, "failed to parse WebDAV XML: ");
                extend_str(&mut v, s.as_str());
            },
        }
        proof {
            assert(v@ =~= webdav_error_message(*self));
        }
        string_of(&v)
    }
}

/// A 2xx status.
pub open spec fn is_success_status(code: u16) -> bool {
    200 <= code && code <= 299
}

/// `Ok` for a 2xx status, else the status error with the request's name.
pub fn ensure_success(status: u16, context: &str) -> (r: Result<(), WebdavError>)
    ensures
        match r {
            Ok(_) => is_success_status(status),
            Err(e) => !is_success_status(status) && e@ == (DavFault::Status {
                status,
                context: context@,
            }),
        },
{
    if 200 <= status && status <= 299 {
        Ok(())
    } else {
        Err(WebdavError::Status { status, context: context.to_owned() })
    }
}

/// The outcome of MKCOL: a 2xx status, or 405 for a collection that already
/// exists, is success.
pub fn mkcol_outcome(status: u16) -> (r: Result<(), WebdavError>)
    ensures
        match r {
            Ok(_) => is_success_status(status) || status == 405,
            Err(e) => !(is_success_status(status) || status == 405) && e@ == (DavFault::Status {
                status,
                context: "MKCOL"@,
            }),
        },
{
    if (200 <= status && status <= 299) || status == 405 {
        Ok(())
    } else {
        Err(WebdavError::Status { status, context: "MKCOL".to_owned() })
    }
}

/// The outcome of HEAD: 404 means absent, 2xx present, anything else fails.
pub fn exists_outcome(status: u16) -> (r: Result<bool, WebdavError>)
    ensures
        match r {
            Ok(b) => (status == 404 && !b) || (status != 404 && is_success_status(status) && b),
            Err(e) => status != 404 && !is_success_status(status) && e@ == (DavFault::Status {
                status,
                context: "HEAD"@,
            }),
        },
{
    if status == 404 {
        return Ok(false);
    }
    ensure_success(status, "HEAD")?;
    Ok(true)
}


/// The `Overwrite` header: `T` or `F`.
pub fn overwrite_header(overwrite: bool) -> (r: &'static str)
    ensures
        r@ == if overwrite {
            "T"@
        } else {
            "F"@
        },
{
    if overwrite {
        "T"
    } else {
        "F"
    }
}

/// Each character ASCII-lower-cased.
pub open spec fn ascii_lowercase(s: Seq<char>) -> Seq<char> {
    s.map_values(|c: char| crate::text::ascii_lower(c))
}

/// Each character ASCII-upper-cased.
pub open spec fn ascii_uppercase(s: Seq<char>) -> Seq<char> {
    s.map_values(|c: char| crate::text::ascii_upper(c))
}

pub(crate) fn to_ascii_lowercase(v: &[char]) -> (r: Vec<char>)
    ensures
        r@ == ascii_lowercase(v@),
{
    let mut r: Vec<char> = Vec::new();
    let mut i: usize = 0;
    while i < v.len()
        invariant
            i <= v@.len(),
            r@ == ascii_lowercase(v@.take(i as int)),
        decreases v@.len() - i,
    {
        r.push(crate::text::char_ascii_lower(v[i]));
        proof {
            assert(r@ =~= ascii_lowercase(v@.take(i + 1)));
        }
        i = i + 1;
    }
    proof {
        assert(v@.take(v@.len() as int) =~= v@);
    }
    r
}

fn to_ascii_uppercase(v: &[char]) -> (r: Vec<char>)
    ensures
        r@ == ascii_uppercase(v@),
{
    let mut r: Vec<char> = Vec::new();
    let mut i: usize = 0;
    while i < v.len()
        invariant
            i <= v@.len(),
            r@ == ascii_uppercase(v@.take(i as int)),
        decreases v@.len() - i,
    {
        r.push(crate::text::char_ascii_upper(v[i]));
        proof {
            assert(r@ =~= ascii_uppercase(v@.take(i + 1)));
        }
        i = i + 1;
    }
    proof {
        assert(v@.take(v@.len() as int) =~= v@);
    }
    r
}

/// The `Timeout` header of a LOCK: `Infinite` for `infinite` in any case,
/// the value itself when it already starts with `Second-` in any case, and
/// `Second-` followed by the value otherwise.
pub open spec fn lock_timeout_header_spec(timeout: Seq<char>) -> Seq<char> {
    if ascii_lowercase(timeout) == "infinite"@ {
        "Infinite"@
    } else if starts_with(ascii_lowercase(timeout), "second-"@) {
        timeout
    } else {
        "Second-"@ + timeout
    }
}

/// The `Timeout` header for a LOCK request.
pub fn lock_timeout_header(timeout: &str) -> (r: String)
    ensures
        r@ == lock_timeout_header_spec(timeout@),
{
    let lower = to_ascii_lowercase(&chars_of(timeout));
    if crate::text::chars_eq_str(&lower, "infinite") {
        "Infinite".to_owned()
    } else if starts_with_exec(&lower, &chars_of("second-")) {
        timeout.to_owned()
    } else {
        let mut v = chars_of("Second-");
        extend_str(&mut v, timeout);
        string_of(&v)
    }
}

/// A lock token inside angle brackets, as the `Lock-Token` header wants it.
pub open spec fn normalize_lock_token_spec(token: Seq<char>) -> Seq<char> {
    let t = crate::text::trim(token);
    if starts_with(t, seq!['<']) && ends_with(t, seq!['>']) {
        t
    } else {
        seq!['<'] + t + seq!['>']
    }
}

/// The token trimmed and put in angle brackets unless it already is.
pub fn normalize_lock_token(token: &str) -> (r: String)
    ensures
        r@ == normalize_lock_token_spec(token@),
{
    let t = crate::text::trim_chars(&chars_of(token));
    let mut open: Vec<char> = Vec::new();
    open.push('<');
    let mut close: Vec<char> = Vec::new();
    close.push('>');
    if starts_with_exec(&t, &open) && ends_with_exec(&t, &close) {
        string_of(&t)
    } else {
        let mut v = open;
        extend_chars(&mut v, &t);
        v.push('>');
        string_of(&v)
    }
}

/// The XML escape of one character.
pub open spec fn xml_escape_char(c: char) -> Seq<char> {
    if c == '&' {
        "&amp;"@
    } else if c == '<' {
        "&lt;"@
    } else if c == '>' {
        "&gt;"@
    } else if c == '"' {
        "&quot;"@
    } else if c == '\'' {
        "&apos;"@
    } else {
        seq![c]
    }
}

/// `s` with `&`, `<`, `>`, `"` and `'` escaped as XML entities.
pub open spec fn escape_xml_spec(s: Seq<char>) -> Seq<char> {
    crate::markdown::flat_map_chars(s, |c: char| xml_escape_char(c))
}

/// Escapes `&` first, then `<`, `>`, `"` and `'`, as XML entities.
pub fn escape_xml(value: &str) -> (r: String)
    ensures
        r@ == escape_xml_spec(value@),
{
    let input = chars_of(value);
    let mut r: Vec<char> = Vec::new();
    let mut i: usize = 0;
    while i < input.len()
        invariant
            i <= input@.len(),
            r@ == escape_xml_spec(input@.take(i as int)),
        decreases input@.len() - i,
    {
        let c = input[i];
        proof {
            assert(input@.take(i + 1).drop_last() =~= input@.take(i as int));
            assert(input@.take(i + 1).last() == c);
        }
        if c == '&' {
            extend_str(&mut r, "&amp;");
        } else if c == '<' {
            extend_str(&mut r, "&lt;");
        } else if c == '>' {
            extend_str(&mut r, "&gt;");
        } else if c == '"' {
            extend_str(&mut r, "&quot;");
        } else if c == '\'' {
            extend_str(&mut r, "&apos;");
        } else {
            r.push(c);
        }
        i = i + 1;
    }
    proof {
        assert(input@.take(input@.len() as int) =~= input@);
    }
    string_of(&r)
}

/// The body of a LOCK request: a write lock, shared when the scope is
/// `shared` in any case and exclusive otherwise, with the owner (escaped)
/// when one is given.
pub open spec fn lock_body_spec(scope: Seq<char>, owner: Option<Seq<char>>) -> Seq<char> {
    let sc = if ascii_lowercase(scope) == "shared"@ {
        "shared"@
    } else {
        "exclusive"@
    };
    let ow = match owner {
        Some(o) => "<d:owner>"@ + escape_xml_spec(o) + "</d:owner>"@,
        None => Seq::empty(),
    };
    "<?xml version=\"1.0\" encoding=\"utf-8\"?><d:lockinfo xmlns:d=\"DAV:\"><d:lockscope><d:"@ + sc
        + "/></d:lockscope><d:locktype><d:write/></d:locktype>"@ + ow + "</d:lockinfo>"@
}

/// Law: the owner element does not depend on the scope. With an owner `o`,
/// the LOCK body is the body without one, with
/// `<d:owner>` + escaped `o` + `</d:owner>` put just before the closing
/// `</d:lockinfo>`, whatever the scope; so it always holds that element.
pub proof fn law_lock_owner_whatever_the_scope(scope: Seq<char>, o: Seq<char>)
    ensures
        ({
            let without = lock_body_spec(scope, None);
            let close = "</d:lockinfo>"@;
            let owner_element = "<d:owner>"@ + escape_xml_spec(o) + "</d:owner>"@;
            &&& without.len() >= close.len()
            &&& without.subrange(without.len() - close.len(), without.len() as int) == close
            &&& lock_body_spec(scope, Some(o)) == without.subrange(
                0,
                without.len() - close.len(),
            ) + owner_element + close
            &&& contains_seq(lock_body_spec(scope, Some(o)), owner_element)
        }),
{
    reveal_strlit("</d:lockinfo>");
    let without = lock_body_spec(scope, None);
    let close = "</d:lockinfo>"@;
    let owner_element = "<d:owner>"@ + escape_xml_spec(o) + "</d:owner>"@;
    let sc = if ascii_lowercase(scope) == "shared"@ {
        "shared"@
    } else {
        "exclusive"@
    };
    let head = "<?xml version=\"1.0\" encoding=\"utf-8\"?><d:lockinfo xmlns:d=\"DAV:\"><d:lockscope><d:"@
        + sc + "/></d:lockscope><d:locktype><d:write/></d:locktype>"@;
    assert(without =~= head + close);
    assert(without.subrange(0, without.len() - close.len()) =~= head);
    assert(without.subrange(without.len() - close.len(), without.len() as int) =~= close);
    let full = lock_body_spec(scope, Some(o));
    assert(full =~= head + owner_element + close);
    assert(full.subrange(head.len() as int, (head.len() + owner_element.len()) as int) =~= owner_element);
    assert(occurs_at(full, owner_element, head.len() as int));
}

/// Law: the lock is shared exactly when the scope is `shared` in any
/// letter case, and exclusive for every other scope; it is always a write
/// lock.
pub proof fn law_lock_scope(scope: Seq<char>, owner: Option<Seq<char>>)
    ensures
        ({
            let b = lock_body_spec(scope, owner);
            &&& ascii_lowercase(scope) == "shared"@ ==> contains_seq(
                b,
                "<d:lockscope><d:shared/></d:lockscope>"@,
            )
            &&& ascii_lowercase(scope) != "shared"@ ==> contains_seq(
                b,
                "<d:lockscope><d:exclusive/></d:lockscope>"@,
            )
            &&& contains_seq(b, "<d:locktype><d:write/></d:locktype>"@)
        }),
{
    let sc = if ascii_lowercase(scope) == "shared"@ {
        "shared"@
    } else {
        "exclusive"@
    };
    let ow = match owner {
        Some(o) => "<d:owner>"@ + escape_xml_spec(o) + "</d:owner>"@,
        None => Seq::empty(),
    };
    let pre = "<?xml version=\"1.0\" encoding=\"utf-8\"?><d:lockinfo xmlns:d=\"DAV:\">"@;
    let scope_el = "<d:lockscope><d:"@ + sc + "/></d:lockscope>"@;
    let type_el = "<d:locktype><d:write/></d:locktype>"@;
    let b = lock_body_spec(scope, owner);
    reveal_strlit("<?xml version=\"1.0\" encoding=\"utf-8\"?><d:lockinfo xmlns:d=\"DAV:\"><d:lockscope><d:");
    reveal_strlit("<?xml version=\"1.0\" encoding=\"utf-8\"?><d:lockinfo xmlns:d=\"DAV:\">");
    reveal_strlit("<d:lockscope><d:");
    reveal_strlit("/></d:lockscope><d:locktype><d:write/></d:locktype>");
    reveal_strlit("/></d:lockscope>");
    reveal_strlit("<d:locktype><d:write/></d:locktype>");
    reveal_strlit("<d:lockscope><d:shared/></d:lockscope>");
    reveal_strlit("<d:lockscope><d:exclusive/></d:lockscope>");
    reveal_strlit("shared");
    reveal_strlit("exclusive");
    assert(b =~= pre + scope_el + type_el + (ow + "</d:lockinfo>"@));
    assert(b.subrange(pre.len() as int, (pre.len() + scope_el.len()) as int) =~= scope_el);
    assert(occurs_at(b, scope_el, pre.len() as int));
    let k: int = (pre.len() + scope_el.len()) as int;
    assert(b.subrange(k, k + type_el.len()) =~= type_el);
    assert(occurs_at(b, type_el, k));
    if ascii_lowercase(scope) == "shared"@ {
        assert(scope_el =~= "<d:lockscope><d:shared/></d:lockscope>"@);
    } else {
        assert(scope_el =~= "<d:lockscope><d:exclusive/></d:lockscope>"@);
    }
}

/// The XML body of a LOCK request.
pub fn lock_body(scope: &str, owner: Option<&str>) -> (r: String)
    ensures
        r@ == lock_body_spec(
            scope@,
            match owner {
                Some(o) => Some(o@),
                None => None,
            },
        ),
{
    let lower = to_ascii_lowercase(&chars_of(scope));
    let sc = if crate::text::chars_eq_str(&lower, "shared") {
        "shared"
    } else {
        "exclusive"
    };
    let mut v: Vec<char> = Vec::new();
    extend_str(
        &mut v,
        "<?xml version=\"1.0\" encoding=\"utf-8\"?><d:lockinfo xmlns:d=\"DAV:\"><d:lockscope><d:",
    );
    extend_str(&mut v, sc);
    extend_str(&mut v, "/></d:lockscope><d:locktype><d:write/></d:locktype>");
    if let Some(o) = owner {
        extend_str(&mut v, "<d:owner>");
        extend_str(&mut v, escape_xml(o).as_str());
        extend_str(&mut v, "</d:owner>");
    }
    extend_str(&mut v, "</d:lockinfo>");
    string_of(&v)
}

/// The methods an `Allow` header lists: split at commas, trimmed,
/// ASCII-upper-cased, blanks dropped.
pub open spec fn allow_methods(parts: Seq<Seq<char>>) -> Seq<Seq<char>>
    decreases parts.len(),
{
    if parts.len() == 0 {
        Seq::empty()
    } else {
        let m = ascii_uppercase(crate::text::trim(parts.last()));
        let prev = allow_methods(parts.drop_last());
        if m.len() == 0 {
            prev
        } else {
            prev.push(m)
        }
    }
}

/// The methods of an `Allow` header (an absent header reads as empty).
pub fn parse_allow_header(allow: &str) -> (r: Vec<String>)
    ensures
        crate::text::string_views(r@) == allow_methods(split_char(allow@, ',')),
{
    let parts = split_chars(&chars_of(allow), ',');
    let ghost pv = views(parts@);
    let mut r: Vec<String> = Vec::new();
    let mut i: usize = 0;
    proof {
        assert(pv.take(0) =~= Seq::<Seq<char>>::empty());
        assert(crate::text::string_views(r@) =~= Seq::<Seq<char>>::empty());
    }
    while i < parts.len()
        invariant
            i <= parts@.len(),
            pv == views(parts@),
            crate::text::string_views(r@) == allow_methods(pv.take(i as int)),
        decreases parts@.len() - i,
    {
        proof {
            assert(pv.take(i + 1).drop_last() =~= pv.take(i as int));
            assert(pv.take(i + 1).last() == parts@[i as int]@);
        }
        let m = to_ascii_uppercase(&crate::text::trim_chars(&parts[i]));
        if m.len() > 0 {
            let ghost before = crate::text::string_views(r@);
            r.push(string_of(&m));
            proof {
                assert(crate::text::string_views(r@) =~= before.push(m@));
            }
        }
        i = i + 1;
    }
    proof {
        assert(pv.take(parts@.len() as int) =~= pv);
    }
    r
}

/// The encoded form of each piece, in order.
pub open spec fn encode_all(segs: Seq<Seq<char>>) -> Seq<Seq<char>> {
    segs.map_values(|seg: Seq<char>| percent_encode_path_spec(seg))
}

proof fn lemma_encoded_segments_all(segs: Seq<Seq<char>>)
    requires
        forall|i: int| 0 <= i < segs.len() ==> (#[trigger] segs[i]).len() > 0,
    ensures
        encoded_segments(segs) == encode_all(segs),
    decreases segs.len(),
{
    if segs.len() > 0 {
        let init = segs.drop_last();
        assert forall|i: int| 0 <= i < init.len() implies (#[trigger] init[i]).len() > 0 by {
            assert(init[i] == segs[i]);
        }
        lemma_encoded_segments_all(init);
        assert(segs.last() == segs[segs.len() - 1]);
        assert(encode_all(segs) =~= encode_all(init).push(percent_encode_path_spec(segs.last())));
    } else {
        assert(encode_all(segs) =~= Seq::<Seq<char>>::empty());
    }
}

/// Encoding a path encodes each segment and keeps the `/` between them.
proof fn lemma_encode_joined(segs: Seq<Seq<char>>)
    requires
        segs.len() > 0,
    ensures
        percent_encode_path_spec(join(segs, slash())) == join(encode_all(segs), slash()),
    decreases segs.len(),
{
    if segs.len() > 1 {
        let init = segs.drop_last();
        lemma_encode_joined(init);
        lemma_encode_path_split_at_slash(join(init, slash()), segs.last());
        assert(join(segs, slash()) == join(init, slash()) + slash() + segs.last());
        assert(encode_all(segs).drop_last() =~= encode_all(init));
        assert(encode_all(segs).last() == percent_encode_path_spec(segs.last()));
    }
}

/// `://` does not appear in `a + y` when it is not in `a`, `a` does not end
/// with `/` and `y` holds no `//`.
#[verifier::spinoff_prover]
proof fn lemma_no_marker_after(a: Seq<char>, y: Seq<char>)
    requires
        !contains_seq(a, url_marker()),
        a.len() == 0 || a.last() != '/',
        no_double_slash(y),
    ensures
        !contains_seq(a + y, url_marker()),
{
    let h = a + y;
    if contains_seq(h, url_marker()) {
        let i = choose|i: int| occurs_at(h, url_marker(), i);
        assert(h.subrange(i, i + 3) == url_marker());
        assert(h[i + 1] == h.subrange(i, i + 3)[1]);
        assert(h[i + 2] == h.subrange(i, i + 3)[2]);
        if i + 3 <= a.len() {
            assert(a.subrange(i, i + 3) =~= h.subrange(i, i + 3));
            assert(occurs_at(a, url_marker(), i));
        } else if i + 1 >= a.len() {
            let j = i + 1 - a.len();
            assert(h[i + 1] == y[j] && h[i + 2] == y[j + 1]);
            assert(!(y[j] == '/' && y[j + 1] == '/'));
        } else {
            assert(h[i + 1] == a.last());
        }
    }
}

/// The encoded form of a normalized path free of `%`: the encoded
/// segments joined by `/`, neither starting nor ending with `/`, never
/// holding `//`, and decoding back to the path.
#[verifier::spinoff_prover]
proof fn lemma_encoded_path(raw: Seq<char>)
    requires
        normalize_spec(raw) is Ok,
        normalize_spec(raw)->Ok_0.len() > 0,
    ensures
        ({
            let p = normalize_spec(raw)->Ok_0;
            let e = percent_encode_path_spec(p);
            &&& join(encoded_segments(split_char(p, '/')), seq!['/']) == e
            &&& e.len() > 0
            &&& e[0] != '/'
            &&& e.last() != '/'
            &&& no_double_slash(e)
            &&& percent_decode_utf8_spec(e) == Some(p)
        }),
{
    let p = normalize_spec(raw)->Ok_0;
    law_normalized_path_is_clean(raw);
    let segs = choose|segs: Seq<Seq<char>>|
        normalize_spec(raw) == Ok::<Seq<char>, PathFault>(join(segs, slash())) && forall|i: int|
            0 <= i < segs.len() ==> is_clean_segment(#[trigger] segs[i]);
    assert(segs.len() > 0);
    assert forall|i: int| 0 <= i < segs.len() implies (#[trigger] segs[i]).len() > 0
        && !segs[i].contains('/') by {
        assert(is_clean_segment(segs[i]));
    }
    lemma_split_join(segs, '/');
    lemma_encoded_segments_all(segs);
    let enc = encode_all(segs);
    assert forall|i: int| 0 <= i < enc.len() implies (#[trigger] enc[i]).len() > 0 && !enc[i].contains(
        '/',
    ) by {
        lemma_encoded_segment_shape(segs[i]);
    }
    lemma_join_slash_free(enc);
    lemma_encode_joined(segs);
    law_percent_encoding_round_trips(p);
}

/// The href built for an encoded path `e` under `base_path` reads as a
/// path (not a URL), is a directory exactly when built as one, and leaves
/// `e` once the base path is taken off.
#[verifier::spinoff_prover]
proof fn lemma_built_href(base_path: Seq<char>, e: Seq<char>, as_dir: bool)
    requires
        e.len() > 0,
        e[0] != '/',
        e.last() != '/',
        no_double_slash(e),
        !contains_seq(base_path, url_marker()),
    ensures
        ({
            let full = strip_end_char(base_path, '/') + seq!['/'] + e;
            let hp = if as_dir {
                full.push('/')
            } else {
                full
            };
            &&& !ends_with(full, seq!['/'])
            &&& href_path_spec(hp) == Some(hp)
            &&& ends_with(hp, seq!['/']) == as_dir
            &&& relative_href(hp, base_path) == e
        }),
{
    let k = lemma_strip_end_shape(base_path, '/');
    let sb = strip_end_char(base_path, '/');
    let full = sb + seq!['/'] + e;
    assert(full.last() == e.last());
    assert(!ends_with(full, seq!['/'])) by {
        if ends_with(full, seq!['/']) {
            assert(full.subrange(full.len() - 1, full.len() as int)[0] == full.last());
        }
    }
    let hp = if as_dir {
        full.push('/')
    } else {
        full
    };
    let tail = if as_dir {
        seq!['/']
    } else {
        Seq::<char>::empty()
    };
    let x = e + tail;
    let y = seq!['/'] + x;
    assert(hp =~= sb + y);
    assert(x[0] == e[0]);
    assert(no_double_slash(y)) by {
        assert forall|i: int| 0 <= i < y.len() - 1 implies !(#[trigger] y[i] == '/' && y[i + 1]
            == '/') by {
            if i == 0 {
                assert(y[1] == e[0]);
            } else if i < e.len() {
                assert(y[i] == e[i - 1] && y[i + 1] == e[i]);
            } else {
                assert(y[i] == e.last());
            }
        }
    }
    assert(!contains_seq(sb, url_marker())) by {
        if contains_seq(sb, url_marker()) {
            let i = choose|i: int| occurs_at(sb, url_marker(), i);
            assert(base_path.subrange(i, i + 3) =~= sb.subrange(i, i + 3));
            assert(occurs_at(base_path, url_marker(), i));
        }
    }
    lemma_no_marker_after(sb, y);
    assert(contains_seq(hp, seq![':', '/', '/']) == contains_seq(hp, url_marker()));
    assert(ends_with(hp, seq!['/']) == as_dir) by {
        if as_dir {
            assert(hp.subrange(hp.len() - 1, hp.len() as int) =~= seq!['/']);
        } else {
            assert(hp.last() == e.last());
            if ends_with(hp, seq!['/']) {
                assert(hp.subrange(hp.len() - 1, hp.len() as int)[0] == hp.last());
            }
        }
    }
    let stripped = if starts_with(hp, base_path) {
        hp.subrange(base_path.len() as int, hp.len() as int)
    } else if starts_with(hp, sb) {
        hp.subrange(sb.len() as int, hp.len() as int)
    } else {
        hp
    };
    assert(hp.subrange(0, sb.len() as int) =~= sb);
    if base_path.len() == k {
        assert(base_path =~= sb);
        assert(stripped =~= y);
    } else if base_path.len() == k + 1 {
        assert(base_path =~= sb + seq!['/']);
        assert(hp.subrange(0, k + 1) =~= sb + seq!['/']);
        assert(stripped =~= x);
    } else {
        assert(!starts_with(hp, base_path)) by {
            if starts_with(hp, base_path) {
                assert(hp.subrange(0, base_path.len() as int)[k + 1] == base_path[k + 1]);
                assert(hp[k + 1] == x[0]);
            }
        }
        assert(stripped =~= y);
    }
    assert(y.drop_first() =~= x);
    assert(strip_start_char(y, '/') == strip_start_char(x, '/'));
    assert(strip_start_char(x, '/') == x);
    if as_dir {
        assert(x.last() == '/');
        assert(x.drop_last() =~= e);
        assert(strip_end_char(e, '/') == e);
    } else {
        assert(x =~= e);
    }
}

/// Law: a listing reads back the path that a URL was built for. The entry
/// for the href of the URL path that `url_for` builds under the base path
/// is that same normalized path, a directory exactly when the URL was
/// built for one; for any path but the listed directory. Left out: paths
/// holding `%`, whose entries go through percent-decoding twice, and base
/// paths holding `://`, whose hrefs read as whole URLs.
#[verifier::spinoff_prover]
pub proof fn law_listing_reads_back_url_paths(
    base_path: Seq<char>,
    raw: Seq<char>,
    as_dir: bool,
    requested: Seq<char>,
)
    requires
        normalize_spec(raw) is Ok,
        normalize_spec(raw)->Ok_0.len() > 0,
        !normalize_spec(raw)->Ok_0.contains('%'),
        normalize_spec(raw)->Ok_0 != requested,
        !contains_seq(base_path, url_marker()),
    ensures
        entry_from_href_spec(
            base_path,
            url_path_for_spec(base_path, normalize_spec(raw)->Ok_0, as_dir),
            requested,
        ) == Ok::<Option<(Seq<char>, bool)>, DavFault>(Some((normalize_spec(raw)->Ok_0, as_dir))),
{
    let p = normalize_spec(raw)->Ok_0;
    let e = percent_encode_path_spec(p);
    lemma_encoded_path(raw);
    lemma_built_href(base_path, e, as_dir);
    law_normalization_idempotent(raw);
    let hp = url_path_for_spec(base_path, p, as_dir);
    assert(hp == if as_dir {
        (strip_end_char(base_path, '/') + seq!['/'] + e).push('/')
    } else {
        strip_end_char(base_path, '/') + seq!['/'] + e
    });
}

} // verus!
