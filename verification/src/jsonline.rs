//! HTTP requests in the Yandex.Tank JSON ammo format.

use std::str::FromStr;

use http::{HeaderMap, HeaderName, HeaderValue, Method, Uri};
use vstd::prelude::*;
use vstd::string::*;
use vstd::utf8::*;

verus! {

/// The header value of the `http` crate.
#[verifier::external_type_specification]
#[verifier::external_body]
pub struct ExHeaderValue(http::HeaderValue);

/// The header collection of the `http` crate.
#[verifier::external_type_specification]
#[verifier::external_body]
#[verifier::reject_recursive_types(T)]
pub struct ExHeaderMap<T>(http::HeaderMap<T>);

/// The names and values in a header collection, in the order in which it is walked.
pub uninterp spec fn header_entries(map: HeaderMap<HeaderValue>) -> Seq<(Seq<char>, Seq<u8>)>;

/// Whether a character code can stand in a token: letters, digits and some punctuation.
pub open spec fn is_token_code(c: int) -> bool {
    ||| 'a' as int <= c <= 'z' as int
    ||| 'A' as int <= c <= 'Z' as int
    ||| '0' as int <= c <= '9' as int
    ||| '#' as int <= c <= '\'' as int
    ||| '^' as int <= c <= '`' as int
    ||| c == '!' as int || c == '*' as int || c == '+' as int || c == '-' as int || c == '.' as int
    ||| c == '|' as int || c == '~' as int
}

/// The longest header name.
pub const MAX_HEADER_NAME_LEN: usize = 65535;

/// The lower case of an ASCII character.
pub open spec fn lower(c: char) -> char {
    if 'A' <= c <= 'Z' {
        (c as u32 + 32) as char
    } else {
        c
    }
}

/// The canonical form of a header name, in lower case, or `None` when the name is empty, too long or no
/// token.
pub open spec fn header_name(name: Seq<char>) -> Option<Seq<char>> {
    if 1 <= name.len() <= MAX_HEADER_NAME_LEN && forall|i: int|
        0 <= i < name.len() ==> is_token_code(#[trigger] name[i] as int) {
        Some(Seq::new(name.len(), |i: int| lower(name[i])))
    } else {
        None
    }
}

/// Whether `http::HeaderMap::try_insert` takes another entry into a header collection.
pub uninterp spec fn has_room(map: HeaderMap<HeaderValue>) -> bool;

/// The scheme, the authority, the path and the query that `http::Uri::from_str` finds in a text, or
/// `None` when it refuses the text.
pub uninterp spec fn uri_parts(text: Seq<char>) -> Option<
    (Option<Seq<char>>, Option<Seq<char>>, Seq<char>, Option<Seq<char>>),
>;

/// Whether the bytes can be a method: a token.
pub open spec fn is_method(bytes: Seq<u8>) -> bool {
    bytes.len() > 0 && forall|i: int| 0 <= i < bytes.len() ==> is_token_code(#[trigger] bytes[i] as int)
}

/// Whether a text is an authority to `http::uri::Authority::from_str`.
pub uninterp spec fn is_authority(text: Seq<char>) -> bool;

/// Whether the bytes can be the value of a header: no control characters but the tab.
pub open spec fn is_value(bytes: Seq<u8>) -> bool {
    forall|i: int| 0 <= i < bytes.len() ==> #[trigger] bytes[i] == 9 || (bytes[i] >= 32 && bytes[i] != 127)
}

/// Whether no name occurs twice.
pub open spec fn unique_names(entries: Seq<(Seq<char>, Seq<u8>)>) -> bool {
    forall|i: int, j: int| 0 <= i < j < entries.len() ==> #[trigger] entries[i].0 != #[trigger] entries[j].0
}

/// The entries after a value is set: it replaces the value of its name, or comes last under a new name.
pub open spec fn with_entry(entries: Seq<(Seq<char>, Seq<u8>)>, name: Seq<char>, value: Seq<u8>) -> Seq<
    (Seq<char>, Seq<u8>),
> {
    if exists|i: int| 0 <= i < entries.len() && (#[trigger] entries[i]).0 == name {
        let i = choose|i: int| 0 <= i < entries.len() && (#[trigger] entries[i]).0 == name;
        entries.update(i, (name, value))
    } else {
        entries.push((name, value))
    }
}

/// Names that a header collection holds without any risk of running into its maximum size.
pub const SAFE_HEADERS: usize = 6554;

/// Names that a header collection holds at most.
pub const MAX_HEADERS: usize = 24576;

/// Whether a collection holds the entries and has no room for another one.
pub open spec fn is_full(map: HeaderMap<HeaderValue>, entries: Seq<(Seq<char>, Seq<u8>)>) -> bool {
    header_entries(map) == entries && !has_room(map) && entries.len() >= SAFE_HEADERS
}

/// Whether the room of a collection ran out before all of the entries were in it.
pub open spec fn no_room_for(entries: Seq<(Seq<char>, Seq<u8>)>) -> bool {
    exists|k: int, map: HeaderMap<HeaderValue>| 0 <= k < entries.len() && #[trigger] is_full(map, entries.take(k))
}

/// Whether the names are in canonical form and the values are those of headers.
pub open spec fn entries_ok(entries: Seq<(Seq<char>, Seq<u8>)>) -> bool {
    forall|i: int|
        0 <= i < entries.len() ==> header_name((#[trigger] entries[i]).0) == Some(entries[i].0) && is_value(
            entries[i].1,
        )
}

/// Makes a header collection with `http::HeaderMap::new`; claims that it is empty.
#[verifier::external_body]
fn new_headers() -> (r: HeaderMap<HeaderValue>)
    ensures
        header_entries(r) == Seq::<(Seq<char>, Seq<u8>)>::empty(),
{
    HeaderMap::new()
}

/// Sets a header with `http::HeaderMap::try_insert`; returns whether there was room.
///
/// Claims that the value replaces that of the same lower-case name in its place, or is added at the end
/// of the walk; that nothing changes without room; that the room depends on the collection alone; that
/// there is room while fewer than [`SAFE_HEADERS`] names are held, and none once [`MAX_HEADERS`] are. In
/// between it rests on how the hashes of the names collide, which differs between machines and is left
/// unsaid.
#[verifier::external_body]
fn insert_header(map: &mut HeaderMap<HeaderValue>, name: &str, value: &[u8]) -> (r: bool)
    requires
        header_name(name@) is Some,
        is_value(value@),
        unique_names(header_entries(*old(map))),
    ensures
        r ==> header_entries(*final(map)) == with_entry(
            header_entries(*old(map)),
            header_name(name@).unwrap(),
            value@,
        ),
        !r ==> header_entries(*final(map)) == header_entries(*old(map)),
        r == has_room(*old(map)),
        header_entries(*old(map)).len() < SAFE_HEADERS ==> r,
        r ==> header_entries(*old(map)).len() < MAX_HEADERS,
{
    let name = HeaderName::from_str(name).unwrap();
    let value = HeaderValue::from_bytes(value).unwrap();
    map.try_insert(name, value).is_ok()
}

/// Walks a header collection with `http::HeaderMap::iter`; claims that the names and values come as
/// they are held, in order.
#[verifier::external_body]
fn list_headers(map: &HeaderMap<HeaderValue>) -> (r: Vec<(String, Vec<u8>)>)
    ensures
        entry_views(r@) == header_entries(*map),
{
    map.iter().map(|(n, v)| (n.as_str().to_string(), v.as_bytes().to_vec())).collect()
}

/// Checks a header name with `http::HeaderName::from_str`; claims that it takes the tokens that are not
/// too long.
#[verifier::external_body]
fn is_header_name(name: &str) -> (r: bool)
    ensures
        r == header_name(name@) is Some,
{
    HeaderName::from_str(name).is_ok()
}

/// Checks a header value with `http::HeaderValue::from_bytes`; claims that it refuses control
/// characters other than the tab, and nothing else.
#[verifier::external_body]
fn is_header_value(value: &[u8]) -> (r: bool)
    ensures
        r == is_value(value@),
{
    HeaderValue::from_bytes(value).is_ok()
}

/// Checks a method with `http::Method::from_bytes`; claims that it takes the tokens.
#[verifier::external_body]
fn is_http_method(method: &[u8]) -> (r: bool)
    ensures
        r == is_method(method@),
{
    Method::from_bytes(method).is_ok()
}

/// Checks an authority with `http::uri::Authority::from_str`; claims that the outcome depends on the
/// text alone.
#[verifier::external_body]
fn is_uri_authority(text: &str) -> (r: bool)
    ensures
        r == is_authority(text@),
{
    http::uri::Authority::from_str(text).is_ok()
}

/// Splits a URI with `http::Uri::from_str`; claims that the parts depend on the text alone.
#[verifier::external_body]
fn parse_uri(text: &str) -> (r: Option<UriParts>)
    ensures
        r is Some <==> uri_parts(text@) is Some,
        r matches Some(u) ==> u@ == uri_parts(text@).unwrap(),
{
    let uri = Uri::from_str(text).ok()?;
    Some(UriParts {
        scheme: uri.scheme_str().map(str::to_string),
        authority: uri.authority().map(|a| a.as_str().to_string()),
        path: uri.path().to_string(),
        query: uri.query().map(str::to_string),
    })
}

/// The parts of a URI.
#[derive(Debug, Clone)]
pub struct UriParts {
    pub scheme: Option<String>,
    pub authority: Option<String>,
    pub path: String,
    pub query: Option<String>,
}

/// The text of an optional part.
pub open spec fn text_of(s: Option<String>) -> Option<Seq<char>> {
    match s {
        Some(s) => Some(s@),
        None => None,
    }
}

impl View for UriParts {
    type V = (Option<Seq<char>>, Option<Seq<char>>, Seq<char>, Option<Seq<char>>);

    open spec fn view(&self) -> (Option<Seq<char>>, Option<Seq<char>>, Seq<char>, Option<Seq<char>>) {
        (text_of(self.scheme), text_of(self.authority), self.path@, text_of(self.query))
    }
}

/// Names and values as text and bytes.
pub open spec fn entry_views(v: Seq<(String, Vec<u8>)>) -> Seq<(Seq<char>, Seq<u8>)> {
    Seq::new(v.len(), |i: int| (v[i].0@, v[i].1@))
}

/// Why a record is refused.
#[derive(Debug, Clone, Copy, PartialEq, Eq, Structural)]
pub enum RecordError {
    InvalidUri,
    /// "URI must be relative".
    UriNotRelative,
    /// "URI must have path".
    UriWithoutPath,
    InvalidMethod,
    /// The header with this index has an invalid name.
    InvalidHeaderName(usize),
    /// The header with this index has an invalid value.
    InvalidHeaderValue(usize),
    TooManyHeaders,
}

/// What is wrong with a URI, if anything: it must be relative and have a path.
pub open spec fn uri_fault(text: Seq<char>) -> Option<RecordError> {
    match uri_parts(text) {
        None => Some(RecordError::InvalidUri),
        Some((scheme, authority, path, _)) => parts_fault(scheme is Some, authority is Some, path),
    }
}

/// What is wrong with the parts of a URI, if anything.
pub open spec fn parts_fault(has_scheme: bool, has_authority: bool, path: Seq<char>) -> Option<RecordError> {
    if has_authority || has_scheme {
        Some(RecordError::UriNotRelative)
    } else if path.len() == 0 {
        Some(RecordError::UriWithoutPath)
    } else {
        None
    }
}

/// The first fault among the headers from `i` on, if any.
pub open spec fn header_fault(headers: Seq<(String, String)>, i: int) -> Option<RecordError>
    decreases headers.len() - i,
{
    if i < 0 || i >= headers.len() {
        None
    } else if header_name(headers[i].0@) is None {
        Some(RecordError::InvalidHeaderName(i as usize))
    } else if !is_value(encode_utf8(headers[i].1@)) {
        Some(RecordError::InvalidHeaderValue(i as usize))
    } else {
        header_fault(headers, i + 1)
    }
}

/// Whether the texts of a header can be its name and its value.
pub open spec fn is_valid_header(header: (String, String)) -> bool {
    header_name(header.0@) is Some && is_value(encode_utf8(header.1@))
}

/// There is no fault among valid headers.
proof fn lemma_no_fault(headers: Seq<(String, String)>, i: int)
    requires
        0 <= i <= headers.len(),
        forall|j: int| i <= j < headers.len() ==> is_valid_header(#[trigger] headers[j]),
    ensures
        header_fault(headers, i) is None,
    decreases headers.len() - i,
{
    if i < headers.len() {
        assert(is_valid_header(headers[i]));
        lemma_no_fault(headers, i + 1);
    }
}

/// The canonical form of a name is its own canonical form.
proof fn lemma_canonical(name: Seq<char>)
    requires
        header_name(name) is Some,
    ensures
        header_name(header_name(name).unwrap()) == header_name(name),
{
    let c = header_name(name).unwrap();
    assert forall|i: int| 0 <= i < c.len() implies is_token_code(#[trigger] c[i] as int) && lower(c[i]) == c[i] by {
        assert(is_token_code(name[i] as int));
    }
    assert(Seq::new(c.len(), |i: int| lower(c[i])) =~= c);
}

/// The entries that valid headers make, set one after another.
pub open spec fn entries_of(headers: Seq<(String, String)>) -> Seq<(Seq<char>, Seq<u8>)>
    decreases headers.len(),
{
    if headers.len() == 0 {
        Seq::empty()
    } else {
        with_entry(
            entries_of(headers.drop_last()),
            header_name(headers.last().0@).unwrap(),
            encode_utf8(headers.last().1@),
        )
    }
}

/// The first fault of a record in the order of URI, method and headers, if any.
pub open spec fn record_fault(uri: Seq<char>, method: Seq<char>, headers: Seq<(String, String)>) -> Option<
    RecordError,
> {
    if uri_fault(uri) is Some {
        uri_fault(uri)
    } else if !is_method(encode_utf8(method)) {
        Some(RecordError::InvalidMethod)
    } else {
        header_fault(headers, 0)
    }
}

/// Checks the parts of a URI: it must be relative and have a path.
pub fn check_uri(parts: &UriParts) -> (r: Result<(), RecordError>)
    ensures
        match parts_fault(parts.scheme is Some, parts.authority is Some, parts.path@) {
            Some(e) => r == Err::<(), RecordError>(e),
            None => r is Ok,
        },
{
    if parts.authority.is_some() || parts.scheme.is_some() {
        return Err(RecordError::UriNotRelative);
    }
    if parts.path.as_str().is_empty() {
        return Err(RecordError::UriWithoutPath);
    }
    Ok(())
}

/// Setting a value keeps names unique and adds at most one entry.
proof fn lemma_with_entry(entries: Seq<(Seq<char>, Seq<u8>)>, name: Seq<char>, value: Seq<u8>)
    requires
        unique_names(entries),
    ensures
        unique_names(with_entry(entries, name, value)),
        entries_ok(entries) && header_name(name) == Some(name) && is_value(value) ==> entries_ok(
            with_entry(entries, name, value),
        ),
        entries.len() <= with_entry(entries, name, value).len() <= entries.len() + 1,
{
    let after = with_entry(entries, name, value);
    assert forall|i: int, j: int| 0 <= i < j < after.len() implies #[trigger] after[i].0 != #[trigger] after[j].0 by {
        if exists|k: int| 0 <= k < entries.len() && (#[trigger] entries[k]).0 == name {
            assert(after[i].0 == entries[i].0 && after[j].0 == entries[j].0);
        } else if j < entries.len() {
            assert(after[i] == entries[i] && after[j] == entries[j]);
        } else {
            assert(after[i] == entries[i] && entries[i].0 != name);
        }
    }
}

/// A request in JSON ammo format.
///
/// Pay attention to special header "Host" defined outside of "Headers" dictionary.
///
/// Host inside "Headers" section will be silently ignored.
#[derive(Debug)]
pub struct JsonLineRecord {
    path: String,
    query: Option<String>,
    method: String,
    host: String,
    headers: HeaderMap<HeaderValue>,
}

impl JsonLineRecord {
    /// The headers are valid, and none of them occurs twice.
    #[verifier::type_invariant]
    spec fn headers_are_valid(self) -> bool {
        unique_names(header_entries(self.headers)) && entries_ok(header_entries(self.headers))
    }
}

/// The head of a request.
#[derive(Debug)]
pub struct RequestHead {
    pub method: String,
    pub scheme: Option<&'static str>,
    pub authority: Option<String>,
    pub path: String,
    pub query: Option<String>,
    pub headers: HeaderMap<HeaderValue>,
}

/// Why a record makes no request.
#[derive(Debug, Clone, Copy, PartialEq, Eq, Structural)]
pub enum RequestError {
    /// The host is not what the request needs it to be.
    InvalidHost,
    /// The headers do not fit into one collection.
    TooManyHeaders,
}

/// The entries other than the host.
pub open spec fn without_host(entries: Seq<(Seq<char>, Seq<u8>)>) -> Seq<(Seq<char>, Seq<u8>)>
    decreases entries.len(),
{
    if entries.len() == 0 {
        Seq::empty()
    } else if entries.last().0 == "host"@ {
        without_host(entries.drop_last())
    } else {
        without_host(entries.drop_last()).push(entries.last())
    }
}

/// The host never gets through.
pub proof fn lemma_host_is_dropped(entries: Seq<(Seq<char>, Seq<u8>)>, i: int)
    requires
        0 <= i < without_host(entries).len(),
    ensures
        without_host(entries)[i].0 != "host"@,
    decreases entries.len(),
{
    if entries.len() > 0 {
        let rest = without_host(entries.drop_last());
        if i < rest.len() {
            lemma_host_is_dropped(entries.drop_last(), i);
        }
    }
}

/// Every header other than the host gets through.
pub proof fn lemma_other_headers_are_kept(entries: Seq<(Seq<char>, Seq<u8>)>, i: int)
    requires
        0 <= i < entries.len(),
        entries[i].0 != "host"@,
    ensures
        without_host(entries).contains(entries[i]),
    decreases entries.len(),
{
    let rest = without_host(entries.drop_last());
    if i < entries.len() - 1 {
        lemma_other_headers_are_kept(entries.drop_last(), i);
        let k = choose|k: int| 0 <= k < rest.len() && rest[k] == entries[i];
        assert(without_host(entries)[k] == entries[i]);
    } else {
        assert(without_host(entries)[rest.len() as int] == entries[i]);
    }
}

/// What is left without the host is in order if all of it was.
proof fn lemma_without_host(entries: Seq<(Seq<char>, Seq<u8>)>)
    requires
        unique_names(entries),
        entries_ok(entries),
    ensures
        unique_names(without_host(entries)),
        entries_ok(without_host(entries)),
        forall|i: int| 0 <= i < without_host(entries).len() ==> entries.contains(#[trigger] without_host(entries)[i]),
        without_host(entries).len() <= entries.len(),
    decreases entries.len(),
{
    if entries.len() > 0 {
        let (front, last) = (entries.drop_last(), entries.last());
        let rest = without_host(front);
        let all = without_host(entries);
        assert(unique_names(front)) by {
            assert forall|i: int, j: int| 0 <= i < j < front.len() implies #[trigger] front[i].0 != #[trigger] front[j].0
                by {
                assert(entries[i].0 != entries[j].0);
            }
        }
        assert(entries_ok(front)) by {
            assert forall|i: int| 0 <= i < front.len() implies header_name((#[trigger] front[i]).0) == Some(front[i].0)
                && is_value(front[i].1) by {
                assert(entries[i] == front[i]);
            }
        }
        lemma_without_host(front);
        assert forall|i: int| 0 <= i < rest.len() implies entries.contains(#[trigger] rest[i]) && rest[i].0 != last.0 by {
            let k = choose|k: int| 0 <= k < front.len() && front[k] == rest[i];
            assert(entries[k] == rest[i]);
            assert(entries[k].0 != entries[entries.len() - 1].0);
        }
        assert(entries[entries.len() - 1] == last);
        assert forall|i: int, j: int| 0 <= i < j < all.len() implies #[trigger] all[i].0 != #[trigger] all[j].0 by {
            assert(all[i] == rest[i]);
            if j < rest.len() {
                assert(all[j] == rest[j]);
            }
        }
        assert forall|i: int| 0 <= i < all.len() implies entries.contains(#[trigger] all[i]) by {
            if i < rest.len() {
                assert(all[i] == rest[i]);
            }
        }
        assert forall|i: int| 0 <= i < all.len() implies header_name((#[trigger] all[i]).0) == Some(all[i].0) && is_value(
            all[i].1,
        ) by {
            if i < rest.len() {
                assert(all[i] == rest[i]);
            }
        }
    }
}

/// The host in front of the other headers is in order.
proof fn lemma_host_in_front(others: Seq<(Seq<char>, Seq<u8>)>, host: Seq<u8>)
    requires
        unique_names(others),
        entries_ok(others),
        is_value(host),
        forall|i: int| 0 <= i < others.len() ==> (#[trigger] others[i]).0 != "host"@,
    ensures
        unique_names(seq![("host"@, host)] + others),
        entries_ok(seq![("host"@, host)] + others),
{
    reveal_strlit("host");
    let all = seq![("host"@, host)] + others;
    let name = "host"@;
    assert(name =~= seq!['h', 'o', 's', 't']);
    assert(header_name(name) == Some(name)) by {
        assert(Seq::new(name.len(), |i: int| lower(name[i])) =~= name);
    }
    assert forall|i: int, j: int| 0 <= i < j < all.len() implies #[trigger] all[i].0 != #[trigger] all[j].0 by {
        assert(all[j] == others[j - 1]);
        if i > 0 {
            assert(all[i] == others[i - 1]);
        }
    }
    assert forall|i: int| 0 <= i < all.len() implies header_name((#[trigger] all[i]).0) == Some(all[i].0) && is_value(
        all[i].1,
    ) by {
        if i > 0 {
            assert(all[i] == others[i - 1]);
        }
    }
}

/// Puts headers into a collection, one after another; `None` when its room runs out.
fn collect_headers(headers: &Vec<(String, Vec<u8>)>) -> (r: Option<HeaderMap<HeaderValue>>)
    requires
        unique_names(entry_views(headers@)),
        entries_ok(entry_views(headers@)),
    ensures
        match r {
            Some(map) => header_entries(map) == entry_views(headers@) && headers@.len() <= MAX_HEADERS,
            None => no_room_for(entry_views(headers@)),
        },
{
    let mut map: HeaderMap<HeaderValue> = new_headers();
    let ghost entries = entry_views(headers@);
    let mut i: usize = 0;
    assert(entries.take(0) =~= Seq::empty());
    while i < headers.len()
        invariant
            i <= headers@.len() == entries.len(),
            i <= MAX_HEADERS,
            entries == entry_views(headers@),
            unique_names(entries),
            entries_ok(entries),
            header_entries(map) == entries.take(i as int),
        decreases headers@.len() - i,
    {
        let ghost before = map;
        let ghost (front, name, value) = (entries.take(i as int), entries[i as int].0, entries[i as int].1);
        proof {
            assert(header_name(entries[i as int].0) == Some(entries[i as int].0));
            assert forall|j: int| 0 <= j < front.len() implies (#[trigger] front[j]).0 != name by {
                assert(front[j] == entries[j]);
                assert(entries[j].0 != entries[i as int].0);
            }
            assert forall|j: int, k: int| 0 <= j < k < front.len() implies #[trigger] front[j].0 != #[trigger] front[k].0
                by {
                assert(entries[j].0 != entries[k].0);
            }
            assert(with_entry(front, name, value) =~= entries.take(i + 1));
        }
        if !insert_header(&mut map, headers[i].0.as_str(), headers[i].1.as_slice()) {
            assert(is_full(before, entries.take(i as int)));
            return None;
        }
        i = i + 1;
    }
    assert(entries.take(i as int) =~= entries);
    Some(map)
}

/// The lines of the given headers in a raw request.
pub open spec fn header_lines(entries: Seq<(Seq<char>, Seq<u8>)>) -> Seq<u8>
    decreases entries.len(),
{
    if entries.len() == 0 {
        Seq::empty()
    } else {
        header_lines(entries.drop_last()) + encode_utf8(entries.last().0) + encode_utf8(": "@) + entries.last().1
            + encode_utf8("\r\n"@)
    }
}

/// The bytes of a raw HTTP request.
pub open spec fn raw_request(
    method: Seq<char>,
    path: Seq<char>,
    query: Option<Seq<char>>,
    host: Seq<char>,
    headers: Seq<(Seq<char>, Seq<u8>)>,
) -> Seq<u8> {
    encode_utf8(method) + encode_utf8(" "@) + encode_utf8(path) + match query {
        Some(q) => encode_utf8("?"@) + encode_utf8(q),
        None => Seq::empty(),
    } + encode_utf8(" HTTP/1.1\r\n"@) + encode_utf8("Host: "@) + encode_utf8(host) + encode_utf8("\r\n"@)
        + header_lines(headers) + encode_utf8("\r\n"@)
}

/// Appends bytes.
fn put_bytes(buf: &mut Vec<u8>, bytes: &[u8])
    ensures
        final(buf)@ == old(buf)@ + bytes@,
{
    buf.extend_from_slice(bytes);
    assert(buf@ =~= old(buf)@ + bytes@);
}

/// Appends a text.
fn put(buf: &mut Vec<u8>, s: &str)
    ensures
        final(buf)@ == old(buf)@ + encode_utf8(s@),
{
    put_bytes(buf, s.as_bytes());
}

impl JsonLineRecord {
    pub closed spec fn spec_path(&self) -> Seq<char> {
        self.path@
    }

    pub closed spec fn spec_query(&self) -> Option<Seq<char>> {
        text_of(self.query)
    }

    pub closed spec fn spec_method(&self) -> Seq<char> {
        self.method@
    }

    pub closed spec fn spec_host(&self) -> Seq<char> {
        self.host@
    }

    pub closed spec fn entries(&self) -> Seq<(Seq<char>, Seq<u8>)> {
        header_entries(self.headers)
    }

    /// Builds a record from the texts of its fields.
    pub fn from_fields(uri: &str, method: &str, host: &str, headers: &Vec<(String, String)>) -> (r: Result<
        Self,
        RecordError,
    >)
        ensures
            match r {
                Ok(record) => {
                    &&& record_fault(uri@, method@, headers@) is None
                    &&& (record.spec_path(), record.spec_query()) == (
                        uri_parts(uri@).unwrap().2,
                        uri_parts(uri@).unwrap().3,
                    )
                    &&& record.spec_method() == method@
                    &&& record.spec_host() == host@
                    &&& record.entries() == entries_of(headers@)
                    &&& forall|k: int|
                        0 <= k < headers@.len() ==> entries_of(#[trigger] headers@.take(k)).len() < MAX_HEADERS
                },
                Err(RecordError::TooManyHeaders) => {
                    &&& uri_fault(uri@) is None
                    &&& is_method(encode_utf8(method@))
                    &&& exists|k: int, map: HeaderMap<HeaderValue>|
                        0 <= k < headers@.len() && header_fault(headers@.take(k + 1), 0) is None && #[trigger] is_full(
                            map,
                            entries_of(headers@.take(k)),
                        )
                },
                Err(e) => record_fault(uri@, method@, headers@) == Some(e),
            },
            r matches Ok(record) ==> target_text(record.spec_path(), record.spec_query()) == target_text(
                uri_parts(uri@).unwrap().2,
                uri_parts(uri@).unwrap().3,
            ),
    {
        let parts: UriParts = match parse_uri(uri) {
            None => {
                return Err(RecordError::InvalidUri);
            },
            Some(parts) => parts,
        };
        match check_uri(&parts) {
            Err(e) => {
                return Err(e);
            },
            Ok(_) => {},
        }
        if !is_http_method(method.as_bytes()) {
            return Err(RecordError::InvalidMethod);
        }
        let mut map: HeaderMap<HeaderValue> = new_headers();
        let mut i: usize = 0;
        proof {
            assert(headers@.take(0) =~= Seq::empty());
        }
        while i < headers.len()
            invariant
                i <= headers@.len(),
                uri_fault(uri@) is None,
                is_method(encode_utf8(method@)),
                header_fault(headers@, 0) == header_fault(headers@, i as int),
                header_entries(map) == entries_of(headers@.take(i as int)),
                unique_names(header_entries(map)),
                entries_ok(header_entries(map)),
                forall|k: int| 0 <= k < i ==> is_valid_header(#[trigger] headers@[k]),
                forall|k: int| 0 <= k < i ==> entries_of(#[trigger] headers@.take(k)).len() < MAX_HEADERS,
            decreases headers@.len() - i,
        {
            let name: &String = &headers[i].0;
            let value: &String = &headers[i].1;
            if !is_header_name(name.as_str()) {
                return Err(RecordError::InvalidHeaderName(i));
            }
            if !is_header_value(value.as_str().as_bytes()) {
                return Err(RecordError::InvalidHeaderValue(i));
            }
            let ghost before = map;
            proof {
                lemma_canonical(name@);
                assert(is_valid_header(headers@[i as int]));
                lemma_no_fault(headers@.take(i + 1), 0);
                lemma_with_entry(
                    header_entries(map),
                    header_name(name@).unwrap(),
                    encode_utf8(value@),
                );
                assert(headers@.take(i + 1).drop_last() =~= headers@.take(i as int));
            }
            if !insert_header(&mut map, name.as_str(), value.as_str().as_bytes()) {
                assert(is_full(before, entries_of(headers@.take(i as int))));
                return Err(RecordError::TooManyHeaders);
            }
            i = i + 1;
        }
        proof {
            assert(headers@.take(i as int) =~= headers@);
        }
        Ok(
            JsonLineRecord {
                path: parts.path,
                query: parts.query,
                method: method.to_owned(),
                host: host.to_owned(),
                headers: map,
            },
        )
    }

    /// Returns this [`JsonLineRecord`] as a raw HTTP request.
    pub fn to_vec(&self) -> (r: Vec<u8>)
        ensures
            r@ == raw_request(
                self.spec_method(),
                self.spec_path(),
                self.spec_query(),
                self.spec_host(),
                without_host(self.entries()),
            ),
    {
        let mut buf: Vec<u8> = Vec::new();
        put(&mut buf, self.method.as_str());
        put(&mut buf, " ");
        put(&mut buf, self.path.as_str());
        if let Some(query) = &self.query {
            put(&mut buf, "?");
            put(&mut buf, query.as_str());
        }
        assert(buf@ =~= encode_utf8(self.spec_method()) + encode_utf8(" "@) + encode_utf8(self.spec_path())
            + match self.spec_query() {
            Some(q) => encode_utf8("?"@) + encode_utf8(q),
            None => Seq::empty(),
        });
        put(&mut buf, " HTTP/1.1\r\n");
        put(&mut buf, "Host: ");
        put(&mut buf, self.host.as_str());
        put(&mut buf, "\r\n");
        let headers: Vec<(String, Vec<u8>)> = self.other_headers();
        let ghost lines = entry_views(headers@);
        let ghost head = buf@;
        let mut i: usize = 0;
        proof {
            assert(lines.take(0) =~= Seq::empty());
            assert(buf@ =~= head + header_lines(lines.take(0)));
        }
        while i < headers.len()
            invariant
                i <= headers@.len(),
                lines == entry_views(headers@),
                buf@ == head + header_lines(lines.take(i as int)),
            decreases headers@.len() - i,
        {
            put(&mut buf, headers[i].0.as_str());
            put(&mut buf, ": ");
            put_bytes(&mut buf, headers[i].1.as_slice());
            put(&mut buf, "\r\n");
            proof {
                assert(lines.take(i + 1).drop_last() =~= lines.take(i as int));
                assert(buf@ =~= head + header_lines(lines.take(i + 1)));
            }
            i = i + 1;
        }
        assert(lines.take(i as int) =~= lines);
        put(&mut buf, "\r\n");
        buf
    }

    /// Lists the headers other than the host.
    fn other_headers(&self) -> (r: Vec<(String, Vec<u8>)>)
        ensures
            entry_views(r@) == without_host(self.entries()),
    {
        let mut all: Vec<(String, Vec<u8>)> = list_headers(&self.headers);
        let ghost entries = self.entries();
        let mut out: Vec<(String, Vec<u8>)> = Vec::new();
        let mut i: usize = 0;
        let n: usize = all.len();
        proof {
            assert(entries.take(0) =~= Seq::empty());
            assert(entry_views(out@) =~= Seq::empty());
        }
        while i < n
            invariant
                i <= n,
                n == all@.len() == entries.len(),
                forall|k: int| i <= k < n ==> (#[trigger] all@[k]).0@ == entries[k].0 && all@[k].1@ == entries[k].1,
                entry_views(out@) == without_host(entries.take(i as int)),
            decreases n - i,
        {
            let mut entry: (String, Vec<u8>) = (String::new(), Vec::new());
            std::mem::swap(&mut entry, &mut all[i]);
            proof {
                assert(entries.take(i + 1).drop_last() =~= entries.take(i as int));
            }
            if entry.0 != "host".to_owned() {
                let ghost kept = (entry.0@, entry.1@);
                let ghost before = entry_views(out@);
                out.push(entry);
                assert(entry_views(out@) =~= before.push(kept));
            }
            i = i + 1;
        }
        assert(entries.take(i as int) =~= entries);
        out
    }

    /// Turns this record into the head of an HTTP/1 request.
    ///
    /// The host comes first among the headers; a host among the record's headers is ignored.
    pub fn into_http1(self) -> (r: Result<RequestHead, RequestError>)
        ensures
            ({
                let headers = seq![("host"@, encode_utf8(self.spec_host()))] + without_host(self.entries());
                match r {
                    Ok(head) => {
                        &&& is_value(encode_utf8(self.spec_host()))
                        &&& head.method@ == self.spec_method()
                        &&& head.scheme is None
                        &&& head.authority is None
                        &&& head.path@ == self.spec_path()
                        &&& text_of(head.query) == self.spec_query()
                        &&& header_entries(head.headers) == headers
                        &&& headers.len() <= MAX_HEADERS
                    },
                    Err(RequestError::InvalidHost) => !is_value(encode_utf8(self.spec_host())),
                    Err(RequestError::TooManyHeaders) => is_value(encode_utf8(self.spec_host())) && no_room_for(headers),
                }
            }),
            r matches Ok(head) ==> header_entries(head.headers) == http1_headers(self.spec_host(), self.entries())
                && target_text(head.path@, text_of(head.query)) == target_text(self.spec_path(), self.spec_query()),
            r matches Ok(head) ==> {
                let sent = header_entries(head.headers);
                &&& sent.len() > 0 && sent[0] == ("host"@, encode_utf8(self.spec_host()))
                &&& sent.skip(1) == without_host(self.entries())
            },
    {
        proof {
            use_type_invariant(&self);
            lemma_without_host(self.entries());
            assert forall|i: int| 0 <= i < without_host(self.entries()).len() implies (#[trigger] without_host(
                self.entries(),
            )[i]).0 != "host"@ by {
                lemma_host_is_dropped(self.entries(), i);
            }
        }
        if !is_header_value(self.host.as_str().as_bytes()) {
            return Err(RequestError::InvalidHost);
        }
        let mut value: Vec<u8> = Vec::new();
        put(&mut value, self.host.as_str());
        let mut list: Vec<(String, Vec<u8>)> = self.other_headers();
        let ghost others = entry_views(list@);
        list.insert(0, ("host".to_owned(), value));
        proof {
            assert(entry_views(list@) =~= seq![("host"@, encode_utf8(self.spec_host()))] + others);
            lemma_host_in_front(others, encode_utf8(self.spec_host()));
        }
        assert((seq![("host"@, encode_utf8(self.spec_host()))] + others).skip(1) =~= others);
        match collect_headers(&list) {
            Some(headers) => Ok(
                RequestHead {
                    method: self.method,
                    scheme: None,
                    authority: None,
                    path: self.path,
                    query: self.query,
                    headers,
                },
            ),
            None => Err(RequestError::TooManyHeaders),
        }
    }

    /// Turns this record into the head of an HTTP/3 request.
    ///
    /// The host becomes the authority of the URI, which the client sends as `:authority`; a host among
    /// the record's headers is dropped.
    pub fn into_http3(self) -> (r: Result<RequestHead, RequestError>)
        ensures
            match r {
                Ok(head) => {
                    &&& is_authority(self.spec_host())
                    &&& head.method@ == self.spec_method()
                    &&& head.scheme matches Some(s) && s@ == "https"@
                    &&& head.authority matches Some(a) && a@ == self.spec_host()
                    &&& head.path@ == self.spec_path()
                    &&& text_of(head.query) == self.spec_query()
                    &&& header_entries(head.headers) == without_host(self.entries())
                    &&& without_host(self.entries()).len() <= MAX_HEADERS
                },
                Err(RequestError::InvalidHost) => !is_authority(self.spec_host()),
                Err(RequestError::TooManyHeaders) => is_authority(self.spec_host()) && no_room_for(
                    without_host(self.entries()),
                ),
            },
            r matches Ok(head) ==> target_text(head.path@, text_of(head.query)) == target_text(
                self.spec_path(),
                self.spec_query(),
            ),
            r matches Ok(head) ==> forall|i: int|
                0 <= i < header_entries(head.headers).len() ==> (#[trigger] header_entries(head.headers)[i]).0
                    != "host"@,
    {
        proof {
            use_type_invariant(&self);
            lemma_without_host(self.entries());
            assert forall|i: int| 0 <= i < without_host(self.entries()).len() implies (#[trigger] without_host(
                self.entries(),
            )[i]).0 != "host"@ by {
                lemma_host_is_dropped(self.entries(), i);
            }
        }
        if !is_uri_authority(self.host.as_str()) {
            return Err(RequestError::InvalidHost);
        }
        let list: Vec<(String, Vec<u8>)> = self.other_headers();
        match collect_headers(&list) {
            Some(headers) => Ok(
                RequestHead {
                    method: self.method,
                    scheme: Some("https"),
                    authority: Some(self.host),
                    path: self.path,
                    query: self.query,
                    headers,
                },
            ),
            None => Err(RequestError::TooManyHeaders),
        }
    }
}

/// Encoding goes text by text.
proof fn lemma_encode_concat(a: Seq<char>, b: Seq<char>)
    ensures
        encode_utf8(a + b) == encode_utf8(a) + encode_utf8(b),
    decreases a.len(),
{
    if a.len() == 0 {
        assert(a + b =~= b);
        assert(encode_utf8(a + b) =~= encode_utf8(a) + encode_utf8(b));
    } else {
        lemma_encode_concat(a.drop_first(), b);
        assert((a + b).drop_first() =~= a.drop_first() + b);
        assert(encode_utf8(a + b) =~= encode_utf8(a) + encode_utf8(b));
    }
}

/// Different texts have different encodings.
proof fn lemma_encode_injective(a: Seq<char>, b: Seq<char>)
    requires
        encode_utf8(a) == encode_utf8(b),
    ensures
        a == b,
{
    encode_utf8_decode_utf8(a);
    encode_utf8_decode_utf8(b);
}

/// An ASCII byte in an encoding stands for the character itself.
proof fn lemma_ascii_bytes(a: Seq<char>, c: char, i: int)
    requires
        (c as u32) < 0x80,
        0 <= i < encode_utf8(a).len(),
        encode_utf8(a)[i] == c as u8,
    ensures
        a.contains(c),
    decreases a.len(),
{
    if a.len() > 0 {
        let first = encode_scalar(a[0] as u32);
        let v = a[0] as u32;
        if i < first.len() {
            char_is_scalar(a[0]);
            assert(leading_byte_width_2(v) >= 0x80 && leading_byte_width_3(v) >= 0x80 && leading_byte_width_4(v)
                >= 0x80 && last_continuation_byte(v) >= 0x80 && second_last_continuation_byte(v) >= 0x80
                && third_last_continuation_byte(v) >= 0x80) by {
                assert(0xC0 | ((v >> 6) & 0x1F) as u8 >= 0x80 && 0xE0 | ((v >> 12) & 0x0F) as u8 >= 0x80 && 0xF0 | ((v
                    >> 18) & 0x7) as u8 >= 0x80 && 0x80 | (v & 0x3F) as u8 >= 0x80 && 0x80 | ((v >> 6) & 0x3F) as u8
                    >= 0x80 && 0x80 | ((v >> 12) & 0x3F) as u8 >= 0x80) by (bit_vector);
            }
            assert(encode_utf8(a)[i] == first[i]);
            assert(has_width_1_encoding(v));
            assert((v & 0x7F) as u8 == v) by (bit_vector)
                requires
                    v <= 0x7F,
            ;
            char_u32_cast(a[0], v);
            char_u32_cast(c, v);
            assert(a[0] == c);
        } else {
            lemma_ascii_bytes(a.drop_first(), c, i - first.len());
            let k = choose|k: int| 0 <= k < a.drop_first().len() && a.drop_first()[k] == c;
            assert(a[k + 1] == c);
        }
    }
}

/// What stands before and after the first occurrence of a byte.
proof fn lemma_first_occurrence(a: Seq<u8>, u: Seq<u8>, b: Seq<u8>, v: Seq<u8>, x: u8)
    requires
        a + seq![x] + u == b + seq![x] + v,
        !a.contains(x),
        !b.contains(x),
    ensures
        a == b,
        u == v,
{
    let (s, t) = (a + seq![x] + u, b + seq![x] + v);
    assert(s[a.len() as int] == x && t[b.len() as int] == x);
    if a.len() < b.len() {
        assert(t[a.len() as int] == b[a.len() as int]);
    }
    if b.len() < a.len() {
        assert(s[b.len() as int] == a[b.len() as int]);
    }
    assert(a =~= s.take(a.len() as int) && b =~= t.take(a.len() as int));
    assert(u =~= s.skip(a.len() as int + 1) && v =~= t.skip(a.len() as int + 1));
}

proof fn lemma_no_byte(a: Seq<char>, c: char)
    requires
        (c as u32) < 0x80,
        !a.contains(c),
    ensures
        !encode_utf8(a).contains(c as u8),
{
    let bytes = encode_utf8(a);
    if bytes.contains(c as u8) {
        let i = choose|i: int| 0 <= i < bytes.len() && bytes[i] == c as u8;
        lemma_ascii_bytes(a, c, i);
    }
}

proof fn lemma_encoded_literals()
    ensures
        encode_utf8(" "@) == seq![0x20u8],
        encode_utf8("?"@) == seq![0x3Fu8],
        encode_utf8("\r\n"@) == seq![0x0Du8, 0x0Au8],
        encode_utf8(": "@) == seq![0x3Au8, 0x20u8],
{
    reveal_strlit(" ");
    reveal_strlit("?");
    reveal_strlit("\r\n");
    reveal_strlit(": ");
    reveal_with_fuel(encode_utf8, 3);
    assert((0x20u32 & 0x7F) as u8 == 0x20 && (0x3Fu32 & 0x7F) as u8 == 0x3F && (0x0Du32 & 0x7F) as u8 == 0x0D && (0x0Au32
        & 0x7F) as u8 == 0x0A && (0x3Au32 & 0x7F) as u8 == 0x3A) by (bit_vector);
    assert(" "@ =~= seq![' ']);
    assert("?"@ =~= seq!['?']);
    assert("\r\n"@ =~= seq!['\r', '\n']);
    assert(": "@ =~= seq![':', ' ']);
    assert(encode_utf8(" "@) =~= seq![0x20u8]);
    assert(encode_utf8("?"@) =~= seq![0x3Fu8]);
    assert("\r\n"@.drop_first() =~= seq!['\n']);
    assert(": "@.drop_first() =~= seq![' ']);
    assert(encode_utf8("\r\n"@) =~= seq![0x0Du8, 0x0Au8]);
    assert(encode_utf8(": "@) =~= seq![0x3Au8, 0x20u8]);
}

/// The request target as a text: the path and, where there is a query, a question mark and the query.
pub open spec fn target_text(path: Seq<char>, query: Option<Seq<char>>) -> Seq<char> {
    path + (if query is Some {
        seq!['?'] + query->0
    } else {
        Seq::empty()
    })
}

/// A raw request names the whole target: its first line is the method, a space, the path with the query whenever
/// there is one, and the version; the second line is the host; a blank line ends it after the lines of the
/// headers.
pub proof fn lemma_request_lines(
    method: Seq<char>,
    path: Seq<char>,
    query: Option<Seq<char>>,
    host: Seq<char>,
    headers: Seq<(Seq<char>, Seq<u8>)>,
)
    ensures
        query matches Some(q) ==> raw_request(method, path, query, host, headers) == encode_utf8(
            method + " "@ + path + "?"@ + q + " HTTP/1.1\r\nHost: "@ + host + "\r\n"@,
        ) + header_lines(headers) + seq![0x0Du8, 0x0Au8],
        query is None ==> raw_request(method, path, query, host, headers) == encode_utf8(
            method + " "@ + path + " HTTP/1.1\r\nHost: "@ + host + "\r\n"@,
        ) + header_lines(headers) + seq![0x0Du8, 0x0Au8],
{
    lemma_encoded_literals();
    let version = " HTTP/1.1\r\nHost: "@;
    assert(version =~= " HTTP/1.1\r\n"@ + "Host: "@) by {
        reveal_strlit(" HTTP/1.1\r\nHost: ");
        reveal_strlit(" HTTP/1.1\r\n");
        reveal_strlit("Host: ");
    }
    lemma_encode_concat(" HTTP/1.1\r\n"@, "Host: "@);
    lemma_encode_concat(method, " "@);
    lemma_encode_concat(method + " "@, path);
    let front = match query {
        Some(q) => {
            lemma_encode_concat(method + " "@ + path, "?"@);
            lemma_encode_concat(method + " "@ + path + "?"@, q);
            method + " "@ + path + "?"@ + q
        },
        None => method + " "@ + path,
    };
    lemma_encode_concat(front, version);
    lemma_encode_concat(front + version, host);
    lemma_encode_concat(front + version + host, "\r\n"@);
    assert(raw_request(method, path, query, host, headers) =~= encode_utf8(front + version + host + "\r\n"@)
        + header_lines(headers) + seq![0x0Du8, 0x0Au8]);
}

/// The query goes into a request as it is: a request with a query is the one without, with a question mark and the
/// query put in behind the path.
pub proof fn lemma_query_is_inserted(
    method: Seq<char>,
    path: Seq<char>,
    q: Seq<char>,
    host: Seq<char>,
    headers: Seq<(Seq<char>, Seq<u8>)>,
)
    ensures
        ({
            let without = raw_request(method, path, None, host, headers);
            let at = encode_utf8(method).len() + 1 + encode_utf8(path).len();
            &&& at <= without.len()
            &&& raw_request(method, path, Some(q), host, headers) == without.take(at as int) + seq![0x3Fu8]
                + encode_utf8(q) + without.skip(at as int)
        }),
{
    lemma_encoded_literals();
    let without = raw_request(method, path, None, host, headers);
    let at = encode_utf8(method).len() + 1 + encode_utf8(path).len();
    let front = encode_utf8(method) + seq![0x20u8] + encode_utf8(path);
    assert(without.take(at as int) =~= front);
    assert(raw_request(method, path, Some(q), host, headers) =~= front + seq![0x3Fu8] + encode_utf8(q) + without.skip(
        at as int,
    ));
}

/// Requests that differ in nothing but their queries differ in their bytes.
pub proof fn lemma_queries_are_told_apart(
    method: Seq<char>,
    path: Seq<char>,
    q1: Option<Seq<char>>,
    q2: Option<Seq<char>>,
    host: Seq<char>,
    headers: Seq<(Seq<char>, Seq<u8>)>,
)
    requires
        raw_request(method, path, q1, host, headers) == raw_request(method, path, q2, host, headers),
    ensures
        q1 == q2,
{
    let without = raw_request(method, path, None, host, headers);
    let at = (encode_utf8(method).len() + 1 + encode_utf8(path).len()) as int;
    if q1 is Some {
        lemma_query_is_inserted(method, path, q1->0, host, headers);
    }
    if q2 is Some {
        lemma_query_is_inserted(method, path, q2->0, host, headers);
    }
    if q1 is Some && q2 is Some {
        let (a, b) = (encode_utf8(q1->0), encode_utf8(q2->0));
        let (s, t) = (
            raw_request(method, path, q1, host, headers),
            raw_request(method, path, q2, host, headers),
        );
        assert(s.len() == without.len() + 1 + a.len());
        assert(t.len() == without.len() + 1 + b.len());
        assert(a =~= s.subrange(at + 1, at + 1 + a.len()));
        assert(b =~= t.subrange(at + 1, at + 1 + b.len()));
        lemma_encode_injective(q1->0, q2->0);
    }
}

/// What follows the target and a space in a request.
spec fn after_target(host: Seq<char>, headers: Seq<(Seq<char>, Seq<u8>)>) -> Seq<u8> {
    encode_utf8("HTTP/1.1\r\n"@) + encode_utf8("Host: "@) + encode_utf8(host) + encode_utf8("\r\n"@) + header_lines(
        headers,
    ) + encode_utf8("\r\n"@)
}

proof fn lemma_concat_regroup(a: Seq<u8>, b: Seq<u8>, c: Seq<u8>)
    ensures
        (a + b) + c == a + (b + c),
{
    assert((a + b) + c =~= a + (b + c));
}

proof fn lemma_request_parts(
    method: Seq<char>,
    path: Seq<char>,
    query: Option<Seq<char>>,
    host: Seq<char>,
    headers: Seq<(Seq<char>, Seq<u8>)>,
)
    ensures
        raw_request(method, path, query, host, headers) == encode_utf8(method) + seq![0x20u8] + (encode_utf8(
            target_text(path, query),
        ) + seq![0x20u8] + after_target(host, headers)),
{
    lemma_encoded_literals();
    lemma_target_bytes(path, query);
    let (sp, version) = (seq![0x20u8], encode_utf8("HTTP/1.1\r\n"@));
    assert(encode_utf8(" HTTP/1.1\r\n"@) == sp + version) by {
        reveal_strlit(" HTTP/1.1\r\n");
        reveal_strlit("HTTP/1.1\r\n");
        reveal_strlit(" ");
        assert(" HTTP/1.1\r\n"@ =~= " "@ + "HTTP/1.1\r\n"@);
        lemma_encode_concat(" "@, "HTTP/1.1\r\n"@);
    }
    let target = encode_utf8(target_text(path, query));
    let q = match query {
        Some(q) => encode_utf8("?"@) + encode_utf8(q),
        None => Seq::empty(),
    };
    let m = encode_utf8(method) + sp;
    let (a, b, c, d, e) = (
        encode_utf8("Host: "@),
        encode_utf8(host),
        encode_utf8("\r\n"@),
        header_lines(headers),
        encode_utf8("\r\n"@),
    );
    lemma_concat_regroup(m, encode_utf8(path), q);
    lemma_concat_regroup(m, target, sp + version);
    lemma_concat_regroup(target, sp, version);
    lemma_concat_regroup(m, target + sp + version, a);
    lemma_concat_regroup(target + sp, version, a);
    lemma_concat_regroup(m, target + sp + (version + a), b);
    lemma_concat_regroup(target + sp, version + a, b);
    lemma_concat_regroup(m, target + sp + (version + a + b), c);
    lemma_concat_regroup(target + sp, version + a + b, c);
    lemma_concat_regroup(m, target + sp + (version + a + b + c), d);
    lemma_concat_regroup(target + sp, version + a + b + c, d);
    lemma_concat_regroup(m, target + sp + (version + a + b + c + d), e);
    lemma_concat_regroup(target + sp, version + a + b + c + d, e);
}

/// The method, the path and the query can be read back out of a request: requests with the same bytes have the same,
/// whatever their hosts and headers, given that methods and targets have no spaces and that the first question
/// mark of a target ends its path.
pub proof fn lemma_target_reads_back(
    m1: Seq<char>,
    p1: Seq<char>,
    q1: Option<Seq<char>>,
    h1: Seq<char>,
    e1: Seq<(Seq<char>, Seq<u8>)>,
    m2: Seq<char>,
    p2: Seq<char>,
    q2: Option<Seq<char>>,
    h2: Seq<char>,
    e2: Seq<(Seq<char>, Seq<u8>)>,
)
    requires
        !m1.contains(' ') && !m2.contains(' '),
        !p1.contains(' ') && !p2.contains(' '),
        !p1.contains('?') && !p2.contains('?'),
        q1 matches Some(q) ==> !q.contains(' '),
        q2 matches Some(q) ==> !q.contains(' '),
        raw_request(m1, p1, q1, h1, e1) == raw_request(m2, p2, q2, h2, e2),
    ensures
        m1 == m2,
        p1 == p2,
        q1 == q2,
{
    lemma_encoded_literals();
    lemma_no_byte(m1, ' ');
    lemma_no_byte(m2, ' ');
    let (t1, t2) = (target_text(p1, q1), target_text(p2, q2));
    let (r1, r2) = (after_target(h1, e1), after_target(h2, e2));
    lemma_target_bytes(p1, q1);
    lemma_target_bytes(p2, q2);
    lemma_request_parts(m1, p1, q1, h1, e1);
    lemma_request_parts(m2, p2, q2, h2, e2);
    lemma_first_occurrence(
        encode_utf8(m1),
        encode_utf8(t1) + seq![0x20u8] + r1,
        encode_utf8(m2),
        encode_utf8(t2) + seq![0x20u8] + r2,
        0x20,
    );
    lemma_encode_injective(m1, m2);
    lemma_no_byte(t1, ' ');
    lemma_no_byte(t2, ' ');
    lemma_first_occurrence(encode_utf8(t1), r1, encode_utf8(t2), r2, 0x20);
    lemma_encode_injective(t1, t2);
    lemma_target_splits(p1, q1, p2, q2);
}

proof fn lemma_target_bytes(path: Seq<char>, query: Option<Seq<char>>)
    ensures
        encode_utf8(target_text(path, query)) == encode_utf8(path) + match query {
            Some(q) => encode_utf8("?"@) + encode_utf8(q),
            None => Seq::empty(),
        },
        !path.contains(' ') && (query matches Some(q) ==> !q.contains(' ')) ==> !target_text(path, query).contains(' '),
{
    reveal_strlit("?");
    assert("?"@ =~= seq!['?']);
    match query {
        Some(q) => {
            lemma_encode_concat("?"@, q);
            lemma_encode_concat(path, "?"@ + q);
        },
        None => {
            assert(target_text(path, query) =~= path);
            assert(encode_utf8(path) + Seq::<u8>::empty() =~= encode_utf8(path));
        },
    }
    let t = target_text(path, query);
    if t.contains(' ') {
        let i = choose|i: int| 0 <= i < t.len() && t[i] == ' ';
        if i < path.len() {
            assert(path[i] == ' ');
        } else {
            assert(query is Some && i > path.len());
            assert((query->0)[i - path.len() - 1] == ' ');
        }
    }
}

proof fn lemma_target_splits(p1: Seq<char>, q1: Option<Seq<char>>, p2: Seq<char>, q2: Option<Seq<char>>)
    requires
        !p1.contains('?'),
        !p2.contains('?'),
        target_text(p1, q1) == target_text(p2, q2),
    ensures
        p1 == p2,
        q1 == q2,
{
    let t = target_text(p1, q1);
    let (a, b) = (p1.len() as int, p2.len() as int);
    assert(p1 =~= t.take(a) && p2 =~= target_text(p2, q2).take(b));
    assert(q1 is None ==> t.len() == a);
    assert(q2 is None ==> t.len() == b);
    if q1 is Some && a < b {
        assert(t[a] == '?' && p2[a] == '?');
    }
    if q2 is Some && b < a {
        assert(target_text(p2, q2)[b] == '?' && p1[b] == '?');
    }
    assert(a == b);
    if q1 is Some && q2 is Some {
        assert(q1->0 =~= t.skip(a + 1));
        assert(q2->0 =~= target_text(p2, q2).skip(a + 1));
    }
}

/// The lines of headers follow each other in order: those of a list are those of its parts, and a header has one
/// line with its name, a colon, a space and its value.
pub proof fn lemma_header_lines(a: Seq<(Seq<char>, Seq<u8>)>, b: Seq<(Seq<char>, Seq<u8>)>, name: Seq<char>, value: Seq<u8>)
    ensures
        header_lines(a + b) == header_lines(a) + header_lines(b),
        header_lines(seq![(name, value)]) == encode_utf8(name) + seq![0x3Au8, 0x20u8] + value + seq![0x0Du8, 0x0Au8],
        header_lines(Seq::empty()) == Seq::<u8>::empty(),
    decreases b.len(),
{
    lemma_encoded_literals();
    assert(header_lines(seq![(name, value)]) =~= encode_utf8(name) + seq![0x3Au8, 0x20u8] + value + seq![0x0Du8, 0x0Au8])
        by {
        let one = seq![(name, value)];
        assert(one.drop_last() =~= Seq::empty());
        assert(header_lines(one.drop_last()) =~= Seq::empty());
    }
    if b.len() == 0 {
        assert(a + b =~= a);
        assert(header_lines(a) + header_lines(b) =~= header_lines(a));
    } else {
        lemma_header_lines(a, b.drop_last(), name, value);
        assert((a + b).drop_last() =~= a + b.drop_last());
        assert(header_lines(a + b) =~= header_lines(a) + header_lines(b));
    }
}

/// Setting a value puts it under its name and leaves the values of all other names.
proof fn lemma_entry_is_set(entries: Seq<(Seq<char>, Seq<u8>)>, name: Seq<char>, value: Seq<u8>, other: (Seq<char>, Seq<u8>))
    requires
        unique_names(entries),
    ensures
        with_entry(entries, name, value).contains((name, value)),
        other.0 != name ==> (with_entry(entries, name, value).contains(other) <==> entries.contains(other)),
{
    let after = with_entry(entries, name, value);
    if exists|i: int| 0 <= i < entries.len() && (#[trigger] entries[i]).0 == name {
        let i = choose|i: int| 0 <= i < entries.len() && (#[trigger] entries[i]).0 == name;
        assert(after[i] == (name, value));
        if other.0 != name && entries.contains(other) {
            let k = choose|k: int| 0 <= k < entries.len() && entries[k] == other;
            assert(after[k] == other);
        }
        if other.0 != name && after.contains(other) {
            let k = choose|k: int| 0 <= k < after.len() && after[k] == other;
            assert(entries[k] == other);
        }
    } else {
        assert(after.last() == (name, value));
        if other.0 != name && entries.contains(other) {
            let k = choose|k: int| 0 <= k < entries.len() && entries[k] == other;
            assert(after[k] == other);
        }
        if other.0 != name && after.contains(other) {
            let k = choose|k: int| 0 <= k < after.len() && after[k] == other;
            assert(entries[k] == other);
        }
    }
}

/// Of headers with one name the last counts: a header that no later one has the name of is among the entries under
/// its name in lower case with its value, no name is there twice, and nothing else is there.
pub proof fn lemma_last_value_counts(headers: Seq<(String, String)>, i: int, name: Seq<char>, value: Seq<u8>)
    requires
        0 <= i < headers.len(),
        header_name(headers[i].0@) == Some(name),
        forall|j: int| 0 <= j < headers.len() ==> header_name(#[trigger] headers[j].0@) is Some,
        forall|j: int| i < j < headers.len() ==> header_name(#[trigger] headers[j].0@) != Some(name),
    ensures
        unique_names(entries_of(headers)),
        entries_of(headers).contains((name, value)) <==> value == encode_utf8(headers[i].1@),
    decreases headers.len(),
{
    let front = headers.drop_last();
    lemma_entries_unique(front);
    let last = headers.last();
    let set = header_name(last.0@).unwrap();
    lemma_with_entry(entries_of(front), set, encode_utf8(last.1@));
    lemma_entry_is_set(entries_of(front), set, encode_utf8(last.1@), (name, value));
    if i < headers.len() - 1 {
        assert(front[i] == headers[i]);
        assert forall|j: int| 0 <= j < front.len() implies header_name(#[trigger] front[j].0@) is Some by {
            assert(front[j] == headers[j]);
        }
        assert forall|j: int| i < j < front.len() implies header_name(#[trigger] front[j].0@) != Some(name) by {
            assert(front[j] == headers[j]);
        }
        assert(header_name(headers[headers.len() - 1].0@) != Some(name));
        lemma_last_value_counts(front, i, name, value);
    } else {
        let all = entries_of(headers);
        if all.contains((name, value)) {
            let mine = (name, encode_utf8(last.1@));
            let k = choose|k: int| 0 <= k < all.len() && all[k] == (name, value);
            let m = choose|m: int| 0 <= m < all.len() && all[m] == mine;
            assert(all[k].0 == all[m].0);
            assert(k == m);
        }
    }
}

proof fn lemma_entries_unique(headers: Seq<(String, String)>)
    ensures
        unique_names(entries_of(headers)),
    decreases headers.len(),
{
    if headers.len() > 0 {
        lemma_entries_unique(headers.drop_last());
        lemma_with_entry(
            entries_of(headers.drop_last()),
            header_name(headers.last().0@).unwrap(),
            encode_utf8(headers.last().1@),
        );
    }
}

/// A name that no header has is not among the entries.
pub proof fn lemma_no_other_entries(headers: Seq<(String, String)>, entry: (Seq<char>, Seq<u8>))
    requires
        forall|j: int| 0 <= j < headers.len() ==> header_name(#[trigger] headers[j].0@) is Some,
        forall|j: int| 0 <= j < headers.len() ==> header_name(#[trigger] headers[j].0@) != Some(entry.0),
    ensures
        !entries_of(headers).contains(entry),
    decreases headers.len(),
{
    if headers.len() > 0 {
        let front = headers.drop_last();
        assert forall|j: int| 0 <= j < front.len() implies header_name(#[trigger] front[j].0@) is Some && header_name(
            front[j].0@,
        ) != Some(entry.0) by {
            assert(front[j] == headers[j]);
        }
        lemma_no_other_entries(front, entry);
        lemma_entries_unique(front);
        assert(header_name(headers[headers.len() - 1].0@) != Some(entry.0));
        lemma_entry_is_set(
            entries_of(front),
            header_name(headers.last().0@).unwrap(),
            encode_utf8(headers.last().1@),
            entry,
        );
    }
}

/// A record is refused for its URI unless that has neither a scheme nor an authority but a path, for its method unless
/// that is one, and for a header unless all of them are valid; no record is refused otherwise.
pub proof fn lemma_only_relative_uris(uri: Seq<char>, method: Seq<char>, headers: Seq<(String, String)>)
    ensures
        record_fault(uri, method, headers) is None ==> {
            &&& uri_parts(uri) matches Some(parts) && parts.0 is None && parts.1 is None && parts.2.len() > 0
            &&& is_method(encode_utf8(method))
            &&& forall|i: int| 0 <= i < headers.len() ==> is_valid_header(#[trigger] headers[i])
        },
        uri_parts(uri) matches Some(parts) && parts.0 is None && parts.1 is None && parts.2.len() > 0 && is_method(
            encode_utf8(method),
        ) && (forall|i: int| 0 <= i < headers.len() ==> is_valid_header(#[trigger] headers[i])) ==> record_fault(
            uri,
            method,
            headers,
        ) is None,
{
    if header_fault(headers, 0) is None {
        assert forall|i: int| 0 <= i < headers.len() implies is_valid_header(#[trigger] headers[i]) by {
            lemma_fault_found(headers, 0, i);
        }
    }
    if forall|i: int| 0 <= i < headers.len() ==> is_valid_header(#[trigger] headers[i]) {
        lemma_no_fault(headers, 0);
    }
}

proof fn lemma_fault_found(headers: Seq<(String, String)>, from: int, i: int)
    requires
        0 <= from <= i < headers.len(),
        header_fault(headers, from) is None,
    ensures
        is_valid_header(headers[i]),
    decreases i - from,
{
    if from < i {
        lemma_fault_found(headers, from + 1, i);
    }
}

/// Headers stay in order without the host: what is left of a list is what is left of its parts, and a header alone
/// is left exactly when it is not the host.
pub proof fn lemma_order_without_host(a: Seq<(Seq<char>, Seq<u8>)>, b: Seq<(Seq<char>, Seq<u8>)>, entry: (
    Seq<char>,
    Seq<u8>,
))
    ensures
        without_host(a + b) == without_host(a) + without_host(b),
        entry.0 == "host"@ ==> without_host(seq![entry]).len() == 0,
        entry.0 != "host"@ ==> without_host(seq![entry]) == seq![entry],
    decreases b.len(),
{
    let one = seq![entry];
    assert(one.drop_last() =~= Seq::empty());
    assert(without_host(one.drop_last()) =~= Seq::empty());
    if entry.0 != "host"@ {
        assert(without_host(one) =~= one);
    }
    if b.len() == 0 {
        assert(a + b =~= a);
        assert(without_host(a) + without_host(b) =~= without_host(a));
    } else {
        lemma_order_without_host(a, b.drop_last(), entry);
        assert((a + b).drop_last() =~= a + b.drop_last());
        assert(without_host(a + b) =~= without_host(a) + without_host(b));
    }
}

/// What a record is refused for comes first in the order of URI, method and headers: a fault of a header is that of the
/// first header that is not valid, its name's before its value's.
pub proof fn lemma_first_fault(uri: Seq<char>, method: Seq<char>, headers: Seq<(String, String)>, i: int)
    requires
        0 <= i < headers.len() <= usize::MAX,
        forall|j: int| 0 <= j < i ==> is_valid_header(#[trigger] headers[j]),
        !is_valid_header(headers[i]),
    ensures
        uri_parts(uri) is None ==> record_fault(uri, method, headers) == Some(RecordError::InvalidUri),
        uri_parts(uri) matches Some(p) ==> {
            &&& p.0 is Some || p.1 is Some ==> record_fault(uri, method, headers) == Some(RecordError::UriNotRelative)
            &&& p.0 is None && p.1 is None && p.2.len() == 0 ==> record_fault(uri, method, headers) == Some(
                RecordError::UriWithoutPath,
            )
            &&& p.0 is None && p.1 is None && p.2.len() > 0 ==> {
                &&& !is_method(encode_utf8(method)) ==> record_fault(uri, method, headers) == Some(
                    RecordError::InvalidMethod,
                )
                &&& is_method(encode_utf8(method)) && header_name(headers[i].0@) is None ==> record_fault(
                    uri,
                    method,
                    headers,
                ) == Some(RecordError::InvalidHeaderName(i as usize))
                &&& is_method(encode_utf8(method)) && header_name(headers[i].0@) is Some ==> record_fault(
                    uri,
                    method,
                    headers,
                ) == Some(RecordError::InvalidHeaderValue(i as usize))
            }
        },
{
    lemma_fault_of(headers, 0, i);
}

proof fn lemma_fault_of(headers: Seq<(String, String)>, from: int, i: int)
    requires
        0 <= from <= i < headers.len(),
        forall|j: int| from <= j < i ==> is_valid_header(#[trigger] headers[j]),
        !is_valid_header(headers[i]),
    ensures
        header_fault(headers, from) == Some(
            if header_name(headers[i].0@) is None {
                RecordError::InvalidHeaderName(i as usize)
            } else {
                RecordError::InvalidHeaderValue(i as usize)
            },
        ),
    decreases i - from,
{
    if from < i {
        assert(is_valid_header(headers[from]));
        lemma_fault_of(headers, from + 1, i);
    }
}

/// The headers that an HTTP/1 request is sent with.
pub open spec fn http1_headers(host: Seq<char>, entries: Seq<(Seq<char>, Seq<u8>)>) -> Seq<(Seq<char>, Seq<u8>)> {
    seq![("host"@, encode_utf8(host))] + without_host(entries)
}

/// An HTTP/1 request has one host header, the record's, which comes first; the record's other headers follow in order,
/// and a host among them is ignored.
pub proof fn lemma_http1_headers(host: Seq<char>, entries: Seq<(Seq<char>, Seq<u8>)>, i: int)
    requires
        0 <= i < http1_headers(host, entries).len(),
    ensures
        http1_headers(host, entries)[0] == ("host"@, encode_utf8(host)),
        http1_headers(host, entries).skip(1) == without_host(entries),
        http1_headers(host, entries)[i].0 == "host"@ <==> i == 0,
{
    assert(http1_headers(host, entries).skip(1) =~= without_host(entries));
    if i > 0 {
        lemma_host_is_dropped(entries, i - 1);
        assert(http1_headers(host, entries)[i] == without_host(entries)[i - 1]);
    }
}

} // verus!
