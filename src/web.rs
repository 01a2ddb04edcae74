//! The rules of the HTTP front end: which handler a path goes to, which paths
//! need no session, which static paths may be served, and the media type of a
//! file by its extension.
use vstd::prelude::*;
use vstd::string::*;
use vstd::utf8::*;
use crate::client::{ascii_chars, decimal_text};
use crate::number::nat_text;

verus! {

/// The handler a request path goes to.
#[derive(Debug, PartialEq, Eq, Clone, Copy)]
pub enum Route {
    Hello,
    Method,
    Ip,
    NotFound,
    File,
}

/// The handler each path goes to.
pub open spec fn route_of(path: Seq<char>) -> Route {
    if path == "/"@ {
        Route::Hello
    } else if path == "/method"@ {
        Route::Method
    } else if path == "/ip"@ {
        Route::Ip
    } else if path == "/404"@ {
        Route::NotFound
    } else {
        Route::File
    }
}

fn same_text(a: &str, b: &str) -> (r: bool)
    ensures
        r == (a@ == b@),
{
    String::from_str(a) == String::from_str(b)
}

/// The handler for `path`; every path that names no other goes to the static
/// files.
pub fn route_for(path: &str) -> (r: Route)
    ensures
        r == route_of(path@),
{
    if same_text(path, "/") {
        Route::Hello
    } else if same_text(path, "/method") {
        Route::Method
    } else if same_text(path, "/ip") {
        Route::Ip
    } else if same_text(path, "/404") {
        Route::NotFound
    } else {
        Route::File
    }
}

/// Whether a request method is one the server answers.
pub open spec fn method_ok(method: Seq<char>) -> bool {
    method == "GET"@ || method == "POST"@
}

/// Whether the server answers requests with the method `method`.
pub fn method_allowed(method: &str) -> (r: bool)
    ensures
        r == method_ok(method@),
{
    same_text(method, "GET") || same_text(method, "POST")
}

/// Whether `b` holds two `.` bytes in a row.
pub open spec fn has_dotdot(b: Seq<u8>) -> bool {
    exists|i: int| 0 <= i < b.len() - 1 && #[trigger] b[i] == 46 && b[i + 1] == 46
}

fn contains_dotdot(b: &[u8]) -> (r: bool)
    ensures
        r == has_dotdot(b@),
{
    let mut i: usize = 1;
    while i < b.len()
        invariant
            1 <= i,
            forall|j: int| 0 <= j < i - 1 && j < b@.len() - 1 ==> !(#[trigger] b@[j] == 46 && b@[j + 1] == 46),
        decreases b@.len() - i,
    {
        if b[i - 1] == 46 && b[i] == 46 {
            return true;
        }
        i = i + 1;
    }
    false
}

/// Whether a decoded request path may name a static file: it starts with `/`
/// and never climbs with `..`.
pub open spec fn static_path_ok(path: Seq<char>) -> bool {
    let b = encode_utf8(path);
    b.len() > 0 && b[0] == 47 && !has_dotdot(b)
}

/// Whether the decoded request path `path` may name a static file.
pub fn static_path_allowed(path: &str) -> (r: bool)
    ensures
        r == static_path_ok(path@),
{
    let b = path.as_bytes();
    b.len() > 0 && b[0] == 47 && !contains_dotdot(b)
}

/// The value of an ASCII hexadecimal digit, in either case.
pub open spec fn hex_value(b: u8) -> Option<nat> {
    if 48 <= b <= 57 {
        Some((b - 48) as nat)
    } else if 97 <= b <= 102 {
        Some((b - 87) as nat)
    } else if 65 <= b <= 70 {
        Some((b - 55) as nat)
    } else {
        None
    }
}

/// `b` with each `%` that two hexadecimal digits follow replaced, together
/// with the digits, by the byte they write; every other byte stays.
pub open spec fn percent_bytes(b: Seq<u8>) -> Seq<u8>
    decreases b.len(),
{
    if b.len() == 0 {
        Seq::empty()
    } else if b[0] == 37 && b.len() >= 3 && hex_value(b[1]) is Some && hex_value(b[2]) is Some {
        seq![(hex_value(b[1])->Some_0 * 16 + hex_value(b[2])->Some_0) as u8] + percent_bytes(
            b.subrange(3, b.len() as int),
        )
    } else {
        seq![b[0]] + percent_bytes(b.subrange(1, b.len() as int))
    }
}

/// The text that `s` percent-decodes to, or nothing where the decoded bytes
/// are not UTF-8.
pub open spec fn percent_decoded_of(s: Seq<char>) -> Option<Seq<char>> {
    let d = percent_bytes(encode_utf8(s));
    if valid_utf8(d) {
        Some(decode_utf8(d))
    } else {
        None
    }
}

/// Relies on percent_encoding::percent_decode and PercentDecode::decode_utf8:
/// each `%` with two hexadecimal digits after it becomes the byte they write,
/// other bytes stay, and the result is read as UTF-8, or is nothing where it
/// is not UTF-8.
#[verifier::external_body]
fn percent_decoded(s: &str) -> (r: Option<String>)
    ensures
        r matches Some(t) ==> percent_decoded_of(s@) == Some(t@),
        r is None ==> percent_decoded_of(s@) is None,
{
    percent_encoding::percent_decode(s.as_bytes()).decode_utf8().ok().map(|t| t.into_owned())
}

/// Where on disk the static file for the decoded path `decoded` lies.
pub open spec fn static_file_of(decoded: Seq<char>) -> Option<Seq<char>> {
    if static_path_ok(decoded) {
        Some("static"@ + decoded)
    } else {
        None
    }
}

/// The file for the decoded request path `decoded`, when it may be served.
pub fn static_file_from(decoded: &str) -> (r: Option<String>)
    ensures
        r matches Some(p) ==> static_file_of(decoded@) == Some(p@),
        r is None ==> static_file_of(decoded@) is None,
{
    if static_path_allowed(decoded) {
        let mut p = String::from_str("static");
        p.append(decoded);
        Some(p)
    } else {
        None
    }
}

/// The file for the request path `path`, once percent-decoded; a path that
/// does not decode to text is served as the empty path, which no file has.
pub fn static_file_path(path: &str) -> (r: Option<String>)
    ensures
        r matches Some(p) ==> static_file_of(
            percent_decoded_of(path@).unwrap_or(Seq::empty()),
        ) == Some(p@),
        r is None ==> static_file_of(percent_decoded_of(path@).unwrap_or(Seq::empty())) is None,
{
    match percent_decoded(path) {
        Some(d) => static_file_from(d.as_str()),
        None => {
            let empty = String::new();
            static_file_from(empty.as_str())
        },
    }
}

/// A whole response with a text body.
pub open spec fn response_of(status: Seq<char>, content_type: Seq<char>, body: Seq<char>) -> Seq<
    char,
> {
    "HTTP/1.1 "@ + status + "\r\nContent-Type: "@ + content_type + "\r\nContent-Length: "@
        + ascii_chars(nat_text(encode_utf8(body).len())) + "\r\nConnection: close\r\n\r\n"@
        + body
}

/// The response with status line `status`, media type `content_type` and
/// body `body`; the length it announces is the body's length in bytes.
pub fn text_response(status: &str, content_type: &str, body: &str) -> (r: String)
    ensures
        r@ == response_of(status@, content_type@, body@),
{
    let n = body.as_bytes().len();
    let mut r = String::from_str("HTTP/1.1 ");
    r.append(status);
    r.append("\r\nContent-Type: ");
    r.append(content_type);
    r.append("\r\nContent-Length: ");
    r.append(decimal_text(n as u64).as_str());
    r.append("\r\nConnection: close\r\n\r\n");
    r.append(body);
    r
}

/// The head of a response that sends a file of `length` bytes.
pub open spec fn file_head_of(length: nat, content_type: Seq<char>) -> Seq<char> {
    "HTTP/1.1 200 OK\r\nContent-Length: "@ + ascii_chars(nat_text(length))
        + "\r\nContent-Type: "@ + content_type + "\r\nConnection: close\r\n\r\n"@
}

/// The head of a response that sends a file of `length` bytes of media type
/// `content_type`; the file's bytes follow it.
pub fn file_response_head(length: u64, content_type: &str) -> (r: String)
    ensures
        r@ == file_head_of(length as nat, content_type@),
{
    let mut r = String::from_str("HTTP/1.1 200 OK\r\nContent-Length: ");
    r.append(decimal_text(length).as_str());
    r.append("\r\nContent-Type: ");
    r.append(content_type);
    r.append("\r\nConnection: close\r\n\r\n");
    r
}

/// What str::to_uppercase makes of a text.
pub uninterp spec fn upper_of(s: Seq<char>) -> Seq<char>;

/// Relies on str::to_uppercase: the result depends on the characters alone.
#[verifier::external_body]
fn uppercase(s: &str) -> (r: String)
    ensures
        r@ == upper_of(s@),
{
    s.to_uppercase()
}

/// Whether a path, given with its upper-case form, needs no session: the
/// upper-case form starts with `/SRS` and the path never climbs with `..`.
pub open spec fn is_public(upper: Seq<char>, path: Seq<char>) -> bool {
    let u = encode_utf8(upper);
    &&& u.len() >= 4
    &&& u[0] == 47 && u[1] == 83 && u[2] == 82 && u[3] == 83
    &&& !has_dotdot(encode_utf8(path))
}

/// Whether `path`, whose upper-case form is `upper`, needs no session.
pub fn public_path_with(upper: &str, path: &str) -> (r: bool)
    ensures
        r == is_public(upper@, path@),
{
    let u = upper.as_bytes();
    u.len() >= 4 && u[0] == 47 && u[1] == 83 && u[2] == 82 && u[3] == 83 && !contains_dotdot(
        path.as_bytes(),
    )
}

/// Whether `path` needs no session.
pub fn public_path(path: &str) -> (r: bool)
    ensures
        r == is_public(upper_of(path@), path@),
{
    let upper = uppercase(path);
    public_path_with(upper.as_str(), path)
}

/// `b` with its ASCII capitals made small; other bytes stay.
pub open spec fn ascii_lower(b: Seq<u8>) -> Seq<u8> {
    Seq::new(
        b.len(),
        |i: int|
            if 65 <= b[i] <= 90 {
                (b[i] + 32) as u8
            } else {
                b[i]
            },
    )
}

/// The media type of a file whose extension, in small letters, is `ext`.
pub open spec fn mime_of(ext: Seq<u8>) -> Seq<char> {
    if ext == encode_utf8("html"@) {
        "text/html"@
    } else if ext == encode_utf8("txt"@) {
        "text/plain"@
    } else if ext == encode_utf8("csv"@) {
        "text/csv"@
    } else if ext == encode_utf8("css"@) {
        "text/css"@
    } else if ext == encode_utf8("ttf"@) {
        "font/ttf"@
    } else if ext == encode_utf8("woff"@) {
        "font/woff"@
    } else if ext == encode_utf8("woff2"@) {
        "font/woff2"@
    } else if ext == encode_utf8("gif"@) {
        "image/gif"@
    } else if ext == encode_utf8("jpg"@) || ext == encode_utf8("jpeg"@) {
        "image/jpeg"@
    } else if ext == encode_utf8("png"@) {
        "image/png"@
    } else if ext == encode_utf8("bmp"@) {
        "image/bmp"@
    } else if ext == encode_utf8("webp"@) {
        "image/webp"@
    } else if ext == encode_utf8("svg"@) {
        "image/svg+xml"@
    } else if ext == encode_utf8("ico"@) {
        "image/x-icon"@
    } else if ext == encode_utf8("wav"@) {
        "audio/x-wav"@
    } else if ext == encode_utf8("mp3"@) || ext == encode_utf8("mpa"@) {
        "audio/mpeg"@
    } else if ext == encode_utf8("m4a"@) {
        "audio/m4a"@
    } else if ext == encode_utf8("ogg"@) {
        "audio/ogg"@
    } else if ext == encode_utf8("aac"@) {
        "audio/aac"@
    } else if ext == encode_utf8("mp4"@) {
        "video/mp4"@
    } else if ext == encode_utf8("flv"@) {
        "video/x-flv"@
    } else if ext == encode_utf8("avi"@) {
        "video/x-msvideo"@
    } else if ext == encode_utf8("js"@) {
        "application/javascript"@
    } else if ext == encode_utf8("pdf"@) {
        "application/pdf"@
    } else if ext == encode_utf8("json"@) {
        "application/json"@
    } else if ext == encode_utf8("xml"@) {
        "application/xml"@
    } else {
        "application/octet-stream"@
    }
}

pub(crate) fn lower_bytes(b: &[u8]) -> (r: Vec<u8>)
    ensures
        r@ == ascii_lower(b@),
{
    let mut out: Vec<u8> = Vec::new();
    let mut i: usize = 0;
    while i < b.len()
        invariant
            i <= b@.len(),
            out@ == ascii_lower(b@).subrange(0, i as int),
        decreases b@.len() - i,
    {
        let c = b[i];
        if 65 <= c && c <= 90 {
            out.push(c + 32);
        } else {
            out.push(c);
        }
        i = i + 1;
        assert(out@ =~= ascii_lower(b@).subrange(0, i as int));
    }
    assert(ascii_lower(b@).subrange(0, i as int) =~= ascii_lower(b@));
    out
}

/// Whether `b` holds exactly the bytes of `s`.
pub(crate) fn bytes_are(b: &Vec<u8>, s: &str) -> (r: bool)
    ensures
        r == (b@ == encode_utf8(s@)),
{
    let t = s.as_bytes();
    if b.len() != t.len() {
        return false;
    }
    let mut i: usize = 0;
    while i < b.len()
        invariant
            i <= b@.len(),
            b@.len() == t@.len(),
            t@ == encode_utf8(s@),
            forall|j: int| 0 <= j < i ==> b@[j] == t@[j],
        decreases b@.len() - i,
    {
        if b[i] != t[i] {
            return false;
        }
        i = i + 1;
    }
    assert(b@ =~= t@);
    true
}

/// The media type of a file with the extension `ext`, in any case of letters.
pub fn guess_file_mime(ext: &str) -> (r: &'static str)
    ensures
        r@ == mime_of(ascii_lower(encode_utf8(ext@))),
{
    let e = lower_bytes(ext.as_bytes());
    if bytes_are(&e, "html") {
        "text/html"
    } else if bytes_are(&e, "txt") {
        "text/plain"
    } else if bytes_are(&e, "csv") {
        "text/csv"
    } else if bytes_are(&e, "css") {
        "text/css"
    } else if bytes_are(&e, "ttf") {
        "font/ttf"
    } else if bytes_are(&e, "woff") {
        "font/woff"
    } else if bytes_are(&e, "woff2") {
        "font/woff2"
    } else if bytes_are(&e, "gif") {
        "image/gif"
    } else if bytes_are(&e, "jpg") || bytes_are(&e, "jpeg") {
        "image/jpeg"
    } else if bytes_are(&e, "png") {
        "image/png"
    } else if bytes_are(&e, "bmp") {
        "image/bmp"
    } else if bytes_are(&e, "webp") {
        "image/webp"
    } else if bytes_are(&e, "svg") {
        "image/svg+xml"
    } else if bytes_are(&e, "ico") {
        "image/x-icon"
    } else if bytes_are(&e, "wav") {
        "audio/x-wav"
    } else if bytes_are(&e, "mp3") || bytes_are(&e, "mpa") {
        "audio/mpeg"
    } else if bytes_are(&e, "m4a") {
        "audio/m4a"
    } else if bytes_are(&e, "ogg") {
        "audio/ogg"
    } else if bytes_are(&e, "aac") {
        "audio/aac"
    } else if bytes_are(&e, "mp4") {
        "video/mp4"
    } else if bytes_are(&e, "flv") {
        "video/x-flv"
    } else if bytes_are(&e, "avi") {
        "video/x-msvideo"
    } else if bytes_are(&e, "js") {
        "application/javascript"
    } else if bytes_are(&e, "pdf") {
        "application/pdf"
    } else if bytes_are(&e, "json") {
        "application/json"
    } else if bytes_are(&e, "xml") {
        "application/xml"
    } else {
        "application/octet-stream"
    }
}

} // verus!
