//! A very small HTTP/1.1 server: enough to speak the OpenAI API and no more.
//!
//! The whole surface needed is "parse a request line, read a JSON body, write a
//! response or a stream of them". Everything is bounded: headers, body and the
//! request line. Reading and writing happen outside; what the lines mean and what
//! the responses say is here.

use vstd::prelude::*;
use vstd::string::*;
use vstd::utf8::{decode_utf8, encode_utf8, valid_utf8};
use crate::json::{quote, quoted};
use crate::text::{
    Blank, bytes_of, chars_of, contains, decimal, decimal_of, find, first_at, first_word, has, join, join3,
    parse_unsigned, same, strip_end, strip_start, substring, trim, trimmed, unsigned_of, without_end, word,
};
use crate::tokenizer::check_utf8;

verus! {

pub const MAX_LINE: usize = 8192;

pub const MAX_HEADERS: usize = 64;

pub const MAX_BODY: usize = 16777216;

pub struct Request {
    pub method: String,
    pub path: String,
    pub body: Vec<u8>,
}

/// The part of a path before its query string.
pub open spec fn route_of(path: Seq<char>) -> Seq<char> {
    match first_at(path, 0, "?"@) {
        Some(i) => path.subrange(0, i),
        None => path,
    }
}

impl Request {
    /// Path without its query string.
    pub fn route(&self) -> (r: String)
        ensures
            r@ == route_of(self.path@),
    {
        let c = chars_of(self.path.as_str());
        match find(c.as_slice(), 0, "?") {
            Some(i) => substring(c.as_slice(), 0, i),
            None => self.path.clone(),
        }
    }
}

// ------------------------------------------------------------------- reading

/// Why a line was not read.
#[derive(Clone, Copy, PartialEq, Eq, Debug, Structural)]
pub enum LineError {
    /// The connection was closed.
    Closed,
    /// The line is longer than a line may be.
    TooLong,
    /// The line is not text.
    NotText,
}

/// A line of the request, from the bytes up to its end, of which at most
/// [`MAX_LINE`] are taken.
pub fn line(raw: &[u8]) -> (r: Result<String, LineError>)
    ensures
        match r {
            Ok(s) => 0 < raw@.len() < MAX_LINE && valid_utf8(raw@) && s@ == strip_end(
                decode_utf8(raw@),
                Blank::Space,
            ),
            Err(LineError::Closed) => raw@.len() == 0,
            Err(LineError::TooLong) => raw@.len() >= MAX_LINE && valid_utf8(raw@),
            Err(LineError::NotText) => raw@.len() > 0 && !valid_utf8(raw@),
        },
{
    if raw.len() == 0 {
        return Err(LineError::Closed);
    }
    match check_utf8(raw) {
        Ok(s) => {
            if raw.len() >= MAX_LINE {
                return Err(LineError::TooLong);
            }
            Ok(without_end(s.as_str(), Blank::Space))
        },
        Err(_) => Err(LineError::NotText),
    }
}

/// What has been read of a request before its body.
pub struct Head {
    method: String,
    path: String,
    len: usize,
    headers: usize,
    open: bool,
}

/// What a [`Head`] holds.
pub struct HeadV {
    pub method: Seq<char>,
    pub path: Seq<char>,
    /// Length of the body.
    pub len: nat,
    /// Header lines read.
    pub headers: nat,
    /// Whether more may come.
    pub open: bool,
}

impl View for Head {
    type V = HeadV;

    closed spec fn view(&self) -> HeadV {
        HeadV {
            method: self.method@,
            path: self.path@,
            len: self.len as nat,
            headers: self.headers as nat,
            open: self.open,
        }
    }
}

/// The second word of a text.
pub open spec fn second_word(s: Seq<char>) -> Seq<char> {
    let t = strip_start(s, Blank::Space);
    first_word(t.subrange(crate::text::word_end(t, 0), t.len() as int))
}

/// A letter in lower case, where it is an ASCII letter.
pub open spec fn ascii_lower(c: char) -> char {
    if 'A' <= c <= 'Z' {
        (c as int + 32) as char
    } else {
        c
    }
}

pub open spec fn ascii_lowered(s: Seq<char>) -> Seq<char> {
    Seq::new(s.len(), |i: int| ascii_lower(s[i]))
}

/// A length as a header writes it: digits, perhaps after a plus sign.
pub open spec fn length_of(s: Seq<char>) -> Option<nat> {
    unsigned_of(s, usize::MAX as nat)
}

impl HeadV {
    /// The head with one more header line counted.
    pub open spec fn counted(self, l: Seq<char>) -> HeadV {
        HeadV { headers: self.headers + 1, open: l.len() > 0 && self.headers + 1 < MAX_HEADERS, ..self }
    }

    /// The head after one more header line.
    pub open spec fn after(self, l: Seq<char>) -> Result<HeadV, Seq<char>> {
        let next = self.counted(l);
        match first_at(l, 0, ":"@) {
            None => Ok(next),
            Some(i) => {
                let k = ascii_lowered(l.subrange(0, i));
                let v = l.subrange(i + 1, l.len() as int);
                if k == "content-length"@ {
                    match length_of(trimmed(v)) {
                        Some(n) => Ok(HeadV { len: n, ..next }),
                        None => Err("bad content-length"@),
                    }
                } else if k == "transfer-encoding"@ && has(ascii_lowered(v), "chunked"@) {
                    Err("chunked request bodies are not supported"@)
                } else {
                    Ok(next)
                }
            },
        }
    }
}

/// A text with its ASCII letters in lower case.
pub fn lower(s: &str) -> (r: String)
    ensures
        r@ == ascii_lowered(s@),
{
    let c = chars_of(s);
    let mut out = String::new();
    let mut i: usize = 0;
    while i < c.len()
        invariant
            i <= c@.len(),
            out@ == ascii_lowered(c@).subrange(0, i as int),
        decreases c.len() - i,
    {
        let ch = c[i];
        if 'A' <= ch && ch <= 'Z' {
            out.push((ch as u8 + 32) as char);
        } else {
            out.push(ch);
        }
        i += 1;
        assert(out@ =~= ascii_lowered(c@).subrange(0, i as int));
    }
    assert(out@ =~= ascii_lowered(s@));
    out
}

/// A length as a header writes it.
pub fn parse_length(s: &str) -> (r: Option<usize>)
    ensures
        match r {
            Some(n) => length_of(s@) == Some(n as nat),
            None => length_of(s@) is None,
        },
{
    match parse_unsigned(s, usize::MAX as u64) {
        Some(n) => Some(n as usize),
        None => None,
    }
}

/// The text after the first word.
pub(crate) fn after_word(s: &str) -> (r: String)
    ensures
        ({
            let t = strip_start(s@, Blank::Space);
            r@ == t.subrange(crate::text::word_end(t, 0), t.len() as int)
        }),
{
    let t = crate::text::without_start(s, Blank::Space);
    let c = chars_of(t.as_str());
    let mut i: usize = 0;
    while i < c.len() && !c[i].is_whitespace()
        invariant
            i <= c@.len(),
            crate::text::word_end(c@, 0) == crate::text::word_end(c@, i as int),
        decreases c.len() - i,
    {
        i += 1;
    }
    substring(c.as_slice(), i, c.len())
}

/// A head is read in a bounded number of lines: while more may come, there is room for one
/// more.
pub proof fn law_heads_are_bounded(h: HeadV, l: Seq<char>)
    requires
        h.headers < MAX_HEADERS,
        h.after(l) is Ok,
    ensures
        ({
            let n = h.after(l)->Ok_0;
            n.headers == h.headers + 1 && (n.open ==> n.headers < MAX_HEADERS)
        }),
{
}

impl Head {
    /// The request line: a method and a path.
    pub fn begin(l: &str) -> (r: Result<Head, String>)
        ensures
            match r {
                Ok(h) => h@ == (HeadV {
                    method: first_word(l@),
                    path: second_word(l@),
                    len: 0,
                    headers: 0,
                    open: true,
                }) && first_word(l@).len() > 0 && second_word(l@).len() > 0,
                Err(e) => e@ == "malformed request line"@ && (first_word(l@).len() == 0 || second_word(l@).len()
                    == 0),
            },
    {
        let method = word(l);
        let rest = after_word(l);
        let path = word(rest.as_str());
        if method.as_str().is_empty() || path.as_str().is_empty() {
            return Err("malformed request line".to_owned());
        }
        Ok(Head { method, path, len: 0, headers: 0, open: true })
    }

    /// Whether another header line is to be read.
    pub fn wants_line(&self) -> (r: bool)
        ensures
            r == self@.open,
    {
        self.open
    }

    /// One header line.
    pub fn header(&mut self, l: &str) -> (r: Result<(), String>)
        requires
            old(self)@.headers < MAX_HEADERS,
        ensures
            match r {
                Ok(_) => old(self)@.after(l@) == Ok::<HeadV, Seq<char>>(final(self)@),
                Err(e) => old(self)@.after(l@) == Err::<HeadV, Seq<char>>(e@) && final(self)@ == old(self)@.counted(l@),
            },
    {
        self.headers += 1;
        self.open = !l.is_empty() && self.headers < MAX_HEADERS;
        let c = chars_of(l);
        proof {
            reveal_strlit(":");
        }
        if let Some(i) = find(c.as_slice(), 0, ":") {
            let name = substring(c.as_slice(), 0, i);
            let k = lower(name.as_str());
            let v = substring(c.as_slice(), i + 1, c.len());
            if same(k.as_str(), "content-length") {
                match parse_length(trim(v.as_str()).as_str()) {
                    Some(n) => {
                        self.len = n;
                    },
                    None => {
                        return Err("bad content-length".to_owned());
                    },
                }
            } else if same(k.as_str(), "transfer-encoding") && contains(lower(v.as_str()).as_str(), "chunked") {
                return Err("chunked request bodies are not supported".to_owned());
            }
        }
        Ok(())
    }

    /// How many bytes of body follow.
    pub fn body_len(&self) -> (r: Result<usize, String>)
        ensures
            match r {
                Ok(n) => n == self@.len && n <= MAX_BODY,
                Err(e) => self@.len > MAX_BODY && e@ == "body too large"@,
            },
    {
        if self.len > MAX_BODY {
            Err("body too large".to_owned())
        } else {
            Ok(self.len)
        }
    }

    /// The request, once its body has been read.
    pub fn with_body(self, body: Vec<u8>) -> (r: Request)
        ensures
            r.method@ == self@.method,
            r.path@ == self@.path,
            r.body@ == body@,
    {
        Request { method: self.method, path: self.path, body }
    }
}

// ------------------------------------------------------------------- writing

pub open spec fn reason_of(status: u16) -> Seq<char> {
    if status == 200 {
        "OK"@
    } else if status == 400 {
        "Bad Request"@
    } else if status == 404 {
        "Not Found"@
    } else if status == 405 {
        "Method Not Allowed"@
    } else if status == 413 {
        "Payload Too Large"@
    } else if status == 503 {
        "Service Unavailable"@
    } else {
        "Error"@
    }
}

pub open spec fn cors_of(cors: bool) -> Seq<char> {
    if cors {
        "Access-Control-Allow-Origin: *\r\nAccess-Control-Allow-Headers: *\r\nAccess-Control-Allow-Methods: GET, POST, OPTIONS\r\n"@
    } else {
        Seq::empty()
    }
}

/// The head of a response.
pub open spec fn head_of(status: u16, content_type: Seq<char>, extra: Seq<char>, cors: bool) -> Seq<char> {
    "HTTP/1.1 "@ + decimal_of(status as nat) + " "@ + reason_of(status) + "\r\nContent-Type: "@ + content_type
        + "\r\n"@ + cors_of(cors) + extra + "Connection: close\r\n\r\n"@
}

/// The header that gives the length of a body in bytes.
pub open spec fn content_length(body: Seq<char>) -> Seq<char> {
    "Content-Length: "@ + decimal_of(encode_utf8(body).len()) + "\r\n"@
}

/// An error in the shape OpenAI clients expect to find it.
pub open spec fn error_of(status: u16, message: Seq<char>) -> Seq<char> {
    "{\"error\":{\"message\":"@ + quoted(message) + ",\"type\":\""@ + (if status == 503 {
        "server_error"@
    } else {
        "invalid_request_error"@
    }) + "\"}}"@
}

/// The head of a response.
pub fn head(status: u16, content_type: &str, extra: &str, cors: bool) -> (r: String)
    ensures
        r@ == head_of(status, content_type@, extra@, cors),
{
    let reason = if status == 200 {
        "OK"
    } else if status == 400 {
        "Bad Request"
    } else if status == 404 {
        "Not Found"
    } else if status == 405 {
        "Method Not Allowed"
    } else if status == 413 {
        "Payload Too Large"
    } else if status == 503 {
        "Service Unavailable"
    } else {
        "Error"
    };
    let mut out = "HTTP/1.1 ".to_owned();
    out.append(decimal(status as u64).as_str());
    out.append(" ");
    out.append(reason);
    out.append("\r\nContent-Type: ");
    out.append(content_type);
    out.append("\r\n");
    if cors {
        out.append(
            "Access-Control-Allow-Origin: *\r\nAccess-Control-Allow-Headers: *\r\nAccess-Control-Allow-Methods: GET, POST, OPTIONS\r\n",
        );
    }
    assert(out@ =~= "HTTP/1.1 "@ + decimal_of(status as nat) + " "@ + reason_of(status) + "\r\nContent-Type: "@
        + content_type@ + "\r\n"@ + cors_of(cors));
    out.append(extra);
    out.append("Connection: close\r\n\r\n");
    out
}

fn length_header(body: &str) -> (r: String)
    ensures
        r@ == content_length(body@),
{
    let n: usize = bytes_of(body).len();
    join3("Content-Length: ", decimal(n as u64).as_str(), "\r\n")
}

/// A whole response with a JSON body.
pub fn json(status: u16, body: &str, cors: bool) -> (r: String)
    ensures
        r@ == head_of(status, "application/json"@, content_length(body@), cors) + body@,
{
    let h = head(status, "application/json", length_header(body).as_str(), cors);
    join(h.as_str(), body)
}

/// A whole response with a text body.
pub fn text(status: u16, body: &str, cors: bool) -> (r: String)
    ensures
        r@ == head_of(status, "text/plain; charset=utf-8"@, content_length(body@), cors) + body@,
{
    let h = head(status, "text/plain; charset=utf-8", length_header(body).as_str(), cors);
    join(h.as_str(), body)
}

/// A whole response that is an error, in the shape OpenAI clients expect.
pub fn error(status: u16, message: &str, cors: bool) -> (r: String)
    ensures
        r@ == ({
            let body = error_of(status, message@);
            head_of(status, "application/json"@, content_length(body), cors) + body
        }),
{
    let kind = if status == 503 {
        "server_error"
    } else {
        "invalid_request_error"
    };
    let mut body = "{\"error\":{\"message\":".to_owned();
    body.append(quote(message).as_str());
    body.append(",\"type\":\"");
    body.append(kind);
    body.append("\"}}");
    json(status, body.as_str(), cors)
}

/// What begins a server-sent-event stream.
pub fn sse_open(cors: bool) -> (r: String)
    ensures
        r@ == head_of(200, "text/event-stream"@, "Cache-Control: no-cache\r\n"@, cors),
{
    head(200, "text/event-stream", "Cache-Control: no-cache\r\n", cors)
}

/// One event of a stream.
pub fn sse(data: &str) -> (r: String)
    ensures
        r@ == "data: "@ + data@ + "\n\n"@,
{
    join3("data: ", data, "\n\n")
}

/// What ends a stream.
pub fn sse_close() -> (r: String)
    ensures
        r@ == "data: [DONE]\n\n"@,
{
    "data: [DONE]\n\n".to_owned()
}

} // verus!
