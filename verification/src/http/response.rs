//! HTTP responses and their text.

use vstd::prelude::*;

use crate::text::push_char;

verus! {

broadcast use vstd::string::group_string_axioms;

/// A response status.
#[derive(Debug, PartialEq, Eq, Copy, Clone, Structural)]
pub enum StatusCode {
    OK,
    Created,
    Accepted,
    BadRequest,
    Unauthorized,
    Forbidden,
    NotFound,
    Teapot,
    Internale,
    NotImplemented,
    BadGateway,
    ServiceUnavailable,
    HttpVersionUnsupported,
}

/// The numeric code of a status.
pub open spec fn status_number(s: StatusCode) -> u16 {
    match s {
        StatusCode::OK => 200,
        StatusCode::Created => 201,
        StatusCode::Accepted => 202,
        StatusCode::BadRequest => 400,
        StatusCode::Unauthorized => 401,
        StatusCode::Forbidden => 403,
        StatusCode::NotFound => 404,
        StatusCode::Teapot => 418,
        StatusCode::Internale => 500,
        StatusCode::NotImplemented => 501,
        StatusCode::BadGateway => 502,
        StatusCode::ServiceUnavailable => 503,
        StatusCode::HttpVersionUnsupported => 505,
    }
}

impl StatusCode {
    /// The numeric code of this status.
    pub fn code(&self) -> (n: u16)
        ensures
            n == status_number(*self),
    {
        match self {
            StatusCode::OK => 200,
            StatusCode::Created => 201,
            StatusCode::Accepted => 202,
            StatusCode::BadRequest => 400,
            StatusCode::Unauthorized => 401,
            StatusCode::Forbidden => 403,
            StatusCode::NotFound => 404,
            StatusCode::Teapot => 418,
            StatusCode::Internale => 500,
            StatusCode::NotImplemented => 501,
            StatusCode::BadGateway => 502,
            StatusCode::ServiceUnavailable => 503,
            StatusCode::HttpVersionUnsupported => 505,
        }
    }
}

impl Default for StatusCode {
    fn default() -> (s: Self)
        ensures
            s == StatusCode::OK,
    {
        StatusCode::OK
    }
}

/// The media type of a response body.
#[derive(Debug, PartialEq, Eq, Copy, Clone, Structural)]
pub enum ContentType {
    TextHtml,
    AppForm,
    FormData,
    TextPlain,
}

/// The name of a media type.
pub open spec fn content_type_name(c: ContentType) -> Seq<char> {
    match c {
        ContentType::TextHtml => "text/html"@,
        ContentType::AppForm => "application/x-www-form-urlencoded"@,
        ContentType::FormData => "multipart/form-data"@,
        ContentType::TextPlain => "text/plain"@,
    }
}

impl ContentType {
    /// The name of this media type.
    pub fn to_string(&self) -> (s: String)
        ensures
            s@ == content_type_name(*self),
    {
        match self {
            ContentType::TextHtml => String::from_str("text/html"),
            ContentType::AppForm => String::from_str("application/x-www-form-urlencoded"),
            ContentType::FormData => String::from_str("multipart/form-data"),
            ContentType::TextPlain => String::from_str("text/plain"),
        }
    }
}

impl Default for ContentType {
    fn default() -> (c: Self)
        ensures
            c == ContentType::TextPlain,
    {
        ContentType::TextPlain
    }
}

/// The decimal digit for `d`.
pub open spec fn digit_char(d: nat) -> char {
    if d == 0 {
        '0'
    } else if d == 1 {
        '1'
    } else if d == 2 {
        '2'
    } else if d == 3 {
        '3'
    } else if d == 4 {
        '4'
    } else if d == 5 {
        '5'
    } else if d == 6 {
        '6'
    } else if d == 7 {
        '7'
    } else if d == 8 {
        '8'
    } else {
        '9'
    }
}

/// The decimal notation of `n`, without leading zeros.
pub open spec fn decimal(n: nat) -> Seq<char>
    decreases n,
{
    if n < 10 {
        seq![digit_char(n)]
    } else {
        decimal(n / 10).push(digit_char(n % 10))
    }
}

/// Appends the decimal notation of `n`.
fn push_decimal(s: &mut String, n: usize)
    ensures
        final(s)@ == old(s)@ + decimal(n as nat),
    decreases n,
{
    if n >= 10 {
        push_decimal(s, n / 10);
    }
    let d = n % 10;
    let c = if d == 0 {
        '0'
    } else if d == 1 {
        '1'
    } else if d == 2 {
        '2'
    } else if d == 3 {
        '3'
    } else if d == 4 {
        '4'
    } else if d == 5 {
        '5'
    } else if d == 6 {
        '6'
    } else if d == 7 {
        '7'
    } else if d == 8 {
        '8'
    } else {
        '9'
    };
    push_char(s, c);
    assert(c == digit_char((n % 10) as nat));
    assert(final(s)@ =~= old(s)@ + decimal(n as nat));
}

/// The status line of a response.
#[derive(Debug)]
pub struct HttpResponseHeader {
    pub protocol: String,
    pub status_code: StatusCode,
    pub reason_phrase: String,
}

impl Default for HttpResponseHeader {
    fn default() -> (h: Self)
        ensures
            h.protocol@ == Seq::<char>::empty(),
            h.status_code == StatusCode::OK,
            h.reason_phrase@ == Seq::<char>::empty(),
    {
        HttpResponseHeader {
            protocol: String::new(),
            status_code: StatusCode::OK,
            reason_phrase: String::new(),
        }
    }
}

/// The text of a status line: protocol, code and reason, each followed by a space
/// (`{protocol} {code} {reason} `).
pub open spec fn header_text(h: HttpResponseHeader) -> Seq<char> {
    h.protocol@ + seq![' '] + decimal(status_number(h.status_code) as nat) + seq![' '] + h.reason_phrase@ + seq![' ']
}

impl HttpResponseHeader {
    /// The status line as text.
    pub fn to_string(&self) -> (s: String)
        ensures
            s@ == header_text(*self),
    {
        let mut s = self.protocol.clone();
        push_char(&mut s, ' ');
        push_decimal(&mut s, self.status_code.code() as usize);
        push_char(&mut s, ' ');
        s.append(self.reason_phrase.as_str());
        push_char(&mut s, ' ');
        assert(s@ =~= header_text(*self));
        s
    }
}

/// A response ready to be sent.
#[derive(Debug)]
pub struct HttpResponse {
    pub header: HttpResponseHeader,
    pub content_type: ContentType,
    pub content_length: usize,
    pub body: String,
}

/// The number of bytes of the UTF-8 encoding of `s`.
pub open spec fn utf8_len(s: Seq<char>) -> nat {
    vstd::utf8::encode_utf8(s).len()
}

/// The text of a response: the status line, the content type, the content
/// length and an empty line, each ended by `\r\n`, then the body.
pub open spec fn response_text(r: HttpResponse) -> Seq<char> {
    header_text(r.header) + "\r\n"@ + "Content-Type: "@ + content_type_name(r.content_type) + "\r\n"@
        + "Content-Length: "@ + decimal(r.content_length as nat) + "\r\n"@ + "\r\n"@ + r.body@
}

impl Default for HttpResponse {
    fn default() -> (r: Self)
        ensures
            r.header.protocol@ == Seq::<char>::empty(),
            r.header.status_code == StatusCode::OK,
            r.header.reason_phrase@ == Seq::<char>::empty(),
            r.content_type == ContentType::TextPlain,
            r.content_length == 0,
            r.body@ == Seq::<char>::empty(),
    {
        HttpResponse {
            header: HttpResponseHeader::default(),
            content_type: ContentType::default(),
            content_length: 0,
            body: String::new(),
        }
    }
}

impl HttpResponse {
    /// A response with `body`; its content length is the body's length in bytes.
    pub fn new(header: HttpResponseHeader, content_type: ContentType, body: &str) -> (r: Self)
        ensures
            r.header == header,
            r.content_type == content_type,
            r.body@ == body@,
            r.content_length == utf8_len(body@) as usize,
    {
        let body = String::from_str(body);
        let content_length = body.as_str().len();
        HttpResponse { header, content_type, content_length, body }
    }

    /// The response as text.
    pub fn to_string(&self) -> (s: String)
        ensures
            s@ == response_text(*self),
    {
        let mut s = self.header.to_string();
        s.append("\r\n");
        s.append("Content-Type: ");
        let ct = self.content_type.to_string();
        s.append(ct.as_str());
        s.append("\r\n");
        s.append("Content-Length: ");
        push_decimal(&mut s, self.content_length);
        s.append("\r\n");
        s.append("\r\n");
        s.append(self.body.as_str());
        assert(s@ =~= response_text(*self));
        s
    }
}

} // verus!
