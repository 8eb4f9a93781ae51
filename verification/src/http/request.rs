//! HTTP requests and the parser that reads them from text.

use std::collections::HashMap;
use vstd::prelude::*;
use vstd::utf8::{decode_utf8, valid_utf8};

use crate::text::{
    chars_match, decode_lossy, utf8_lossy, find_char, lemma_first_index_from, lemma_skip_from, lemma_skip_from_bounds,
    lemma_stop_or_end, new_string_map, push_char, skip_from, stop_or_end, string_from_chars,
    string_map_insert, string_map_view,
};

verus! {

broadcast use vstd::string::group_string_axioms;

/// An HTTP request method.
#[derive(Debug, PartialEq, Eq, Clone, Copy, Structural)]
pub enum Method {
    Get,
    Post,
    Head,
    Put,
    Delete,
    Connect,
    Options,
    Trace,
    Patch,
}

/// The method whose upper-case name is `n`.
pub open spec fn method_named(n: Seq<char>) -> Option<Method> {
    if n == seq!['G', 'E', 'T'] {
        Some(Method::Get)
    } else if n == seq!['P', 'O', 'S', 'T'] {
        Some(Method::Post)
    } else if n == seq!['H', 'E', 'A', 'D'] {
        Some(Method::Head)
    } else if n == seq!['P', 'U', 'T'] {
        Some(Method::Put)
    } else if n == seq!['D', 'E', 'L', 'E', 'T', 'E'] {
        Some(Method::Delete)
    } else if n == seq!['C', 'O', 'N', 'N', 'E', 'C', 'T'] {
        Some(Method::Connect)
    } else if n == seq!['O', 'P', 'T', 'I', 'O', 'N', 'S'] {
        Some(Method::Options)
    } else if n == seq!['T', 'R', 'A', 'C', 'E'] {
        Some(Method::Trace)
    } else if n == seq!['P', 'A', 'T', 'C', 'H'] {
        Some(Method::Patch)
    } else {
        None
    }
}

/// The method named by `v[from..to]`.
fn method_from_chars(v: &Vec<char>, from: usize, to: usize) -> (m: Option<Method>)
    requires
        from <= to <= v@.len(),
    ensures
        m == method_named(v@.subrange(from as int, to as int)),
{
    let ghost n = v@.subrange(from as int, to as int);
    if chars_match(v, from, to, &['G', 'E', 'T']) {
        assert(n == seq!['G', 'E', 'T']);
        Some(Method::Get)
    } else if chars_match(v, from, to, &['P', 'O', 'S', 'T']) {
        Some(Method::Post)
    } else if chars_match(v, from, to, &['H', 'E', 'A', 'D']) {
        Some(Method::Head)
    } else if chars_match(v, from, to, &['P', 'U', 'T']) {
        Some(Method::Put)
    } else if chars_match(v, from, to, &['D', 'E', 'L', 'E', 'T', 'E']) {
        Some(Method::Delete)
    } else if chars_match(v, from, to, &['C', 'O', 'N', 'N', 'E', 'C', 'T']) {
        Some(Method::Connect)
    } else if chars_match(v, from, to, &['O', 'P', 'T', 'I', 'O', 'N', 'S']) {
        Some(Method::Options)
    } else if chars_match(v, from, to, &['T', 'R', 'A', 'C', 'E']) {
        Some(Method::Trace)
    } else if chars_match(v, from, to, &['P', 'A', 'T', 'C', 'H']) {
        Some(Method::Patch)
    } else {
        None
    }
}

impl Method {
    /// The method whose upper-case name is `name`, if any.
    pub fn from_name(name: &str) -> (m: Option<Method>)
        ensures
            m == method_named(name@),
    {
        let v = crate::text::chars_of(name);
        assert(v@.subrange(0, v@.len() as int) =~= name@);
        method_from_chars(&v, 0, v.len())
    }
}

} // verus!

verus! {

/// A parsed request.
#[derive(Debug, PartialEq)]
pub struct HttpRequest {
    pub header: HttpRequestHeader,
    pub content: String,
}

/// The request line and the header fields of a request.
#[derive(Debug, PartialEq)]
pub struct HttpRequestHeader {
    pub method: Method,
    pub path: String,
    pub protocol: String,
    pub misc: HashMap<String, String>,
}

/// The mathematical content of an [`HttpRequest`].
pub struct RequestView {
    pub method: Method,
    pub path: Seq<char>,
    pub protocol: Seq<char>,
    pub misc: Map<Seq<char>, Seq<char>>,
    pub content: Seq<char>,
}

impl View for HttpRequest {
    type V = RequestView;

    open spec fn view(&self) -> RequestView {
        RequestView {
            method: self.header.method,
            path: self.header.path@,
            protocol: self.header.protocol@,
            misc: string_map_view(self.header.misc),
            content: self.content@,
        }
    }
}

/// The request a parse starts from: a GET with everything else empty.
pub open spec fn empty_request() -> RequestView {
    RequestView {
        method: Method::Get,
        path: Seq::empty(),
        protocol: Seq::empty(),
        misc: Map::empty(),
        content: Seq::empty(),
    }
}

impl Default for HttpRequest {
    fn default() -> (r: Self)
        ensures
            r@ == empty_request(),
    {
        HttpRequest {
            header: HttpRequestHeader {
                method: Method::Get,
                path: String::new(),
                protocol: String::new(),
                misc: new_string_map(),
            },
            content: String::new(),
        }
    }
}

/// Why a request could not be read.
#[derive(Debug, PartialEq, Eq, Clone, Copy, Structural)]
pub enum ParseError {
    InvalidHeader,
}

impl ParseError {
    /// The error's message.
    pub fn to_string(&self) -> (s: String)
        ensures
            s@ == "Invalid Header"@,
    {
        String::from_str("Invalid Header")
    }
}

pub(crate) enum ParseStage {
    Method,
    Path,
    Protocol,
    Misc,
    Content,
}

/// Reads a request from its text, one character at a time.
pub struct HttpRequestParser {
    request: HttpRequest,
    buffer: Vec<char>,
    cursor: usize,
    stage: ParseStage,
    input: Vec<char>,
}

/// Where the header fields of a request end, and what they are, reading from
/// `c` with the fields `m` already read; `None` where reading never ends.
///
/// A field line is read while the character after the current one is not a
/// line break: its key runs up to `:`, spaces after it are skipped, its value
/// runs up to `\r`, and one more character (the `\n`) is passed over.
pub open spec fn header_fields(s: Seq<char>, c: int, m: Map<Seq<char>, Seq<char>>) -> Option<(int, Map<Seq<char>, Seq<char>>)>
    decreases s.len() - c,
{
    if c < 0 || c >= s.len() {
        None
    } else if c + 1 < s.len() && (s[c + 1] == '\r' || s[c + 1] == '\n') {
        Some((c, m))
    } else {
        let key_end = stop_or_end(s, ':', c);
        let c1 = if key_end < s.len() { key_end + 1 } else { key_end };
        let c2 = skip_from(s, ' ', ' ', c1);
        let value_end = stop_or_end(s, '\r', c2);
        let c3 = if value_end < s.len() { value_end + 1 } else { value_end };
        let c4 = if c3 < s.len() { c3 + 1 } else { c3 };
        proof {
            lemma_stop_or_end(s, ':', c);
            lemma_skip_from_bounds(s, ' ', ' ', c1);
            lemma_stop_or_end(s, '\r', c2);
        }
        header_fields(s, c4, m.insert(s.subrange(c, key_end), s.subrange(c2, value_end)))
    }
}

/// What parsing `s` from cursor `c0`, with `b0` already collected, produces:
/// `None` where it never ends.
///
/// The method runs up to the first space, the path up to the next, the
/// protocol up to `\r`; one more character must follow. Then come the header
/// fields, then line breaks that are skipped, then the content up to the end.
pub open spec fn parse_outcome(s: Seq<char>, c0: int, b0: Seq<char>) -> Option<Result<RequestView, ParseError>> {
    let j1 = stop_or_end(s, ' ', c0);
    if j1 >= s.len() {
        Some(Err(ParseError::InvalidHeader))
    } else {
        match method_named(b0 + s.subrange(c0, j1)) {
            None => Some(Err(ParseError::InvalidHeader)),
            Some(m) => {
                let j2 = stop_or_end(s, ' ', j1 + 1);
                if j2 >= s.len() {
                    Some(Err(ParseError::InvalidHeader))
                } else {
                    let j3 = stop_or_end(s, '\r', j2 + 1);
                    if j3 + 1 >= s.len() {
                        Some(Err(ParseError::InvalidHeader))
                    } else {
                        match header_fields(s, j3 + 2, Map::empty()) {
                            None => None,
                            Some((c, misc)) => Some(
                                Ok(
                                    RequestView {
                                        method: m,
                                        path: s.subrange(j1 + 1, j2),
                                        protocol: s.subrange(j2 + 1, j3),
                                        misc: misc,
                                        content: s.subrange(skip_from(s, '\r', '\n', c), s.len() as int),
                                    },
                                ),
                            ),
                        }
                    }
                }
            },
        }
    }
}

pub open spec fn view_request_result(r: Result<HttpRequest, ParseError>) -> Result<RequestView, ParseError> {
    match r {
        Ok(req) => Ok(req@),
        Err(e) => Err(e),
    }
}

impl HttpRequestParser {
    /// The characters being read.
    pub closed spec fn input(&self) -> Seq<char> {
        self.input@
    }

    /// The position of the next character to read.
    pub closed spec fn cursor(&self) -> int {
        self.cursor as int
    }

    /// The characters collected and not yet taken.
    pub closed spec fn buffer(&self) -> Seq<char> {
        self.buffer@
    }

    /// The parser's state is consistent: the cursor is within the input.
    pub open spec fn wf(&self) -> bool {
        0 <= self.cursor() <= self.input().len()
    }

    /// Nothing of the request has been filled in yet.
    pub closed spec fn untouched(&self) -> bool {
        &&& self.request@ == empty_request()
        &&& self.stage is Method
    }

    /// The request as filled in so far.
    pub closed spec fn request_so_far(&self) -> RequestView {
        self.request@
    }

    /// A parser at the start of the text that `bytes` hold, as read from a
    /// connection: each invalid UTF-8 sequence reads as U+FFFD.
    pub fn from_bytes(bytes: &[u8]) -> (p: Self)
        ensures
            p.wf(),
            p.untouched(),
            p.input() == utf8_lossy(bytes@),
            valid_utf8(bytes@) ==> p.input() == decode_utf8(bytes@),
            p.cursor() == 0,
            p.buffer() == Seq::<char>::empty(),
    {
        let text = decode_lossy(bytes);
        Self::new(text.as_str())
    }

    /// A parser at the start of `input`.
    pub fn new(input: &str) -> (p: Self)
        ensures
            p.wf(),
            p.untouched(),
            p.input() == input@,
            p.cursor() == 0,
            p.buffer() == Seq::<char>::empty(),
    {
        Self {
            request: HttpRequest::default(),
            buffer: Vec::new(),
            cursor: 0,
            stage: ParseStage::Method,
            input: crate::text::chars_of(input),
        }
    }

    /// The next character, if any, moving past it.
    pub fn next(&mut self) -> (r: Option<char>)
        requires
            old(self).wf(),
        ensures
            final(self).wf(),
            final(self).untouched() == old(self).untouched(),
            final(self).request_so_far() == old(self).request_so_far(),
            final(self).input() == old(self).input(),
            final(self).buffer() == old(self).buffer(),
            old(self).cursor() < old(self).input().len() ==> r == Some(old(self).input()[old(self).cursor()])
                && final(self).cursor() == old(self).cursor() + 1,
            old(self).cursor() >= old(self).input().len() ==> r is None && final(self).cursor() == old(self).cursor(),
    {
        if self.cursor < self.input.len() {
            let ch = self.input[self.cursor];
            self.cursor = self.cursor + 1;
            Some(ch)
        } else {
            None
        }
    }

    /// The character after the next one, if any.
    fn peek(&self) -> (r: Option<char>)
        requires
            self.wf(),
        ensures
            self.cursor() + 1 < self.input().len() ==> r == Some(self.input()[self.cursor() + 1]),
            self.cursor() + 1 >= self.input().len() ==> r is None,
    {
        if self.cursor < self.input.len() && self.cursor + 1 < self.input.len() {
            Some(self.input[self.cursor + 1])
        } else {
            None
        }
    }

    /// Moves characters into the buffer until `stop` is read (true) or the
    /// input ends (false). The `stop` itself is passed over, not collected.
    pub fn collect_until(&mut self, stop: char) -> (found: bool)
        requires
            old(self).wf(),
        ensures
            final(self).wf(),
            final(self).untouched() == old(self).untouched(),
            final(self).request_so_far() == old(self).request_so_far(),
            final(self).input() == old(self).input(),
            found == (stop_or_end(old(self).input(), stop, old(self).cursor()) < old(self).input().len()),
            final(self).buffer() == old(self).buffer() + old(self).input().subrange(
                old(self).cursor(),
                stop_or_end(old(self).input(), stop, old(self).cursor()),
            ),
            final(self).cursor() == if found {
                stop_or_end(old(self).input(), stop, old(self).cursor()) + 1
            } else {
                old(self).input().len() as int
            },
    {
        let ghost s = self.input@;
        let ghost c0 = self.cursor as int;
        let ghost b0 = self.buffer@;
        proof {
            lemma_stop_or_end(s, stop, c0);
        }
        loop
            invariant
                self.wf(),
                self.request_so_far() == old(self).request_so_far(),
                self.untouched() == old(self).untouched(),
                self.input@ == s,
                c0 <= self.cursor <= stop_or_end(s, stop, c0),
                self.buffer@ == b0 + s.subrange(c0, self.cursor as int),
                0 <= c0 <= stop_or_end(s, stop, c0) <= s.len(),
                forall|m: int| c0 <= m < stop_or_end(s, stop, c0) ==> s[m] != stop,
                stop_or_end(s, stop, c0) < s.len() ==> s[stop_or_end(s, stop, c0)] == stop,
                s == old(self).input@,
                c0 == old(self).cursor,
                b0 == old(self).buffer@,
            decreases s.len() - self.cursor,
        {
            let ch = match self.next() {
                Some(ch) => ch,
                None => {
                    return false;
                },
            };
            if ch == stop {
                return true;
            }
            self.buffer.push(ch);
            assert(self.buffer@ =~= b0 + s.subrange(c0, self.cursor as int));
        }
    }

    /// Moves past the characters for which `predicate` holds, stopping at the
    /// first for which it does not, or at the end.
    pub fn skip_while<P>(&mut self, predicate: P)
        where
            P: Fn(char) -> bool,
        requires
            old(self).wf(),
            forall|c: char| predicate.requires((c,)),
        ensures
            final(self).wf(),
            final(self).untouched() == old(self).untouched(),
            final(self).request_so_far() == old(self).request_so_far(),
            final(self).input() == old(self).input(),
            final(self).buffer() == old(self).buffer(),
            old(self).cursor() <= final(self).cursor() <= old(self).input().len(),
            forall|k: int|
                old(self).cursor() <= k < final(self).cursor() ==> predicate.ensures(
                    (#[trigger] old(self).input()[k],),
                    true,
                ),
            final(self).cursor() < old(self).input().len() ==> predicate.ensures(
                (old(self).input()[final(self).cursor()],),
                false,
            ),
    {
        let ghost c0 = self.cursor as int;
        loop
            invariant
                self.wf(),
                self.request_so_far() == old(self).request_so_far(),
                self.untouched() == old(self).untouched(),
                self.input@ == old(self).input@,
                self.buffer@ == old(self).buffer@,
                c0 == old(self).cursor,
                c0 <= self.cursor <= self.input@.len(),
                forall|c: char| predicate.requires((c,)),
                forall|k: int| c0 <= k < self.cursor ==> predicate.ensures((#[trigger] self.input@[k],), true),
            decreases self.input@.len() - self.cursor,
        {
            match self.next() {
                Some(ch) => {
                    if !predicate(ch) {
                        self.cursor = self.cursor - 1;
                        return;
                    }
                },
                None => {
                    return;
                },
            }
        }
    }

    /// The collected characters as a string, emptying the buffer.
    fn take_buffer(&mut self) -> (s: String)
        requires
            old(self).wf(),
        ensures
            final(self).wf(),
            final(self).untouched() == old(self).untouched(),
            final(self).request_so_far() == old(self).request_so_far(),
            final(self).input() == old(self).input(),
            final(self).cursor() == old(self).cursor(),
            final(self).buffer() == Seq::<char>::empty(),
            s@ == old(self).buffer(),
    {
        let s = string_from_chars(&self.buffer, 0, self.buffer.len());
        assert(self.buffer@.subrange(0, self.buffer@.len() as int) =~= self.buffer@);
        self.buffer.clear();
        s
    }
}


impl HttpRequestParser {
    /// Reads the whole request: the request line, the header fields, and the
    /// content after them.
    pub fn parse(self) -> (r: Result<HttpRequest, ParseError>)
        requires
            self.wf(),
            self.untouched(),
            parse_outcome(self.input(), self.cursor(), self.buffer()) is Some,
        ensures
            Some(view_request_result(r)) == parse_outcome(self.input(), self.cursor(), self.buffer()),
    {
        let mut this = self;
        let ghost s = this.input();
        let ghost c0 = this.cursor();
        let ghost b0 = this.buffer();
        proof {
            lemma_stop_or_end(s, ' ', c0);
        }
        // The method.
        if !this.collect_until(' ') {
            return Err(ParseError::InvalidHeader);
        }
        let ghost j1 = stop_or_end(s, ' ', c0);
        let method = method_from_chars(&this.buffer, 0, this.buffer.len());
        assert(this.buffer@.subrange(0, this.buffer@.len() as int) =~= b0 + s.subrange(c0, j1));
        this.buffer.clear();
        match method {
            Some(m) => {
                this.request.header.method = m;
            },
            None => {
                return Err(ParseError::InvalidHeader);
            },
        }
        this.stage = ParseStage::Path;
        // The path.
        proof {
            lemma_stop_or_end(s, ' ', j1 + 1);
        }
        if !this.collect_until(' ') {
            return Err(ParseError::InvalidHeader);
        }
        let ghost j2 = stop_or_end(s, ' ', j1 + 1);
        this.request.header.path = this.take_buffer();
        this.stage = ParseStage::Protocol;
        // The protocol.
        proof {
            lemma_stop_or_end(s, '\r', j2 + 1);
        }
        if !this.collect_until('\r') {
            return Err(ParseError::InvalidHeader);
        }
        let ghost j3 = stop_or_end(s, '\r', j2 + 1);
        this.request.header.protocol = this.take_buffer();
        if this.next().is_none() {
            return Err(ParseError::InvalidHeader);
        }
        this.stage = ParseStage::Misc;
        let ghost fields = header_fields(s, j3 + 2, Map::empty()).unwrap();
        let ghost line = (this.request.header.method, this.request.header.path@, this.request.header.protocol@);
        assert(line == (method_named(b0 + s.subrange(c0, j1)).unwrap(), s.subrange(j1 + 1, j2), s.subrange(j2 + 1, j3)));
        // The header fields.
        loop
            invariant
                this.wf(),
                this.input() == s,
                this.buffer() == Seq::<char>::empty(),
                header_fields(s, this.cursor(), string_map_view(this.request.header.misc)) == Some(fields),
                this.request.content@ == Seq::<char>::empty(),
                line == (this.request.header.method, this.request.header.path@, this.request.header.protocol@),
            ensures
                line == (this.request.header.method, this.request.header.path@, this.request.header.protocol@),
                this.wf(),
                this.input() == s,
                this.cursor() == fields.0,
                string_map_view(this.request.header.misc) == fields.1,
                this.request.content@ == Seq::<char>::empty(),
            decreases s.len() - this.cursor(),
        {
            let at_break = match this.peek() {
                Some(c) => c == '\r' || c == '\n',
                None => false,
            };
            if at_break {
                this.stage = ParseStage::Content;
                break;
            }
            let ghost c = this.cursor();
            proof {
                lemma_stop_or_end(s, ':', c);
            }
            this.collect_until(':');
            let key = this.take_buffer();
            let ghost c1 = this.cursor();
            this.skip_while(|ch: char| -> (b: bool) ensures b == (ch == ' ') { ch == ' ' });
            proof {
                lemma_skip_from(s, ' ', ' ', c1, this.cursor());
                lemma_stop_or_end(s, '\r', this.cursor());
            }
            let ghost c2 = this.cursor();
            this.collect_until('\r');
            let value = this.take_buffer();
            this.next();
            string_map_insert(&mut this.request.header.misc, key, value);
            assert(key@ == s.subrange(c, stop_or_end(s, ':', c)));
            assert(value@ == s.subrange(c2, stop_or_end(s, '\r', c2)));
        }
        // The content.
        let ghost c = this.cursor();
        this.skip_while(|ch: char| -> (b: bool) ensures b == (ch == '\r' || ch == '\n') { ch == '\r' || ch == '\n' });
        proof {
            lemma_skip_from(s, '\r', '\n', c, this.cursor());
        }
        let ghost start = this.cursor();
        loop
            invariant
                this.wf(),
                this.input() == s,
                0 <= start <= this.cursor() <= s.len(),
                this.request.content@ == s.subrange(start, this.cursor()),
                line == (this.request.header.method, this.request.header.path@, this.request.header.protocol@),
                string_map_view(this.request.header.misc) == fields.1,
            ensures
                line == (this.request.header.method, this.request.header.path@, this.request.header.protocol@),
                string_map_view(this.request.header.misc) == fields.1,
                this.request.content@ == s.subrange(start, s.len() as int),
            decreases s.len() - this.cursor(),
        {
            match this.next() {
                Some(ch) => {
                    push_char(&mut this.request.content, ch);
                    assert(this.request.content@ =~= s.subrange(start, this.cursor()));
                },
                None => {
                    break;
                },
            }
        }
        Ok(this.request)
    }
}


/// `stop_or_end` computed: the next `stop` at or after `from`, or the end.
fn next_stop(v: &Vec<char>, stop: char, from: usize) -> (r: usize)
    requires
        from <= v@.len(),
    ensures
        r == stop_or_end(v@, stop, from as int),
        from <= r <= v@.len(),
{
    proof {
        lemma_stop_or_end(v@, stop, from as int);
    }
    match find_char(v, stop, from) {
        Some(k) => k,
        None => v.len(),
    }
}

/// `skip_from` computed.
fn skip_chars(v: &Vec<char>, a: char, b: char, from: usize) -> (r: usize)
    requires
        from <= v@.len(),
    ensures
        r == skip_from(v@, a, b, from as int),
        from <= r <= v@.len(),
{
    let mut i = from;
    while i < v.len() && (v[i] == a || v[i] == b)
        invariant
            from <= i <= v@.len(),
            forall|k: int| from <= k < i ==> v@[k] == a || v@[k] == b,
        decreases v@.len() - i,
    {
        i = i + 1;
    }
    proof {
        lemma_skip_from(v@, a, b, from as int, i as int);
    }
    i
}

impl HttpRequestParser {
    /// Whether `parse` comes to an end on this parser's input. It does not
    /// where the input runs out while header fields are read (no line break
    /// follows the character after some field line's start); there it reads
    /// empty fields forever.
    pub fn parse_ends(&self) -> (b: bool)
        requires
            self.wf(),
        ensures
            b == parse_outcome(self.input(), self.cursor(), self.buffer()) is Some,
    {
        let ghost s = self.input@;
        let v = &self.input;
        let c0 = self.cursor;
        let j1 = next_stop(v, ' ', c0);
        if j1 >= v.len() {
            return true;
        }
        let mut name = self.buffer.clone();
        let mut i = c0;
        while i < j1
            invariant
                c0 <= i <= j1 < v@.len(),
                name@ == self.buffer@ + v@.subrange(c0 as int, i as int),
            decreases j1 - i,
        {
            name.push(v[i]);
            assert(name@ =~= self.buffer@ + v@.subrange(c0 as int, i + 1));
            i = i + 1;
        }
        assert(name@.subrange(0, name@.len() as int) =~= name@);
        if method_from_chars(&name, 0, name.len()).is_none() {
            return true;
        }
        let j2 = next_stop(v, ' ', j1 + 1);
        if j2 >= v.len() {
            return true;
        }
        let j3 = next_stop(v, '\r', j2 + 1);
        if j3 >= v.len() || j3 + 1 >= v.len() {
            return true;
        }
        let mut c = j3 + 2;
        assert(parse_outcome(self.input(), self.cursor(), self.buffer()) is Some
            == header_fields(s, j3 + 2, Map::empty()) is Some);
        let ghost mut m = Map::<Seq<char>, Seq<char>>::empty();
        loop
            invariant
                s == v@,
                j3 + 2 <= c,
                header_fields(s, c as int, m) == header_fields(s, j3 + 2, Map::empty()),
                parse_outcome(self.input(), self.cursor(), self.buffer()) is Some
                    == header_fields(s, j3 + 2, Map::empty()) is Some,
            decreases v@.len() - c,
        {
            if c >= v.len() {
                return false;
            }
            if c + 1 < v.len() && (v[c + 1] == '\r' || v[c + 1] == '\n') {
                return true;
            }
            let key_end = next_stop(v, ':', c);
            let c1 = if key_end < v.len() { key_end + 1 } else { key_end };
            let c2 = skip_chars(v, ' ', ' ', c1);
            let value_end = next_stop(v, '\r', c2);
            let c3 = if value_end < v.len() { value_end + 1 } else { value_end };
            let c4 = if c3 < v.len() { c3 + 1 } else { c3 };
            proof {
                m = m.insert(s.subrange(c as int, key_end as int), s.subrange(c2 as int, value_end as int));
            }
            c = c4;
        }
    }
}

} // verus!
