//! What holds of the request parser: it reads back what a request's text says.

use vstd::prelude::*;

use crate::http::request::{header_fields, method_named, parse_outcome, Method, ParseError, RequestView};
use crate::text::{lemma_first_index_is, lemma_skip_from, skip_from, stop_or_end};

verus! {

/// The upper-case name of a method.
pub open spec fn method_name(m: Method) -> Seq<char> {
    match m {
        Method::Get => seq!['G', 'E', 'T'],
        Method::Post => seq!['P', 'O', 'S', 'T'],
        Method::Head => seq!['H', 'E', 'A', 'D'],
        Method::Put => seq!['P', 'U', 'T'],
        Method::Delete => seq!['D', 'E', 'L', 'E', 'T', 'E'],
        Method::Connect => seq!['C', 'O', 'N', 'N', 'E', 'C', 'T'],
        Method::Options => seq!['O', 'P', 'T', 'I', 'O', 'N', 'S'],
        Method::Trace => seq!['T', 'R', 'A', 'C', 'E'],
        Method::Patch => seq!['P', 'A', 'T', 'C', 'H'],
    }
}

/// Reading a method's name gives the method back.
pub proof fn law_method_name_roundtrip(m: Method)
    ensures
        method_named(method_name(m)) == Some(m),
        forall|k: int| 0 <= k < method_name(m).len() ==> method_name(m)[k] != ' ',
{
    let n = method_name(m);
    match m {
        Method::Get => {},
        Method::Post => {
            assert(n[0] != seq!['G', 'E', 'T'][0]);
        },
        Method::Head => {
            assert(n[0] != seq!['G', 'E', 'T'][0]);
            assert(n[0] != seq!['P', 'O', 'S', 'T'][0]);
        },
        Method::Put => {
            assert(n[0] != seq!['G', 'E', 'T'][0]);
            assert(n[1] != seq!['P', 'O', 'S', 'T'][1]);
            assert(n[0] != seq!['H', 'E', 'A', 'D'][0]);
        },
        Method::Delete => {
            assert(n[0] != seq!['G', 'E', 'T'][0]);
            assert(n[0] != seq!['P', 'O', 'S', 'T'][0]);
            assert(n[0] != seq!['H', 'E', 'A', 'D'][0]);
            assert(n[0] != seq!['P', 'U', 'T'][0]);
        },
        Method::Connect => {
            assert(n[0] != seq!['G', 'E', 'T'][0]);
            assert(n[0] != seq!['P', 'O', 'S', 'T'][0]);
            assert(n[0] != seq!['H', 'E', 'A', 'D'][0]);
            assert(n[0] != seq!['P', 'U', 'T'][0]);
            assert(n[0] != seq!['D', 'E', 'L', 'E', 'T', 'E'][0]);
        },
        Method::Options => {
            assert(n[0] != seq!['G', 'E', 'T'][0]);
            assert(n[0] != seq!['P', 'O', 'S', 'T'][0]);
            assert(n[0] != seq!['H', 'E', 'A', 'D'][0]);
            assert(n[0] != seq!['P', 'U', 'T'][0]);
            assert(n[0] != seq!['D', 'E', 'L', 'E', 'T', 'E'][0]);
            assert(n[0] != seq!['C', 'O', 'N', 'N', 'E', 'C', 'T'][0]);
        },
        Method::Trace => {
            assert(n[0] != seq!['G', 'E', 'T'][0]);
            assert(n[0] != seq!['P', 'O', 'S', 'T'][0]);
            assert(n[0] != seq!['H', 'E', 'A', 'D'][0]);
            assert(n[0] != seq!['P', 'U', 'T'][0]);
            assert(n[0] != seq!['D', 'E', 'L', 'E', 'T', 'E'][0]);
            assert(n[0] != seq!['C', 'O', 'N', 'N', 'E', 'C', 'T'][0]);
            assert(n[0] != seq!['O', 'P', 'T', 'I', 'O', 'N', 'S'][0]);
        },
        Method::Patch => {
            assert(n[0] != seq!['G', 'E', 'T'][0]);
            assert(n[1] != seq!['P', 'O', 'S', 'T'][1]);
            assert(n[0] != seq!['H', 'E', 'A', 'D'][0]);
            assert(n[1] != seq!['P', 'U', 'T'][1]);
            assert(n[0] != seq!['D', 'E', 'L', 'E', 'T', 'E'][0]);
            assert(n[0] != seq!['C', 'O', 'N', 'N', 'E', 'C', 'T'][0]);
            assert(n[0] != seq!['O', 'P', 'T', 'I', 'O', 'N', 'S'][0]);
            assert(n[0] != seq!['T', 'R', 'A', 'C', 'E'][0]);
        },
    }
}

/// The text of one header field line: `key: value\r\n`.
pub open spec fn field_line(key: Seq<char>, value: Seq<char>) -> Seq<char> {
    key + seq![':', ' '] + value + seq!['\r', '\n']
}

/// The text of header field lines, in order.
pub open spec fn fields_text(fields: Seq<(Seq<char>, Seq<char>)>) -> Seq<char>
    decreases fields.len(),
{
    if fields.len() == 0 {
        Seq::empty()
    } else {
        field_line(fields[0].0, fields[0].1) + fields_text(fields.drop_first())
    }
}

/// The map of header fields, each added to `m` in order (a later key wins).
pub open spec fn fields_map(fields: Seq<(Seq<char>, Seq<char>)>, m: Map<Seq<char>, Seq<char>>) -> Map<Seq<char>, Seq<char>>
    decreases fields.len(),
{
    if fields.len() == 0 {
        m
    } else {
        fields_map(fields.drop_first(), m.insert(fields[0].0, fields[0].1))
    }
}

/// The text of a request: the request line, the header field lines, an empty
/// line, then the content.
pub open spec fn request_text(
    method: Method,
    path: Seq<char>,
    protocol: Seq<char>,
    fields: Seq<(Seq<char>, Seq<char>)>,
    content: Seq<char>,
) -> Seq<char> {
    method_name(method) + seq![' '] + path + seq![' '] + protocol + seq!['\r', '\n'] + fields_text(fields)
        + seq!['\r', '\n'] + content
}

/// Header fields the parser reads back as written: no key holds `:` or a line
/// break, no value holds `\r` or starts with a space.
pub open spec fn readable_fields(fields: Seq<(Seq<char>, Seq<char>)>) -> bool {
    forall|i: int|
        0 <= i < fields.len() ==> {
            let (k, v) = #[trigger] fields[i];
            &&& forall|j: int| 0 <= j < k.len() ==> k[j] != ':' && k[j] != '\r' && k[j] != '\n'
            &&& forall|j: int| 0 <= j < v.len() ==> v[j] != '\r'
            &&& v.len() > 0 ==> v[0] != ' '
        }
}

/// `n` spaces.
pub open spec fn spaces(n: nat) -> Seq<char> {
    Seq::new(n, |i: int| ' ')
}

/// The text of one header field line with `gap` spaces after the colon:
/// `key:` then the spaces, the value and `\r\n`.
pub open spec fn spaced_field_line(key: Seq<char>, gap: nat, value: Seq<char>) -> Seq<char> {
    key + seq![':'] + spaces(gap) + value + seq!['\r', '\n']
}

/// The text of header field lines `(key, gap, value)`, in order.
pub open spec fn spaced_fields_text(fields: Seq<(Seq<char>, nat, Seq<char>)>) -> Seq<char>
    decreases fields.len(),
{
    if fields.len() == 0 {
        Seq::empty()
    } else {
        spaced_field_line(fields[0].0, fields[0].1, fields[0].2) + spaced_fields_text(fields.drop_first())
    }
}

/// The keys and values of header field lines `(key, gap, value)`.
pub open spec fn keys_and_values(fields: Seq<(Seq<char>, nat, Seq<char>)>) -> Seq<(Seq<char>, Seq<char>)> {
    fields.map_values(|f: (Seq<char>, nat, Seq<char>)| (f.0, f.2))
}

/// Header field lines the parser reads back as written, however many spaces
/// follow each colon: no key holds `:` or a line break, no value holds `\r` or
/// starts with a space, and a line does not start with `:` right before its end.
pub open spec fn readable_spaced_fields(fields: Seq<(Seq<char>, nat, Seq<char>)>) -> bool {
    forall|i: int|
        0 <= i < fields.len() ==> {
            let (k, g, v) = #[trigger] fields[i];
            &&& forall|j: int| 0 <= j < k.len() ==> k[j] != ':' && k[j] != '\r' && k[j] != '\n'
            &&& forall|j: int| 0 <= j < v.len() ==> v[j] != '\r'
            &&& v.len() > 0 ==> v[0] != ' '
            &&& k.len() > 0 || g > 0
        }
}

/// The text of a request whose header field lines have any number of spaces
/// after each colon.
pub open spec fn spaced_request_text(
    method: Method,
    path: Seq<char>,
    protocol: Seq<char>,
    fields: Seq<(Seq<char>, nat, Seq<char>)>,
    content: Seq<char>,
) -> Seq<char> {
    method_name(method) + seq![' '] + path + seq![' '] + protocol + seq!['\r', '\n'] + spaced_fields_text(fields)
        + seq!['\r', '\n'] + content
}

proof fn lemma_spaced_header_fields(
    s: Seq<char>,
    c: int,
    fields: Seq<(Seq<char>, nat, Seq<char>)>,
    content: Seq<char>,
    m: Map<Seq<char>, Seq<char>>,
)
    requires
        0 <= c <= s.len(),
        s.subrange(c, s.len() as int) == spaced_fields_text(fields) + seq!['\r', '\n'] + content,
        readable_spaced_fields(fields),
    ensures
        header_fields(s, c, m) == Some((c + spaced_fields_text(fields).len(), fields_map(keys_and_values(fields), m))),
    decreases fields.len(),
{
    let t = s.subrange(c, s.len() as int);
    assert forall|i: int| 0 <= i < t.len() implies s[c + i] == #[trigger] t[i] by {}
    if fields.len() == 0 {
        assert(t[0] == '\r');
        assert(t[1] == '\n');
        assert(s[c + 1] == '\n');
        assert(keys_and_values(fields).len() == 0);
    } else {
        let (k, g, v) = fields[0];
        let tail_fields = fields.drop_first();
        assert(readable_spaced_fields(tail_fields)) by {
            assert forall|i: int| 0 <= i < tail_fields.len() implies #[trigger] tail_fields[i] == fields[i + 1] by {}
        }
        assert(keys_and_values(fields).drop_first() =~= keys_and_values(tail_fields));
        assert(keys_and_values(fields)[0] == (k, v));
        let line = spaced_field_line(k, g, v);
        let rest = spaced_fields_text(tail_fields);
        assert(spaced_fields_text(fields) == line + rest);
        assert(t =~= line + (rest + seq!['\r', '\n'] + content));
        let klen = k.len() as int;
        let gl = g as int;
        let vlen = v.len() as int;
        assert(line.len() == klen + 1 + gl + vlen + 2);
        // The characters of the line, region by region.
        assert forall|i: int| 0 <= i < klen implies #[trigger] line[i] == k[i] by {}
        assert(line[klen] == ':');
        assert forall|i: int| klen < i <= klen + gl implies #[trigger] line[i] == ' ' by {
            assert(line[i] == spaces(g)[i - klen - 1]);
        }
        assert forall|i: int| 0 <= i < vlen implies #[trigger] line[klen + 1 + gl + i] == v[i] by {}
        assert(line[klen + 1 + gl + vlen] == '\r');
        assert(line[klen + 1 + gl + vlen + 1] == '\n');
        assert forall|i: int| 0 <= i < line.len() implies s[c + i] == #[trigger] line[i] by {
            assert(t[i] == line[i]);
        }
        // The line's second character is no line break.
        if klen >= 2 {
            assert(s[c + 1] == line[1]);
        } else if klen == 1 {
            assert(s[c + 1] == line[1]);
        } else {
            assert(s[c + 1] == line[1]);
            assert(line[1] == ' ');
        }
        // The key runs up to the `:`.
        assert forall|j: int| c <= j < c + klen implies s[j] != ':' by {
            assert(s[j] == line[j - c]);
        }
        assert(s[c + klen] == line[klen]);
        lemma_first_index_is(s, ':', c, c + klen);
        assert(stop_or_end(s, ':', c) == c + klen);
        // All the spaces are skipped, and no more.
        let vs = c + klen + 1 + gl;
        assert forall|j: int| c + klen + 1 <= j < vs implies s[j] == ' ' || s[j] == ' ' by {
            assert(s[j] == line[j - c]);
        }
        assert(s[vs] == line[klen + 1 + gl]);
        if vlen > 0 {
            assert(line[klen + 1 + gl] == v[0]);
        }
        lemma_skip_from(s, ' ', ' ', c + klen + 1, vs);
        // The value runs up to the `\r`.
        assert forall|j: int| vs <= j < vs + vlen implies s[j] != '\r' by {
            assert(s[j] == line[j - c]);
            assert(line[klen + 1 + gl + (j - vs)] == v[j - vs]);
        }
        assert(s[vs + vlen] == line[klen + 1 + gl + vlen]);
        lemma_first_index_is(s, '\r', vs, vs + vlen);
        assert(s.subrange(c, c + klen) =~= k);
        assert forall|i: int| 0 <= i < vlen implies #[trigger] s.subrange(vs, vs + vlen)[i] == v[i] by {
            assert(s[vs + i] == line[klen + 1 + gl + i]);
        }
        assert(s.subrange(vs, vs + vlen) =~= v);
        let c4 = c + line.len();
        assert(s[vs + vlen + 1] == line[klen + 1 + gl + vlen + 1]);
        let after = rest + seq!['\r', '\n'] + content;
        assert forall|i: int| 0 <= i < after.len() implies #[trigger] s.subrange(c4, s.len() as int)[i] == after[i] by {
            assert(t[line.len() + i] == after[i]);
            assert(s[c + line.len() + i] == t[line.len() + i]);
        }
        assert(s.subrange(c4, s.len() as int) =~= after);
        lemma_spaced_header_fields(s, c4, tail_fields, content, m.insert(k, v));
    }
}

/// Where `s[from..]` is `piece`, then `stop`, then `tail`, with no `stop` in
/// `piece`: the next `stop` ends `piece`, and `tail` follows it.
proof fn lemma_piece(s: Seq<char>, from: int, piece: Seq<char>, stop: char, tail: Seq<char>)
    requires
        0 <= from <= s.len(),
        s.subrange(from, s.len() as int) == piece + seq![stop] + tail,
        forall|j: int| 0 <= j < piece.len() ==> piece[j] != stop,
    ensures
        stop_or_end(s, stop, from) == from + piece.len(),
        from + piece.len() < s.len(),
        s.subrange(from, from + piece.len()) == piece,
        s.subrange(from + piece.len() + 1, s.len() as int) == tail,
{
    let t = s.subrange(from, s.len() as int);
    let e = from + piece.len();
    assert(t.len() == s.len() - from);
    assert(t.len() == piece.len() + 1 + tail.len());
    assert forall|i: int| 0 <= i < t.len() implies s[from + i] == #[trigger] t[i] by {}
    assert forall|i: int| 0 <= i < piece.len() implies #[trigger] t[i] == piece[i] by {}
    assert(t[piece.len() as int] == stop);
    assert forall|m: int| from <= m < e implies s[m] != stop by {
        assert(s[m] == t[m - from]);
    }
    lemma_first_index_is(s, stop, from, e);
    assert forall|i: int| 0 <= i < piece.len() implies #[trigger] s.subrange(from, e)[i] == piece[i] by {
        assert(s[from + i] == t[i]);
    }
    assert(s.subrange(from, e) =~= piece);
    assert forall|i: int| 0 <= i < tail.len() implies #[trigger] s.subrange(e + 1, s.len() as int)[i] == tail[i] by {
        assert(t[piece.len() + 1 + i] == tail[i]);
        assert(s[e + 1 + i] == t[piece.len() + 1 + i]);
    }
    assert(s.subrange(e + 1, s.len() as int) =~= tail);
}

/// The request line: where `s` is `{m} {path} {protocol}\r\n` followed by
/// `tail`, the method ends at the first space, the path at the next, the
/// protocol at the `\r`, and `tail` starts after the `\n`.
proof fn lemma_request_line(s: Seq<char>, m: Seq<char>, path: Seq<char>, protocol: Seq<char>, tail: Seq<char>)
    requires
        s == m + seq![' '] + path + seq![' '] + protocol + seq!['\r', '\n'] + tail,
        forall|j: int| 0 <= j < m.len() ==> m[j] != ' ',
        forall|j: int| 0 <= j < path.len() ==> path[j] != ' ',
        forall|j: int| 0 <= j < protocol.len() ==> protocol[j] != '\r',
    ensures
        stop_or_end(s, ' ', 0) == m.len(),
        s.subrange(0, m.len() as int) == m,
        stop_or_end(s, ' ', m.len() as int + 1) == m.len() as int + 1 + path.len(),
        s.subrange(m.len() as int + 1, m.len() as int + 1 + path.len()) == path,
        stop_or_end(s, '\r', m.len() as int + 2 + path.len()) == m.len() as int + 2 + path.len() + protocol.len(),
        s.subrange(m.len() as int + 2 + path.len(), m.len() as int + 2 + path.len() + protocol.len()) == protocol,
        m.len() as int + 3 + path.len() + protocol.len() < s.len(),
        s.subrange(m.len() as int + 4 + path.len() + protocol.len(), s.len() as int) == tail,
{
    let t3 = seq!['\n'] + tail;
    let t2 = protocol + seq!['\r'] + t3;
    let t1 = path + seq![' '] + t2;
    assert(s =~= m + seq![' '] + t1);
    assert(s.subrange(0, s.len() as int) =~= s);
    lemma_piece(s, 0, m, ' ', t1);
    let j1 = m.len() as int;
    lemma_piece(s, j1 + 1, path, ' ', t2);
    let j2 = j1 + 1 + path.len();
    lemma_piece(s, j2 + 1, protocol, '\r', t3);
    let j3 = j2 + 1 + protocol.len();
    assert(t3 =~= Seq::<char>::empty() + seq!['\n'] + tail);
    lemma_piece(s, j3 + 1, Seq::empty(), '\n', tail);
}

/// After the header fields: where `s[d..]` is `\r\n` then `content`, and
/// `content` does not start with a line break, skipping line breaks from `d`
/// stops where `content` starts.
proof fn lemma_content_start(s: Seq<char>, d: int, content: Seq<char>)
    requires
        0 <= d <= s.len(),
        s.subrange(d, s.len() as int) == seq!['\r', '\n'] + content,
        content.len() > 0 ==> content[0] != '\r' && content[0] != '\n',
    ensures
        skip_from(s, '\r', '\n', d) == d + 2,
        s.subrange(d + 2, s.len() as int) == content,
{
    assert(seq!['\r', '\n'] + content =~= Seq::<char>::empty() + seq!['\r'] + (seq!['\n'] + content));
    lemma_piece(s, d, Seq::empty(), '\r', seq!['\n'] + content);
    assert(seq!['\n'] + content =~= Seq::<char>::empty() + seq!['\n'] + content);
    lemma_piece(s, d + 1, Seq::empty(), '\n', content);
    crate::text::lemma_stop_or_end(s, '\r', d);
    crate::text::lemma_stop_or_end(s, '\n', d + 1);
    if content.len() > 0 {
        assert(s[d + 2] == s.subrange(d + 2, s.len() as int)[0]);
    }
    lemma_skip_from(s, '\r', '\n', d, d + 2);
}

/// The parser reads a request back from its text: the method, the path, the
/// protocol, the header fields (a later key winning over an earlier one) and
/// the content, as long as each part avoids the characters that end it. Each
/// field's value is the text from the first character after the colon and its
/// spaces, however many spaces there are (none too), up to the line's end.
#[verifier::rlimit(30)]
pub proof fn law_parse_reads_spaced_request_text(
    method: Method,
    path: Seq<char>,
    protocol: Seq<char>,
    fields: Seq<(Seq<char>, nat, Seq<char>)>,
    content: Seq<char>,
)
    requires
        forall|j: int| 0 <= j < path.len() ==> path[j] != ' ',
        forall|j: int| 0 <= j < protocol.len() ==> protocol[j] != '\r',
        readable_spaced_fields(fields),
        content.len() > 0 ==> content[0] != '\r' && content[0] != '\n',
    ensures
        parse_outcome(spaced_request_text(method, path, protocol, fields, content), 0, Seq::empty()) == Some(
            Ok::<RequestView, ParseError>(
                RequestView {
                    method: method,
                    path: path,
                    protocol: protocol,
                    misc: fields_map(keys_and_values(fields), Map::empty()),
                    content: content,
                },
            ),
        ),
{
    let s = spaced_request_text(method, path, protocol, fields, content);
    let mname = method_name(method);
    law_method_name_roundtrip(method);
    let f = spaced_fields_text(fields);
    let tail = f + seq!['\r', '\n'] + content;
    assert(s =~= mname + seq![' '] + path + seq![' '] + protocol + seq!['\r', '\n'] + tail);
    lemma_request_line(s, mname, path, protocol, tail);
    let j1 = mname.len() as int;
    let j2 = j1 + 1 + path.len();
    let j3 = j2 + 1 + protocol.len();
    assert(Seq::<char>::empty() + s.subrange(0, j1) =~= mname);
    let c = j3 + 2;
    lemma_spaced_header_fields(s, c, fields, content, Map::empty());
    let d = c + f.len();
    assert(tail =~= f + (seq!['\r', '\n'] + content));
    lemma_skip_prefix(s, c, f, seq!['\r', '\n'] + content);
    lemma_content_start(s, d, content);
}

/// Field lines with one space after each colon are spaced lines with a gap of one.
proof fn lemma_one_space(fields: Seq<(Seq<char>, Seq<char>)>)
    ensures
        spaced_fields_text(fields.map_values(|f: (Seq<char>, Seq<char>)| (f.0, 1nat, f.1)))
            == fields_text(fields),
        keys_and_values(fields.map_values(|f: (Seq<char>, Seq<char>)| (f.0, 1nat, f.1))) == fields,
    decreases fields.len(),
{
    let sp = fields.map_values(|f: (Seq<char>, Seq<char>)| (f.0, 1nat, f.1));
    assert(keys_and_values(sp) =~= fields);
    if fields.len() > 0 {
        let rest = fields.drop_first();
        lemma_one_space(rest);
        assert(sp.drop_first() =~= rest.map_values(|f: (Seq<char>, Seq<char>)| (f.0, 1nat, f.1)));
        assert(seq![':'] + spaces(1) =~= seq![':', ' ']);
        assert(spaced_field_line(fields[0].0, 1, fields[0].1) =~= field_line(fields[0].0, fields[0].1));
    }
}

/// The parser reads a request back from its text: the method, the path, the
/// protocol, the header fields (a later key winning over an earlier one) and
/// the content, as long as each part avoids the characters that end it.
pub proof fn law_parse_reads_request_text(
    method: Method,
    path: Seq<char>,
    protocol: Seq<char>,
    fields: Seq<(Seq<char>, Seq<char>)>,
    content: Seq<char>,
)
    requires
        forall|j: int| 0 <= j < path.len() ==> path[j] != ' ',
        forall|j: int| 0 <= j < protocol.len() ==> protocol[j] != '\r',
        readable_fields(fields),
        content.len() > 0 ==> content[0] != '\r' && content[0] != '\n',
    ensures
        parse_outcome(request_text(method, path, protocol, fields, content), 0, Seq::empty()) == Some(
            Ok::<RequestView, ParseError>(
                RequestView {
                    method: method,
                    path: path,
                    protocol: protocol,
                    misc: fields_map(fields, Map::empty()),
                    content: content,
                },
            ),
        ),
{
    let sp = fields.map_values(|f: (Seq<char>, Seq<char>)| (f.0, 1nat, f.1));
    lemma_one_space(fields);
    assert(readable_spaced_fields(sp)) by {
        assert forall|i: int| 0 <= i < sp.len() implies {
            let (k, g, v) = #[trigger] sp[i];
            &&& forall|j: int| 0 <= j < k.len() ==> k[j] != ':' && k[j] != '\r' && k[j] != '\n'
            &&& forall|j: int| 0 <= j < v.len() ==> v[j] != '\r'
            &&& v.len() > 0 ==> v[0] != ' '
            &&& k.len() > 0 || g > 0
        } by {
            assert(sp[i] == (fields[i].0, 1nat, fields[i].1));
            let (k, v) = fields[i];
        }
    }
    assert(spaced_request_text(method, path, protocol, sp, content) == request_text(method, path, protocol, fields, content));
    law_parse_reads_spaced_request_text(method, path, protocol, sp, content);
}

/// Where `s[c..]` is `x` then `y`, `s[c + x.len()..]` is `y`.
proof fn lemma_skip_prefix(s: Seq<char>, c: int, x: Seq<char>, y: Seq<char>)
    requires
        0 <= c <= s.len(),
        s.subrange(c, s.len() as int) == x + y,
    ensures
        c + x.len() <= s.len(),
        s.subrange(c + x.len(), s.len() as int) == y,
{
    let t = s.subrange(c, s.len() as int);
    assert(t.len() == s.len() - c);
    assert forall|i: int| 0 <= i < y.len() implies #[trigger] s.subrange(c + x.len(), s.len() as int)[i] == y[i] by {
        assert(s[c + x.len() + i] == t[x.len() + i]);
    }
    assert(s.subrange(c + x.len(), s.len() as int) =~= y);
}

} // verus!
