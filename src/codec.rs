use vstd::prelude::*;

verus! {

/// One chat record: who wrote it, and what they wrote.
pub struct ChatMessage {
    pub username: String,
    pub content: String,
}

impl ChatMessage {
    pub fn new(username: String, content: String) -> (r: ChatMessage)
        ensures
            r.username@ == username@,
            r.content@ == content@,
    {
        ChatMessage { username, content }
    }
}

/// Why a message could not be turned into a frame.
#[derive(Debug, PartialEq, Eq, Structural)]
pub enum CodecError {
    /// The JSON encoder refused one of the two fields. On a `str` it never
    /// does, so `encode_message` never returns this.
    Serialization,
}

#[verifier::external_type_specification]
#[verifier::external_body]
pub struct ExJsonError(serde_json::Error);

/// The lower-case hexadecimal digit for `n`, which is below 16.
pub open spec fn hex_digit(n: u32) -> char {
    seq!['0', '1', '2', '3', '4', '5', '6', '7', '8', '9', 'a', 'b', 'c', 'd', 'e', 'f'][(n % 16) as int]
}

/// How serde_json writes one character inside a string literal: a quote,
/// a backslash and the control characters as escapes, anything else as is.
pub open spec fn escape_char(c: char) -> Seq<char> {
    if c == '"' {
        seq!['\\', '"']
    } else if c == '\\' {
        seq!['\\', '\\']
    } else if c == '\x08' {
        seq!['\\', 'b']
    } else if c == '\x0c' {
        seq!['\\', 'f']
    } else if c == '\n' {
        seq!['\\', 'n']
    } else if c == '\r' {
        seq!['\\', 'r']
    } else if c == '\t' {
        seq!['\\', 't']
    } else if (c as u32) < 0x20 {
        seq!['\\', 'u', '0', '0', hex_digit((c as u32) / 16), hex_digit((c as u32) % 16)]
    } else {
        seq![c]
    }
}

/// The escaped inside of the string literal for `s`.
pub open spec fn escape_text(s: Seq<char>) -> Seq<char>
    decreases s.len(),
{
    if s.len() == 0 {
        Seq::empty()
    } else {
        escape_char(s[0]) + escape_text(s.drop_first())
    }
}

/// The JSON string literal that serde_json writes for a text.
pub open spec fn json_quote(s: Seq<char>) -> Seq<char> {
    seq!['"'] + escape_text(s) + seq!['"']
}

/// The text that serde_json reads back out of a JSON string literal, if the
/// input is one.
pub uninterp spec fn json_unquote(s: Seq<char>) -> Option<Seq<char>>;

/// The inside of a JSON string literal as serde_json writes it: a run of
/// plain characters (no quote, backslash or line feed) and two-character
/// escapes (a backslash and one character that is not a line feed).
pub open spec fn escaped_body(b: Seq<char>) -> bool
    decreases b.len(),
{
    if b.len() == 0 {
        true
    } else if b[0] == '\\' {
        b.len() >= 2 && b[1] != '\n' && escaped_body(b.subrange(2, b.len() as int))
    } else {
        b[0] != '"' && b[0] != '\n' && escaped_body(b.drop_first())
    }
}

/// A JSON string literal in serde_json's compact output form.
pub open spec fn is_quoted(q: Seq<char>) -> bool {
    &&& q.len() >= 2
    &&& q[0] == '"'
    &&& q[q.len() - 1] == '"'
    &&& escaped_body(q.subrange(1, q.len() - 1))
}

/// Relies on serde_json::to_string on a `str`: it writes a quote, the text
/// with `"`, `\` and every control character escaped by a backslash
/// sequence, and a closing quote. It writes into a `Vec`, which cannot
/// fail, so the call always succeeds; and serde_json::from_str reads that
/// literal back as the very text.
#[verifier::external_body]
fn quote_json(s: &str) -> (r: Result<String, serde_json::Error>)
    ensures
        r is Ok,
        r->Ok_0@ == json_quote(s@),
        json_unquote(r->Ok_0@) == Some(s@),
{
    serde_json::to_string(s)
}

/// Relies on serde_json::from_str into a `String`: it reads one JSON string
/// literal and nothing else.
#[verifier::external_body]
fn unquote_json(s: &str) -> (r: Result<String, serde_json::Error>)
    ensures
        match r {
            Ok(t) => json_unquote(s@) == Some(t@),
            Err(_) => json_unquote(s@) is None,
        },
{
    serde_json::from_str::<String>(s)
}

/// `{"username":`
pub open spec fn username_open() -> Seq<char> {
    seq!['{', '"', 'u', 's', 'e', 'r', 'n', 'a', 'm', 'e', '"', ':']
}

/// `,"content":`
pub open spec fn content_sep() -> Seq<char> {
    seq![',', '"', 'c', 'o', 'n', 't', 'e', 'n', 't', '"', ':']
}

/// The JSON object with the two string literals `uq` and `cq` as the values
/// of `username` and `content`, in that order and without white space.
pub open spec fn record_text(uq: Seq<char>, cq: Seq<char>) -> Seq<char> {
    username_open() + uq + content_sep() + cq + seq!['}']
}

/// A record followed by the line feed that ends it on the wire.
pub open spec fn frame_text(uq: Seq<char>, cq: Seq<char>) -> Seq<char> {
    record_text(uq, cq).push('\n')
}

/// The frame that carries `m`.
pub open spec fn frame_of(m: ChatMessage) -> Seq<char> {
    frame_text(json_quote(m.username@), json_quote(m.content@))
}

/// Puts two already quoted field values into one frame.
pub fn assemble_frame(uq: &str, cq: &str) -> (r: String)
    ensures
        r@ == frame_text(uq@, cq@),
{
    let mut out = String::from_str("{\"username\":");
    out.append(uq);
    out.append(",\"content\":");
    out.append(cq);
    out.append("}\n");
    proof {
        reveal_strlit("{\"username\":");
        reveal_strlit(",\"content\":");
        reveal_strlit("}\n");
        assert(out@ =~= frame_text(uq@, cq@));
    }
    out
}

/// `f` is one line: it ends in a line feed and holds no other.
pub open spec fn single_line(f: Seq<char>) -> bool {
    &&& f.len() > 0
    &&& f[f.len() - 1] == '\n'
    &&& forall|i: int| 0 <= i < f.len() - 1 ==> f[i] != '\n'
}

proof fn lemma_escaped_body_no_line_feed(b: Seq<char>)
    requires
        escaped_body(b),
    ensures
        forall|i: int| 0 <= i < b.len() ==> b[i] != '\n',
    decreases b.len(),
{
    if b.len() > 0 {
        if b[0] == '\\' {
            let rest = b.subrange(2, b.len() as int);
            lemma_escaped_body_no_line_feed(rest);
            assert forall|i: int| 0 <= i < b.len() implies b[i] != '\n' by {
                if i >= 2 {
                    assert(b[i] == rest[i - 2]);
                }
            }
        } else {
            let rest = b.drop_first();
            lemma_escaped_body_no_line_feed(rest);
            assert forall|i: int| 0 <= i < b.len() implies b[i] != '\n' by {
                if i >= 1 {
                    assert(b[i] == rest[i - 1]);
                }
            }
        }
    }
}

proof fn lemma_quoted_no_line_feed(q: Seq<char>)
    requires
        is_quoted(q),
    ensures
        forall|i: int| 0 <= i < q.len() ==> q[i] != '\n',
{
    let body = q.subrange(1, q.len() - 1);
    lemma_escaped_body_no_line_feed(body);
    assert forall|i: int| 0 <= i < q.len() implies q[i] != '\n' by {
        if 0 < i < q.len() - 1 {
            assert(q[i] == body[i - 1]);
        }
    }
}

proof fn lemma_plain_then_escaped(p: Seq<char>, rest: Seq<char>)
    requires
        forall|i: int| 0 <= i < p.len() ==> p[i] != '"' && p[i] != '\\' && p[i] != '\n',
        escaped_body(rest),
    ensures
        escaped_body(p + rest),
    decreases p.len(),
{
    if p.len() > 0 {
        lemma_plain_then_escaped(p.drop_first(), rest);
        assert((p + rest).drop_first() =~= p.drop_first() + rest);
    }
}

proof fn lemma_escape_text_body(s: Seq<char>)
    ensures
        escaped_body(escape_text(s)),
    decreases s.len(),
{
    if s.len() > 0 {
        let c = s[0];
        let rest = escape_text(s.drop_first());
        lemma_escape_text_body(s.drop_first());
        let e = escape_char(c);
        let t = e + rest;
        assert(t == escape_text(s));
        if e.len() == 1 {
            assert(t.drop_first() =~= rest);
        } else if e.len() == 2 {
            assert(t.subrange(2, t.len() as int) =~= rest);
        } else {
            let digits = seq!['0', '1', '2', '3', '4', '5', '6', '7', '8', '9', 'a', 'b', 'c', 'd', 'e', 'f'];
            let hi = hex_digit((c as u32) / 16);
            let lo = hex_digit((c as u32) % 16);
            assert(forall|k: int| 0 <= k < 16 ==> digits[k] != '"' && digits[k] != '\\' && digits[k] != '\n');
            assert(hi == digits[(((c as u32) / 16) % 16) as int]);
            assert(lo == digits[(((c as u32) % 16) % 16) as int]);
            let p = seq!['0', '0', hi, lo];
            lemma_plain_then_escaped(p, rest);
            assert(t.subrange(2, t.len() as int) =~= p + rest);
        }
    }
}

/// Every literal that serde_json writes has the shape `is_quoted` describes.
pub proof fn lemma_json_quote_is_quoted(s: Seq<char>)
    ensures
        is_quoted(json_quote(s)),
{
    lemma_escape_text_body(s);
    let q = json_quote(s);
    assert(q.subrange(1, q.len() - 1) =~= escape_text(s));
}

/// A frame made of two quoted values is a single line.
pub proof fn lemma_frame_single_line(uq: Seq<char>, cq: Seq<char>)
    requires
        is_quoted(uq),
        is_quoted(cq),
    ensures
        single_line(frame_text(uq, cq)),
{
    lemma_quoted_no_line_feed(uq);
    lemma_quoted_no_line_feed(cq);
    let r = record_text(uq, cq);
    let a = username_open();
    let b = content_sep();
    assert forall|i: int| 0 <= i < r.len() implies r[i] != '\n' by {
        let n1 = a.len() as int;
        let n2 = n1 + uq.len();
        let n3 = n2 + b.len();
        let n4 = n3 + cq.len();
        if i < n1 {
            assert(r[i] == a[i]);
        } else if i < n2 {
            assert(r[i] == uq[i - n1]);
        } else if i < n3 {
            assert(r[i] == b[i - n2]);
        } else if i < n4 {
            assert(r[i] == cq[i - n3]);
        } else {
            assert(r[i] == '}');
        }
    }
    assert(frame_text(uq, cq).drop_last() =~= r);
}

/// Encodes `m` as one frame: `{"username":U,"content":C}` and a line feed,
/// with U and C the two fields as JSON string literals. Encoding a message
/// always succeeds, and decoding the frame gives the message back.
pub fn encode_message(m: &ChatMessage) -> (r: Result<String, CodecError>)
    ensures
        r is Ok,
        r->Ok_0@ == frame_of(*m),
        single_line(r->Ok_0@),
        is_quoted(json_quote(m.username@)),
        is_quoted(json_quote(m.content@)),
        decoded(r->Ok_0@) == Some((m.username@, m.content@)),
{
    let uq = match quote_json(m.username.as_str()) {
        Ok(q) => q,
        Err(_) => return Err(CodecError::Serialization),
    };
    let cq = match quote_json(m.content.as_str()) {
        Ok(q) => q,
        Err(_) => return Err(CodecError::Serialization),
    };
    let f = assemble_frame(uq.as_str(), cq.as_str());
    proof {
        lemma_json_quote_is_quoted(m.username@);
        lemma_json_quote_is_quoted(m.content@);
        lemma_frame_single_line(uq@, cq@);
        lemma_escaped_is_literal_body(uq@.subrange(1, uq@.len() - 1));
        lemma_escaped_is_literal_body(cq@.subrange(1, cq@.len() - 1));
        lemma_frame_round_trip(uq@, cq@);
    }
    Ok(f)
}

/// Reading a JSON string literal whose inside starts at `i`: the position
/// of the quote that closes it, stepping over each backslash escape whole.
pub open spec fn quote_end(s: Seq<char>, i: int) -> Option<int>
    decreases s.len() - i,
{
    if i < 0 || i >= s.len() {
        None
    } else if s[i] == '"' {
        Some(i)
    } else if s[i] == '\\' {
        if i + 1 < s.len() {
            quote_end(s, i + 2)
        } else {
            None
        }
    } else {
        quote_end(s, i + 1)
    }
}

/// A received line without the line feed that ended it, if it has one.
pub open spec fn unframe(line: Seq<char>) -> Seq<char> {
    if line.len() > 0 && line[line.len() - 1] == '\n' {
        line.drop_last()
    } else {
        line
    }
}

/// A JSON string literal as a reader delimits it: a quote, then plain
/// characters (no quote, no backslash) and backslash escapes of one
/// character each, then a closing quote. Whether each escape is valid is
/// left to the JSON decoder.
pub open spec fn literal_body(b: Seq<char>) -> bool
    decreases b.len(),
{
    if b.len() == 0 {
        true
    } else if b[0] == '\\' {
        b.len() >= 2 && literal_body(b.subrange(2, b.len() as int))
    } else {
        b[0] != '"' && literal_body(b.drop_first())
    }
}

pub open spec fn is_literal(q: Seq<char>) -> bool {
    &&& q.len() >= 2
    &&& q[0] == '"'
    &&& q[q.len() - 1] == '"'
    &&& literal_body(q.subrange(1, q.len() - 1))
}

/// The two string literals U and C of a record `{"username":U,"content":C}`,
/// if `line` is one.
pub open spec fn record_parts(line: Seq<char>) -> Option<(Seq<char>, Seq<char>)> {
    if exists|a: Seq<char>, b: Seq<char>|
        is_literal(a) && is_literal(b) && line == record_text(a, b) {
        let (a, b) = choose|a: Seq<char>, b: Seq<char>|
            is_literal(a) && is_literal(b) && line == record_text(a, b);
        Some((a, b))
    } else {
        None
    }
}

/// The record read left to right, as `split_record` does.
spec fn scan_record(line: Seq<char>) -> Option<(Seq<char>, Seq<char>)> {
    let p = username_open().len() as int;
    let m = content_sep().len() as int;
    if line.len() > p && line.subrange(0, p) == username_open() && line[p] == '"' {
        match quote_end(line, p + 1) {
            Some(e1) => {
                let c0 = e1 + 1 + m;
                if c0 < line.len() && line.subrange(e1 + 1, c0) == content_sep() && line[c0]
                    == '"' {
                    match quote_end(line, c0 + 1) {
                        Some(e2) => {
                            if e2 + 2 == line.len() && line[e2 + 1] == '}' {
                                Some((line.subrange(p, e1 + 1), line.subrange(c0, e2 + 1)))
                            } else {
                                None
                            }
                        },
                        None => None,
                    }
                } else {
                    None
                }
            },
            None => None,
        }
    } else {
        None
    }
}

/// The username and content that a received line carries, if it is a
/// frame whose two values the JSON decoder accepts.
pub open spec fn decoded(line: Seq<char>) -> Option<(Seq<char>, Seq<char>)> {
    match record_parts(unframe(line)) {
        Some((uq, cq)) => match (json_unquote(uq), json_unquote(cq)) {
            (Some(u), Some(c)) => Some((u, c)),
            _ => None,
        },
        None => None,
    }
}

fn find_quote_end(s: &str, n: usize, start: usize) -> (r: Option<usize>)
    requires
        n == s@.len(),
        start <= n,
    ensures
        match r {
            Some(k) => quote_end(s@, start as int) == Some(k as int) && k < n,
            None => quote_end(s@, start as int) is None,
        },
{
    let mut i: usize = start;
    while i < n
        invariant
            n == s@.len(),
            start <= i <= n,
            quote_end(s@, i as int) == quote_end(s@, start as int),
        decreases n - i,
    {
        let c = s.get_char(i);
        if c == '"' {
            return Some(i);
        } else if c == '\\' {
            if i + 1 < n {
                i = i + 2;
            } else {
                return None;
            }
        } else {
            i = i + 1;
        }
    }
    None
}

fn matches_at(s: &str, n: usize, at: usize, lit: &str) -> (r: bool)
    requires
        n == s@.len(),
        at <= n,
    ensures
        r == (at + lit@.len() <= n && s@.subrange(at as int, at + lit@.len()) == lit@),
{
    let m = lit.unicode_len();
    if m > n - at {
        return false;
    }
    let mut k: usize = 0;
    while k < m
        invariant
            n == s@.len(),
            m == lit@.len(),
            at + m <= n,
            k <= m,
            forall|j: int| 0 <= j < k ==> s@[at + j] == lit@[j],
        decreases m - k,
    {
        if s.get_char(at + k) != lit.get_char(k) {
            assert(s@.subrange(at as int, at + m)[k as int] != lit@[k as int]);
            return false;
        }
        k = k + 1;
    }
    assert(s@.subrange(at as int, at + m) =~= lit@);
    true
}

/// Splits a record `{"username":U,"content":C}` into its two quoted
/// values U and C.
pub fn split_record(line: &str) -> (r: Option<(String, String)>)
    ensures
        match r {
            Some((a, b)) => record_parts(line@) == Some((a@, b@)),
            None => record_parts(line@) is None,
        },
{
    proof {
        reveal_strlit("{\"username\":");
        reveal_strlit(",\"content\":");
        assert("{\"username\":"@ =~= username_open());
        assert(",\"content\":"@ =~= content_sep());
        lemma_record_parts_is_scan(line@);
    }
    let n = line.unicode_len();
    let p: usize = 12;
    let m: usize = 11;
    if !matches_at(line, n, 0, "{\"username\":") || n <= p || line.get_char(p) != '"' {
        return None;
    }
    let e1 = match find_quote_end(line, n, p + 1) {
        Some(e) => e,
        None => return None,
    };
    if m >= n - (e1 + 1) || !matches_at(line, n, e1 + 1, ",\"content\":") {
        return None;
    }
    let c0 = e1 + 1 + m;
    if line.get_char(c0) != '"' {
        return None;
    }
    let e2 = match find_quote_end(line, n, c0 + 1) {
        Some(e) => e,
        None => return None,
    };
    if n - e2 != 2 || line.get_char(e2 + 1) != '}' {
        return None;
    }
    let a = String::from_str(line.substring_char(p, e1 + 1));
    let b = String::from_str(line.substring_char(c0, e2 + 1));
    proof {
        lemma_record_parts_is_scan(line@);
    }
    Some((a, b))
}

/// Reads a received line back into a message: the line, less a final line
/// feed, must be a record whose two values the JSON decoder accepts.
/// Only the compact form that `encode_message` writes is read: `username`
/// first, `content` second, no white space between the tokens. A JSON
/// object written otherwise (spaced out, fields swapped) is not a frame
/// here. Anything else gives `None`, and a receiver shows it as plain text.
pub fn decode_frame(line: &str) -> (r: Option<ChatMessage>)
    ensures
        r is Some <==> decoded(line@) is Some,
        r is Some ==> decoded(line@) == Some((r->Some_0.username@, r->Some_0.content@)),
{
    let n = line.unicode_len();
    let body = if n > 0 && line.get_char(n - 1) == '\n' {
        line.substring_char(0, n - 1)
    } else {
        line
    };
    assert(body@ =~= unframe(line@));
    let (uq, cq) = match split_record(body) {
        Some(parts) => parts,
        None => return None,
    };
    let username = match unquote_json(uq.as_str()) {
        Ok(u) => u,
        Err(_) => return None,
    };
    let content = match unquote_json(cq.as_str()) {
        Ok(c) => c,
        Err(_) => return None,
    };
    Some(ChatMessage { username, content })
}

proof fn lemma_quote_end_body(s: Seq<char>, j: int, b: Seq<char>)
    requires
        literal_body(b),
        0 <= j,
        j + b.len() < s.len(),
        s.subrange(j, j + b.len()) == b,
        s[j + b.len()] == '"',
    ensures
        quote_end(s, j) == Some(j + b.len()),
    decreases b.len(),
{
    if b.len() > 0 {
        assert(s[j] == b[0]);
        if b[0] == '\\' {
            let rest = b.subrange(2, b.len() as int);
            assert(s.subrange(j + 2, j + 2 + rest.len()) =~= rest);
            lemma_quote_end_body(s, j + 2, rest);
        } else {
            let rest = b.drop_first();
            assert(s.subrange(j + 1, j + 1 + rest.len()) =~= rest);
            lemma_quote_end_body(s, j + 1, rest);
        }
    }
}

proof fn lemma_quote_end_quoted(s: Seq<char>, i: int, q: Seq<char>)
    requires
        is_literal(q),
        0 <= i,
        i + q.len() <= s.len(),
        s.subrange(i, i + q.len()) == q,
    ensures
        s[i] == '"',
        quote_end(s, i + 1) == Some(i + q.len() - 1),
{
    let body = q.subrange(1, q.len() - 1);
    assert(s[i] == q[0]);
    assert(s[i + q.len() - 1] == q[q.len() - 1]);
    assert(s.subrange(i + 1, i + 1 + body.len()) =~= body);
    lemma_quote_end_body(s, i + 1, body);
}

proof fn lemma_scan_of_record(uq: Seq<char>, cq: Seq<char>)
    requires
        is_literal(uq),
        is_literal(cq),
    ensures
        scan_record(record_text(uq, cq)) == Some((uq, cq)),
{
    let line = record_text(uq, cq);
    let p = username_open().len() as int;
    let m = content_sep().len() as int;
    assert(line.subrange(0, p) =~= username_open());
    assert(line.subrange(p, p + uq.len()) =~= uq);
    lemma_quote_end_quoted(line, p, uq);
    let e1 = p + uq.len() - 1;
    let c0 = e1 + 1 + m;
    assert(line.subrange(e1 + 1, c0) =~= content_sep());
    assert(line.subrange(c0, c0 + cq.len()) =~= cq);
    lemma_quote_end_quoted(line, c0, cq);
    let e2 = c0 + cq.len() - 1;
    assert(line[e2 + 1] == '}');
    assert(line.subrange(p, e1 + 1) =~= uq);
    assert(line.subrange(c0, e2 + 1) =~= cq);
}

proof fn lemma_quote_end_sound(s: Seq<char>, j: int, e: int)
    requires
        0 <= j,
        quote_end(s, j) == Some(e),
    ensures
        j <= e < s.len(),
        s[e] == '"',
        literal_body(s.subrange(j, e)),
    decreases s.len() - j,
{
    if s[j] == '"' {
        assert(s.subrange(j, e) =~= Seq::<char>::empty());
    } else if s[j] == '\\' {
        lemma_quote_end_sound(s, j + 2, e);
        assert(s.subrange(j, e).subrange(2, e - j) =~= s.subrange(j + 2, e));
    } else {
        lemma_quote_end_sound(s, j + 1, e);
        assert(s.subrange(j, e).drop_first() =~= s.subrange(j + 1, e));
    }
}

proof fn lemma_scan_sound(line: Seq<char>, a: Seq<char>, b: Seq<char>)
    requires
        scan_record(line) == Some((a, b)),
    ensures
        is_literal(a),
        is_literal(b),
        line == record_text(a, b),
{
    let p = username_open().len() as int;
    let m = content_sep().len() as int;
    let e1 = quote_end(line, p + 1)->0;
    lemma_quote_end_sound(line, p + 1, e1);
    let c0 = e1 + 1 + m;
    let e2 = quote_end(line, c0 + 1)->0;
    lemma_quote_end_sound(line, c0 + 1, e2);
    assert(a == line.subrange(p, e1 + 1));
    assert(b == line.subrange(c0, e2 + 1));
    assert(a.subrange(1, a.len() - 1) =~= line.subrange(p + 1, e1));
    assert(b.subrange(1, b.len() - 1) =~= line.subrange(c0 + 1, e2));
    assert(line =~= record_text(a, b)) by {
        assert(line =~= line.subrange(0, p) + a + line.subrange(e1 + 1, c0) + b + line.subrange(
            e2 + 1,
            line.len() as int,
        ));
        assert(line.subrange(e2 + 1, line.len() as int) =~= seq!['}']);
    }
}

proof fn lemma_record_parts_is_scan(line: Seq<char>)
    ensures
        record_parts(line) == scan_record(line),
{
    if scan_record(line) is Some {
        let (a0, b0) = scan_record(line)->0;
        lemma_scan_sound(line, a0, b0);
        assert(is_literal(a0) && is_literal(b0) && line == record_text(a0, b0));
        let (a, b) = choose|a: Seq<char>, b: Seq<char>|
            is_literal(a) && is_literal(b) && line == record_text(a, b);
        lemma_scan_of_record(a, b);
    } else if exists|a: Seq<char>, b: Seq<char>|
        is_literal(a) && is_literal(b) && line == record_text(a, b) {
        let (a, b) = choose|a: Seq<char>, b: Seq<char>|
            is_literal(a) && is_literal(b) && line == record_text(a, b);
        lemma_scan_of_record(a, b);
    }
}

proof fn lemma_escaped_is_literal_body(b: Seq<char>)
    requires
        escaped_body(b),
    ensures
        literal_body(b),
    decreases b.len(),
{
    if b.len() > 0 {
        if b[0] == '\\' {
            lemma_escaped_is_literal_body(b.subrange(2, b.len() as int));
        } else {
            lemma_escaped_is_literal_body(b.drop_first());
        }
    }
}

/// Splitting a frame gives back exactly the two string literals it was
/// made of.
pub proof fn lemma_frame_round_trip(uq: Seq<char>, cq: Seq<char>)
    requires
        is_literal(uq),
        is_literal(cq),
    ensures
        record_parts(unframe(frame_text(uq, cq))) == Some((uq, cq)),
{
    let f = frame_text(uq, cq);
    assert(f.drop_last() =~= record_text(uq, cq));
    lemma_scan_of_record(uq, cq);
    lemma_record_parts_is_scan(record_text(uq, cq));
}

} // verus!
