//! HTTP message framing: requests through `httparse`, and the split of a
//! captured response into status line, header lines and body.
use bytes::Bytes;
use vstd::prelude::*;
use vstd::string::{StrSliceExecFns, StringExecFns};
use vstd::utf8::encode_utf8;

use crate::key::append_slice;

use crate::policy::{header_views, spec_is_cacheable, spec_ttl, is_cacheable, calculate_ttl};
use crate::response::{CachedResponse, ResponseView};
use crate::text::chars_of;

verus! {

/// The most header fields a request may carry.
pub const MAX_HEADERS: usize = 64;

/// What `httparse` makes of a request with room for `max_headers` header
/// fields, when the parse is complete: method, path, and each field as name
/// and raw value.
pub uninterp spec fn httparse_request(data: Seq<u8>, max_headers: usize) -> Option<
    (Option<Seq<char>>, Option<Seq<char>>, Seq<(Seq<char>, Seq<u8>)>),
>;

/// What `String::from_utf8_lossy` makes of `b`.
pub uninterp spec fn utf8_lossy_of(b: Seq<u8>) -> Seq<char>;

/// Relies on `httparse::Request::parse`: `Some` for a complete request, with
/// the parsed method, path and header fields; `None` for an incomplete or
/// malformed one.
#[verifier::external_body]
fn parse_request_head(data: &[u8], max_headers: usize) -> (r: Option<
    (Option<String>, Option<String>, Vec<(String, Vec<u8>)>),
>)
    ensures
        match httparse_request(data@, max_headers) {
            Some((m, p, hs)) => r matches Some((rm, rp, rh)) && (rm matches Some(x) <==> m
                matches Some(y)) && (rm matches Some(x) ==> x@ == m->0) && (rp matches Some(x)
                <==> p matches Some(y)) && (rp matches Some(x) ==> x@ == p->0) && rh@.len()
                == hs.len() && forall|i: int|
                0 <= i < hs.len() ==> (#[trigger] rh@[i]).0@ == hs[i].0 && rh@[i].1@ == hs[i].1,
            None => r is None,
        },
{
    let mut headers = vec![httparse::EMPTY_HEADER; max_headers];
    let mut req = httparse::Request::new(&mut headers);
    match req.parse(data) {
        Ok(httparse::Status::Complete(_)) => Some((
            req.method.map(|m| m.to_string()),
            req.path.map(|p| p.to_string()),
            req.headers.iter().map(|h| (h.name.to_string(), h.value.to_vec())).collect(),
        )),
        _ => None,
    }
}

/// Relies on `String::from_utf8_lossy`: the text of `b`, with each invalid
/// sequence replaced by U+FFFD; it depends on `b` alone.
#[verifier::external_body]
fn utf8_lossy(b: &[u8]) -> (r: String)
    ensures
        r@ == utf8_lossy_of(b@),
{
    String::from_utf8_lossy(b).into_owned()
}

/// The header line `name: value` that a parsed field becomes.
pub open spec fn header_line(name: Seq<char>, value: Seq<u8>) -> Seq<char> {
    name + ": "@ + utf8_lossy_of(value)
}

/// The method, path and header lines of a complete request.
pub open spec fn spec_parse_request(data: Seq<u8>) -> Option<(Seq<char>, Seq<char>, Seq<Seq<char>>)> {
    match httparse_request(data, MAX_HEADERS) {
        Some((Some(m), Some(p), hs)) => Some(
            (m, p, hs.map_values(|h: (Seq<char>, Seq<u8>)| header_line(h.0, h.1))),
        ),
        _ => None,
    }
}

/// The header line `name: value` of a raw field.
pub fn format_header(name: &str, value: &[u8]) -> (r: String)
    ensures
        r@ == header_line(name@, value@),
{
    let mut line = name.to_owned();
    line.append(": ");
    let v = utf8_lossy(value);
    line.append(v.as_str());
    line
}

/// The header lines of raw fields, in order.
pub open spec fn field_lines(fields: Seq<(String, Vec<u8>)>) -> Seq<Seq<char>> {
    fields.map_values(|f: (String, Vec<u8>)| header_line(f.0@, f.1@))
}

/// The header lines of raw `(name, value)` fields, in order.
pub fn format_fields(fields: &Vec<(String, Vec<u8>)>) -> (r: Vec<String>)
    ensures
        header_views(r@) == field_lines(fields@),
{
    let mut lines: Vec<String> = Vec::new();
    let mut i: usize = 0;
    while i < fields.len()
        invariant
            0 <= i <= fields@.len(),
            lines@.len() == i,
            forall|k: int|
                0 <= k < i ==> (#[trigger] lines@[k])@ == header_line(fields@[k].0@, fields@[k].1@),
        decreases fields@.len() - i,
    {
        let line = format_header(fields[i].0.as_str(), fields[i].1.as_slice());
        lines.push(line);
        i += 1;
    }
    assert(header_views(lines@) =~= field_lines(fields@));
    lines
}

/// A request from the parts that the parser found: both method and path
/// are needed.
pub fn request_from_parts(method: Option<String>, path: Option<String>, fields: &Vec<(String, Vec<u8>)>) -> (r: Option<
    (String, String, Vec<String>),
>)
    ensures
        match (method, path) {
            (Some(m), Some(p)) => r matches Some((rm, rp, rh)) && rm@ == m@ && rp@ == p@
                && header_views(rh@) == field_lines(fields@),
            _ => r is None,
        },
{
    match (method, path) {
        (Some(m), Some(p)) => Some((m, p, format_fields(fields))),
        _ => None,
    }
}

/// Parses a complete request into method, path and header lines.
pub fn parse_request(data: &[u8]) -> (r: Option<(String, String, Vec<String>)>)
    ensures
        match spec_parse_request(data@) {
            Some((m, p, hs)) => r matches Some((rm, rp, rh)) && rm@ == m && rp@ == p
                && header_views(rh@) == hs,
            None => r is None,
        },
{
    match parse_request_head(data, MAX_HEADERS) {
        Some((method, path, fields)) => {
            let ghost parsed = httparse_request(data@, MAX_HEADERS)->0;
            assert(field_lines(fields@) =~= parsed.2.map_values(
                |h: (Seq<char>, Seq<u8>)| header_line(h.0, h.1),
            ));
            request_from_parts(method, path, &fields)
        },
        None => None,
    }
}

/// A blank line `\r\n\r\n` starts at position `i` of `b`.
pub open spec fn blank_line_at(b: Seq<u8>, i: int) -> bool {
    &&& 0 <= i
    &&& i + 4 <= b.len()
    &&& b[i] == 13u8 && b[i + 1] == 10u8 && b[i + 2] == 13u8 && b[i + 3] == 10u8
}

/// The first position at or after `i` where a blank line starts.
pub open spec fn find_blank_line(b: Seq<u8>, i: int) -> Option<int>
    decreases b.len() - i,
{
    if i < 0 || i + 4 > b.len() {
        None
    } else if blank_line_at(b, i) {
        Some(i)
    } else {
        find_blank_line(b, i + 1)
    }
}

/// A line without its trailing carriage return.
pub open spec fn strip_cr(l: Seq<char>) -> Seq<char> {
    if l.len() > 0 && l.last() == '\r' {
        l.drop_last()
    } else {
        l
    }
}

/// The lines of `s` from the line that starts at `start`, scanning from `i`:
/// split at each `\n`, a trailing `\r` taken off each terminated line, and
/// no empty line after a final `\n`.
pub open spec fn lines_from(s: Seq<char>, start: int, i: int) -> Seq<Seq<char>>
    decreases s.len() - i,
{
    if i >= s.len() || i < 0 {
        if 0 <= start < s.len() {
            seq![s.subrange(start, s.len() as int)]
        } else {
            Seq::empty()
        }
    } else if s[i] == '\n' {
        seq![strip_cr(s.subrange(start, i))] + lines_from(s, i + 1, i + 1)
    } else {
        lines_from(s, start, i + 1)
    }
}

/// The lines of `s`, as `str::lines` gives them.
pub open spec fn text_lines(s: Seq<char>) -> Seq<Seq<char>> {
    lines_from(s, 0, 0)
}

/// The lines of `ls` that are not empty, in order.
pub open spec fn non_empty(ls: Seq<Seq<char>>) -> Seq<Seq<char>>
    decreases ls.len(),
{
    if ls.len() == 0 {
        ls
    } else if ls.last().len() == 0 {
        non_empty(ls.drop_last())
    } else {
        non_empty(ls.drop_last()).push(ls.last())
    }
}

/// The entry to cache from a response head read as `text` and its `body`,
/// for a request `method path` stored at UNIX time `now`: the first line of
/// the head is the status line, its other non-empty lines are the header
/// lines; nothing when the head has no line or the response may not be
/// cached. The entry expires after the response's time to live (saturating
/// at the largest time).
pub open spec fn spec_entry_from_head(text: Seq<char>, body: Seq<u8>, method: Seq<char>, path: Seq<char>, now: u64) -> Option<ResponseView> {
    let lines = text_lines(text);
    if lines.len() == 0 {
        None
    } else {
        let headers = non_empty(lines.subrange(1, lines.len() as int));
        if !spec_is_cacheable(method, path, headers) {
            None
        } else {
            Some(
                ResponseView {
                    status_line: lines[0] + "\r\n"@,
                    headers,
                    body,
                    expires: now.saturating_add(spec_ttl(headers)),
                },
            )
        }
    }
}

/// The entry to cache for the captured `response` to `method path` at UNIX
/// time `now`: the head, up to and including the first blank line, is read
/// as text; nothing when there is no blank line.
pub open spec fn spec_cache_entry(response: Seq<u8>, method: Seq<char>, path: Seq<char>, now: u64) -> Option<
    ResponseView,
> {
    match find_blank_line(response, 0) {
        None => None,
        Some(i) => spec_entry_from_head(
            utf8_lossy_of(response.subrange(0, i + 4)),
            response.subrange(i + 4, response.len() as int),
            method,
            path,
            now,
        ),
    }
}

/// The position of the first blank line in `b`.
pub fn find_blank_line_exec(b: &[u8]) -> (r: Option<usize>)
    ensures
        match r {
            Some(i) => find_blank_line(b@, 0) == Some(i as int) && blank_line_at(b@, i as int),
            None => find_blank_line(b@, 0) is None,
        },
{
    let mut i: usize = 0;
    while i < b.len() && 4 <= b.len() - i
        invariant
            find_blank_line(b@, 0) == find_blank_line(b@, i as int),
        decreases b@.len() - i,
    {
        if b[i] == 13u8 && b[i + 1] == 10u8 && b[i + 2] == 13u8 && b[i + 3] == 10u8 {
            return Some(i);
        }
        i += 1;
    }
    None
}

/// The lines of `s`, as `str::lines` gives them.
pub fn split_lines(s: &str) -> (r: Vec<String>)
    ensures
        header_views(r@) == text_lines(s@),
{
    let c = chars_of(s);
    let mut out: Vec<String> = Vec::new();
    let mut start: usize = 0;
    let mut i: usize = 0;
    while i < c.len()
        invariant
            c@ == s@,
            0 <= start <= i <= c@.len(),
            text_lines(s@) == header_views(out@) + lines_from(c@, start as int, i as int),
        decreases c@.len() - i,
    {
        if c[i] == '\n' {
            let mut end = i;
            if end > start && c[end - 1] == '\r' {
                end = end - 1;
            }
            let line = s.substring_char(start, end).to_owned();
            proof {
                let piece = c@.subrange(start as int, i as int);
                if i > start && c@[i - 1] == '\r' {
                    assert(piece.drop_last() =~= c@.subrange(start as int, end as int));
                } else {
                    assert(piece =~= c@.subrange(start as int, end as int));
                }
            }
            let ghost before = out@;
            out.push(line);
            assert(header_views(out@) =~= header_views(before).push(line@));
            assert(header_views(before) + seq![line@] + lines_from(c@, i + 1, i + 1)
                =~= header_views(out@) + lines_from(c@, i + 1, i + 1));
            start = i + 1;
        }
        i += 1;
    }
    if start < c.len() {
        let line = s.substring_char(start, c.len()).to_owned();
        let ghost before = out@;
        out.push(line);
        assert(header_views(out@) =~= header_views(before) + seq![line@]);
    } else {
        assert(header_views(out@) =~= header_views(out@) + Seq::<Seq<char>>::empty());
    }
    out
}

/// The lines of `ls` that are not empty.
pub fn keep_non_empty(ls: &Vec<String>, from: usize) -> (r: Vec<String>)
    requires
        from <= ls@.len(),
    ensures
        header_views(r@) == non_empty(header_views(ls@).subrange(from as int, ls@.len() as int)),
{
    let ghost all = header_views(ls@);
    let mut out: Vec<String> = Vec::new();
    let mut i: usize = from;
    assert(all.subrange(from as int, from as int) =~= Seq::<Seq<char>>::empty());
    while i < ls.len()
        invariant
            from <= i <= ls@.len(),
            all == header_views(ls@),
            header_views(out@) == non_empty(all.subrange(from as int, i as int)),
        decreases ls@.len() - i,
    {
        let ghost next = all.subrange(from as int, i + 1);
        assert(next.drop_last() =~= all.subrange(from as int, i as int));
        assert(next.last() == ls@[i as int]@);
        if ls[i].as_str().unicode_len() > 0 {
            let ghost before = out@;
            out.push(ls[i].clone());
            assert(header_views(out@) =~= header_views(before).push(ls@[i as int]@));
        }
        i += 1;
    }
    out
}

/// The entry to cache from a response head read as `head` and its `body`.
pub fn entry_from_head(head: &str, body: &[u8], method: &str, path: &str, now: u64) -> (r: Option<
    CachedResponse,
>)
    ensures
        match spec_entry_from_head(head@, body@, method@, path@, now) {
            Some(e) => r matches Some(c) && c@ == e,
            None => r is None,
        },
{
    let lines = split_lines(head);
    if lines.len() == 0 {
        return None;
    }
    let mut status_line = lines[0].clone();
    status_line.append("\r\n");
    let headers = keep_non_empty(&lines, 1);
    if !is_cacheable(method, path, headers.as_slice()) {
        return None;
    }
    let ttl = calculate_ttl(headers.as_slice());
    let expires = now.saturating_add(ttl);
    Some(CachedResponse { status_line, headers, body: Bytes::copy_from_slice(body), expires })
}

/// The entry to cache for the captured `response` to `method path`, stored
/// at UNIX time `now`, or `None` when the response has no complete head or
/// may not be cached.
pub fn parse_response_for_cache(response: &[u8], method: &str, path: &str, now: u64) -> (r: Option<
    CachedResponse,
>)
    ensures
        match spec_cache_entry(response@, method@, path@, now) {
            Some(e) => r matches Some(c) && c@ == e,
            None => r is None,
        },
{
    let headers_end = match find_blank_line_exec(response) {
        Some(i) => {
            assert(i + 4 <= response@.len());
            assert(response@.len() == response.len());
            i + 4
        },
        None => return None,
    };
    let (head, body) = response.split_at(headers_end);
    let text = utf8_lossy(head);
    entry_from_head(text.as_str(), body, method, path, now)
}

/// The header lines `hs`, each followed by CRLF, as UTF-8.
pub open spec fn header_block(hs: Seq<Seq<char>>) -> Seq<u8>
    decreases hs.len(),
{
    if hs.len() == 0 {
        Seq::empty()
    } else {
        header_block(hs.drop_last()) + encode_utf8(hs.last()) + seq![13u8, 10u8]
    }
}

/// What a cache hit writes before the body: the status line, each header
/// line followed by CRLF, then a blank line.
pub open spec fn replay_head(e: ResponseView) -> Seq<u8> {
    encode_utf8(e.status_line) + header_block(e.headers) + seq![13u8, 10u8]
}

/// The bytes written for a cache hit ahead of the body, in wire order.
pub fn cached_response_head(cached: &CachedResponse) -> (r: Vec<u8>)
    ensures
        r@ == replay_head(cached@),
{
    let ghost hs = cached@.headers;
    let mut out: Vec<u8> = Vec::new();
    append_slice(&mut out, cached.status_line.as_str().as_bytes());
    let ghost start = out@;
    let mut i: usize = 0;
    assert(hs.subrange(0, 0) =~= Seq::<Seq<char>>::empty());
    assert(out@ =~= start + header_block(hs.subrange(0, 0)));
    while i < cached.headers.len()
        invariant
            0 <= i <= cached.headers@.len(),
            hs == cached@.headers,
            out@ == start + header_block(hs.subrange(0, i as int)),
        decreases cached.headers@.len() - i,
    {
        let ghost next = hs.subrange(0, i + 1);
        assert(next.drop_last() =~= hs.subrange(0, i as int));
        assert(next.last() == cached.headers@[i as int]@);
        append_slice(&mut out, cached.headers[i].as_str().as_bytes());
        out.push(13u8);
        out.push(10u8);
        assert(out@ =~= start + header_block(next));
        i += 1;
    }
    assert(hs.subrange(0, i as int) =~= hs);
    out.push(13u8);
    out.push(10u8);
    assert(out@ =~= replay_head(cached@));
    out
}


/// What `httparse` makes of a response with room for `max_headers` header
/// fields, when the parse is complete: status code, reason phrase, each field
/// as name and raw value, and the length of the head.
pub uninterp spec fn httparse_response(data: Seq<u8>, max_headers: usize) -> Option<
    (Option<u16>, Option<Seq<char>>, Seq<(Seq<char>, Seq<u8>)>, usize),
>;

/// Relies on `httparse::Response::parse`: `Some` for a complete response
/// head, with its code, reason, header fields and length; `None` for an
/// incomplete or malformed one.
#[verifier::external_body]
fn parse_response_head(data: &[u8], max_headers: usize) -> (r: Option<
    (Option<u16>, Option<String>, Vec<(String, Vec<u8>)>, usize),
>)
    ensures
        match httparse_response(data@, max_headers) {
            Some((c, reason, hs, len)) => r matches Some((rc, rr, rh, rl)) && rc == c && (rr matches Some(x)
                <==> reason matches Some(y)) && (rr matches Some(x) ==> x@ == reason->0) && rl
                == len && rh@.len() == hs.len() && forall|i: int|
                0 <= i < hs.len() ==> (#[trigger] rh@[i]).0@ == hs[i].0 && rh@[i].1@ == hs[i].1,
            None => r is None,
        },
{
    let mut headers = vec![httparse::EMPTY_HEADER; max_headers];
    let mut response = httparse::Response::new(&mut headers);
    match response.parse(data) {
        Ok(httparse::Status::Complete(len)) => Some((
            response.code,
            response.reason.map(|s| s.to_string()),
            response.headers.iter().map(|h| (h.name.to_string(), h.value.to_vec())).collect(),
            len,
        )),
        _ => None,
    }
}

/// The decimal digits of `n`.
pub open spec fn decimal_chars(n: nat) -> Seq<char>
    decreases n,
{
    if n < 10 {
        seq![digit_char(n)]
    } else {
        decimal_chars(n / 10).push(digit_char(n % 10))
    }
}

pub open spec fn digit_char(d: nat) -> char {
    if d == 0 {
        '0'
    } else if d == 1 {
        '1'
    } else if d == 2 {
        '2'
    } else if d == 3 {
        '3'
    } else if d == 4 {
        '4'
    } else if d == 5 {
        '5'
    } else if d == 6 {
        '6'
    } else if d == 7 {
        '7'
    } else if d == 8 {
        '8'
    } else {
        '9'
    }
}

fn digit_text(d: u64) -> (r: &'static str)
    requires
        d < 10,
    ensures
        r@ == seq![digit_char(d as nat)],
{
    let r = match d {
        0 => "0",
        1 => "1",
        2 => "2",
        3 => "3",
        4 => "4",
        5 => "5",
        6 => "6",
        7 => "7",
        8 => "8",
        _ => "9",
    };
    proof {
        reveal_strlit("0");
        reveal_strlit("1");
        reveal_strlit("2");
        reveal_strlit("3");
        reveal_strlit("4");
        reveal_strlit("5");
        reveal_strlit("6");
        reveal_strlit("7");
        reveal_strlit("8");
        reveal_strlit("9");
        assert(r@ =~= seq![digit_char(d as nat)]);
    }
    r
}

fn append_decimal(out: &mut String, n: u64)
    ensures
        final(out)@ == old(out)@ + decimal_chars(n as nat),
    decreases n,
{
    if n >= 10 {
        append_decimal(out, n / 10);
    }
    out.append(digit_text(n % 10));
    assert(final(out)@ =~= old(out)@ + decimal_chars(n as nat));
}

/// The status line that a parsed response head is stored with.
pub open spec fn status_line_of(code: u16, reason: Option<Seq<char>>) -> Seq<char> {
    "HTTP/1.1 "@ + decimal_chars(code as nat) + " "@ + match reason {
        Some(r) => r,
        None => "OK"@,
    } + "\r\n"@
}

/// What `parse_response` gives for `data`: the status line, the header
/// lines, and the body after the head.
pub open spec fn spec_parse_response(data: Seq<u8>) -> Option<(Seq<char>, Seq<Seq<char>>, Seq<u8>)> {
    match httparse_response(data, MAX_HEADERS) {
        Some((Some(code), reason, hs, len)) => if len <= data.len() {
            Some(
                (
                    status_line_of(code, reason),
                    hs.map_values(|h: (Seq<char>, Seq<u8>)| header_line(h.0, h.1)),
                    data.subrange(len as int, data.len() as int),
                ),
            )
        } else {
            None
        },
        _ => None,
    }
}

/// Parses a complete response head: the status line (rebuilt as HTTP/1.1,
/// with `OK` for a missing reason), the header lines, and the body.
pub fn parse_response(data: &[u8]) -> (r: Option<(String, Vec<String>, &[u8])>)
    ensures
        match spec_parse_response(data@) {
            Some((st, hs, body)) => r matches Some((rs, rh, rb)) && rs@ == st && header_views(rh@)
                == hs && rb@ == body,
            None => r is None,
        },
{
    let (code, reason, fields, len) = match parse_response_head(data, MAX_HEADERS) {
        Some(parts) => parts,
        None => return None,
    };
    let code = match code {
        Some(c) => c,
        None => return None,
    };
    if len > data.len() {
        return None;
    }
    let mut status_line = "HTTP/1.1 ".to_owned();
    append_decimal(&mut status_line, code as u64);
    status_line.append(" ");
    match &reason {
        Some(text) => status_line.append(text.as_str()),
        None => status_line.append("OK"),
    }
    status_line.append("\r\n");
    let ghost parsed = httparse_response(data@, MAX_HEADERS)->0;
    let lines = format_fields(&fields);
    assert(field_lines(fields@) =~= parsed.2.map_values(
        |h: (Seq<char>, Seq<u8>)| header_line(h.0, h.1),
    ));
    let (_, body) = data.split_at(len);
    Some((status_line, lines, body))
}

} // verus!
