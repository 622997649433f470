//! Pure policies over request and response headers: which origin a request
//! names, whether a response may be cached, and for how long.
use vstd::prelude::*;

use crate::limits::{CACHE_TTL, DEFAULT_PORT, MAX_TTL};
use crate::text::{
    chars_of, contains_ci, matches_at, digit_run_end, find_from, parse_bounded, parse_u16, rfind_char, starts_with_ci,
    ends_with_ci, trim, rfind_char_exec, parse_u16_exec, starts_with_ci_exec, trim_bounds, find_ci, ends_with_ci_exec, digit_run_end_exec, parse_bounded_exec, same_text,
};
use vstd::string::StrSliceExecFns;

verus! {

/// The character views of a list of header lines.
pub open spec fn header_views(hs: Seq<String>) -> Seq<Seq<char>> {
    hs.map_values(|h: String| h@)
}

/// The origin that a `Host` header line names: the trimmed value after
/// `host:`, split at its last colon into host and port; a port that does not
/// parse, or a missing one, is the default port.
pub open spec fn host_of_line(h: Seq<char>) -> (Seq<char>, u16) {
    let t = trim(h.subrange(5, h.len() as int));
    match rfind_char(t, ':') {
        Some(p) => (
            t.subrange(0, p),
            match parse_u16(t.subrange(p + 1, t.len() as int)) {
                Some(port) => port,
                None => DEFAULT_PORT,
            },
        ),
        None => (t, DEFAULT_PORT),
    }
}

/// The origin named by the first header line that starts with `host:`
/// (in any case).
pub open spec fn spec_extract_host(hs: Seq<Seq<char>>) -> Option<(Seq<char>, u16)>
    decreases hs.len(),
{
    if hs.len() == 0 {
        None
    } else if starts_with_ci(hs[0], "host:"@) {
        Some(host_of_line(hs[0]))
    } else {
        spec_extract_host(hs.drop_first())
    }
}

/// What one `Cache-Control` line decides, if anything: `no-cache` or
/// `no-store` forbid caching, otherwise `max-age=` allows it.
pub open spec fn cache_control_verdict(h: Seq<char>) -> Option<bool> {
    if !starts_with_ci(h, "cache-control:"@) {
        None
    } else if contains_ci(h, "no-cache"@) || contains_ci(h, "no-store"@) {
        Some(false)
    } else if contains_ci(h, "max-age="@) {
        Some(true)
    } else {
        None
    }
}

/// The verdict of the first header line that decides one.
pub open spec fn headers_verdict(hs: Seq<Seq<char>>) -> Option<bool>
    decreases hs.len(),
{
    if hs.len() == 0 {
        None
    } else {
        match cache_control_verdict(hs[0]) {
            Some(b) => Some(b),
            None => headers_verdict(hs.drop_first()),
        }
    }
}

/// The file extensions of static assets, which are cacheable by default.
pub open spec fn static_extensions() -> Seq<Seq<char>> {
    seq![
        ".jpg"@,
        ".jpeg"@,
        ".png"@,
        ".gif"@,
        ".ico"@,
        ".css"@,
        ".js"@,
        ".woff"@,
        ".woff2"@,
        ".ttf"@,
        ".svg"@,
        ".webp"@,
        ".mp4"@,
        ".webm"@,
    ]
}

/// `path` ends with one of the static extensions (in any case).
pub open spec fn has_static_extension(path: Seq<char>) -> bool {
    exists|i: int| 0 <= i < static_extensions().len() && ends_with_ci(path, static_extensions()[i])
}

/// Whether a response to `method path` with `headers` may be cached: only for
/// `GET`; an explicit `Cache-Control` directive decides first, and otherwise
/// the path's extension does.
pub open spec fn spec_is_cacheable(method: Seq<char>, path: Seq<char>, hs: Seq<Seq<char>>) -> bool {
    method == "GET"@ && match headers_verdict(hs) {
        Some(b) => b,
        None => has_static_extension(path),
    }
}

/// The time to live that one header line asks for: on a `Cache-Control`
/// line, the run of digits after the first `max-age=`, capped at a day,
/// provided the run is not empty and fits in 64 bits.
pub open spec fn ttl_of_line(h: Seq<char>) -> Option<u64> {
    if !starts_with_ci(h, "cache-control:"@) {
        None
    } else {
        match find_from(h, "max-age="@, 0) {
            Some(i) => {
                let start = i + 8;
                match parse_bounded(h.subrange(start, digit_run_end(h, start)), u64::MAX as nat) {
                    Some(v) => Some(if v <= MAX_TTL { v as u64 } else { MAX_TTL }),
                    None => None,
                }
            },
            None => None,
        }
    }
}

/// The time to live, in seconds, of a response with header lines `hs`: that of
/// the first line that states one, or the default.
pub open spec fn spec_ttl(hs: Seq<Seq<char>>) -> u64
    decreases hs.len(),
{
    if hs.len() == 0 {
        CACHE_TTL
    } else {
        match ttl_of_line(hs[0]) {
            Some(t) => t,
            None => spec_ttl(hs.drop_first()),
        }
    }
}

/// The origin `(host, port)` named by the request's `Host` header, if any.
pub fn extract_host(headers: &[String]) -> (r: Option<(String, u16)>)
    ensures
        match spec_extract_host(header_views(headers@)) {
            Some((h, p)) => r matches Some((rh, rp)) && rh@ == h && rp == p,
            None => r is None,
        },
{
    let ghost hs = header_views(headers@);
    let prefix = chars_of("host:");
    proof {
        reveal_strlit("host:");
        assert(prefix@.len() == 5);
        assert(hs.subrange(0, hs.len() as int) =~= hs);
    }
    let mut i: usize = 0;
    while i < headers.len()
        invariant
            0 <= i <= headers@.len(),
            hs == header_views(headers@),
            prefix@ == "host:"@,
            prefix@.len() == 5,
            spec_extract_host(hs) == spec_extract_host(hs.subrange(i as int, hs.len() as int)),
        decreases headers@.len() - i,
    {
        let ghost rest = hs.subrange(i as int, hs.len() as int);
        assert(rest.drop_first() =~= hs.subrange(i + 1, hs.len() as int));
        assert(rest[0] == headers@[i as int]@);
        let line = chars_of(headers[i].as_str());
        if starts_with_ci_exec(&line, &prefix) {
            let (a, b) = trim_bounds(&line, 5);
            let ghost t = line@.subrange(a as int, b as int);
            let found = rfind_char_exec(&line, a, b, ':');
            match found {
                Some(p) => {
                    assert(t.subrange(0, p as int) =~= line@.subrange(a as int, a + p));
                    assert(t.subrange(p + 1, t.len() as int) =~= line@.subrange(
                        a + p + 1,
                        b as int,
                    ));
                    let host = headers[i].as_str().substring_char(a, a + p).to_owned();
                    let port = match parse_u16_exec(&line, a + p + 1, b) {
                        Some(v) => v,
                        None => DEFAULT_PORT,
                    };
                    return Some((host, port));
                },
                None => {
                    let host = headers[i].as_str().substring_char(a, b).to_owned();
                    return Some((host, DEFAULT_PORT));
                },
            }
        }
        i += 1;
    }
    None
}


/// The static extension at position `k` of the allow-list.
fn static_extension(k: usize) -> (r: &'static str)
    requires
        k < static_extensions().len(),
    ensures
        r@ == static_extensions()[k as int],
{
    match k {
        0 => ".jpg",
        1 => ".jpeg",
        2 => ".png",
        3 => ".gif",
        4 => ".ico",
        5 => ".css",
        6 => ".js",
        7 => ".woff",
        8 => ".woff2",
        9 => ".ttf",
        10 => ".svg",
        11 => ".webp",
        12 => ".mp4",
        _ => ".webm",
    }
}

/// Whether the response to `method path` with `response_headers` may be cached.
pub fn is_cacheable(method: &str, path: &str, response_headers: &[String]) -> (r: bool)
    ensures
        r == spec_is_cacheable(method@, path@, header_views(response_headers@)),
{
    if !same_text(method, "GET") {
        return false;
    }
    let ghost hs = header_views(response_headers@);
    let cc = chars_of("cache-control:");
    let no_cache = chars_of("no-cache");
    let no_store = chars_of("no-store");
    let max_age = chars_of("max-age=");
    proof {
        assert(hs.subrange(0, hs.len() as int) =~= hs);
    }
    let mut i: usize = 0;
    while i < response_headers.len()
        invariant
            0 <= i <= response_headers@.len(),
            method@ == "GET"@,
            hs == header_views(response_headers@),
            cc@ == "cache-control:"@,
            no_cache@ == "no-cache"@,
            no_store@ == "no-store"@,
            max_age@ == "max-age="@,
            headers_verdict(hs) == headers_verdict(hs.subrange(i as int, hs.len() as int)),
        decreases response_headers@.len() - i,
    {
        let ghost rest = hs.subrange(i as int, hs.len() as int);
        assert(rest.drop_first() =~= hs.subrange(i + 1, hs.len() as int));
        assert(rest[0] == response_headers@[i as int]@);
        let line = chars_of(response_headers[i].as_str());
        if starts_with_ci_exec(&line, &cc) {
            if find_ci(&line, &no_cache).is_some() || find_ci(&line, &no_store).is_some() {
                return false;
            }
            if find_ci(&line, &max_age).is_some() {
                return true;
            }
        }
        i += 1;
    }
    assert(hs.subrange(i as int, hs.len() as int) =~= Seq::<Seq<char>>::empty());
    let p = chars_of(path);
    let mut k: usize = 0;
    while k < 14
        invariant
            0 <= k <= 14,
            method@ == "GET"@,
            headers_verdict(hs) is None,
            hs == header_views(response_headers@),
            p@ == path@,
            static_extensions().len() == 14,
            forall|j: int| 0 <= j < k ==> !ends_with_ci(path@, #[trigger] static_extensions()[j]),
        decreases 14 - k,
    {
        let ext = chars_of(static_extension(k));
        if ends_with_ci_exec(&p, &ext) {
            assert(ends_with_ci(path@, static_extensions()[k as int]));
            return true;
        }
        k += 1;
    }
    false
}

/// The time to live, in seconds, for a response with `headers`.
pub fn calculate_ttl(headers: &[String]) -> (r: u64)
    ensures
        r == spec_ttl(header_views(headers@)),
{
    let ghost hs = header_views(headers@);
    let cc = chars_of("cache-control:");
    let max_age = chars_of("max-age=");
    proof {
        reveal_strlit("max-age=");
        assert(max_age@.len() == 8);
        assert(hs.subrange(0, hs.len() as int) =~= hs);
    }
    let mut i: usize = 0;
    while i < headers.len()
        invariant
            0 <= i <= headers@.len(),
            hs == header_views(headers@),
            cc@ == "cache-control:"@,
            max_age@ == "max-age="@,
            max_age@.len() == 8,
            spec_ttl(hs) == spec_ttl(hs.subrange(i as int, hs.len() as int)),
        decreases headers@.len() - i,
    {
        let ghost rest = hs.subrange(i as int, hs.len() as int);
        assert(rest.drop_first() =~= hs.subrange(i + 1, hs.len() as int));
        assert(rest[0] == headers@[i as int]@);
        let line = chars_of(headers[i].as_str());
        if starts_with_ci_exec(&line, &cc) {
            if let Some(at) = find_ci(&line, &max_age) {
                assert(matches_at(line@, at as int, max_age@));
                assert(line@.len() == line.len());
                let start = at + 8;
                let end = digit_run_end_exec(&line, start);
                if let Some(v) = parse_bounded_exec(&line, start, end, u64::MAX) {
                    return if v <= MAX_TTL {
                        v
                    } else {
                        MAX_TTL
                    };
                }
            }
        }
        i += 1;
    }
    CACHE_TTL
}


/// The time to live is never more than a day, whatever the headers say.
pub proof fn lemma_ttl_bounded(hs: Seq<Seq<char>>)
    ensures
        spec_ttl(hs) <= MAX_TTL,
    decreases hs.len(),
{
    if hs.len() > 0 {
        lemma_ttl_bounded(hs.drop_first());
    }
}

/// Without a `Cache-Control` line the time to live is the default.
pub proof fn lemma_ttl_default(hs: Seq<Seq<char>>)
    requires
        forall|i: int| 0 <= i < hs.len() ==> !starts_with_ci(#[trigger] hs[i], "cache-control:"@),
    ensures
        spec_ttl(hs) == CACHE_TTL,
    decreases hs.len(),
{
    if hs.len() > 0 {
        assert(!starts_with_ci(hs[0], "cache-control:"@));
        assert forall|i: int| 0 <= i < hs.drop_first().len() implies !starts_with_ci(
            #[trigger] hs.drop_first()[i],
            "cache-control:"@,
        ) by {
            assert(hs.drop_first()[i] == hs[i + 1]);
        }
        lemma_ttl_default(hs.drop_first());
    }
}

/// Only `GET` responses are ever cacheable.
pub proof fn lemma_only_get_cacheable(method: Seq<char>, path: Seq<char>, hs: Seq<Seq<char>>)
    requires
        method != "GET"@,
    ensures
        !spec_is_cacheable(method, path, hs),
{
}

/// A `Cache-Control` line with `no-cache` or `no-store`, ahead of any other
/// deciding line, forbids caching whatever the path.
pub proof fn lemma_no_store_wins(method: Seq<char>, path: Seq<char>, h: Seq<char>, rest: Seq<Seq<char>>)
    requires
        starts_with_ci(h, "cache-control:"@),
        contains_ci(h, "no-cache"@) || contains_ci(h, "no-store"@),
    ensures
        !spec_is_cacheable(method, path, seq![h] + rest),
{
    assert((seq![h] + rest)[0] == h);
}

} // verus!
