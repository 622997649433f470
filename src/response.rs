//! A stored response and its accounted size.
use bytes::Bytes;
use vstd::prelude::*;
use vstd::string::StringSliceAdditionalSpecFns;
use vstd::utf8::encode_utf8;

use crate::limits::MAX_ENTRY_SIZE;
use crate::policy::header_views;

verus! {

/// `bytes::Bytes`, an immutable byte buffer that clones share.
#[verifier::external_type_specification]
#[verifier::external_body]
pub struct ExBytes(Bytes);

/// The bytes that a `Bytes` buffer holds.
pub uninterp spec fn bytes_view(b: Bytes) -> Seq<u8>;

/// Relies on `bytes::Bytes::len`: the number of bytes in the buffer.
pub assume_specification[ Bytes::len ](b: &Bytes) -> (r: usize)
    ensures
        r == bytes_view(*b).len(),
;

/// Relies on `Bytes::clone`: the clone holds the same bytes (it shares them).
pub assume_specification[ <Bytes as Clone>::clone ](b: &Bytes) -> (r: Bytes)
    ensures
        bytes_view(r) == bytes_view(*b),
;

/// Relies on `bytes::Bytes::copy_from_slice`: a buffer holding a copy of `data`.
pub assume_specification[ Bytes::copy_from_slice ](data: &[u8]) -> (r: Bytes)
    ensures
        bytes_view(r) == data@,
;

/// What a stored response is made of, as plain values.
pub struct ResponseView {
    pub status_line: Seq<char>,
    pub headers: Seq<Seq<char>>,
    pub body: Seq<u8>,
    pub expires: u64,
}

/// A response as the cache stores and replays it.
#[derive(Clone, Debug, PartialEq, Eq)]
pub struct CachedResponse {
    /// The status line, with its trailing CRLF.
    pub status_line: String,
    /// The header lines `Name: value`, in the order received.
    pub headers: Vec<String>,
    pub body: Bytes,
    /// UNIX time, in seconds, from which the entry counts as absent.
    pub expires: u64,
}

impl View for CachedResponse {
    type V = ResponseView;

    open spec fn view(&self) -> ResponseView {
        ResponseView {
            status_line: self.status_line@,
            headers: header_views(self.headers@),
            body: bytes_view(self.body),
            expires: self.expires,
        }
    }
}

/// The number of UTF-8 bytes in the header lines `hs`.
pub open spec fn headers_bytes(hs: Seq<Seq<char>>) -> nat
    decreases hs.len(),
{
    if hs.len() == 0 {
        0
    } else {
        headers_bytes(hs.drop_last()) + encode_utf8(hs.last()).len()
    }
}

/// The accounted size of an entry: its status line, header lines and body in
/// bytes, and 8 bytes for its expiry time.
pub open spec fn entry_size(e: ResponseView) -> nat {
    encode_utf8(e.status_line).len() + headers_bytes(e.headers) + e.body.len() + 8
}

/// The accounted size as the cache computes it: exact up to the per-entry
/// limit, and one past the limit for anything larger.
pub open spec fn capped_size(e: ResponseView) -> nat {
    if entry_size(e) <= MAX_ENTRY_SIZE {
        entry_size(e)
    } else {
        (MAX_ENTRY_SIZE + 1) as nat
    }
}

proof fn lemma_headers_bytes_prefix(hs: Seq<Seq<char>>, k: int)
    requires
        0 <= k <= hs.len(),
    ensures
        headers_bytes(hs.subrange(0, k)) <= headers_bytes(hs),
    decreases hs.len() - k,
{
    if k < hs.len() {
        lemma_headers_bytes_prefix(hs, k + 1);
        assert(hs.subrange(0, k + 1).drop_last() =~= hs.subrange(0, k));
    } else {
        assert(hs.subrange(0, k) =~= hs);
    }
}

impl CachedResponse {
    /// A copy of this response; the body's bytes are shared, not copied.
    pub fn share(&self) -> (r: CachedResponse)
        ensures
            r@ == self@,
    {
        let headers = self.headers.clone();
        assert(header_views(headers@) =~= header_views(self.headers@)) by {
            assert forall|i: int| 0 <= i < headers@.len() implies headers@[i]@ == self.headers@[i]@ by {
                assert(cloned::<String>(self.headers[i], headers[i]));
            }
        }
        CachedResponse {
            status_line: self.status_line.clone(),
            headers,
            body: self.body.clone(),
            expires: self.expires,
        }
    }

    /// The accounted size of this response, capped one past the per-entry limit.
    pub fn accounted_size(&self) -> (r: usize)
        ensures
            r == capped_size(self@),
    {
        let over: usize = MAX_ENTRY_SIZE + 1;
        let ghost hs = header_views(self.headers@);
        let st = self.status_line.as_str();
        let status = st.as_bytes().len();
        assert(st.spec_bytes() == encode_utf8(self.status_line@));
        if status > MAX_ENTRY_SIZE {
            return over;
        }
        let mut total: usize = status + 8;
        let mut i: usize = 0;
        assert(hs.subrange(0, 0) =~= Seq::<Seq<char>>::empty());
        while i < self.headers.len()
            invariant
                0 <= i <= self.headers@.len(),
                hs == header_views(self.headers@),
                over == MAX_ENTRY_SIZE + 1,
                status == encode_utf8(self.status_line@).len(),
                total == status + 8 + headers_bytes(hs.subrange(0, i as int)),
                total <= MAX_ENTRY_SIZE + 8,
            decreases self.headers@.len() - i,
        {
            let line = self.headers[i].as_str();
            let h = line.as_bytes().len();
            assert(line.spec_bytes() == encode_utf8(self.headers@[i as int]@));
            let ghost pre = hs.subrange(0, i as int);
            let ghost next = hs.subrange(0, i + 1);
            assert(next.drop_last() =~= pre);
            assert(next.last() == self.headers@[i as int]@);
            assert(headers_bytes(next) == headers_bytes(pre) + h);
            if h > MAX_ENTRY_SIZE || total + h > MAX_ENTRY_SIZE + 8 {
                proof {
                    lemma_headers_bytes_prefix(hs, i + 1);
                    assert(self@.headers == hs);
                }
                return over;
            }
            total = total + h;
            i += 1;
        }
        assert(hs.subrange(0, i as int) =~= hs);
        let b = self.body.len();
        if b > MAX_ENTRY_SIZE || total + b > MAX_ENTRY_SIZE {
            return over;
        }
        total + b
    }
}

} // verus!
