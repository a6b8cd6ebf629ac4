//! The decisions of the HTTP service: which uploads are admitted, how bodies
//! are taken in, how stored contents are compared and served, and which
//! files are orphaned.

use vstd::prelude::*;
use vstd::utf8::*;

use axum::http::HeaderValue;

use crate::hash::{header_value_bytes, header_value_from_str, is_header_value_byte};
use crate::paste::{Paste, CLOCK_BOUND};
use crate::slug::{is_path_for, Slug};
use crate::text::{contains_bytes, occurs_in, parse_usize, parsed_usize, str_from_utf8};

verus! {

/// Largest accepted upload, in bytes (10 KB).
pub const MAX_CONTENT_LENGTH: usize = 10000;

/// Size of the buffer through which an uncompressed body is gzipped.
pub const READ_CHUNK_LEN: usize = 1024;

/// Why a request is refused, each with its HTTP status.
#[derive(Debug, Clone, Copy, PartialEq, Eq, Structural)]
pub enum Rejection {
    NotFound,
    BadRequest,
    Conflict,
    LengthRequired,
    PayloadTooLarge,
}

/// The HTTP status code of a refusal.
pub open spec fn status_of(r: Rejection) -> u16 {
    match r {
        Rejection::NotFound => 404,
        Rejection::BadRequest => 400,
        Rejection::Conflict => 409,
        Rejection::LengthRequired => 411,
        Rejection::PayloadTooLarge => 413,
    }
}

impl Rejection {
    /// The HTTP status code of this refusal.
    pub fn status_code(&self) -> (r: u16)
        ensures
            r == status_of(*self),
    {
        match self {
            Rejection::NotFound => 404,
            Rejection::BadRequest => 400,
            Rejection::Conflict => 409,
            Rejection::LengthRequired => 411,
            Rejection::PayloadTooLarge => 413,
        }
    }
}

/// What an upload request gets, given whether a free slug was found and the
/// text of its `Content-Length` header: the declared length, or a refusal.
pub open spec fn admission(slug_found: bool, content_length: Option<Seq<char>>) -> Result<
    usize,
    Rejection,
> {
    if !slug_found {
        Err(Rejection::Conflict)
    } else {
        match content_length {
            None => Err(Rejection::LengthRequired),
            Some(text) => match parsed_usize(text) {
                None => Err(Rejection::LengthRequired),
                Some(n) => if n > MAX_CONTENT_LENGTH {
                    Err(Rejection::PayloadTooLarge)
                } else {
                    Ok(n)
                },
            },
        }
    }
}

/// The plain view of an optional header text.
pub open spec fn opt_text(s: Option<&str>) -> Option<Seq<char>> {
    match s {
        Some(t) => Some(t@),
        None => None,
    }
}

/// Admits an upload under `slug` (`None` where the requested slug is taken or
/// no free one was found) whose `Content-Length` header reads
/// `content_length` (`None` where it is missing or not text).
pub fn admit_upload(slug: Option<Slug>, content_length: Option<&str>) -> (r: Result<
    (Slug, usize),
    Rejection,
>)
    ensures
        match r {
            Ok((s, n)) => slug == Some(s) && admission(true, opt_text(content_length)) == Ok::<
                usize,
                Rejection,
            >(n),
            Err(e) => admission(slug is Some, opt_text(content_length)) == Err::<usize, Rejection>(
                e,
            ),
        },
{
    let slug: Slug = match slug {
        Some(s) => s,
        None => return Err(Rejection::Conflict),
    };
    let text: &str = match content_length {
        Some(t) => t,
        None => return Err(Rejection::LengthRequired),
    };
    let n: usize = match parse_usize(text) {
        Some(n) => n,
        None => return Err(Rejection::LengthRequired),
    };
    if n > MAX_CONTENT_LENGTH {
        return Err(Rejection::PayloadTooLarge);
    }
    Ok((slug, n))
}

/// An upload under a free slug whose `Content-Length` reads a number `n` is
/// refused as too large exactly when `n` exceeds 10000 bytes, and is
/// otherwise admitted with length `n`.
pub proof fn lemma_admission_by_size(text: Seq<char>, n: usize)
    requires
        parsed_usize(text) == Some(n),
    ensures
        n > 10000 ==> admission(true, Some(text)) == Err::<usize, Rejection>(
            Rejection::PayloadTooLarge,
        ),
        n <= 10000 ==> admission(true, Some(text)) == Ok::<usize, Rejection>(n),
{
}

/// An upload is refused with a conflict exactly when no free slug was found,
/// and, under a free slug, with length required exactly when the
/// `Content-Length` is missing or not a number.
pub proof fn lemma_admission_refusals(slug_found: bool, content_length: Option<Seq<char>>)
    ensures
        !slug_found ==> admission(slug_found, content_length) == Err::<usize, Rejection>(
            Rejection::Conflict,
        ),
        slug_found ==> (admission(slug_found, content_length) == Err::<usize, Rejection>(
            Rejection::LengthRequired,
        ) <==> (content_length is None || parsed_usize(content_length->Some_0) is None)),
{
}

/// The bytes of `gzip`.
pub open spec fn gzip_token() -> Seq<u8> {
    seq![103u8, 122u8, 105u8, 112u8]
}

/// Whether a client accepts a gzip body, from its `Accept-Encoding` header
/// text: it does when that text contains `gzip`.
pub fn accepts_gzip(accept_encoding: Option<&str>) -> (r: bool)
    ensures
        r == (accept_encoding matches Some(s) && occurs_in(gzip_token(), encode_utf8(s@))),
{
    match accept_encoding {
        Some(s) => {
            let token: [u8; 4] = [103u8, 122u8, 105u8, 112u8];
            assert(token@ =~= gzip_token());
            contains_bytes(s.as_bytes(), token.as_slice())
        },
        None => false,
    }
}

/// A client accepts gzip when the bytes of its `Accept-Encoding` text hold
/// `gzip` anywhere, whatever stands before or after them (as in
/// `gzip, deflate, br`).
pub proof fn lemma_gzip_anywhere(before: Seq<u8>, after: Seq<u8>)
    ensures
        occurs_in(gzip_token(), before + seq![103u8, 122u8, 105u8, 112u8] + after),
{
    assert(gzip_token() =~= seq![103u8, 122u8, 105u8, 112u8]);
    crate::text::lemma_occurs_in_middle(before, gzip_token(), after);
}

/// Where the bytes of an `Accept-Encoding` text hold `gzip` at position `i`,
/// the client accepts gzip; and where it accepts gzip, the text holds `gzip`
/// at some position.
pub proof fn lemma_gzip_at(header: Seq<u8>, i: int)
    ensures
        0 <= i && i + 4 <= header.len() && header.subrange(i, i + 4) == seq![103u8, 122u8, 105u8, 112u8]
            ==> occurs_in(gzip_token(), header),
        occurs_in(gzip_token(), header) ==> exists|k: int|
            0 <= k && k + 4 <= header.len() && #[trigger] header.subrange(k, k + 4) == seq![
                103u8,
                122u8,
                105u8,
                112u8,
            ],
{
    assert(gzip_token() =~= seq![103u8, 122u8, 105u8, 112u8]);
    if 0 <= i && i + 4 <= header.len() && header.subrange(i, i + 4) == seq![103u8, 122u8, 105u8, 112u8] {
        crate::text::lemma_occurs_at(gzip_token(), header, i);
    }
}

/// How an upload's body is taken in.
#[derive(Debug, Clone, Copy, PartialEq, Eq, Structural)]
pub enum BodyPlan {
    /// The body is plain and is gzipped on the way in.
    Compress,
    /// The body is already gzipped and is stored as it comes.
    StoreAsIs,
}

/// Chooses how to take in a body from its `Content-Encoding` header bytes:
/// none means compress, exactly `gzip` means store as is, anything else is a
/// bad request.
pub fn body_plan(content_encoding: Option<&[u8]>) -> (r: Result<BodyPlan, Rejection>)
    ensures
        match content_encoding {
            None => r == Ok::<BodyPlan, Rejection>(BodyPlan::Compress),
            Some(e) => if e@ == gzip_token() {
                r == Ok::<BodyPlan, Rejection>(BodyPlan::StoreAsIs)
            } else {
                r == Err::<BodyPlan, Rejection>(Rejection::BadRequest)
            },
        },
{
    match content_encoding {
        None => Ok(BodyPlan::Compress),
        Some(e) => {
            if e.len() == 4 && e[0] == 103u8 && e[1] == 122u8 && e[2] == 105u8 && e[3] == 112u8 {
                assert(e@ =~= gzip_token());
                Ok(BodyPlan::StoreAsIs)
            } else {
                assert(e@ != gzip_token()) by {
                    if e@.len() == 4 {
                        assert(e@[0] == gzip_token()[0] ==> e@[1] == gzip_token()[1] ==> e@[2]
                            == gzip_token()[2] ==> e@[3] != gzip_token()[3]);
                    }
                }
                Err(Rejection::BadRequest)
            }
        },
    }
}

/// Counts a chunk of gzip output against the upload limit: the new total, or
/// a refusal once the total would pass `MAX_CONTENT_LENGTH`. An admitted total
/// never passes the limit.
pub fn count_chunk(total: usize, chunk_len: usize) -> (r: Result<usize, Rejection>)
    requires
        total <= MAX_CONTENT_LENGTH,
        chunk_len <= READ_CHUNK_LEN,
    ensures
        total + chunk_len <= MAX_CONTENT_LENGTH ==> r == Ok::<usize, Rejection>(
            (total + chunk_len) as usize,
        ),
        total + chunk_len > MAX_CONTENT_LENGTH ==> r == Err::<usize, Rejection>(
            Rejection::PayloadTooLarge,
        ),
        r matches Ok(t) ==> t <= MAX_CONTENT_LENGTH,
{
    let next: usize = total + chunk_len;
    if next > MAX_CONTENT_LENGTH {
        Err(Rejection::PayloadTooLarge)
    } else {
        Ok(next)
    }
}

/// Where an upload's content goes.
pub enum Storage {
    /// An identical content is already stored at this path.
    Reuse(String),
    /// The content is written to this new path.
    Write(String),
}

/// Chooses the storage of an upload under `slug`: the path of an existing
/// paste with the same content, or a fresh path for the slug.
pub fn storage_for(existing: Option<Paste>, slug: Slug) -> (r: Storage)
    ensures
        match existing {
            Some(p) => r == Storage::Reuse(p.path),
            None => r matches Storage::Write(path) && is_path_for(path@, slug@),
        },
{
    match existing {
        Some(p) => Storage::Reuse(p.path),
        None => Storage::Write(slug.to_path()),
    }
}

/// What a stored paste gives when fetched at time `now`: the paste, or not
/// found when there is none or it has expired.
pub open spec fn served_at(paste: Option<Paste>, now: i128) -> Result<Paste, Rejection> {
    match paste {
        None => Err(Rejection::NotFound),
        Some(p) => if p.expired_at(now) {
            Err(Rejection::NotFound)
        } else {
            Ok(p)
        },
    }
}

/// What a stored paste gives when fetched at time `now`: the paste, or not
/// found when there is none or it has expired.
pub fn servable_at(paste: Option<Paste>, now: i128) -> (r: Result<Paste, Rejection>)
    ensures
        r == served_at(paste, now),
{
    match paste {
        None => Err(Rejection::NotFound),
        Some(p) => if p.is_expired_at(now) {
            Err(Rejection::NotFound)
        } else {
            Ok(p)
        },
    }
}

/// Fetching at `now`: a missing paste is not found; a paste without an
/// expiry time is served; a paste is served up to and including its expiry
/// instant and not found at any later instant.
pub proof fn lemma_served_until_expiry(paste: Option<Paste>, now: i128)
    ensures
        paste is None ==> served_at(paste, now) == Err::<Paste, Rejection>(Rejection::NotFound),
        (paste matches Some(p) && p.expires_at is None) ==> served_at(paste, now) == Ok::<
            Paste,
            Rejection,
        >(paste->Some_0),
        (paste matches Some(p) && p.expires_at matches Some(e) && now <= e) ==> served_at(paste, now)
            == Ok::<Paste, Rejection>(paste->Some_0),
        (paste matches Some(p) && p.expires_at matches Some(e) && e < now) ==> served_at(paste, now)
            == Err::<Paste, Rejection>(Rejection::NotFound),
{
}

/// What a stored paste gives when fetched now: what `servable_at` gives at
/// the instant read from the clock. The only refusal is not found, and a
/// paste without an expiry time is always served.
pub fn servable(paste: Option<Paste>) -> (r: Result<Paste, Rejection>)
    ensures
        exists|now: i128| -CLOCK_BOUND < now < CLOCK_BOUND && r == #[trigger] served_at(paste, now),
        r is Err ==> r == Err::<Paste, Rejection>(Rejection::NotFound),
        paste is None ==> r == Err::<Paste, Rejection>(Rejection::NotFound),
        (paste matches Some(p) && p.expires_at is None) ==> r == Ok::<Paste, Rejection>(paste->Some_0),
        r matches Ok(q) ==> paste == Some(q),
{
    match paste {
        None => {
            assert(served_at(paste, 0) == Err::<Paste, Rejection>(Rejection::NotFound));
            Err(Rejection::NotFound)
        },
        Some(p) => {
            let expired: bool = p.is_expired();
            let ghost now: i128 = choose|now: i128|
                -CLOCK_BOUND < now < CLOCK_BOUND && expired == #[trigger] p.expired_at(now);
            if expired {
                assert(served_at(paste, now) == Err::<Paste, Rejection>(Rejection::NotFound));
                Err(Rejection::NotFound)
            } else {
                assert(served_at(paste, now) == Ok::<Paste, Rejection>(p));
                Ok(p)
            }
        },
    }
}

/// One step of comparing a stored file with an upload's content.
#[derive(Debug, Clone, Copy, PartialEq, Eq, Structural)]
pub enum ChunkStep {
    /// The file ended exactly where the content does.
    Matched,
    /// The file differs from the content.
    Mismatch,
    /// The chunk agrees; the comparison goes on from this offset.
    Continue(usize),
}

/// The step that comparing `chunk` against `content` from `offset` on makes.
pub open spec fn chunk_step(content: Seq<u8>, offset: int, chunk: Seq<u8>) -> ChunkStep {
    if chunk.len() == 0 {
        if offset == content.len() {
            ChunkStep::Matched
        } else {
            ChunkStep::Mismatch
        }
    } else if content.subrange(offset, offset + chunk.len()) == chunk {
        ChunkStep::Continue((offset + chunk.len()) as usize)
    } else {
        ChunkStep::Mismatch
    }
}

/// Compares the next chunk read from a stored file with `content` from
/// `offset` on. An empty chunk is the end of the file.
pub fn compare_chunk(content: &[u8], offset: usize, chunk: &[u8]) -> (r: ChunkStep)
    requires
        offset + chunk@.len() <= content@.len(),
    ensures
        r == chunk_step(content@, offset as int, chunk@),
{
    let n: usize = chunk.len();
    let clen: usize = content.len();
    if n == 0 {
        return if offset == clen {
            ChunkStep::Matched
        } else {
            ChunkStep::Mismatch
        };
    }
    let mut i: usize = 0;
    while i < n
        invariant
            n == chunk@.len(),
            clen == content@.len(),
            offset + n <= clen,
            i <= n,
            forall|j: int| 0 <= j < i ==> content@[offset + j] == chunk@[j],
        decreases n - i,
    {
        if content[offset + i] != chunk[i] {
            assert(content@.subrange(offset as int, offset + n)[i as int] != chunk@[i as int]);
            return ChunkStep::Mismatch;
        }
        i = i + 1;
    }
    assert(content@.subrange(offset as int, offset + n) =~= chunk@);
    ChunkStep::Continue(offset + n)
}

/// Whether a file found under the data directory at `relative` is orphaned:
/// no paste uses that path.
pub fn is_orphan(known_paths: &Vec<String>, relative: &str) -> (r: bool)
    ensures
        r == !(exists|i: int| 0 <= i < known_paths@.len() && (#[trigger] known_paths@[i])@
            == relative@),
{
    let target: String = relative.to_owned();
    let mut i: usize = 0;
    while i < known_paths.len()
        invariant
            i <= known_paths@.len(),
            target@ == relative@,
            forall|j: int| 0 <= j < i ==> (#[trigger] known_paths@[j])@ != relative@,
        decreases known_paths@.len() - i,
    {
        if known_paths[i] == target {
            return false;
        }
        i = i + 1;
    }
    true
}

/// The bytes of `chunks` one after the other.
pub open spec fn joined(chunks: Seq<Seq<u8>>) -> Seq<u8>
    decreases chunks.len(),
{
    if chunks.len() == 0 {
        Seq::empty()
    } else {
        chunks[0] + joined(chunks.drop_first())
    }
}

/// Where comparing the chunks `chunks` in turn against `content` from
/// `offset` on ends.
pub open spec fn compare_run(content: Seq<u8>, offset: int, chunks: Seq<Seq<u8>>) -> ChunkStep
    decreases chunks.len(),
{
    if chunks.len() == 0 {
        ChunkStep::Continue(offset as usize)
    } else {
        match chunk_step(content, offset, chunks[0]) {
            ChunkStep::Continue(next) => compare_run(content, next as int, chunks.drop_first()),
            other => other,
        }
    }
}

/// A stored file of the content's length, read as non-empty chunks and then
/// an empty one, is found to match the content exactly when its bytes are the
/// content.
pub proof fn lemma_chunked_comparison(content: Seq<u8>, chunks: Seq<Seq<u8>>)
    requires
        content.len() <= usize::MAX,
        forall|i: int| 0 <= i < chunks.len() ==> (#[trigger] chunks[i]).len() > 0,
        joined(chunks).len() == content.len(),
    ensures
        (compare_run(content, 0, chunks.push(Seq::empty())) == ChunkStep::Matched) <==> joined(chunks)
            == content,
{
    lemma_chunked_comparison_from(content, 0, chunks);
    assert(content.skip(0) =~= content);
}

/// `joined` has the total length of its chunks.
proof fn lemma_joined_len(chunks: Seq<Seq<u8>>)
    requires
        chunks.len() > 0,
    ensures
        joined(chunks).len() == chunks[0].len() + joined(chunks.drop_first()).len(),
{
}

proof fn lemma_chunked_comparison_from(content: Seq<u8>, offset: int, chunks: Seq<Seq<u8>>)
    requires
        content.len() <= usize::MAX,
        0 <= offset <= content.len(),
        forall|i: int| 0 <= i < chunks.len() ==> (#[trigger] chunks[i]).len() > 0,
        offset + joined(chunks).len() == content.len(),
    ensures
        (compare_run(content, offset, chunks.push(Seq::empty())) == ChunkStep::Matched) <==> joined(
            chunks,
        ) == content.skip(offset),
    decreases chunks.len(),
{
    let all = chunks.push(Seq::<u8>::empty());
    if chunks.len() == 0 {
        assert(all[0] == Seq::<u8>::empty());
        assert(all.drop_first().len() == 0);
        assert(joined(chunks) =~= content.skip(offset));
    } else {
        let first = chunks[0];
        let rest = chunks.drop_first();
        assert(all[0] == first);
        assert(all.drop_first() =~= rest.push(Seq::empty()));
        lemma_joined_len(chunks);
        assert(first.len() > 0);
        let next = offset + first.len();
        if content.subrange(offset, next) == first {
            assert(forall|i: int| 0 <= i < rest.len() ==> #[trigger] rest[i] == chunks[i + 1]);
            lemma_chunked_comparison_from(content, next, rest);
            assert(content.skip(offset) =~= content.subrange(offset, next) + content.skip(next));
            if joined(chunks) == content.skip(offset) {
                assert(joined(rest) =~= content.skip(next)) by {
                    assert forall|i: int| 0 <= i < joined(rest).len() implies joined(rest)[i]
                        == content.skip(next)[i] by {
                        assert(joined(chunks)[first.len() + i] == joined(rest)[i]);
                        assert(content.skip(offset)[first.len() + i] == content.skip(next)[i]);
                    }
                }
            }
            if joined(rest) == content.skip(next) {
                assert(joined(chunks) =~= content.skip(offset));
            }
        } else {
            assert(compare_run(content, offset, all) == ChunkStep::Mismatch);
            assert(joined(chunks) != content.skip(offset)) by {
                if joined(chunks) == content.skip(offset) {
                    assert(content.subrange(offset, next) =~= first) by {
                        assert forall|i: int| 0 <= i < first.len() implies content.subrange(
                            offset,
                            next,
                        )[i] == first[i] by {
                            assert(joined(chunks)[i] == first[i]);
                            assert(content.skip(offset)[i] == content[offset + i]);
                        }
                    }
                }
            }
        }
    }
}

/// A byte that `HeaderValue::to_str` lets through: visible ASCII or a tab.
pub open spec fn is_visible_ascii(b: u8) -> bool {
    (32 <= b && b < 127) || b == 9
}

/// The text of a header value whose bytes are `bytes`, as
/// `HeaderValue::to_str` reads it: only visible ASCII (and tabs) is text.
pub fn header_str(bytes: &[u8]) -> (r: Option<&str>)
    ensures
        r is Some <==> forall|i: int| 0 <= i < bytes@.len() ==> is_visible_ascii(#[trigger] bytes@[i]),
        r matches Some(s) ==> encode_utf8(s@) == bytes@,
{
    let n: usize = bytes.len();
    let mut i: usize = 0;
    while i < n
        invariant
            n == bytes@.len(),
            i <= n,
            forall|j: int| 0 <= j < i ==> is_visible_ascii(#[trigger] bytes@[j]),
        decreases n - i,
    {
        let b: u8 = bytes[i];
        if !((32u8 <= b && b < 127u8) || b == 9u8) {
            assert(!is_visible_ascii(bytes@[i as int]));
            return None;
        }
        i = i + 1;
    }
    proof {
        let chars = Seq::new(bytes@.len(), |j: int| bytes@[j] as char);
        assert(is_ascii_chars(chars)) by {
            assert forall|j: int| 0 <= j < chars.len() implies '\0' <= #[trigger] chars[j]
                <= '\u{7f}' by {
                assert(is_visible_ascii(bytes@[j]));
            }
        }
        is_ascii_chars_encode_utf8(chars);
        assert forall|j: int| 0 <= j < chars.len() implies #[trigger] encode_utf8(chars)[j]
            == bytes@[j] by {
            assert(is_visible_ascii(bytes@[j]));
            assert(chars[j] as u8 == bytes@[j]);
        }
        assert(encode_utf8(chars) =~= bytes@);
        encode_utf8_valid_utf8(chars);
    }
    Some(str_from_utf8(bytes).unwrap())
}

/// The content type of an upload from its `Content-Type` header bytes:
/// none, its text, or a bad request where the header is not text.
pub fn content_type_of(header: Option<&[u8]>) -> (r: Result<Option<&str>, Rejection>)
    ensures
        match header {
            None => r == Ok::<Option<&str>, Rejection>(None),
            Some(b) => if forall|i: int| 0 <= i < b@.len() ==> is_visible_ascii(#[trigger] b@[i]) {
                r matches Ok(Some(s)) && encode_utf8(s@) == b@
            } else {
                r == Err::<Option<&str>, Rejection>(Rejection::BadRequest)
            },
        },
{
    match header {
        None => Ok(None),
        Some(b) => match header_str(b) {
            Some(s) => Ok(Some(s)),
            None => Err(Rejection::BadRequest),
        },
    }
}

/// The `Content-Type` header value for a stored content type, or `None`
/// where the text holds bytes that a header value cannot.
pub fn content_type_header(content_type: &str) -> (r: Option<HeaderValue>)
    ensures
        r is Some <==> forall|i: int|
            0 <= i < encode_utf8(content_type@).len() ==> is_header_value_byte(
                #[trigger] encode_utf8(content_type@)[i],
            ),
        r matches Some(v) ==> header_value_bytes(v) == encode_utf8(content_type@),
{
    match header_value_from_str(content_type) {
        Ok(v) => Some(v),
        Err(_) => None,
    }
}

/// Whether a stored file of `file_len` bytes can hold `content`: only files
/// of the same length are compared.
pub fn sizes_agree(file_len: u64, content: &[u8]) -> (r: bool)
    ensures
        r == (file_len == content@.len()),
{
    let n: usize = content.len();
    file_len == n as u64
}

} // verus!
