//! Content hashes: SHA-256 of a paste's stored (gzip) bytes.

use axum::http::header::InvalidHeaderValue;
use axum::http::HeaderValue;
use sha2::{Digest, Sha256};
use vstd::prelude::*;
use vstd::std_specs::cmp::{PartialEqSpec, PartialOrdSpec};
use vstd::utf8::*;

use crate::encoding::{b64_encode, base64_encoding, is_base64_char};
use crate::text::push_char;

verus! {

/// The SHA-256 digest of `data`.
pub uninterp spec fn sha256_digest(data: Seq<u8>) -> Seq<u8>;

/// `Digest::digest` of `Sha256`, as an array. Claimed: the named digest.
#[verifier::external_body]
fn sha256(data: &[u8]) -> (r: [u8; 32])
    ensures
        r@ == sha256_digest(data@),
{
    Sha256::digest(data).into()
}

#[verifier::external_type_specification]
#[verifier::external_body]
pub struct ExHeaderValue(HeaderValue);

#[verifier::external_type_specification]
#[verifier::external_body]
pub struct ExInvalidHeaderValue(InvalidHeaderValue);

/// A byte that an HTTP header value may hold: a tab, or a byte from 32 up
/// other than 127.
pub open spec fn is_header_value_byte(b: u8) -> bool {
    (b >= 32 && b != 127) || b == 9
}

/// The bytes that a header value holds.
pub uninterp spec fn header_value_bytes(v: HeaderValue) -> Seq<u8>;

/// `HeaderValue::from_str`. Claimed: it succeeds exactly when every UTF-8
/// byte of `s` may stand in a header value, and the value it returns holds
/// those bytes (it copies `s.as_bytes()`).
#[verifier::external_body]
pub(crate) fn header_value_from_str(s: &str) -> (r: Result<HeaderValue, InvalidHeaderValue>)
    ensures
        r is Ok <==> forall|i: int|
            0 <= i < encode_utf8(s@).len() ==> is_header_value_byte(#[trigger] encode_utf8(s@)[i]),
        r matches Ok(v) ==> header_value_bytes(v) == encode_utf8(s@),
{
    HeaderValue::from_str(s)
}

/// The text of the `content-digest` header for the digest `h`:
/// `sha256=:<base64 of h>:`.
pub open spec fn digest_header(h: Seq<u8>) -> Seq<char> {
    seq!['s', 'h', 'a', '2', '5', '6', '=', ':'] + base64_encoding(h) + seq![':']
}

/// A stored hash that does not have 32 bytes.
#[derive(Debug, Clone, Copy, PartialEq, Eq, Structural)]
pub struct HashLengthError;

impl HashLengthError {
    /// A human readable account of the error.
    pub fn message(&self) -> (r: &'static str)
        ensures
            r@ == "Invalid length for hash"@,
    {
        "Invalid length for hash"
    }
}

/// `a` comes before `b` in lexicographic order: at the first index where
/// they differ, `a` holds the smaller byte.
pub open spec fn bytes_before(a: Seq<u8>, b: Seq<u8>) -> bool {
    exists|k: int| 0 <= k < a.len() && k < b.len() && a.take(k) == b.take(k) && #[trigger] a[k] < b[k]
}

/// A SHA-256 digest.
#[derive(Debug, Clone, Copy, Eq, Ord)]
pub struct Hash([u8; 32]);

impl View for Hash {
    type V = Seq<u8>;

    closed spec fn view(&self) -> Seq<u8> {
        self.0@
    }
}

/// The first index at which `a` and `b` differ, or 32 where they are equal.
fn first_difference(a: &[u8; 32], b: &[u8; 32]) -> (r: usize)
    ensures
        r <= 32,
        a@.take(r as int) == b@.take(r as int),
        r < 32 ==> a@[r as int] != b@[r as int],
        r == 32 <==> a@ == b@,
        r < 32 && a@[r as int] < b@[r as int] ==> bytes_before(a@, b@) && !bytes_before(b@, a@),
        r < 32 && b@[r as int] < a@[r as int] ==> bytes_before(b@, a@) && !bytes_before(a@, b@),
{
    let mut i: usize = 0;
    while i < 32
        invariant
            i <= 32,
            a@.take(i as int) == b@.take(i as int),
        decreases 32 - i,
    {
        if a[i] != b[i] {
            proof {
                if a@[i as int] < b@[i as int] {
                    lemma_first_difference(a@, b@, i as int);
                } else {
                    lemma_first_difference(b@, a@, i as int);
                }
            }
            return i;
        }
        assert(a@.take(i + 1) =~= a@.take(i as int).push(a@[i as int]));
        assert(b@.take(i + 1) =~= b@.take(i as int).push(b@[i as int]));
        i = i + 1;
    }
    assert(a@ =~= a@.take(32));
    assert(b@ =~= b@.take(32));
    i
}

impl PartialEq for Hash {
    fn eq(&self, other: &Hash) -> (r: bool) {
        first_difference(&self.0, &other.0) == 32
    }
}

/// Two hashes are equal exactly when they hold the same bytes.
impl vstd::std_specs::cmp::PartialEqSpecImpl for Hash {
    open spec fn obeys_eq_spec() -> bool {
        true
    }

    open spec fn eq_spec(&self, other: &Hash) -> bool {
        self@ == other@
    }
}

impl PartialOrd for Hash {
    fn partial_cmp(&self, other: &Hash) -> (r: Option<core::cmp::Ordering>) {
        let i: usize = first_difference(&self.0, &other.0);
        if i == 32 {
            return Some(core::cmp::Ordering::Equal);
        }
        if self.0[i] < other.0[i] {
            Some(core::cmp::Ordering::Less)
        } else {
            Some(core::cmp::Ordering::Greater)
        }
    }
}

/// Hashes are ordered lexicographically by their bytes.
impl vstd::std_specs::cmp::PartialOrdSpecImpl for Hash {
    open spec fn obeys_partial_cmp_spec() -> bool {
        true
    }

    open spec fn partial_cmp_spec(&self, other: &Hash) -> Option<core::cmp::Ordering> {
        if self@ == other@ {
            Some(core::cmp::Ordering::Equal)
        } else if bytes_before(self@, other@) {
            Some(core::cmp::Ordering::Less)
        } else {
            Some(core::cmp::Ordering::Greater)
        }
    }
}

/// Where `a` and `b` agree before `i` and `a[i] < b[i]`, `a` comes before
/// `b`, and `b` does not come before `a`.
proof fn lemma_first_difference(a: Seq<u8>, b: Seq<u8>, i: int)
    requires
        0 <= i < a.len(),
        i < b.len(),
        a.take(i) == b.take(i),
        a[i] < b[i],
    ensures
        bytes_before(a, b),
        !bytes_before(b, a),
        a != b,
{
    assert(a[i] < b[i]);
    if bytes_before(b, a) {
        let k = choose|k: int| 0 <= k < b.len() && k < a.len() && b.take(k) == a.take(k) && #[trigger] b[k] < a[k];
        if k < i {
            assert(a.take(i)[k] == a[k]);
            assert(b.take(i)[k] == b[k]);
            assert(a.take(i)[k] == b.take(i)[k]);
            assert(a[k] == b[k]);
        } else if k > i {
            assert(a.take(k)[i] == b.take(k)[i]);
            assert(a[i] == b[i]);
        }
        assert(false);
    }
}

/// Two byte sequences of one length that agree before `i` and differ
/// somewhere: one of them comes before the other.
proof fn lemma_some_difference(a: Seq<u8>, b: Seq<u8>, i: int)
    requires
        a.len() == b.len(),
        0 <= i <= a.len(),
        a.take(i) == b.take(i),
        a != b,
    ensures
        bytes_before(a, b) || bytes_before(b, a),
    decreases a.len() - i,
{
    if i == a.len() {
        assert(a =~= a.take(i));
        assert(b =~= b.take(i));
    } else if a[i] < b[i] {
        lemma_first_difference(a, b, i);
    } else if b[i] < a[i] {
        lemma_first_difference(b, a, i);
    } else {
        assert(a.take(i + 1) =~= a.take(i).push(a[i]));
        assert(b.take(i + 1) =~= b.take(i).push(b[i]));
        lemma_some_difference(a, b, i + 1);
    }
}

/// A hash holds 32 bytes.
pub proof fn lemma_hash_len(h: Hash)
    ensures
        h@.len() == 32,
{
}

/// A hash is determined by its bytes: two hashes with the same bytes are the
/// same hash, so reading a hash back from its stored bytes gives that hash.
pub proof fn lemma_hash_determined_by_bytes(a: Hash, b: Hash)
    requires
        a@ == b@,
    ensures
        a == b,
{
    assert(a.0 =~= b.0);
}

/// `==` on hashes holds exactly when their bytes are equal, and
/// `partial_cmp` (so `<`, `<=`, `>`, `>=`) orders hashes by their bytes,
/// lexicographically. The order is total: for any two hashes exactly one of
/// less, equal and greater holds, and the answer for `(b, a)` is the reverse
/// of that for `(a, b)`.
pub proof fn lemma_hash_order_total(a: Hash, b: Hash)
    ensures
        a.eq_spec(&b) <==> a@ == b@,
        a.partial_cmp_spec(&b) == Some(core::cmp::Ordering::Equal) <==> a@ == b@,
        a.partial_cmp_spec(&b) == Some(core::cmp::Ordering::Less) <==> bytes_before(a@, b@),
        a.partial_cmp_spec(&b) == Some(core::cmp::Ordering::Greater) <==> bytes_before(b@, a@),
        a.partial_cmp_spec(&b) == Some(core::cmp::Ordering::Less) <==> b.partial_cmp_spec(&a)
            == Some(core::cmp::Ordering::Greater),
{
    lemma_hash_len(a);
    lemma_hash_len(b);
    lemma_before_irreflexive(a@, b@);
    lemma_before_irreflexive(b@, a@);
    if a@ != b@ {
        assert(a@.take(0) =~= b@.take(0));
        lemma_some_difference(a@, b@, 0);
    }
}

/// Where `a` comes before `b`, they differ and `b` does not come before `a`.
proof fn lemma_before_irreflexive(a: Seq<u8>, b: Seq<u8>)
    ensures
        bytes_before(a, b) ==> a != b && !bytes_before(b, a),
{
    if bytes_before(a, b) {
        let k = choose|k: int| 0 <= k < a.len() && k < b.len() && a.take(k) == b.take(k) && #[trigger] a[k] < b[k];
        lemma_first_difference(a, b, k);
    }
}

/// The order of hashes is transitive.
pub proof fn lemma_hash_order_transitive(a: Hash, b: Hash, c: Hash)
    requires
        a.partial_cmp_spec(&b) == Some(core::cmp::Ordering::Less),
        b.partial_cmp_spec(&c) == Some(core::cmp::Ordering::Less),
    ensures
        a.partial_cmp_spec(&c) == Some(core::cmp::Ordering::Less),
{
    lemma_hash_order_total(a, b);
    lemma_hash_order_total(b, c);
    lemma_hash_order_total(a, c);
    let (x, y, z) = (a@, b@, c@);
    let k1 = choose|k: int| 0 <= k < x.len() && k < y.len() && x.take(k) == y.take(k) && #[trigger] x[k] < y[k];
    let k2 = choose|k: int| 0 <= k < y.len() && k < z.len() && y.take(k) == z.take(k) && #[trigger] y[k] < z[k];
    if k1 < k2 {
        assert(x.take(k1) =~= z.take(k1)) by {
            assert forall|j: int| 0 <= j < k1 implies x.take(k1)[j] == z.take(k1)[j] by {
                assert(x.take(k1)[j] == y.take(k1)[j]);
                assert(y.take(k2)[j] == z.take(k2)[j]);
            }
        }
        assert(y.take(k2)[k1] == z.take(k2)[k1]);
        lemma_first_difference(x, z, k1);
    } else {
        assert(x.take(k2) =~= z.take(k2)) by {
            assert forall|j: int| 0 <= j < k2 implies x.take(k2)[j] == z.take(k2)[j] by {
                assert(x.take(k1)[j] == y.take(k1)[j]);
                assert(y.take(k2)[j] == z.take(k2)[j]);
            }
        }
        if k2 < k1 {
            assert(x.take(k1)[k2] == y.take(k1)[k2]);
        }
        lemma_first_difference(x, z, k2);
    }
}

impl Hash {
    /// The hash with the given digest bytes.
    pub fn new(raw: [u8; 32]) -> (r: Hash)
        ensures
            r@ == raw@,
            r@.len() == 32,
    {
        Hash(raw)
    }

    /// The SHA-256 hash of `data`.
    pub fn of_content(data: &[u8]) -> (r: Hash)
        ensures
            r@ == sha256_digest(data@),
            r@.len() == 32,
    {
        Hash(sha256(data))
    }

    /// The hash stored as the bytes `bytes`, which must be exactly 32.
    pub fn from_stored(bytes: &[u8]) -> (r: Result<Hash, HashLengthError>)
        ensures
            r is Err <==> bytes@.len() != 32,
            r matches Ok(h) ==> h@ == bytes@ && h@.len() == 32,
    {
        if bytes.len() != 32 {
            return Err(HashLengthError);
        }
        let mut raw: [u8; 32] = [0u8; 32];
        let mut i: usize = 0;
        while i < 32
            invariant
                bytes@.len() == 32,
                raw@.len() == 32,
                i <= 32,
                forall|j: int| 0 <= j < i ==> raw@[j] == bytes@[j],
            decreases 32 - i,
        {
            raw[i] = bytes[i];
            i = i + 1;
        }
        assert(raw@ =~= bytes@);
        Ok(Hash(raw))
    }

    /// The digest bytes, all 32 of them.
    pub fn as_bytes(&self) -> (r: &[u8])
        ensures
            r@ == self@,
            r@.len() == 32,
    {
        self.0.as_slice()
    }

    /// The digest in padded standard Base64.
    pub fn as_base64(&self) -> (r: String)
        ensures
            r@ == base64_encoding(self@),
    {
        let mut out: String = String::new();
        b64_encode(self.0.as_slice(), &mut out);
        out
    }

    /// The text of the `content-digest` header for this hash.
    pub fn header_text(&self) -> (r: String)
        ensures
            r@ == digest_header(self@),
            forall|i: int| 8 <= i < r@.len() - 1 ==> is_base64_char(#[trigger] r@[i]),
    {
        let prefix: &str = "sha256=:";
        proof {
            reveal_strlit("sha256=:");
        }
        let mut out: String = prefix.to_owned();
        assert(out@ =~= seq!['s', 'h', 'a', '2', '5', '6', '=', ':']);
        b64_encode(self.0.as_slice(), &mut out);
        let ghost before = out@;
        push_char(&mut out, ':');
        assert forall|i: int| 8 <= i < out@.len() - 1 implies is_base64_char(#[trigger] out@[i]) by {
            assert(out@[i] == before[i]);
        }
        out
    }

    /// The `content-digest` header value for this hash. Building it cannot
    /// fail: the text is ASCII without control characters.
    pub fn to_header(self) -> (r: HeaderValue)
        ensures
            header_value_bytes(r) == encode_utf8(digest_header(self@)),
    {
        let text: String = self.header_text();
        proof {
            let t = text@;
            let prefix = seq!['s', 'h', 'a', '2', '5', '6', '=', ':'];
            assert forall|i: int| 0 <= i < t.len() implies 32 <= (#[trigger] t[i] as u32) <= 126 by {
                if i < 8 {
                    assert(t[i] == prefix[i]);
                } else if i < t.len() - 1 {
                    assert(is_base64_char(t[i]));
                } else {
                    assert(t[i] == ':');
                }
            }
            assert(is_ascii_chars(t));
            is_ascii_chars_encode_utf8(t);
            assert forall|i: int| 0 <= i < encode_utf8(t).len() implies is_header_value_byte(
                #[trigger] encode_utf8(t)[i],
            ) by {
                assert(encode_utf8(t)[i] == t[i] as u8);
                assert(32 <= (t[i] as u32) <= 126);
            }
        }
        header_value_from_str(text.as_str()).unwrap()
    }
}

} // verus!
