//! Slugs: the short names under which pastes are stored and fetched.

use vstd::prelude::*;
use vstd::string::StrSliceExecFns;
use vstd::utf8::*;

use crate::text::{push_char, str_from_utf8};
use crate::util::{is_lower_alnum, LowerAlphanumeric};

verus! {

broadcast use vstd::utf8::group_utf8_lib;

/// Shortest slug, in bytes.
pub const MIN_SLUG_LEN: usize = 3;

/// Longest slug, in bytes.
pub const MAX_SLUG_LEN: usize = 32;

/// Number of random characters after the `-` of a storage path.
pub const PATH_SUFFIX_LEN: usize = 5;

/// `char::is_alphanumeric`: the character has the Unicode `Alphabetic`
/// property or a numeric general category.
pub uninterp spec fn unicode_alphanumeric(c: char) -> bool;

/// `char::is_alphanumeric`. Claimed: the result is the named property,
/// and on an ASCII character it holds exactly of the letters and digits.
#[verifier::external_body]
fn is_alphanumeric(c: char) -> (r: bool)
    ensures
        r == unicode_alphanumeric(c),
        (c as u32) < 128 ==> (r <==> is_ascii_alnum(c)),
{
    c.is_alphanumeric()
}

/// An ASCII letter or digit.
pub open spec fn is_ascii_alnum(c: char) -> bool {
    ('a' <= c <= 'z') || ('A' <= c <= 'Z') || ('0' <= c <= '9')
}

/// A character that may appear in a slug: an ASCII letter or digit, `-`,
/// `_` or `.`, or a non-ASCII alphanumeric character.
pub open spec fn is_slug_char(c: char) -> bool {
    if (c as u32) < 128 {
        is_ascii_alnum(c) || c == '-' || c == '_' || c == '.'
    } else {
        unicode_alphanumeric(c)
    }
}

/// A character that may stand in a file name under the data directory: where
/// it is ASCII, it is a letter, a digit, `-`, `_` or `.` (so never a path
/// separator or a control character).
pub open spec fn is_path_safe(c: char) -> bool {
    (c as u32) < 128 ==> (is_ascii_alnum(c) || c == '-' || c == '_' || c == '.')
}

/// Why a text is not a slug.
#[derive(Debug, Clone, Copy, PartialEq, Eq, Structural)]
pub enum SlugError {
    /// The text is shorter than 3 or longer than 32 bytes.
    BadLength,
    /// The text holds a character other than a letter, a digit, `-`, `_` or `.`.
    InvalidChar,
}

impl SlugError {
    /// A human readable account of the error.
    pub fn message(&self) -> (r: &'static str)
        ensures
            r@ == match self {
                SlugError::BadLength => "Slug length must be within 3..=32"@,
                SlugError::InvalidChar => "Invalid character in slug"@,
            },
    {
        match self {
            SlugError::BadLength => "Slug length must be within 3..=32",
            SlugError::InvalidChar => "Invalid character in slug",
        }
    }
}

/// What parsing `s` as a slug gives: the slug's text, or why it is refused.
pub open spec fn slug_parse(s: Seq<char>) -> Result<Seq<char>, SlugError> {
    let n = encode_utf8(s).len();
    if n < MIN_SLUG_LEN || n > MAX_SLUG_LEN {
        Err(SlugError::BadLength)
    } else if forall|i: int| 0 <= i < s.len() ==> is_slug_char(#[trigger] s[i]) {
        Ok(s)
    } else {
        Err(SlugError::InvalidChar)
    }
}

/// `path` is a storage path for a slug with text `slug`: the text, a `-` and
/// five random lower-case alphanumeric characters.
pub open spec fn is_path_for(path: Seq<char>, slug: Seq<char>) -> bool {
    &&& path.len() == slug.len() + 1 + PATH_SUFFIX_LEN
    &&& path.take(slug.len() as int) == slug
    &&& path[slug.len() as int] == '-'
    &&& forall|i: int| slug.len() < i < path.len() ==> is_lower_alnum(#[trigger] path[i])
}

/// The name of a paste: up to 32 bytes of UTF-8 text, kept inline.
#[derive(Clone, Copy)]
pub struct Slug {
    value: [u8; 32],
    len: usize,
}

impl View for Slug {
    type V = Seq<char>;

    /// The slug's text.
    closed spec fn view(&self) -> Seq<char> {
        decode_utf8(self.value@.take(self.len as int))
    }
}

impl Slug {
    /// The slug's bytes are the UTF-8 text of at most 32 bytes, the rest of
    /// the buffer is zero, and the text is one that `parse` accepts.
    #[verifier::type_invariant]
    pub closed spec fn wf(self) -> bool {
        &&& self.len <= MAX_SLUG_LEN
        &&& valid_utf8(self.value@.take(self.len as int))
        &&& forall|i: int| self.len <= i < MAX_SLUG_LEN ==> self.value@[i] == 0
        &&& slug_parse(self@) == Ok::<Seq<char>, SlugError>(self@)
    }

    /// The UTF-8 bytes of the slug's text.
    pub closed spec fn bytes(self) -> Seq<u8> {
        self.value@.take(self.len as int)
    }

    /// Reads `s` as a slug: 3 to 32 bytes of letters, digits, `-`, `_` and `.`.
    pub fn parse(s: &str) -> (r: Result<Slug, SlugError>)
        ensures
            match r {
                Ok(slug) => slug_parse(s@) == Ok::<Seq<char>, SlugError>(slug@),
                Err(e) => slug_parse(s@) == Err::<Seq<char>, SlugError>(e),
            },
    {
        let bytes: &[u8] = s.as_bytes();
        let n: usize = bytes.len();
        if n < MIN_SLUG_LEN || n > MAX_SLUG_LEN {
            return Err(SlugError::BadLength);
        }
        let count: usize = s.unicode_len();
        let mut i: usize = 0;
        while i < count
            invariant
                count == s@.len(),
                n == encode_utf8(s@).len(),
                MIN_SLUG_LEN <= n <= MAX_SLUG_LEN,
                i <= count,
                forall|j: int| 0 <= j < i ==> is_slug_char(#[trigger] s@[j]),
            decreases count - i,
        {
            let c: char = s.get_char(i);
            if !(is_alphanumeric(c) || c == '-' || c == '_' || c == '.') {
                assert(!is_slug_char(s@[i as int]));
                return Err(SlugError::InvalidChar);
            }
            i = i + 1;
        }
        let mut value: [u8; 32] = [0u8; 32];
        let mut k: usize = 0;
        while k < n
            invariant
                n == bytes@.len(),
                n <= MAX_SLUG_LEN,
                value@.len() == MAX_SLUG_LEN,
                k <= n,
                forall|j: int| 0 <= j < k ==> value@[j] == bytes@[j],
                forall|j: int| k <= j < MAX_SLUG_LEN ==> value@[j] == 0,
            decreases n - k,
        {
            value[k] = bytes[k];
            k = k + 1;
        }
        assert(value@.take(n as int) =~= bytes@);
        assert(decode_utf8(value@.take(n as int)) == s@);
        Ok(Slug { value, len: n })
    }

    /// A random slug of `len` lower-case alphanumeric characters.
    pub fn new(len: usize) -> (r: Slug)
        requires
            MIN_SLUG_LEN <= len <= MAX_SLUG_LEN,
        ensures
            r@.len() == len,
            r.bytes().len() == len,
            forall|i: int| 0 <= i < len ==> is_lower_alnum(#[trigger] r@[i]),
    {
        let mut value: [u8; 32] = [0u8; 32];
        let ghost mut chars: Seq<char> = Seq::empty();
        let mut k: usize = 0;
        while k < len
            invariant
                len <= MAX_SLUG_LEN,
                value@.len() == MAX_SLUG_LEN,
                k <= len,
                chars.len() == k,
                forall|j: int| 0 <= j < k ==> is_lower_alnum(#[trigger] chars[j]),
                forall|j: int| 0 <= j < k ==> value@[j] == #[trigger] chars[j] as u8,
                forall|j: int| k <= j < MAX_SLUG_LEN ==> value@[j] == 0,
            decreases len - k,
        {
            let c: char = LowerAlphanumeric.sample();
            value[k] = c as u8;
            proof {
                chars = chars.push(c);
            }
            k = k + 1;
        }
        proof {
            assert(is_ascii_chars(chars)) by {
                assert forall|j: int| 0 <= j < chars.len() implies '\0' <= #[trigger] chars[j]
                    <= '\u{7f}' by {
                    assert(is_lower_alnum(chars[j]));
                }
            }
            is_ascii_chars_encode_utf8(chars);
            assert(value@.take(len as int) =~= encode_utf8(chars));
            assert(decode_utf8(value@.take(len as int)) == chars);
            lemma_generated_slugs_parse(chars);
        }
        Slug { value, len }
    }

    /// The slug's text, which `parse` reads back as this slug.
    pub fn as_str(&self) -> (r: &str)
        ensures
            r@ == self@,
            encode_utf8(r@) == self.bytes(),
            slug_parse(r@) == Ok::<Seq<char>, SlugError>(r@),
            forall|i: int| 0 <= i < r@.len() ==> is_path_safe(#[trigger] r@[i]),
    {
        proof {
            use_type_invariant(self);
        }
        let all: &[u8] = self.value.as_slice();
        let used: &[u8] = &all[0..self.len];
        assert(used@ =~= self.value@.take(self.len as int));
        str_from_utf8(used).unwrap()
    }

    /// A fresh storage path for this slug: its text, `-` and five random
    /// lower-case alphanumeric characters.
    pub fn to_path(self) -> (r: String)
        ensures
            is_path_for(r@, self@),
            forall|i: int| 0 <= i < r@.len() ==> is_path_safe(#[trigger] r@[i]),
            forall|i: int| 0 <= i < r@.len() ==> #[trigger] r@[i] != '/',
    {
        let text: &str = self.as_str();
        let mut path: String = text.to_owned();
        push_char(&mut path, '-');
        let mut k: usize = 0;
        while k < PATH_SUFFIX_LEN
            invariant
                k <= PATH_SUFFIX_LEN,
                path@.len() == self@.len() + 1 + k,
                path@.take(self@.len() as int) == self@,
                path@[self@.len() as int] == '-',
                forall|i: int| self@.len() < i < path@.len() ==> is_lower_alnum(#[trigger] path@[i]),
                forall|i: int| 0 <= i < path@.len() ==> is_path_safe(#[trigger] path@[i]),
            decreases PATH_SUFFIX_LEN - k,
        {
            let c: char = LowerAlphanumeric.sample();
            let ghost before = path@;
            push_char(&mut path, c);
            assert(path@.take(self@.len() as int) =~= before.take(self@.len() as int));
            k = k + 1;
        }
        path
    }

    /// The lengths of the random slugs that are tried, in turn, when a fresh
    /// unique slug is wanted: 8, 10, ..., 32.
    pub fn unique_candidate_lengths() -> (r: Vec<usize>)
        ensures
            r@.len() == 13,
            forall|i: int| 0 <= i < 13 ==> #[trigger] r@[i] == 8 + 2 * i,
    {
        let mut r: Vec<usize> = Vec::new();
        let mut len: usize = 8;
        while len <= MAX_SLUG_LEN
            invariant
                8 <= len <= MAX_SLUG_LEN + 2,
                len % 2 == 0,
                r@.len() == (len - 8) / 2,
                forall|i: int| 0 <= i < r@.len() ==> #[trigger] r@[i] == 8 + 2 * i,
            decreases MAX_SLUG_LEN + 2 - len,
        {
            r.push(len);
            len = len + 2;
        }
        r
    }
}

/// A text of 3 to 32 bytes made only of ASCII letters of either case, ASCII
/// digits, `-`, `_` and `.` is a slug, with that very text.
pub proof fn lemma_plain_text_is_slug(s: Seq<char>)
    requires
        3 <= encode_utf8(s).len() <= 32,
        forall|i: int|
            0 <= i < s.len() ==> ('a' <= #[trigger] s[i] <= 'z') || ('A' <= s[i] <= 'Z') || ('0'
                <= s[i] <= '9') || s[i] == '-' || s[i] == '_' || s[i] == '.',
    ensures
        slug_parse(s) == Ok::<Seq<char>, SlugError>(s),
{
    assert forall|i: int| 0 <= i < s.len() implies is_slug_char(#[trigger] s[i]) by {
        assert((s[i] as u32) < 128);
    }
}

/// A text holding an ASCII character other than a letter, a digit, `-`, `_`
/// and `.` (such as `/`, a space or `:`) is refused for that character when
/// its length is right; a text of fewer than 3 or more than 32 bytes is
/// refused for its length.
pub proof fn lemma_slug_refusals(s: Seq<char>, i: int)
    ensures
        (encode_utf8(s).len() < 3 || encode_utf8(s).len() > 32) ==> slug_parse(s) == Err::<
            Seq<char>,
            SlugError,
        >(SlugError::BadLength),
        (3 <= encode_utf8(s).len() <= 32 && 0 <= i < s.len() && (s[i] as u32) < 128 && !(('a' <= s[i]
            <= 'z') || ('A' <= s[i] <= 'Z') || ('0' <= s[i] <= '9') || s[i] == '-' || s[i] == '_'
            || s[i] == '.')) ==> slug_parse(s) == Err::<Seq<char>, SlugError>(SlugError::InvalidChar),
{
    if 3 <= encode_utf8(s).len() <= 32 && 0 <= i < s.len() && (s[i] as u32) < 128 && !(('a' <= s[i]
        <= 'z') || ('A' <= s[i] <= 'Z') || ('0' <= s[i] <= '9') || s[i] == '-' || s[i] == '_'
        || s[i] == '.') {
        assert(!is_slug_char(s[i]));
    }
}

/// Every slug is read back by `Slug::parse` from its own text.
pub proof fn lemma_slug_reparses(s: Slug)
    requires
        s.wf(),
    ensures
        slug_parse(s@) == Ok::<Seq<char>, SlugError>(s@),
{
}

/// A slug is determined by its text: two slugs with the same text are the
/// same slug, so parsing the text of a slug gives that slug back.
pub proof fn lemma_slug_determined_by_text(a: Slug, b: Slug)
    requires
        a.wf(),
        b.wf(),
        a@ == b@,
    ensures
        a == b,
{
    decode_utf8_encode_utf8(a.value@.take(a.len as int));
    decode_utf8_encode_utf8(b.value@.take(b.len as int));
    assert(a.value@.take(a.len as int) == b.value@.take(b.len as int));
    assert(a.len == b.len);
    assert forall|i: int| 0 <= i < 32 implies a.value[i] == b.value[i] by {
        if i < a.len {
            assert(a.value@.take(a.len as int)[i] == b.value@.take(b.len as int)[i]);
        }
    }
    assert(a.value =~= b.value);
}

/// Every text of 3 to 32 lower-case alphanumeric characters, as `Slug::new`
/// makes them, is read back by `Slug::parse` unchanged.
pub proof fn lemma_generated_slugs_parse(text: Seq<char>)
    requires
        MIN_SLUG_LEN <= text.len() <= MAX_SLUG_LEN,
        forall|i: int| 0 <= i < text.len() ==> is_lower_alnum(#[trigger] text[i]),
    ensures
        slug_parse(text) == Ok::<Seq<char>, SlugError>(text),
{
    assert(is_ascii_chars(text)) by {
        assert forall|j: int| 0 <= j < text.len() implies '\0' <= #[trigger] text[j] <= '\u{7f}' by {
            assert(is_lower_alnum(text[j]));
        }
    }
    is_ascii_chars_encode_utf8(text);
    assert forall|i: int| 0 <= i < text.len() implies is_slug_char(#[trigger] text[i]) by {
        assert(is_lower_alnum(text[i]));
    }
}

} // verus!
