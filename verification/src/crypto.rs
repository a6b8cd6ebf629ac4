//! Password-based encryption of paste contents: AES-256-GCM under a key derived
//! with PBKDF2-HMAC-SHA256, stored as `base64(salt):base64(iv):base64(cipher)`.

use aes_gcm::aead::Aead;
use aes_gcm::aead::Nonce;
use aes_gcm::{AeadInOut, Aes256Gcm, Key, KeyInit};
use core::num::NonZeroU32;
use vstd::prelude::*;
use vstd::utf8::*;

use crate::encoding::{
    b64_decode, b64_decode_into, b64_encode, base64_decoding, base64_encoding, base64_len,
    is_base64_char,
};
use crate::text::push_char;

verus! {

/// PBKDF2 with HMAC-SHA256: `len` bytes derived from `secret` (taken as its
/// UTF-8 bytes) and `salt` with `iterations` rounds.
pub uninterp spec fn pbkdf2_hmac_sha256(
    iterations: u32,
    salt: Seq<u8>,
    secret: Seq<char>,
    len: nat,
) -> Seq<u8>;

/// AES-256-GCM encryption of `plaintext` under `key` and `nonce` with empty
/// associated data: the ciphertext followed by the tag.
pub uninterp spec fn aes256gcm_sealed(key: Seq<u8>, nonce: Seq<u8>, plaintext: Seq<u8>) -> Seq<u8>;

/// AES-256-GCM decryption of `ciphertext` (tag last) under `key` and `nonce`
/// with empty associated data: the plaintext, or `None` where `ciphertext` is
/// not authentic (too short to hold a tag, too long for AES-GCM, or with a tag
/// that does not verify).
pub uninterp spec fn aes256gcm_opened(key: Seq<u8>, nonce: Seq<u8>, ciphertext: Seq<u8>) -> Option<
    Seq<u8>,
>;

/// The content type under which the web interface stores encrypted pastes.
pub const ENCRYPTED_TYPE: &'static str = "application/aes256gcm-encrypted";

/// Rounds of PBKDF2 used to derive a key from a password.
pub const KDF_ITERATIONS: u32 = 100000;

/// Largest plaintext that AES-GCM accepts, in bytes.
pub const MAX_PLAINTEXT_LEN: u64 = 68719476704;

/// Passwords are taken to be shorter than this many characters (their UTF-8
/// bytes then stay far below what HMAC-SHA256 accepts as a key).
pub const MAX_PASSWORD_CHARS: u64 = 0x0400_0000_0000_0000;

/// The byte `:` that separates the three sections.
pub const SEPARATOR: u8 = 58;

#[verifier::external_type_specification]
#[verifier::external_body]
pub struct ExAeadError(aes_gcm::Error);

/// Why an encrypted text could not be read.
#[derive(Debug, Clone, Copy, PartialEq, Eq, Structural)]
pub enum DecryptError {
    /// Fewer than two `:` separators.
    InvalidFormat,
    /// The salt section is not the Base64 of 16 bytes.
    InvalidSalt,
    /// The iv section is not the Base64 of 12 bytes.
    InvalidIv,
    /// The cipher section is not Base64.
    InvalidCipher,
}

impl DecryptError {
    /// A human readable account of the error.
    pub fn message(&self) -> (r: &'static str)
        ensures
            r@ == match self {
                DecryptError::InvalidFormat => "Invalid content format"@,
                DecryptError::InvalidSalt => "Improperly formatted salt string"@,
                DecryptError::InvalidIv => "Improperly formatted iv string"@,
                DecryptError::InvalidCipher => "Improperly formatted cipher string"@,
            },
    {
        match self {
            DecryptError::InvalidFormat => "Invalid content format",
            DecryptError::InvalidSalt => "Improperly formatted salt string",
            DecryptError::InvalidIv => "Improperly formatted iv string",
            DecryptError::InvalidCipher => "Improperly formatted cipher string",
        }
    }
}

/// `ring::pbkdf2::derive` with `PBKDF2_HMAC_SHA256`: fills `out` with the key
/// derived from `secret`'s UTF-8 bytes and `salt`. Claimed: `out` then holds
/// the named derivation of `out`'s length; inputs too long for SHA-256, on
/// which `derive` panics, are excluded.
#[verifier::external_body]
fn pbkdf2_derive(iterations: u32, salt: &[u8], secret: &str, out: &mut [u8; 32])
    requires
        iterations > 0,
        salt@.len() < MAX_PASSWORD_CHARS,
        secret@.len() < MAX_PASSWORD_CHARS,
    ensures
        final(out)@ == pbkdf2_hmac_sha256(iterations, salt@, secret@, 32),
{
    ring::pbkdf2::derive(
        ring::pbkdf2::PBKDF2_HMAC_SHA256,
        NonZeroU32::new(iterations).unwrap(),
        salt,
        secret.as_bytes(),
        out,
    )
}

/// `KeyInit::new` of `Aes256Gcm` on `key`, then `Aead::encrypt` of
/// `plaintext` under `nonce` with no associated data. Claimed: it fails
/// exactly on plaintexts longer than AES-GCM allows; otherwise it gives the
/// named ciphertext, 16 bytes longer than the plaintext, which decrypts under
/// the same key and nonce to the plaintext.
#[verifier::external_body]
fn aes256gcm_encrypt(key: &[u8; 32], nonce: &[u8; 12], plaintext: &[u8]) -> (r: Result<
    Vec<u8>,
    aes_gcm::Error,
>)
    ensures
        r is Ok <==> plaintext@.len() <= MAX_PLAINTEXT_LEN,
        r matches Ok(c) ==> c@ == aes256gcm_sealed(key@, nonce@, plaintext@),
        r matches Ok(c) ==> c@.len() == plaintext@.len() + 16,
        r matches Ok(c) ==> aes256gcm_opened(key@, nonce@, c@) == Some(plaintext@),
{
    Aes256Gcm::new(&Key::<Aes256Gcm>::from(*key)).encrypt(&Nonce::<Aes256Gcm>::from(*nonce), plaintext)
}

/// `KeyInit::new` of `Aes256Gcm` on `key`, then
/// `AeadInOut::decrypt_in_place` of `buffer` under `nonce` with no associated
/// data. Claimed: it succeeds exactly where the named decryption does, and
/// then leaves the plaintext in `buffer`, 16 bytes (the tag) shorter than the
/// ciphertext; a buffer shorter than a tag always fails. What a failure leaves
/// in `buffer` is not stated.
#[verifier::external_body]
fn aes256gcm_decrypt_in_place(key: &[u8; 32], nonce: &[u8; 12], buffer: &mut Vec<u8>) -> (r: Result<
    (),
    aes_gcm::Error,
>)
    ensures
        r is Ok <==> aes256gcm_opened(key@, nonce@, old(buffer)@) is Some,
        r is Ok ==> aes256gcm_opened(key@, nonce@, old(buffer)@) == Some(final(buffer)@),
        r is Ok ==> final(buffer)@.len() + 16 == old(buffer)@.len(),
        old(buffer)@.len() < 16 ==> r is Err,
{
    Aes256Gcm::new(&Key::<Aes256Gcm>::from(*key)).decrypt_in_place(
        &Nonce::<Aes256Gcm>::from(*nonce),
        &[],
        buffer,
    )
}

/// `rand::random` for a byte array: bytes from the thread-local generator.
/// Nothing is claimed of them.
#[verifier::external_body]
fn random_bytes<const N: usize>() -> [u8; N] {
    rand::random()
}

/// The AES key derived from `password` and `salt`.
pub open spec fn derived_key(password: Seq<char>, salt: Seq<u8>) -> Seq<u8> {
    pbkdf2_hmac_sha256(KDF_ITERATIONS, salt, password, 32)
}

/// The key for a password is PBKDF2-HMAC-SHA256 with 100000 rounds over the
/// password's exact text (its UTF-8 bytes, no case or other change) and the
/// salt, 32 bytes long.
pub proof fn lemma_key_from_exact_password(password: Seq<char>, salt: Seq<u8>)
    ensures
        derived_key(password, salt) == pbkdf2_hmac_sha256(100000u32, salt, password, 32),
{
}

/// The stored text for `plaintext` encrypted with `password`, `salt` and `iv`.
pub open spec fn encrypted_text(
    plaintext: Seq<u8>,
    password: Seq<char>,
    salt: Seq<u8>,
    iv: Seq<u8>,
) -> Seq<char> {
    base64_encoding(salt) + seq![':'] + base64_encoding(iv) + seq![':'] + base64_encoding(
        aes256gcm_sealed(derived_key(password, salt), iv, plaintext),
    )
}

/// `i` is the position of the first separator in `s`.
pub open spec fn is_first_separator(s: Seq<u8>, i: int) -> bool {
    &&& 0 <= i < s.len()
    &&& s[i] == SEPARATOR
    &&& forall|j: int| 0 <= j < i ==> s[j] != SEPARATOR
}

/// `s` cut at its first separator, the separator dropped.
pub open spec fn split_at_separator(s: Seq<u8>) -> Option<(Seq<u8>, Seq<u8>)> {
    if exists|i: int| is_first_separator(s, i) {
        let i = choose|i: int| is_first_separator(s, i);
        Some((s.take(i), s.skip(i + 1)))
    } else {
        None
    }
}

/// The salt, iv and cipher sections of an encrypted text's bytes.
pub open spec fn sections(encoded: Seq<u8>) -> Option<(Seq<u8>, Seq<u8>, Seq<u8>)> {
    match split_at_separator(encoded) {
        None => None,
        Some((salt, rest)) => match split_at_separator(rest) {
            None => None,
            Some((iv, cipher)) => Some((salt, iv, cipher)),
        },
    }
}

/// `text` is Base64 of fewer than `n` bytes.
pub open spec fn decodes_short(text: Seq<u8>, n: nat) -> bool {
    base64_decoding(text) matches Some(b) && b.len() < n
}

/// The bytes that `text` stands for if they are exactly `n`.
pub open spec fn decoded_exactly(text: Seq<u8>, n: nat) -> Option<Seq<u8>> {
    match base64_decoding(text) {
        Some(b) => if b.len() == n {
            Some(b)
        } else {
            None
        },
        None => None,
    }
}

/// The encrypted texts on which reading them stops with a failed assertion:
/// a salt that is Base64 of fewer than 16 bytes, or a good salt and an iv
/// that is Base64 of fewer than 12 bytes.
pub open spec fn decrypt_panics(encoded: Seq<u8>) -> bool {
    match sections(encoded) {
        None => false,
        Some((salt, iv, _)) => decodes_short(salt, 16) || (decoded_exactly(salt, 16) is Some
            && decodes_short(iv, 12)),
    }
}

/// What reading the encrypted text `encoded` with `password` gives: an error
/// for a malformed text, `None` where the password (or the text) does not
/// authenticate, else the plaintext.
pub open spec fn decryption(encoded: Seq<u8>, password: Seq<char>) -> Result<
    Option<Seq<u8>>,
    DecryptError,
> {
    match sections(encoded) {
        None => Err(DecryptError::InvalidFormat),
        Some((salt_text, iv_text, cipher_text)) => match decoded_exactly(salt_text, 16) {
            None => Err(DecryptError::InvalidSalt),
            Some(salt) => match decoded_exactly(iv_text, 12) {
                None => Err(DecryptError::InvalidIv),
                Some(iv) => match base64_decoding(cipher_text) {
                    None => Err(DecryptError::InvalidCipher),
                    Some(cipher) => Ok(aes256gcm_opened(derived_key(password, salt), iv, cipher)),
                },
            },
        },
    }
}

/// The bytes that the cipher section of `encoded` stands for, where the text
/// has three sections and that section is Base64.
pub open spec fn decoded_cipher(encoded: Seq<u8>) -> Option<Seq<u8>> {
    match sections(encoded) {
        Some((_, _, cipher_text)) => base64_decoding(cipher_text),
        None => None,
    }
}

/// The plain view of a decryption result.
pub open spec fn decryption_view(r: Result<Option<Vec<u8>>, DecryptError>) -> Result<
    Option<Seq<u8>>,
    DecryptError,
> {
    match r {
        Ok(Some(v)) => Ok(Some(v@)),
        Ok(None) => Ok(None),
        Err(e) => Err(e),
    }
}

/// There is at most one first separator.
proof fn lemma_first_separator_unique(s: Seq<u8>, i: int, k: int)
    requires
        is_first_separator(s, i),
        is_first_separator(s, k),
    ensures
        i == k,
{
    if i < k {
        assert(s[i] != SEPARATOR);
    } else if k < i {
        assert(s[k] != SEPARATOR);
    }
}

/// Cuts `s` at its first separator.
fn split_separator(s: &[u8]) -> (r: Option<(&[u8], &[u8])>)
    ensures
        match r {
            Some((a, b)) => split_at_separator(s@) == Some((a@, b@)),
            None => split_at_separator(s@) is None,
        },
{
    let len: usize = s.len();
    let mut i: usize = 0;
    while i < len
        invariant
            len == s@.len(),
            i <= len,
            forall|j: int| 0 <= j < i ==> s@[j] != SEPARATOR,
        decreases len - i,
    {
        if s[i] == SEPARATOR {
            let head: &[u8] = &s[0..i];
            let tail: &[u8] = &s[i + 1..len];
            proof {
                assert(is_first_separator(s@, i as int));
                let k = choose|k: int| is_first_separator(s@, k);
                lemma_first_separator_unique(s@, i as int, k);
                assert(head@ =~= s@.take(i as int));
                assert(tail@ =~= s@.skip(i + 1));
            }
            return Some((head, tail));
        }
        i = i + 1;
    }
    proof {
        assert forall|k: int| !is_first_separator(s@, k) by {
            if 0 <= k < s@.len() {
                assert(s@[k] != SEPARATOR);
            }
        }
    }
    None
}

/// Copies a vector of exactly `N` bytes into an array.
fn to_array<const N: usize>(v: &Vec<u8>) -> (a: [u8; N])
    requires
        v@.len() == N,
    ensures
        a@ == v@,
{
    let mut a: [u8; N] = [0u8; N];
    let mut i: usize = 0;
    while i < N
        invariant
            v@.len() == N,
            a@.len() == N,
            i <= N,
            forall|j: int| 0 <= j < i ==> a@[j] == v@[j],
        decreases N - i,
    {
        a[i] = v[i];
        i = i + 1;
    }
    assert(a@ =~= v@);
    a
}

/// Derives the AES key for `password` and `salt`.
fn get_key(password: &str, salt: &[u8; 16]) -> (key: [u8; 32])
    requires
        password@.len() < MAX_PASSWORD_CHARS,
    ensures
        key@ == derived_key(password@, salt@),
{
    let mut out: [u8; 32] = [0u8; 32];
    pbkdf2_derive(KDF_ITERATIONS, salt.as_slice(), password, &mut out);
    out
}

/// Decodes the Base64 `text` into exactly `n` bytes.
fn b64_decode_len(text: &[u8], n: usize) -> (r: Result<Vec<u8>, base64::DecodeSliceError>)
    requires
        !decodes_short(text@, n as nat),
    ensures
        match r {
            Ok(v) => decoded_exactly(text@, n as nat) == Some(v@),
            Err(_) => decoded_exactly(text@, n as nat) is None,
        },
{
    let mut buf: Vec<u8> = vec![0u8; n];
    match b64_decode_into(text, &mut buf) {
        Ok(written) => {
            proof {
                let b = base64_decoding(text@)->Some_0;
                assert(buf@ =~= b);
            }
            assert(written == n);
            Ok(buf)
        },
        Err(e) => Err(e),
    }
}

/// Reads an encrypted text with `password`: the plaintext, `None` where the
/// password does not authenticate the cipher, or why the text is malformed.
pub fn decrypt(encoded: &str, password: &str) -> (r: Result<Option<Vec<u8>>, DecryptError>)
    requires
        !decrypt_panics(encode_utf8(encoded@)),
        password@.len() < MAX_PASSWORD_CHARS,
    ensures
        decryption_view(r) == decryption(encode_utf8(encoded@), password@),
        (decoded_cipher(encode_utf8(encoded@)) matches Some(c) && c.len() < 16 && decryption(
            encode_utf8(encoded@),
            password@,
        ) is Ok) ==> r matches Ok(None),
        r matches Ok(Some(p)) ==> (decoded_cipher(encode_utf8(encoded@)) matches Some(c) && p@.len()
            + 16 == c.len()),
{
    let bytes: &[u8] = encoded.as_bytes();
    let (salt_text, rest) = match split_separator(bytes) {
        Some(p) => p,
        None => return Err(DecryptError::InvalidFormat),
    };
    let (iv_text, cipher_text) = match split_separator(rest) {
        Some(p) => p,
        None => return Err(DecryptError::InvalidFormat),
    };
    let salt_v: Vec<u8> = match b64_decode_len(salt_text, 16) {
        Ok(v) => v,
        Err(_) => return Err(DecryptError::InvalidSalt),
    };
    let iv_v: Vec<u8> = match b64_decode_len(iv_text, 12) {
        Ok(v) => v,
        Err(_) => return Err(DecryptError::InvalidIv),
    };
    let mut cipher: Vec<u8> = match b64_decode(cipher_text) {
        Ok(v) => v,
        Err(_) => return Err(DecryptError::InvalidCipher),
    };
    let salt: [u8; 16] = to_array(&salt_v);
    let iv: [u8; 12] = to_array(&iv_v);
    let key: [u8; 32] = get_key(password, &salt);
    match aes256gcm_decrypt_in_place(&key, &iv, &mut cipher) {
        Ok(()) => Ok(Some(cipher)),
        Err(_) => Ok(None),
    }
}

/// Reads an encrypted text with `password`, or gives `None` on the texts on
/// which reading stops with a failed assertion (see `decrypt_panics`).
pub fn try_decrypt(encoded: &str, password: &str) -> (r: Option<Result<Option<Vec<u8>>, DecryptError>>)
    requires
        password@.len() < MAX_PASSWORD_CHARS,
    ensures
        r is None <==> decrypt_panics(encode_utf8(encoded@)),
        r matches Some(d) ==> decryption_view(d) == decryption(encode_utf8(encoded@), password@),
        r matches Some(d) ==> ((decoded_cipher(encode_utf8(encoded@)) matches Some(c) && c.len()
            < 16 && decryption(encode_utf8(encoded@), password@) is Ok) ==> d matches Ok(None)),
{
    if decrypt_would_panic(encoded) {
        None
    } else {
        Some(decrypt(encoded, password))
    }
}

/// Whether reading `encoded` stops with a failed assertion.
pub fn decrypt_would_panic(encoded: &str) -> (b: bool)
    ensures
        b == decrypt_panics(encode_utf8(encoded@)),
{
    let bytes: &[u8] = encoded.as_bytes();
    let (salt_text, rest) = match split_separator(bytes) {
        Some(p) => p,
        None => return false,
    };
    let (iv_text, _cipher_text) = match split_separator(rest) {
        Some(p) => p,
        None => return false,
    };
    let mut salt_buf: Vec<u8> = vec![0u8; 16];
    match b64_decode_into(salt_text, &mut salt_buf) {
        Err(_) => false,
        Ok(written) => {
            if written < 16 {
                true
            } else {
                let mut iv_buf: Vec<u8> = vec![0u8; 12];
                match b64_decode_into(iv_text, &mut iv_buf) {
                    Ok(iv_written) => iv_written < 12,
                    Err(_) => false,
                }
            }
        },
    }
}

/// All characters of `s` are Base64 characters.
pub open spec fn all_base64(s: Seq<char>) -> bool {
    forall|i: int| 0 <= i < s.len() ==> is_base64_char(#[trigger] s[i])
}

/// Splitting the bytes of `x:y` at the first separator, where `x` is Base64
/// and `y` is ASCII, gives the bytes of `x` and of `y`.
proof fn lemma_split_joined(x: Seq<char>, y: Seq<char>)
    requires
        all_base64(x),
        is_ascii_chars(y),
    ensures
        split_at_separator(encode_utf8(x + seq![':'] + y)) == Some(
            (encode_utf8(x), encode_utf8(y)),
        ),
{
    let t = x + seq![':'] + y;
    assert(is_ascii_chars(x)) by {
        assert forall|i: int| 0 <= i < x.len() implies '\0' <= #[trigger] x[i] <= '\u{7f}' by {
            assert(is_base64_char(x[i]));
        }
    }
    assert(is_ascii_chars(t)) by {
        assert forall|i: int| 0 <= i < t.len() implies '\0' <= #[trigger] t[i] <= '\u{7f}' by {
            if i < x.len() {
                assert(t[i] == x[i]);
            } else if i == x.len() {
                assert(t[i] == ':');
            } else {
                assert(t[i] == y[i - x.len() - 1]);
            }
        }
    }
    is_ascii_chars_encode_utf8(t);
    is_ascii_chars_encode_utf8(x);
    is_ascii_chars_encode_utf8(y);
    let bytes = encode_utf8(t);
    let n = x.len() as int;
    assert forall|j: int| 0 <= j < n implies bytes[j] != SEPARATOR by {
        assert(t[j] == x[j]);
        assert(is_base64_char(x[j]));
        assert(bytes[j] == t[j] as u8);
    }
    assert(t[n] == ':');
    assert(bytes[n] == t[n] as u8);
    assert(is_first_separator(bytes, n));
    let k = choose|k: int| is_first_separator(bytes, k);
    lemma_first_separator_unique(bytes, n, k);
    assert forall|j: int| 0 <= j < n implies #[trigger] bytes.take(n)[j] == encode_utf8(x)[j] by {
        assert(t[j] == x[j]);
        assert(bytes[j] == t[j] as u8);
    }
    assert(bytes.take(n) =~= encode_utf8(x));
    assert forall|j: int| 0 <= j < y.len() implies #[trigger] bytes.skip(n + 1)[j] == encode_utf8(y)[j] by {
        assert(t[n + 1 + j] == y[j]);
        assert(bytes[n + 1 + j] == t[n + 1 + j] as u8);
    }
    assert(bytes.skip(n + 1) =~= encode_utf8(y));
}

/// The sections of the bytes of `a:b:c`, for Base64 texts `a`, `b`, `c`.
proof fn lemma_sections_of_joined(a: Seq<char>, b: Seq<char>, c: Seq<char>)
    requires
        all_base64(a),
        all_base64(b),
        all_base64(c),
    ensures
        sections(encode_utf8(a + seq![':'] + b + seq![':'] + c)) == Some(
            (encode_utf8(a), encode_utf8(b), encode_utf8(c)),
        ),
{
    let rest = b + seq![':'] + c;
    assert(a + seq![':'] + b + seq![':'] + c =~= a + seq![':'] + rest);
    assert(is_ascii_chars(c)) by {
        assert forall|i: int| 0 <= i < c.len() implies '\0' <= #[trigger] c[i] <= '\u{7f}' by {
            assert(is_base64_char(c[i]));
        }
    }
    assert(is_ascii_chars(rest)) by {
        assert forall|i: int| 0 <= i < rest.len() implies '\0' <= #[trigger] rest[i] <= '\u{7f}' by {
            if i < b.len() {
                assert(rest[i] == b[i]);
                assert(is_base64_char(b[i]));
            } else if i == b.len() {
                assert(rest[i] == ':');
            } else {
                assert(rest[i] == c[i - b.len() - 1]);
            }
        }
    }
    lemma_split_joined(a, rest);
    lemma_split_joined(b, c);
}

/// The form of the text written for a plaintext of `plaintext_len` bytes:
/// 24 Base64 characters standing for the 16-byte salt, `:`, 16 Base64
/// characters standing for the 12-byte iv, `:`, and the Base64 of a cipher 16
/// bytes longer than the plaintext. Base64 holds no `:`, so these are the only
/// two separators.
pub open spec fn has_encrypted_shape(t: Seq<char>, plaintext_len: nat) -> bool {
    &&& t.len() == 42 + base64_len(plaintext_len + 16)
    &&& t[24] == ':'
    &&& t[41] == ':'
    &&& forall|i: int| 0 <= i < t.len() && i != 24 && i != 41 ==> is_base64_char(#[trigger] t[i])
    &&& base64_decoding(encode_utf8(t.take(24))) matches Some(s) && s.len() == 16
    &&& base64_decoding(encode_utf8(t.subrange(25, 41))) matches Some(v) && v.len() == 12
    &&& base64_decoding(encode_utf8(t.skip(42))) matches Some(c) && c.len() == plaintext_len + 16
}

/// Reading a text written for password `p` with any password `q` is never
/// an error, and gives exactly what AES-GCM opening gives under the key that
/// PBKDF2-HMAC-SHA256 (100000 rounds) derives from `q`'s exact text, applied
/// to the cipher sealed under the key derived from `p`'s exact text.
pub proof fn lemma_decrypt_with_any_password(
    plaintext: Seq<u8>,
    p: Seq<char>,
    q: Seq<char>,
    salt: Seq<u8>,
    iv: Seq<u8>,
)
    requires
        salt.len() == 16,
        iv.len() == 12,
    ensures
        decryption(encode_utf8(encrypted_text(plaintext, p, salt, iv)), q) == Ok::<
            Option<Seq<u8>>,
            DecryptError,
        >(
            aes256gcm_opened(
                pbkdf2_hmac_sha256(100000u32, salt, q, 32),
                iv,
                aes256gcm_sealed(pbkdf2_hmac_sha256(100000u32, salt, p, 32), iv, plaintext),
            ),
        ),
{
    let cipher = aes256gcm_sealed(derived_key(p, salt), iv, plaintext);
    let a = base64_encoding(salt);
    let b = base64_encoding(iv);
    let c = base64_encoding(cipher);
    crate::encoding::lemma_base64_alphabet(salt);
    crate::encoding::lemma_base64_alphabet(iv);
    crate::encoding::lemma_base64_alphabet(cipher);
    assert(all_base64(a));
    assert(all_base64(b));
    assert(all_base64(c));
    lemma_sections_of_joined(a, b, c);
    crate::encoding::lemma_base64_decodes(salt);
    crate::encoding::lemma_base64_decodes(iv);
    crate::encoding::lemma_base64_decodes(cipher);
}

/// Encrypts `plaintext` with `password` under the given salt and iv, and
/// writes the result as `base64(salt):base64(iv):base64(cipher)`. Reading the
/// result back with the same password gives the plaintext.
pub fn encrypt_with(plaintext: &[u8], password: &str, salt: &[u8; 16], iv: &[u8; 12]) -> (r: String)
    requires
        plaintext@.len() <= MAX_PLAINTEXT_LEN,
        password@.len() < MAX_PASSWORD_CHARS,
    ensures
        r@ == encrypted_text(plaintext@, password@, salt@, iv@),
        !decrypt_panics(encode_utf8(r@)),
        decryption(encode_utf8(r@), password@) == Ok::<Option<Seq<u8>>, DecryptError>(
            Some(plaintext@),
        ),
        has_encrypted_shape(r@, plaintext@.len()),
{
    let key: [u8; 32] = get_key(password, salt);
    let cipher: Vec<u8> = aes256gcm_encrypt(&key, iv, plaintext).unwrap();
    let mut out: String = String::new();
    b64_encode(salt.as_slice(), &mut out);
    let ghost a = out@;
    push_char(&mut out, ':');
    let ghost out2 = out@;
    b64_encode(iv.as_slice(), &mut out);
    let ghost b = out@.skip(out2.len() as int);
    assert(b =~= base64_encoding(iv@));
    let ghost out3 = out@;
    push_char(&mut out, ':');
    let ghost out4 = out@;
    b64_encode(cipher.as_slice(), &mut out);
    let ghost c = out@.skip(out4.len() as int);
    assert(c =~= base64_encoding(cipher@));
    proof {
        assert(a.skip(0) =~= a);
        assert(a =~= base64_encoding(salt@));
        assert(all_base64(a)) by {
            assert forall|i: int| 0 <= i < a.len() implies is_base64_char(#[trigger] a[i]) by {
                assert(a[i] == out2[i]);
            }
        }
        assert(all_base64(b)) by {
            assert forall|i: int| 0 <= i < b.len() implies is_base64_char(#[trigger] b[i]) by {
                assert(b[i] == out3[out2.len() + i]);
            }
        }
        assert(all_base64(c)) by {
            assert forall|i: int| 0 <= i < c.len() implies is_base64_char(#[trigger] c[i]) by {
                assert(c[i] == out@[out4.len() + i]);
            }
        }
        assert(out@ =~= a + seq![':'] + b + seq![':'] + c);
        lemma_sections_of_joined(a, b, c);
        assert(salt@.len() == 16);
        assert(iv@.len() == 12);
        assert(a.len() == 24);
        assert(b.len() == 16);
        assert(out@.take(24) =~= a);
        assert(out@.subrange(25, 41) =~= b);
        assert(out@.skip(42) =~= c);
        assert forall|i: int| 0 <= i < out@.len() && i != 24 && i != 41 implies is_base64_char(
            #[trigger] out@[i],
        ) by {
            if i < 24 {
                assert(out@[i] == a[i]);
            } else if i < 41 {
                assert(out@[i] == b[i - 25]);
            } else {
                assert(out@[i] == c[i - 42]);
            }
        }
    }
    out
}

/// Encrypts `plaintext` with `password` under a fresh random salt and iv.
/// Reading the result back with the same password gives the plaintext.
pub fn encrypt(plaintext: &[u8], password: &str) -> (r: String)
    requires
        plaintext@.len() <= MAX_PLAINTEXT_LEN,
        password@.len() < MAX_PASSWORD_CHARS,
    ensures
        exists|salt: Seq<u8>, iv: Seq<u8>|
            salt.len() == 16 && iv.len() == 12 && r@ == #[trigger] encrypted_text(
                plaintext@,
                password@,
                salt,
                iv,
            ),
        !decrypt_panics(encode_utf8(r@)),
        decryption(encode_utf8(r@), password@) == Ok::<Option<Seq<u8>>, DecryptError>(
            Some(plaintext@),
        ),
        has_encrypted_shape(r@, plaintext@.len()),
{
    let salt: [u8; 16] = random_bytes();
    let iv: [u8; 12] = random_bytes();
    let r: String = encrypt_with(plaintext, password, &salt, &iv);
    assert(salt@.len() == 16 && iv@.len() == 12);
    r
}

} // verus!
