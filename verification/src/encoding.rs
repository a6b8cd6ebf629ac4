//! Base64 (standard alphabet, padded) through the `base64` crate.

use base64::prelude::BASE64_STANDARD;
use base64::Engine;
use vstd::prelude::*;
use vstd::utf8::*;

verus! {

/// The symbol of the standard Base64 alphabet for the six-bit value `v`:
/// `A`-`Z` for 0-25, `a`-`z` for 26-51, `0`-`9` for 52-61, then `+` and `/`.
pub open spec fn base64_symbol(v: int) -> char {
    if v < 26 {
        ((v + 65) as u32) as char
    } else if v < 52 {
        ((v + 71) as u32) as char
    } else if v < 62 {
        ((v - 4) as u32) as char
    } else if v == 62 {
        '+'
    } else {
        '/'
    }
}

/// The padded standard Base64 text of `bytes`: each group of three bytes
/// becomes four symbols of six bits each, and a last group of one or two
/// bytes is filled with zero bits and padded with `=` to four characters.
pub open spec fn base64_encoding(bytes: Seq<u8>) -> Seq<char>
    decreases bytes.len(),
{
    let b0 = if bytes.len() > 0 { bytes[0] as int } else { 0 };
    let b1 = if bytes.len() > 1 { bytes[1] as int } else { 0 };
    let b2 = if bytes.len() > 2 { bytes[2] as int } else { 0 };
    let s0 = base64_symbol(b0 / 4);
    let s1 = base64_symbol((b0 % 4) * 16 + b1 / 16);
    let s2 = base64_symbol((b1 % 16) * 4 + b2 / 64);
    let s3 = base64_symbol(b2 % 64);
    if bytes.len() == 0 {
        Seq::empty()
    } else if bytes.len() == 1 {
        seq![s0, s1, '=', '=']
    } else if bytes.len() == 2 {
        seq![s0, s1, s2, '=']
    } else {
        seq![s0, s1, s2, s3] + base64_encoding(bytes.skip(3))
    }
}

/// Whether the text with UTF-8 bytes `input` is the padded standard Base64
/// text of some bytes.
pub open spec fn is_base64_text(input: Seq<u8>) -> bool {
    exists|b: Seq<u8>| encode_utf8(#[trigger] base64_encoding(b)) == input
}

/// The bytes whose padded standard Base64 text has the UTF-8 bytes `input`,
/// or `None` where there are none. (Only one sequence of bytes has a given
/// text: see `lemma_base64_injective`.)
pub open spec fn base64_decoding(input: Seq<u8>) -> Option<Seq<u8>> {
    if is_base64_text(input) {
        Some(choose|b: Seq<u8>| encode_utf8(#[trigger] base64_encoding(b)) == input)
    } else {
        None
    }
}

/// A character of the standard Base64 alphabet or the padding character.
pub open spec fn is_base64_char(c: char) -> bool {
    ('A' <= c && c <= 'Z') || ('a' <= c && c <= 'z') || ('0' <= c && c <= '9') || c == '+'
        || c == '/' || c == '='
}

/// Length of the padded Base64 text of `n` bytes.
pub open spec fn base64_len(n: nat) -> nat {
    4 * ((n + 2) / 3)
}

#[verifier::external_type_specification]
#[verifier::external_body]
pub struct ExDecodeError(base64::DecodeError);

#[verifier::external_type_specification]
#[verifier::external_body]
pub struct ExDecodeSliceError(base64::DecodeSliceError);

/// `Engine::encode_string` of the padded standard engine: appends the Base64
/// text of `input` to `out`. Claimed: the appended text is `base64_encoding`
/// of `input`.
#[verifier::external_body]
fn b64_encode_string(input: &[u8], out: &mut String)
    ensures
        final(out)@ == old(out)@ + base64_encoding(input@),
{
    BASE64_STANDARD.encode_string(input, out)
}

/// Appends the Base64 text of `input` to `out`: text of the padded length,
/// in the Base64 alphabet, that decodes back to `input`.
pub(crate) fn b64_encode(input: &[u8], out: &mut String)
    ensures
        final(out)@ == old(out)@ + base64_encoding(input@),
        final(out)@.len() == old(out)@.len() + base64_len(input@.len()),
        forall|i: int|
            old(out)@.len() <= i < final(out)@.len() ==> is_base64_char(#[trigger] final(out)@[i]),
        base64_decoding(encode_utf8(final(out)@.skip(old(out)@.len() as int))) == Some(input@),
{
    let ghost before: Seq<char> = out@;
    b64_encode_string(input, out);
    proof {
        let e = base64_encoding(input@);
        lemma_base64_len(input@);
        lemma_base64_alphabet(input@);
        lemma_base64_decodes(input@);
        assert(out@.skip(before.len() as int) =~= e);
        assert forall|i: int| before.len() <= i < out@.len() implies is_base64_char(#[trigger] out@[i]) by {
            assert(out@[i] == e[i - before.len()]);
        }
    }
}

/// The padded Base64 text of `n` bytes has `base64_len(n)` characters.
pub proof fn lemma_base64_len(b: Seq<u8>)
    ensures
        base64_encoding(b).len() == base64_len(b.len()),
    decreases b.len(),
{
    if b.len() > 2 {
        lemma_base64_len(b.skip(3));
    }
}

/// Every character of a Base64 text is in the Base64 alphabet or `=`.
pub proof fn lemma_base64_alphabet(b: Seq<u8>)
    ensures
        forall|i: int| 0 <= i < base64_encoding(b).len() ==> is_base64_char(#[trigger] base64_encoding(b)[i]),
    decreases b.len(),
{
    let e = base64_encoding(b);
    if b.len() > 0 {
        let b0 = b[0] as int;
        let b1 = if b.len() > 1 { b[1] as int } else { 0 };
        let b2 = if b.len() > 2 { b[2] as int } else { 0 };
        lemma_symbol(b0 / 4);
        lemma_symbol((b0 % 4) * 16 + b1 / 16);
        lemma_symbol((b1 % 16) * 4 + b2 / 64);
        lemma_symbol(b2 % 64);
        if b.len() > 2 {
            lemma_base64_alphabet(b.skip(3));
            let rest = base64_encoding(b.skip(3));
            assert forall|i: int| 0 <= i < e.len() implies is_base64_char(#[trigger] e[i]) by {
                if i >= 4 {
                    assert(e[i] == rest[i - 4]);
                }
            }
        }
    }
}

/// A symbol of a six-bit value is a Base64 character other than `=`, and
/// tells the value.
proof fn lemma_symbol(v: int)
    requires
        0 <= v < 64,
    ensures
        is_base64_char(base64_symbol(v)),
        base64_symbol(v) != '=',
        forall|w: int| 0 <= w < 64 && #[trigger] base64_symbol(w) == base64_symbol(v) ==> w == v,
{
    assert forall|w: int| 0 <= w < 64 && #[trigger] base64_symbol(w) == base64_symbol(v) implies w == v by {
        assert(base64_symbol(w) as u32 == base64_symbol(v) as u32);
    }
}

/// Only one sequence of bytes has a given padded Base64 text.
pub proof fn lemma_base64_injective(a: Seq<u8>, b: Seq<u8>)
    requires
        base64_encoding(a) == base64_encoding(b),
    ensures
        a == b,
    decreases a.len(),
{
    let ea = base64_encoding(a);
    let eb = base64_encoding(b);
    if a.len() == 0 || b.len() == 0 {
        lemma_base64_len(a);
        lemma_base64_len(b);
        assert(a.len() == 0 && b.len() == 0);
        assert(a =~= b);
    } else {
        let a0 = a[0] as int;
        let a1 = if a.len() > 1 { a[1] as int } else { 0 };
        let a2 = if a.len() > 2 { a[2] as int } else { 0 };
        let b0 = b[0] as int;
        let b1 = if b.len() > 1 { b[1] as int } else { 0 };
        let b2 = if b.len() > 2 { b[2] as int } else { 0 };
        lemma_symbol(a0 / 4);
        lemma_symbol((a0 % 4) * 16 + a1 / 16);
        lemma_symbol((a1 % 16) * 4 + a2 / 64);
        lemma_symbol(a2 % 64);
        lemma_symbol(b0 / 4);
        lemma_symbol((b0 % 4) * 16 + b1 / 16);
        lemma_symbol((b1 % 16) * 4 + b2 / 64);
        lemma_symbol(b2 % 64);
        assert(ea[0] == base64_symbol(a0 / 4));
        assert(eb[0] == base64_symbol(b0 / 4));
        assert(ea[1] == base64_symbol((a0 % 4) * 16 + a1 / 16));
        assert(eb[1] == base64_symbol((b0 % 4) * 16 + b1 / 16));
        assert(ea[0] == eb[0] && ea[1] == eb[1] && ea[2] == eb[2] && ea[3] == eb[3]);
        if a.len() > 1 {
            assert(ea[2] == base64_symbol((a1 % 16) * 4 + a2 / 64));
            assert(eb[2] == base64_symbol((b1 % 16) * 4 + b2 / 64));
        }
        if a.len() > 2 {
            assert(ea[3] == base64_symbol(a2 % 64));
            assert(eb[3] == base64_symbol(b2 % 64));
        }
        // the padding tells how many bytes the first group holds
        assert(a.len() == 1 <==> b.len() == 1);
        assert(a.len() == 2 <==> b.len() == 2);
        assert(a0 / 4 == b0 / 4);
        assert((a0 % 4) * 16 + a1 / 16 == (b0 % 4) * 16 + b1 / 16);
        assert(a0 == b0);
        if a.len() > 1 {
            assert((a1 % 16) * 4 + a2 / 64 == (b1 % 16) * 4 + b2 / 64);
            assert(a1 == b1);
        }
        if a.len() > 2 {
            assert(a2 % 64 == b2 % 64);
            assert(a2 == b2);
            lemma_base64_len(a.skip(3));
            lemma_base64_len(b.skip(3));
            assert(base64_encoding(a.skip(3)) =~= ea.skip(4));
            assert(base64_encoding(b.skip(3)) =~= eb.skip(4));
            lemma_base64_injective(a.skip(3), b.skip(3));
            assert(a =~= seq![a[0], a[1], a[2]] + a.skip(3));
            assert(b =~= seq![b[0], b[1], b[2]] + b.skip(3));
        } else {
            assert(a =~= b);
        }
    }
}

/// The Base64 text of `b`, as UTF-8 bytes, decodes to `b`.
pub proof fn lemma_base64_decodes(b: Seq<u8>)
    ensures
        base64_decoding(encode_utf8(base64_encoding(b))) == Some(b),
{
    let input = encode_utf8(base64_encoding(b));
    assert(is_base64_text(input));
    let c = choose|c: Seq<u8>| encode_utf8(#[trigger] base64_encoding(c)) == input;
    encode_utf8_decode_utf8(base64_encoding(c));
    encode_utf8_decode_utf8(base64_encoding(b));
    lemma_base64_injective(c, b);
}

/// `Engine::decode` of the padded standard engine on the bytes `input`.
/// Claimed: with canonical padding required and trailing bits refused, it
/// succeeds exactly on the texts that `base64_encoding` gives, and returns the
/// bytes that were encoded.
#[verifier::external_body]
pub(crate) fn b64_decode(input: &[u8]) -> (r: Result<Vec<u8>, base64::DecodeError>)
    ensures
        match r {
            Ok(v) => base64_decoding(input@) == Some(v@),
            Err(_) => base64_decoding(input@) is None,
        },
{
    BASE64_STANDARD.decode(input)
}

/// `Engine::decode_slice` of the padded standard engine: decodes `input` into
/// the front of `out`. It fails where `input` is not Base64 or where the
/// decoded bytes do not fit in `out`; otherwise it writes exactly the decoded
/// bytes and returns their number. As with `b64_decode`, the texts accepted
/// are exactly those that `base64_encoding` gives. What an error leaves in
/// `out` is not stated.
#[verifier::external_body]
pub(crate) fn b64_decode_into(input: &[u8], out: &mut Vec<u8>) -> (r: Result<usize, base64::DecodeSliceError>)
    ensures
        final(out)@.len() == old(out)@.len(),
        match base64_decoding(input@) {
            None => r is Err,
            Some(b) => if b.len() <= old(out)@.len() {
                r == Ok::<usize, base64::DecodeSliceError>(b.len() as usize)
                    && final(out)@ == b + old(out)@.skip(b.len() as int)
            } else {
                r is Err
            },
        },
{
    BASE64_STANDARD.decode_slice(input, out.as_mut_slice())
}

} // verus!
