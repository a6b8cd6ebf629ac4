//! Small text facilities of `std` that the rest of the library builds on.

use vstd::prelude::*;
use vstd::utf8::*;

verus! {

#[verifier::external_type_specification]
#[verifier::external_body]
pub struct ExUtf8Error(core::str::Utf8Error);

/// `String::push`: appends `c` to `s`.
#[verifier::external_body]
pub(crate) fn push_char(s: &mut String, c: char)
    ensures
        final(s)@ == old(s)@.push(c),
{
    s.push(c)
}

/// `core::str::from_utf8`: reads `bytes` as text. It succeeds exactly when
/// `bytes` is valid UTF-8, and the text it gives back is encoded by `bytes`.
#[verifier::external_body]
pub(crate) fn str_from_utf8(bytes: &[u8]) -> (r: Result<&str, core::str::Utf8Error>)
    ensures
        r is Ok <==> valid_utf8(bytes@),
        r matches Ok(s) ==> encode_utf8(s@) == bytes@,
{
    core::str::from_utf8(bytes)
}

/// `c` is an ASCII decimal digit.
pub open spec fn is_digit(c: char) -> bool {
    '0' <= c && c <= '9'
}

/// The number written by the decimal digits `s`.
pub open spec fn decimal_value(s: Seq<char>) -> int
    decreases s.len(),
{
    if s.len() == 0 {
        0
    } else {
        10 * decimal_value(s.drop_last()) + (s.last() as int - '0' as int)
    }
}

/// Every character of `s` is an ASCII decimal digit.
pub open spec fn all_digits(s: Seq<char>) -> bool {
    forall|i: int| 0 <= i < s.len() ==> is_digit(#[trigger] s[i])
}

/// The text of `s` after an optional leading `+`.
pub open spec fn unsigned_digits(s: Seq<char>) -> Seq<char> {
    if s.len() > 0 && s[0] == '+' {
        s.drop_first()
    } else {
        s
    }
}

/// What `str::parse::<usize>` gives: an optional `+` followed by one or more
/// ASCII digits whose value fits in `usize`.
pub open spec fn parsed_usize(s: Seq<char>) -> Option<usize> {
    let digits = unsigned_digits(s);
    if digits.len() > 0 && all_digits(digits) && decimal_value(digits) <= usize::MAX {
        Some(decimal_value(digits) as usize)
    } else {
        None
    }
}

/// The value of the digits `s` is at least that of any prefix of them.
proof fn lemma_decimal_value_grows(s: Seq<char>, k: int)
    requires
        0 <= k <= s.len(),
        forall|i: int| 0 <= i < s.len() ==> is_digit(#[trigger] s[i]),
    ensures
        0 <= decimal_value(s.take(k)) <= decimal_value(s),
    decreases s.len(),
{
    if k == s.len() {
        assert(s.take(k) =~= s);
        lemma_decimal_value_nonneg(s);
    } else {
        let t = s.drop_last();
        assert(t.take(k) =~= s.take(k));
        lemma_decimal_value_grows(t, k);
        lemma_decimal_value_nonneg(t);
    }
}

/// The value of digits is never negative.
proof fn lemma_decimal_value_nonneg(s: Seq<char>)
    requires
        forall|i: int| 0 <= i < s.len() ==> is_digit(#[trigger] s[i]),
    ensures
        0 <= decimal_value(s),
    decreases s.len(),
{
    if s.len() > 0 {
        lemma_decimal_value_nonneg(s.drop_last());
    }
}

/// `str::parse::<usize>`, with the error dropped: an optional `+`, then one
/// or more ASCII digits whose value fits in `usize`.
pub fn parse_usize(s: &str) -> (r: Option<usize>)
    ensures
        r == parsed_usize(s@),
{
    let n: usize = s.unicode_len();
    let mut start: usize = 0;
    if n > 0 && s.get_char(0) == '+' {
        start = 1;
    }
    let ghost digits: Seq<char> = s@.skip(start as int);
    assert(digits =~= unsigned_digits(s@));
    if start == n {
        return None;
    }
    let mut acc: usize = 0;
    let mut i: usize = start;
    while i < n
        invariant
            start <= i <= n,
            n == s@.len(),
            digits == s@.skip(start as int),
            digits == unsigned_digits(s@),
            forall|j: int| 0 <= j < i - start ==> is_digit(#[trigger] digits[j]),
            acc == decimal_value(digits.take(i - start)),
        decreases n - i,
    {
        let c: char = s.get_char(i);
        let ghost k: int = i - start;
        assert(digits[k] == c);
        if !('0' <= c && c <= '9') {
            assert(!is_digit(digits[k]));
            return None;
        }
        let d: usize = ((c as u32) - ('0' as u32)) as usize;
        assert(digits.take(k + 1).drop_last() =~= digits.take(k));
        assert(decimal_value(digits.take(k + 1)) == 10 * acc + d);
        let next: Option<usize> = match acc.checked_mul(10) {
            Some(m) => m.checked_add(d),
            None => None,
        };
        match next {
            Some(v) => {
                acc = v;
            },
            None => {
                proof {
                    if all_digits(digits) {
                        lemma_decimal_value_grows(digits, k + 1);
                    }
                }
                return None;
            },
        }
        i = i + 1;
    }
    assert(digits.take(n - start) =~= digits);
    Some(acc)
}

/// `needle` occurs in `haystack` as a contiguous run.
pub open spec fn occurs_in(needle: Seq<u8>, haystack: Seq<u8>) -> bool {
    exists|i: int|
        0 <= i && i + needle.len() <= haystack.len() && #[trigger] haystack.subrange(
            i,
            i + needle.len(),
        ) == needle
}

/// Where `haystack` holds `needle` from position `i` on, `needle` occurs in it.
pub proof fn lemma_occurs_at(needle: Seq<u8>, haystack: Seq<u8>, i: int)
    requires
        0 <= i,
        i + needle.len() <= haystack.len(),
        haystack.subrange(i, i + needle.len()) == needle,
    ensures
        occurs_in(needle, haystack),
{
}

/// `needle` occurs in any text that holds it, whatever comes before and after.
pub proof fn lemma_occurs_in_middle(before: Seq<u8>, needle: Seq<u8>, after: Seq<u8>)
    ensures
        occurs_in(needle, before + needle + after),
{
    let h = before + needle + after;
    let i: int = before.len() as int;
    assert(h.subrange(i, i + needle.len()) =~= needle);
    lemma_occurs_at(needle, h, i);
}

/// Where `needle` occurs in `haystack`, it occurs in any longer text that
/// holds `haystack`.
pub proof fn lemma_occurs_in_extended(needle: Seq<u8>, before: Seq<u8>, haystack: Seq<u8>, after: Seq<u8>)
    requires
        occurs_in(needle, haystack),
    ensures
        occurs_in(needle, before + haystack + after),
{
    let i = choose|i: int|
        0 <= i && i + needle.len() <= haystack.len() && #[trigger] haystack.subrange(i, i + needle.len())
            == needle;
    let h = before + haystack + after;
    let j: int = before.len() + i;
    assert(h.subrange(j, j + needle.len()) =~= haystack.subrange(i, i + needle.len()));
    lemma_occurs_at(needle, h, j);
}

/// Whether `needle` occurs in `haystack`, by a search from the front.
pub fn contains_bytes(haystack: &[u8], needle: &[u8]) -> (r: bool)
    ensures
        r == occurs_in(needle@, haystack@),
{
    let n: usize = needle.len();
    if n > haystack.len() {
        proof {
            assert forall|i: int|
                0 <= i && i + needle@.len() <= haystack@.len() implies #[trigger] haystack@.subrange(
                i,
                i + needle@.len(),
            ) != needle@ by {}
        }
        return false;
    }
    if n == 0 {
        assert(haystack@.subrange(0, 0 + needle@.len() as int) =~= needle@);
        return true;
    }
    let hl: usize = haystack.len();
    let last: usize = hl - n;
    let mut i: usize = 0;
    while i <= last
        invariant
            n == needle@.len(),
            last + n == haystack@.len(),
            haystack@.len() <= usize::MAX,
            n > 0,
            i <= last + 1,
            forall|k: int| 0 <= k < i ==> #[trigger] haystack@.subrange(k, k + n) != needle@,
        decreases last + 1 - i,
    {
        let mut j: usize = 0;
        let mut same: bool = true;
        while j < n
            invariant
                n == needle@.len(),
                last + n == haystack@.len(),
                haystack@.len() <= usize::MAX,
                i <= last,
                j <= n,
                same <==> (forall|k: int| 0 <= k < j ==> haystack@[i + k] == needle@[k]),
            decreases n - j,
        {
            if haystack[i + j] != needle[j] {
                same = false;
            }
            j = j + 1;
        }
        if same {
            assert(haystack@.subrange(i as int, i + n) =~= needle@);
            return true;
        }
        assert(haystack@.subrange(i as int, i + n) != needle@) by {
            let k = choose|k: int| 0 <= k < n && haystack@[i + k] != needle@[k];
            assert(haystack@.subrange(i as int, i + n)[k] != needle@[k]);
        }
        i = i + 1;
    }
    proof {
        assert forall|k: int|
            0 <= k && k + needle@.len() <= haystack@.len() implies #[trigger] haystack@.subrange(
            k,
            k + needle@.len(),
        ) != needle@ by {
            assert(k < i);
        }
    }
    false
}

} // verus!
