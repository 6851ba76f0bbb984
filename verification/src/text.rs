//! Text helpers shared by the object decoders: UTF-8 decoding, whitespace
//! trimming, searching, and digit parsing, each with its mathematical model.
use vstd::prelude::*;
use vstd::utf8::decode_utf8;
use vstd::utf8::valid_utf8;

verus! {

/// The characters that carry the Unicode `White_Space` property.
pub open spec fn is_whitespace(c: char) -> bool {
    let u = c as u32;
    (0x09 <= u <= 0x0d) || u == 0x20 || u == 0x85 || u == 0xa0 || u == 0x1680 || (0x2000 <= u
        <= 0x200a) || u == 0x2028 || u == 0x2029 || u == 0x202f || u == 0x205f || u == 0x3000
}

/// `s` without its leading whitespace.
pub open spec fn trim_start(s: Seq<char>) -> Seq<char>
    decreases s.len(),
{
    if s.len() > 0 && is_whitespace(s[0]) {
        trim_start(s.drop_first())
    } else {
        s
    }
}

/// `s` without its trailing whitespace.
pub open spec fn trim_end(s: Seq<char>) -> Seq<char>
    decreases s.len(),
{
    if s.len() > 0 && is_whitespace(s.last()) {
        trim_end(s.drop_last())
    } else {
        s
    }
}

/// `s` without leading and trailing whitespace.
pub open spec fn trimmed(s: Seq<char>) -> Seq<char> {
    trim_end(trim_start(s))
}

/// Position of the first occurrence of `x` in `s`, or `s.len()` when there is none.
pub open spec fn first_index<A>(s: Seq<A>, x: A) -> int
    decreases s.len(),
{
    if s.len() == 0 || s[0] == x {
        0
    } else {
        1 + first_index(s.drop_first(), x)
    }
}

/// `first_index` is the only position that holds `x` with no `x` before it.
pub proof fn lemma_first_index<A>(s: Seq<A>, x: A, i: int)
    requires
        0 <= i <= s.len(),
        forall|j: int| 0 <= j < i ==> s[j] != x,
        i == s.len() || s[i] == x,
    ensures
        first_index(s, x) == i,
    decreases s.len(),
{
    if i > 0 {
        let t = s.drop_first();
        assert forall|j: int| 0 <= j < i - 1 implies t[j] != x by {
            assert(t[j] == s[j + 1]);
        }
        lemma_first_index(t, x, i - 1);
    }
}

/// `first_index` lies within `0..=s.len()`, points at `x` when inside, and nothing before it is `x`.
pub proof fn lemma_first_index_bounds<A>(s: Seq<A>, x: A)
    ensures
        0 <= first_index(s, x) <= s.len(),
        first_index(s, x) < s.len() ==> s[first_index(s, x)] == x,
        forall|j: int| 0 <= j < first_index(s, x) ==> s[j] != x,
    decreases s.len(),
{
    if s.len() > 0 && s[0] != x {
        let t = s.drop_first();
        lemma_first_index_bounds(t, x);
        assert forall|j: int| 0 <= j < first_index(s, x) implies s[j] != x by {
            if j > 0 {
                assert(t[j - 1] == s[j]);
            }
        }
    }
}

/// Whether `c` is a digit of the given radix (at most ten).
pub open spec fn is_digit(c: char, radix: int) -> bool {
    '0' as u32 <= c as u32 && (c as u32) < '0' as u32 + radix
}

/// The value of a digit character.
pub open spec fn digit_value(c: char) -> int {
    c as u32 - '0' as u32
}

/// Whether every character of `s` is a digit of the given radix.
pub open spec fn all_digits(s: Seq<char>, radix: int) -> bool {
    forall|i: int| 0 <= i < s.len() ==> is_digit(#[trigger] s[i], radix)
}

/// The number that the digits of `s` denote, most significant first.
pub open spec fn number_value(s: Seq<char>, radix: int) -> int
    decreases s.len(),
{
    if s.len() == 0 {
        0
    } else {
        number_value(s.drop_last(), radix) * radix + digit_value(s.last())
    }
}

/// The number written in `s`: one or more digits whose value does not exceed `max`.
pub open spec fn parse_number(s: Seq<char>, radix: int, max: int) -> Option<int> {
    if s.len() == 0 || !all_digits(s, radix) || number_value(s, radix) > max {
        None
    } else {
        Some(number_value(s, radix))
    }
}

/// A prefix of a digit string never denotes more than the whole string.
pub proof fn lemma_number_value_prefix(s: Seq<char>, radix: int, k: int)
    requires
        1 <= radix <= 10,
        all_digits(s, radix),
        0 <= k <= s.len(),
    ensures
        0 <= number_value(s.take(k), radix) <= number_value(s, radix),
    decreases s.len() - k,
{
    if k == s.len() {
        assert(s.take(k) =~= s);
        lemma_number_value_nonnegative(s, radix);
    } else {
        lemma_number_value_prefix(s, radix, k + 1);
        let t = s.take(k + 1);
        assert(t.drop_last() =~= s.take(k));
        assert(is_digit(s[k], radix));
        assert(t.last() == s[k]);
        lemma_number_value_nonnegative(s.take(k), radix);
        let v = number_value(s.take(k), radix);
        assert(v * radix >= v) by (nonlinear_arith)
            requires
                v >= 0,
                radix >= 1,
        ;
    }
}

/// A digit string denotes a natural number.
pub proof fn lemma_number_value_nonnegative(s: Seq<char>, radix: int)
    requires
        1 <= radix <= 10,
        all_digits(s, radix),
    ensures
        0 <= number_value(s, radix),
    decreases s.len(),
{
    if s.len() > 0 {
        let t = s.drop_last();
        assert forall|i: int| 0 <= i < t.len() implies is_digit(#[trigger] t[i], radix) by {
            assert(t[i] == s[i]);
        }
        lemma_number_value_nonnegative(t, radix);
        assert(is_digit(s[s.len() - 1], radix));
        let v = number_value(t, radix);
        assert(v * radix >= 0) by (nonlinear_arith)
            requires
                v >= 0,
                radix >= 1,
        ;
    }
}

/// Decodes `bytes` as UTF-8 text.
///
/// Trusted: wraps `String::from_utf8`, which succeeds exactly on well-formed
/// UTF-8 and then holds the characters that the bytes encode.
#[verifier::external_body]
pub(crate) fn text_from_utf8(bytes: Vec<u8>) -> (r: Option<String>)
    ensures
        r is Some <==> valid_utf8(bytes@),
        r matches Some(s) ==> s@ == decode_utf8(bytes@),
{
    match String::from_utf8(bytes) {
        Ok(s) => Some(s),
        Err(_) => None,
    }
}

/// Whether `c` is a whitespace character.
pub fn char_is_whitespace(c: char) -> (b: bool)
    ensures
        b == is_whitespace(c),
{
    let u = c as u32;
    (0x09 <= u && u <= 0x0d) || u == 0x20 || u == 0x85 || u == 0xa0 || u == 0x1680 || (0x2000 <= u
        && u <= 0x200a) || u == 0x2028 || u == 0x2029 || u == 0x202f || u == 0x205f || u == 0x3000
}

/// Returns `s` without leading and trailing whitespace.
pub fn trim(s: &str) -> (r: String)
    ensures
        r@ == trimmed(s@),
{
    let n = s.unicode_len();
    let mut a: usize = 0;
    assert(s@.subrange(0, n as int) =~= s@);
    while a < n && char_is_whitespace(s.get_char(a))
        invariant
            a <= n,
            n == s@.len(),
            trim_start(s@) == trim_start(s@.subrange(a as int, n as int)),
        decreases n - a,
    {
        proof {
            let t = s@.subrange(a as int, n as int);
            assert(t.drop_first() =~= s@.subrange(a + 1, n as int));
        }
        a += 1;
    }
    let mut b: usize = n;
    while b > a && char_is_whitespace(s.get_char(b - 1))
        invariant
            a <= b <= n,
            n == s@.len(),
            trim_end(s@.subrange(a as int, n as int)) == trim_end(s@.subrange(a as int, b as int)),
        decreases b,
    {
        proof {
            let t = s@.subrange(a as int, b as int);
            assert(t.drop_last() =~= s@.subrange(a as int, b - 1));
        }
        b -= 1;
    }
    s.substring_char(a, b).to_owned()
}

/// Finds the first occurrence of `c` among the characters of `s`.
pub fn find_char(s: &str, c: char) -> (i: usize)
    ensures
        i == first_index(s@, c),
        i <= s@.len(),
{
    let n = s.unicode_len();
    let mut i: usize = 0;
    while i < n && s.get_char(i) != c
        invariant
            i <= n,
            n == s@.len(),
            forall|j: int| 0 <= j < i ==> s@[j] != c,
        decreases n - i,
    {
        i += 1;
    }
    proof {
        lemma_first_index(s@, c, i as int);
    }
    i
}

/// Finds the first occurrence of `x` in `bytes` at or after `from`, relative to `from`.
pub fn find_byte(bytes: &[u8], from: usize, x: u8) -> (i: usize)
    requires
        from <= bytes@.len(),
    ensures
        i == first_index(bytes@.subrange(from as int, bytes@.len() as int), x),
        from + i <= bytes@.len(),
{
    let n = bytes.len();
    let mut i: usize = from;
    let ghost rest = bytes@.subrange(from as int, n as int);
    while i < n && bytes[i] != x
        invariant
            from <= i <= n,
            n == bytes@.len(),
            rest == bytes@.subrange(from as int, n as int),
            forall|j: int| 0 <= j < i - from ==> rest[j] != x,
        decreases n - i,
    {
        i += 1;
    }
    proof {
        lemma_first_index(rest, x, i - from);
    }
    i - from
}

/// Reads `s` as a number in the given radix, rejecting an empty string, a
/// character that is no digit, and a value above `max`.
pub fn parse_digits(s: &str, radix: u8, max: u64) -> (r: Option<u64>)
    requires
        1 <= radix <= 10,
    ensures
        match r {
            Some(v) => parse_number(s@, radix as int, max as int) == Some(v as int),
            None => parse_number(s@, radix as int, max as int) is None,
        },
{
    let n = s.unicode_len();
    if n == 0 {
        return None;
    }
    let mut acc: u64 = 0;
    let mut i: usize = 0;
    while i < n
        invariant
            i <= n,
            n == s@.len(),
            1 <= radix <= 10,
            all_digits(s@.take(i as int), radix as int),
            acc == number_value(s@.take(i as int), radix as int),
            acc <= max,
        decreases n - i,
    {
        let c = s.get_char(i);
        let u = c as u32;
        if u < 0x30 || u >= 0x30 + radix as u32 {
            assert(!is_digit(s@[i as int], radix as int));
            return None;
        }
        let d: u64 = (u - 0x30) as u64;
        assert(acc as u128 * radix as u128 <= 0xffff_ffff_ffff_ffff * 10) by (nonlinear_arith)
            requires
                acc <= 0xffff_ffff_ffff_ffff,
                radix <= 10,
        ;
        let next: u128 = acc as u128 * radix as u128 + d as u128;
        proof {
            let t = s@.take(i + 1);
            assert(t.drop_last() =~= s@.take(i as int));
            assert(t.last() == s@[i as int]);
            assert forall|j: int| 0 <= j < t.len() implies is_digit(#[trigger] t[j], radix as int) by {
                if j < i {
                    assert(s@.take(i as int)[j] == t[j]);
                }
            }
            assert(next == number_value(t, radix as int));
        }
        if next > max as u128 {
            proof {
                if all_digits(s@, radix as int) {
                    lemma_number_value_prefix(s@, radix as int, i + 1);
                }
            }
            return None;
        }
        acc = next as u64;
        i += 1;
    }
    assert(s@.take(n as int) =~= s@);
    Some(acc)
}

} // verus!
