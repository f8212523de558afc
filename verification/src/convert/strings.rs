//! Comparing, splitting and reading texts.
//!
//! Texts are compared and searched byte by byte; that the bytes of a text
//! and its characters tell the same is proved from the rules of UTF-8.

use vstd::prelude::*;
use vstd::string::StringSliceAdditionalSpecFns;
use vstd::utf8::{decode_utf8, encode_utf8, encode_utf8_decode_utf8};

verus! {

/// `suffix` stands at the end of `s`.
pub open spec fn is_suffix(suffix: Seq<char>, s: Seq<char>) -> bool {
    suffix.len() <= s.len() && s.subrange(s.len() - suffix.len(), s.len() as int) == suffix
}

/// `sep` stands in `s` at index `at`.
pub open spec fn occurs_at(sep: Seq<char>, s: Seq<char>, at: int) -> bool {
    0 <= at && at + sep.len() <= s.len() && s.subrange(at, at + sep.len()) == sep
}

/// `at` is the index of the last place where `sep` stands in `s`.
pub open spec fn last_occurrence(sep: Seq<char>, s: Seq<char>, at: int) -> bool {
    occurs_at(sep, s, at) && forall|j: int| at < j ==> !occurs_at(sep, s, j)
}

/// Whether a character is white space: one of the characters to which
/// Unicode gives the property `White_Space`.
pub open spec fn is_white_space(c: char) -> bool {
    let u = c as u32;
    ||| 0x09 <= u <= 0x0D
    ||| u == 0x20
    ||| u == 0x85
    ||| u == 0xA0
    ||| u == 0x1680
    ||| 0x2000 <= u <= 0x200A
    ||| u == 0x2028
    ||| u == 0x2029
    ||| u == 0x202F
    ||| u == 0x205F
    ||| u == 0x3000
}

/// The words of a text, in order: its longest runs of characters that are
/// not white space.
pub open spec fn whitespace_tokens(text: Seq<char>) -> Seq<Seq<char>>
    decreases text.len(),
{
    if text.len() == 0 {
        Seq::empty()
    } else {
        let head = whitespace_tokens(text.drop_last());
        let c = text.last();
        if is_white_space(c) {
            head
        } else if text.len() >= 2 && !is_white_space(text[text.len() - 2]) && head.len() > 0 {
            head.drop_last().push(head.last().push(c))
        } else {
            head.push(seq![c])
        }
    }
}

/// The number that decimal digits spell; `None` where there is no digit or
/// something else than a digit.
pub open spec fn digits_value(bytes: Seq<u8>) -> Option<int>
    decreases bytes.len(),
{
    if bytes.len() == 0 {
        None
    } else if !(0x30 <= bytes.last() <= 0x39) {
        None
    } else if bytes.len() == 1 {
        Some(bytes.last() - 0x30)
    } else {
        match digits_value(bytes.drop_last()) {
            Some(head) => Some(head * 10 + (bytes.last() - 0x30)),
            None => None,
        }
    }
}

/// The number that a token spells: decimal digits, which a plus sign may
/// precede.
pub open spec fn number_of(bytes: Seq<u8>) -> Option<int> {
    if bytes.len() > 0 && bytes[0] == 0x2B {
        digits_value(bytes.skip(1))
    } else {
        digits_value(bytes)
    }
}

/// The number that a token spells, where it is no more than `max`.
pub open spec fn number_within(bytes: Seq<u8>, max: int) -> Option<int> {
    match number_of(bytes) {
        Some(value) => if value <= max {
            Some(value)
        } else {
            None
        },
        None => None,
    }
}

/// The 32-bit index that a token spells.
pub open spec fn parsed_u32(token: Seq<char>) -> Option<u32> {
    match number_within(encode_utf8(token), u32::MAX as int) {
        Some(value) => Some(value as u32),
        None => None,
    }
}

/// The count that a token spells.
pub open spec fn parsed_usize(token: Seq<char>) -> Option<usize> {
    match number_within(encode_utf8(token), usize::MAX as int) {
        Some(value) => Some(value as usize),
        None => None,
    }
}

/// Digits spell a number that is not negative, and a longer run of digits
/// spells no smaller number than its prefix.
proof fn lemma_digits_grow(bytes: Seq<u8>, k: int)
    requires
        0 < k <= bytes.len(),
        digits_value(bytes.take(k)) is Some,
        digits_value(bytes) is Some,
    ensures
        0 <= digits_value(bytes.take(k))->Some_0 <= digits_value(bytes)->Some_0,
    decreases bytes.len() - k,
{
    lemma_digits_positive(bytes.take(k));
    if k == bytes.len() {
        assert(bytes.take(k) =~= bytes);
    } else {
        assert(bytes.drop_last().take(k) =~= bytes.take(k));
        lemma_digits_grow(bytes.drop_last(), k);
    }
}

/// Digits spell a number that is not negative.
proof fn lemma_digits_positive(bytes: Seq<u8>)
    requires
        digits_value(bytes) is Some,
    ensures
        0 <= digits_value(bytes)->Some_0,
    decreases bytes.len(),
{
    if bytes.len() > 1 {
        lemma_digits_positive(bytes.drop_last());
    }
}

/// A run that begins with something else than digits spells no number.
proof fn lemma_digits_fail(bytes: Seq<u8>, k: int)
    requires
        0 < k <= bytes.len(),
        digits_value(bytes.take(k)) is None,
    ensures
        digits_value(bytes) is None,
    decreases bytes.len() - k,
{
    if k == bytes.len() {
        assert(bytes.take(k) =~= bytes);
    } else {
        assert(bytes.drop_last().take(k) =~= bytes.take(k));
        lemma_digits_fail(bytes.drop_last(), k);
    }
}

/// Reads the number that a token spells, where it is no more than `max`.
fn parse_number(bytes: &[u8], max: u64) -> (r: Option<u64>)
    ensures
        match r {
            Some(value) => number_within(bytes@, max as int) == Some(value as int),
            None => number_within(bytes@, max as int).is_none(),
        },
{
    let first: usize = if bytes.len() > 0 && bytes[0] == 0x2B {
        1
    } else {
        0
    };
    let ghost digits = bytes@.skip(first as int);
    proof {
        assert(bytes@.skip(0) =~= bytes@);
    }
    if bytes.len() == first {
        return None;
    }
    let mut value: u64 = 0;
    let mut i: usize = first;
    while i < bytes.len()
        invariant
            first <= i <= bytes@.len(),
            first < bytes@.len(),
            digits == bytes@.skip(first as int),
            number_of(bytes@) == digits_value(digits),
            value <= max,
            i == first ==> value == 0,
            i > first ==> digits_value(digits.take(i - first)) == Some(value as int),
        decreases bytes@.len() - i,
    {
        let b = bytes[i];
        proof {
            assert(digits.take(i - first + 1).drop_last() =~= digits.take(i - first));
            assert(digits.take(i - first + 1).last() == b);
        }
        if b < 0x30 || b > 0x39 {
            proof {
                assert(digits_value(digits.take(i - first + 1)) is None);
                lemma_digits_fail(digits, i - first + 1);
            }
            return None;
        }
        let next = (value as u128) * 10 + (b - 0x30) as u128;
        proof {
            assert(digits_value(digits.take(i - first + 1)) == Some(next as int));
        }
        if next > max as u128 {
            proof {
                if digits_value(digits) is Some {
                    lemma_digits_grow(digits, i - first + 1);
                }
            }
            return None;
        }
        value = next as u64;
        i = i + 1;
    }
    proof {
        assert(digits.take(i - first) =~= digits);
    }
    Some(value)
}

/// Whether two slices hold the same characters.
pub fn same(a: &str, b: &str) -> (r: bool)
    ensures
        r == (a@ == b@),
{
    let x = a.as_bytes();
    let y = b.as_bytes();
    proof {
        encode_utf8_decode_utf8(a@);
        encode_utf8_decode_utf8(b@);
    }
    if x.len() != y.len() {
        return false;
    }
    let mut i: usize = 0;
    while i < x.len()
        invariant
            0 <= i <= x@.len(),
            x@.len() == y@.len(),
            x@ == encode_utf8(a@),
            y@ == encode_utf8(b@),
            decode_utf8(encode_utf8(a@)) == a@,
            decode_utf8(encode_utf8(b@)) == b@,
            forall|k: int| 0 <= k < i ==> x@[k] == y@[k],
        decreases x@.len() - i,
    {
        if x[i] != y[i] {
            return false;
        }
        i = i + 1;
    }
    proof {
        assert(x@ =~= y@);
    }
    true
}

/// The encoding of two runs of characters is the encoding of the one
/// followed by that of the other.
pub proof fn lemma_encode_concat(a: Seq<char>, b: Seq<char>)
    ensures
        encode_utf8(a + b) == encode_utf8(a) + encode_utf8(b),
    decreases a.len(),
{
    if a.len() == 0 {
        assert(a + b =~= b);
        assert(encode_utf8(a) + encode_utf8(b) =~= encode_utf8(b));
    } else {
        lemma_encode_concat(a.drop_first(), b);
        assert((a + b).drop_first() =~= a.drop_first() + b);
        assert((a + b)[0] == a[0]);
        assert(encode_utf8(a + b) =~= encode_utf8(a) + encode_utf8(b));
    }
}

/// A text ends with another one when its bytes end with the bytes of the
/// other one.
proof fn lemma_suffix_by_bytes(suffix: Seq<char>, s: Seq<char>)
    ensures
        is_suffix(suffix, s) <==> {
            let x = encode_utf8(s);
            let p = encode_utf8(suffix);
            p.len() <= x.len() && x.subrange(x.len() - p.len(), x.len() as int) == p
        },
{
    broadcast use {
        vstd::utf8::encode_utf8_valid_utf8,
        vstd::utf8::encode_utf8_decode_utf8,
        vstd::utf8::is_char_boundary_start_end_of_seq,
    };

    let x = encode_utf8(s);
    let p = encode_utf8(suffix);
    if is_suffix(suffix, s) {
        let head = s.take(s.len() - suffix.len());
        assert(s =~= head + suffix);
        lemma_encode_concat(head, suffix);
        assert((encode_utf8(head) + p).subrange(x.len() - p.len(), x.len() as int) =~= p);
    }
    if p.len() <= x.len() && x.subrange(x.len() - p.len(), x.len() as int) == p {
        let at = x.len() - p.len();
        assert(decode_utf8(p) == suffix);
        assert(decode_utf8(x) == s);
        if p.len() == 0 {
            assert(suffix.len() == 0);
            assert(s.subrange(s.len() as int, s.len() as int) =~= suffix);
        } else {
            assert(x[at] == p[0]);
            vstd::utf8::is_char_boundary_iff_not_is_continuation_byte(p, 0);
            assert(vstd::utf8::is_char_boundary(p, 0));
            vstd::utf8::is_char_boundary_iff_not_is_continuation_byte(x, at);
            assert(vstd::utf8::is_char_boundary(x, at));
            vstd::utf8::decode_utf8_split(x, at);
            let head = decode_utf8(x.subrange(0, at));
            assert(s =~= head + suffix);
            assert(s.subrange(s.len() - suffix.len(), s.len() as int) =~= suffix);
        }
    }
}

/// Whether `suffix` stands at the end of `s`.
pub fn ends_with(s: &str, suffix: &str) -> (r: bool)
    ensures
        r == is_suffix(suffix@, s@),
{
    let x = s.as_bytes();
    let p = suffix.as_bytes();
    proof {
        lemma_suffix_by_bytes(suffix@, s@);
    }
    if p.len() > x.len() {
        return false;
    }
    let n = x.len();
    let start = n - p.len();
    let mut i: usize = 0;
    while i < p.len()
        invariant
            0 <= i <= p@.len(),
            n == x@.len(),
            start + p@.len() == n,
            is_suffix(suffix@, s@) <==> x@.subrange(start as int, n as int) == p@,
            forall|k: int| 0 <= k < i ==> x@[start + k] == p@[k],
        decreases p@.len() - i,
    {
        if x[start + i] != p[i] {
            proof {
                assert(x@.subrange(start as int, n as int)[i as int] == x@[start + i]);
            }
            return false;
        }
        i = i + 1;
    }
    proof {
        assert(x@.subrange(start as int, n as int) =~= p@);
    }
    true
}

/// `p` stands among the bytes `x` at the index `at`.
pub open spec fn bytes_at(p: Seq<u8>, x: Seq<u8>, at: int) -> bool {
    0 <= at && at + p.len() <= x.len() && x.subrange(at, at + p.len()) == p
}

/// Characters are encoded in at least one byte each.
proof fn lemma_encode_len(a: Seq<char>)
    ensures
        a.len() <= encode_utf8(a).len(),
    decreases a.len(),
{
    if a.len() > 0 {
        lemma_encode_len(a.drop_first());
    }
}

/// Where a text stands among characters, its bytes stand among the bytes,
/// after the bytes of what comes before it.
proof fn lemma_occurs_in_bytes(sep: Seq<char>, s: Seq<char>, at: int)
    requires
        occurs_at(sep, s, at),
    ensures
        bytes_at(encode_utf8(sep), encode_utf8(s), encode_utf8(s.take(at)).len() as int),
{
    let head = s.take(at);
    let tail = s.skip(at + sep.len());
    assert(s =~= head + sep + tail);
    lemma_encode_concat(head + sep, tail);
    lemma_encode_concat(head, sep);
    let x = encode_utf8(s);
    let h = encode_utf8(head);
    let p = encode_utf8(sep);
    assert(x =~= h + p + encode_utf8(tail));
    assert(x.subrange(h.len() as int, (h.len() + p.len()) as int) =~= p);
}

/// A longer prefix of a text has more bytes.
proof fn lemma_prefix_bytes_grow(s: Seq<char>, h: int, j: int)
    requires
        0 <= h < j <= s.len(),
    ensures
        encode_utf8(s.take(h)).len() < encode_utf8(s.take(j)).len(),
{
    let more = s.subrange(h, j);
    assert(s.take(j) =~= s.take(h) + more);
    lemma_encode_concat(s.take(h), more);
    lemma_encode_len(more);
}

/// Valid bytes that begin with other valid bytes have a character boundary
/// where those end.
proof fn lemma_prefix_boundary(b: Seq<u8>, p: Seq<u8>)
    requires
        vstd::utf8::valid_utf8(b),
        vstd::utf8::valid_utf8(p),
        p.len() <= b.len(),
        b.subrange(0, p.len() as int) == p,
    ensures
        vstd::utf8::is_char_boundary(b, p.len() as int),
    decreases p.len(),
{
    if p.len() > 0 {
        assert(b[0] == b.subrange(0, p.len() as int)[0]);
        let len = vstd::utf8::length_of_first_scalar(p);
        assert(len == vstd::utf8::length_of_first_scalar(b));
        assert(1 <= len <= p.len());
        let rest_b = vstd::utf8::pop_first_scalar(b);
        let rest_p = vstd::utf8::pop_first_scalar(p);
        assert(rest_b.subrange(0, rest_p.len() as int) =~= rest_p) by {
            assert forall|i: int| 0 <= i < rest_p.len() implies rest_b.subrange(
                0,
                rest_p.len() as int,
            )[i] == rest_p[i] by {
                assert(b.subrange(0, p.len() as int)[len + i] == p[len + i]);
            }
        }
        lemma_prefix_boundary(rest_b, rest_p);
    }
}

/// Tells whether `p` stands among the bytes `x` at the index `at`.
fn matches_at(x: &[u8], p: &[u8], at: usize) -> (r: bool)
    requires
        at + p@.len() <= x@.len(),
    ensures
        r == bytes_at(p@, x@, at as int),
{
    let n = x.len();
    let mut i: usize = 0;
    while i < p.len()
        invariant
            0 <= i <= p@.len(),
            n == x@.len(),
            at + p@.len() <= n,
            forall|k: int| 0 <= k < i ==> x@[at + k] == p@[k],
        decreases p@.len() - i,
    {
        if x[at + i] != p[i] {
            proof {
                assert(x@.subrange(at as int, at + p@.len())[i as int] == x@[at + i]);
            }
            return false;
        }
        i = i + 1;
    }
    proof {
        assert(x@.subrange(at as int, at + p@.len()) =~= p@);
    }
    true
}

/// Splits a text at the last place where the separator stands in it: the
/// parts before and after the separator, or `None` where the separator does
/// not occur. An empty separator stands last at the end of the text.
pub fn rsplit_once(s: &str, sep: &str) -> (r: Option<(String, String)>)
    ensures
        match r {
            Some((head, tail)) => s@ == head@ + sep@ + tail@ && last_occurrence(
                sep@,
                s@,
                head@.len() as int,
            ),
            None => forall|j: int| !occurs_at(sep@, s@, j),
        },
{
    broadcast use {
        vstd::utf8::encode_utf8_valid_utf8,
        vstd::utf8::encode_utf8_decode_utf8,
        vstd::utf8::is_char_boundary_start_end_of_seq,
    };

    let x = s.as_bytes();
    let p = sep.as_bytes();
    let n = x.len();
    let m = p.len();
    proof {
        lemma_encode_len(sep@);
    }
    if m == 0 {
        let tail = String::new();
        proof {
            assert(decode_utf8(encode_utf8(sep@)) == sep@);
            assert(sep@ =~= Seq::<char>::empty());
            assert(s@ =~= s@ + sep@ + tail@);
            assert(s@.subrange(s@.len() as int, (s@.len() + sep@.len()) as int) =~= sep@);
        }
        return Some((s.to_owned(), tail));
    }
    if m > n {
        proof {
            assert forall|j: int| !occurs_at(sep@, s@, j) by {
                if occurs_at(sep@, s@, j) {
                    lemma_occurs_in_bytes(sep@, s@, j);
                }
            }
        }
        return None;
    }
    let mut at: usize = n - m;
    let mut found = false;
    while !found
        invariant
            0 <= at <= n - m,
            n == x@.len(),
            m == p@.len(),
            m > 0,
            x@ == encode_utf8(s@),
            p@ == encode_utf8(sep@),
            forall|j: int| at < j ==> !bytes_at(p@, x@, j),
            found ==> bytes_at(p@, x@, at as int),
        decreases at + if found { 0int } else { 1int },
    {
        if matches_at(x, p, at) {
            found = true;
        } else {
            if at == 0 {
                proof {
                    assert forall|j: int| !occurs_at(sep@, s@, j) by {
                        if occurs_at(sep@, s@, j) {
                            lemma_occurs_in_bytes(sep@, s@, j);
                        }
                    }
                }
                return None;
            }
            at = at - 1;
        }
    }
    proof {
        assert(x@[at as int] == x@.subrange(at as int, at + m)[0]);
        vstd::utf8::is_char_boundary_iff_not_is_continuation_byte(p@, 0);
        assert(vstd::utf8::is_char_boundary(p@, 0));
        vstd::utf8::is_char_boundary_iff_not_is_continuation_byte(x@, at as int);
    }
    let (head, rest) = s.split_at(at);
    proof {
        assert(rest.spec_bytes().subrange(0, m as int) =~= p@);
        lemma_prefix_boundary(rest.spec_bytes(), p@);
    }
    let (middle, tail) = rest.split_at(m);
    proof {
        let hb = head.spec_bytes();
        let tb = tail.spec_bytes();
        assert(middle.spec_bytes() =~= p@);
        assert(x@ =~= hb + p@ + tb);
        lemma_encode_concat(head@ + sep@, tail@);
        lemma_encode_concat(head@, sep@);
        assert(encode_utf8(head@ + sep@ + tail@) == x@);
        assert(decode_utf8(encode_utf8(head@ + sep@ + tail@)) == head@ + sep@ + tail@);
        assert(decode_utf8(encode_utf8(s@)) == s@);
        assert(s@ == head@ + sep@ + tail@);
        let h = head@.len() as int;
        assert(s@.subrange(h, h + sep@.len()) =~= sep@);
        assert(s@.take(h) =~= head@);
        assert forall|j: int| h < j implies !occurs_at(sep@, s@, j) by {
            if occurs_at(sep@, s@, j) {
                lemma_occurs_in_bytes(sep@, s@, j);
                lemma_prefix_bytes_grow(s@, h, j);
            }
        }
    }
    Some((head.to_owned(), tail.to_owned()))
}

/// `str::split_whitespace`, each word copied out: the words of the text,
/// which white space, as Unicode defines it, keeps apart.
#[verifier::external_body]
pub(crate) fn split_whitespace(text: &str) -> (r: Vec<String>)
    ensures
        r@.len() == whitespace_tokens(text@).len(),
        forall|i: int| 0 <= i < r@.len() ==> (#[trigger] r@[i])@ == whitespace_tokens(text@)[i],
{
    text.split_whitespace().map(str::to_owned).collect()
}

/// Reads the 32-bit index that a token spells.
pub fn parse_u32(token: &str) -> (r: Option<u32>)
    ensures
        r == parsed_u32(token@),
{
    match parse_number(token.as_bytes(), u32::MAX as u64) {
        Some(value) => Some(value as u32),
        None => None,
    }
}

/// Reads the count that a token spells.
pub fn parse_usize(token: &str) -> (r: Option<usize>)
    ensures
        r == parsed_usize(token@),
{
    match parse_number(token.as_bytes(), usize::MAX as u64) {
        Some(value) => Some(value as usize),
        None => None,
    }
}

} // verus!
