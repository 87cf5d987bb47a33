//! Text helpers: strings as sequences of characters, text in bytes, and decimal
//! numbers.

use vstd::prelude::*;
use vstd::slice::slice_subrange;

verus! {

/// `String::push` appends one character.
pub assume_specification[ String::push ](s: &mut String, c: char)
    ensures
        final(s)@ == old(s)@.push(c),
;

/// The start of a character: bytes that are part of the UTF-8 encoding of some
/// character, its first ones, but not the whole of it.
#[verifier::opaque]
pub open spec fn is_char_start(bytes: Seq<u8>) -> bool {
    bytes.len() > 0 && exists|rest: Seq<u8>| #[trigger] completes(bytes, rest)
}

/// `rest` makes the start of a character a whole one.
pub open spec fn completes(bytes: Seq<u8>, rest: Seq<u8>) -> bool {
    &&& rest.len() > 0
    &&& vstd::utf8::valid_first_scalar(bytes + rest)
    &&& vstd::utf8::length_of_first_scalar(bytes + rest) == bytes.len() + rest.len()
}

/// How many bytes at the end are the start of a character that is cut off
/// there, three at most.
pub open spec fn cut_len(bytes: Seq<u8>) -> int {
    let n = bytes.len() as int;
    if n >= 3 && is_char_start(bytes.skip(n - 3)) {
        3
    } else if n >= 2 && is_char_start(bytes.skip(n - 2)) {
        2
    } else if n >= 1 && is_char_start(bytes.skip(n - 1)) {
        1
    } else {
        0
    }
}

/// The start of a character that `bytes` ends in, if it ends in one.
pub open spec fn cut_char(bytes: Seq<u8>) -> Seq<u8> {
    bytes.skip(bytes.len() - cut_len(bytes))
}

/// `bytes` without the start of a character it ends in.
pub open spec fn uncut(bytes: Seq<u8>) -> Seq<u8> {
    bytes.take(bytes.len() - cut_len(bytes))
}

/// A place that no character stands on both sides of: the bytes in front of it
/// do not end in the start of a character, or what comes next does not go on
/// with it.
pub open spec fn is_between_chars(bytes: Seq<u8>, n: int) -> bool {
    &&& 0 <= n <= bytes.len()
    &&& cut_len(bytes.take(n)) == 0 || n == bytes.len() || !vstd::utf8::is_continuation_byte(
        bytes[n],
    )
}

/// The text `String::from_utf8_lossy` reads out of bytes.
pub uninterp spec fn utf8_lossy(bytes: Seq<u8>) -> Seq<char>;

/// `String::from_utf8_lossy`: a function of the bytes alone. Valid UTF-8 is
/// read as the characters it encodes. An invalid sequence is the start of a
/// character that does not go on, or a single byte, and reading resumes behind
/// it, as the documentation of `Utf8Error::error_len` has it for lossy
/// decoding: so at a place between characters, what stands in front of it and what
/// stands behind it are read as if each stood alone. What stands for an
/// invalid sequence is not stated here.
#[verifier::external_body]
pub(crate) fn decode_lossy(bytes: &[u8]) -> (r: String)
    ensures
        r@ == utf8_lossy(bytes@),
        vstd::utf8::valid_utf8(bytes@) ==> r@ == vstd::utf8::decode_utf8(bytes@),
        forall|n: int| #[trigger]
            is_between_chars(bytes@, n) ==> r@ == utf8_lossy(bytes@.take(n)) + utf8_lossy(
                bytes@.skip(n),
            ),
{
    String::from_utf8_lossy(bytes).into_owned()
}

proof fn lemma_codepoints(a: u8, b: u8, c: u8, d: u8)
    requires
        vstd::utf8::is_continuation_byte(b),
        vstd::utf8::is_continuation_byte(c),
        vstd::utf8::is_continuation_byte(d),
    ensures
        0xc0 <= a <= 0xdf ==> vstd::utf8::codepoint_width_2(a, b) == (a - 0xc0) * 64 + (b - 0x80),
        0xe0 <= a <= 0xef ==> vstd::utf8::codepoint_width_3(a, b, c) == (a - 0xe0) * 4096 + (b
            - 0x80) * 64 + (c - 0x80),
        0xf0 <= a <= 0xf7 ==> vstd::utf8::codepoint_width_4(a, b, c, d) == (a - 0xf0) * 262144 + (b
            - 0x80) * 4096 + (c - 0x80) * 64 + (d - 0x80),
{
    assert(0xc0 <= a <= 0xdf ==> ((((a & 0x1f) as u32) << 6) | ((b & 0x3f) as u32)) == (a - 0xc0)
        * 64 + (b - 0x80)) by (bit_vector)
        requires
            0x80 <= b <= 0xbf,
    ;
    assert(0xe0 <= a <= 0xef ==> ((((a & 0x0f) as u32) << 12) | (((b & 0x3f) as u32) << 6) | ((c
        & 0x3f) as u32)) == (a - 0xe0) * 4096 + (b - 0x80) * 64 + (c - 0x80)) by (bit_vector)
        requires
            0x80 <= b <= 0xbf,
            0x80 <= c <= 0xbf,
    ;
    assert(0xf0 <= a <= 0xf7 ==> ((((a & 0x07) as u32) << 18) | (((b & 0x3f) as u32) << 12) | (((c
        & 0x3f) as u32) << 6) | ((d & 0x3f) as u32)) == (a - 0xf0) * 262144 + (b - 0x80) * 4096 + (c
        - 0x80) * 64 + (d - 0x80)) by (bit_vector)
        requires
            0x80 <= b <= 0xbf,
            0x80 <= c <= 0xbf,
            0x80 <= d <= 0xbf,
    ;
}

/// A byte that can follow `lead` in the encoding of a character.
pub open spec fn is_second_byte(lead: u8, b: u8) -> bool {
    &&& vstd::utf8::is_continuation_byte(b)
    &&& lead == 0xe0 ==> 0xa0 <= b
    &&& lead == 0xed ==> b <= 0x9f
    &&& lead == 0xf0 ==> 0x90 <= b
    &&& lead == 0xf4 ==> b <= 0x8f
}

/// The starts of characters, byte by byte.
pub open spec fn looks_like_char_start(bytes: Seq<u8>) -> bool {
    &&& 1 <= bytes.len() <= 3
    &&& 0xc2 <= bytes[0] <= 0xf4
    &&& bytes.len() >= 2 ==> 0xe0 <= bytes[0] && is_second_byte(bytes[0], bytes[1])
    &&& bytes.len() >= 3 ==> 0xf0 <= bytes[0] && vstd::utf8::is_continuation_byte(bytes[2])
}

/// The bytes that are the start of a character are known one by one.
pub proof fn lemma_char_start(bytes: Seq<u8>)
    ensures
        is_char_start(bytes) <==> looks_like_char_start(bytes),
{
    reveal(is_char_start);
    if is_char_start(bytes) {
        let rest = choose|rest: Seq<u8>| #[trigger] completes(bytes, rest);
        let whole = bytes + rest;
        let n = whole.len();
        assert(forall|i: int| 0 <= i < bytes.len() ==> whole[i] == bytes[i]);
        let b = if n >= 2 {
            whole[1]
        } else {
            0x80
        };
        let c = if n >= 3 {
            whole[2]
        } else {
            0x80
        };
        let d = if n >= 4 {
            whole[3]
        } else {
            0x80
        };
        lemma_codepoints(whole[0], b, c, d);
    }
    if looks_like_char_start(bytes) {
        let lead = bytes[0];
        let second: u8 = if bytes.len() >= 2 {
            bytes[1]
        } else if lead == 0xe0 {
            0xa0
        } else if lead == 0xf0 {
            0x90
        } else {
            0x80
        };
        let third: u8 = if bytes.len() >= 3 {
            bytes[2]
        } else {
            0x80
        };
        let whole = if lead < 0xe0 {
            seq![lead, second]
        } else if lead < 0xf0 {
            seq![lead, second, third]
        } else {
            seq![lead, second, third, 0x80u8]
        };
        lemma_codepoints(lead, second, third, 0x80);
        let rest = whole.skip(bytes.len() as int);
        assert(bytes + rest =~= whole);
        assert(completes(bytes, rest));
    }
}

/// Whether bytes are the start of a character.
fn starts_char(bytes: &[u8]) -> (r: bool)
    ensures
        r == is_char_start(bytes@),
{
    proof {
        lemma_char_start(bytes@);
    }
    let n: usize = bytes.len();
    if n == 0 || n > 3 {
        return false;
    }
    let lead: u8 = bytes[0];
    if lead < 0xc2 || lead > 0xf4 {
        return false;
    }
    if n >= 2 {
        let b: u8 = bytes[1];
        let low: u8 = if lead == 0xe0 {
            0xa0
        } else if lead == 0xf0 {
            0x90
        } else {
            0x80
        };
        let high: u8 = if lead == 0xed {
            0x9f
        } else if lead == 0xf4 {
            0x8f
        } else {
            0xbf
        };
        if lead < 0xe0 || b < low || b > high {
            return false;
        }
    }
    n < 3 || (lead >= 0xf0 && 0x80 <= bytes[2] && bytes[2] <= 0xbf)
}

/// How many bytes at the end are the start of a character that is cut off
/// there.
pub fn cut_at_end(bytes: &[u8]) -> (r: usize)
    ensures
        r == cut_len(bytes@),
        r <= bytes@.len(),
{
    let n: usize = bytes.len();
    let mut k: usize = if n < 3 {
        n
    } else {
        3
    };
    while k > 0
        invariant
            k <= n == bytes@.len(),
            k <= 3,
            k < 3 && n >= 3 ==> !is_char_start(bytes@.skip(n - 3)),
            k < 2 && n >= 2 ==> !is_char_start(bytes@.skip(n - 2)),
            k < 1 && n >= 1 ==> !is_char_start(bytes@.skip(n - 1)),
        decreases k,
    {
        let tail = slice_subrange(bytes, n - k, n);
        assert(tail@ =~= bytes@.skip(n - k));
        if starts_char(tail) {
            return k;
        }
        k -= 1;
    }
    0
}

/// There is one place at most where a character at the end of `bytes` can
/// start that is cut off there.
proof fn lemma_cut_is_unique(bytes: Seq<u8>, n: int)
    requires
        0 <= n < bytes.len(),
        is_char_start(bytes.skip(n)),
    ensures
        cut_len(bytes) == bytes.len() - n,
{
    let tail = bytes.skip(n);
    lemma_char_start(tail);
    assert forall|m: int| 0 <= m < bytes.len() && m != n implies !is_char_start(
        #[trigger] bytes.skip(m),
    ) by {
        lemma_char_start(bytes.skip(m));
        if m > n {
            assert(bytes.skip(m)[0] == tail[m - n]);
        } else {
            assert(bytes.skip(m)[n - m] == tail[0]);
        }
    }
    assert(is_char_start(bytes.skip(n)));
}

/// How bytes are cut in two does not matter to what they end in: the start of
/// a character that the first part ends in, put in front of the second part,
/// makes up for it.
pub proof fn lemma_cut_carries_over(a: Seq<u8>, b: Seq<u8>)
    ensures
        0 <= cut_len(a) <= a.len(),
        uncut(a) + cut_char(a) == a,
        is_between_chars(uncut(a + b), uncut(a).len() as int),
        uncut(a + b) == uncut(a) + uncut(cut_char(a) + b),
        cut_char(a + b) == cut_char(cut_char(a) + b),
{
    let whole = a + b;
    let later = cut_char(a) + b;
    let m = uncut(a).len() as int;
    lemma_same_cut(a, b);
    assert(uncut(a) + cut_char(a) =~= a);
    assert(whole =~= uncut(a) + later);
    assert(uncut(whole) =~= uncut(a) + uncut(later));
    assert(cut_char(whole) =~= cut_char(later));
    if cut_len(a) == 0 {
        assert(uncut(whole).take(m) =~= a);
    } else {
        lemma_char_start(cut_char(a));
        assert(uncut(whole).len() > m ==> uncut(whole)[m] == cut_char(a)[0]);
    }
}

proof fn lemma_same_cut(a: Seq<u8>, b: Seq<u8>)
    ensures
        cut_len(a + b) == cut_len(cut_char(a) + b),
{
    let whole = a + b;
    let later = cut_char(a) + b;
    let k = cut_len(whole);
    let m = uncut(a).len() as int;
    assert(whole =~= uncut(a) + later);
    if k > 0 {
        let n = whole.len() - k;
        let tail = whole.skip(n);
        if n < m {
            lemma_char_start(tail);
            let part = a.skip(n);
            assert(part =~= tail.take(a.len() - n));
            lemma_char_start(part);
            lemma_cut_is_unique(a, n);
        } else {
            assert(later.skip(n - m) =~= tail);
            lemma_cut_is_unique(later, n - m);
        }
    } else if cut_len(later) > 0 {
        let n = later.len() - cut_len(later);
        assert(whole.skip(m + n) =~= later.skip(n));
        lemma_cut_is_unique(whole, m + n);
    }
}

/// Valid UTF-8 does not end in the start of a character.
pub proof fn lemma_valid_is_uncut(bytes: Seq<u8>)
    requires
        vstd::utf8::valid_utf8(bytes),
    ensures
        cut_len(bytes) == 0,
        cut_char(bytes) == Seq::<u8>::empty(),
        uncut(bytes) == bytes,
    decreases bytes.len(),
{
    if bytes.len() > 0 {
        let k = vstd::utf8::length_of_first_scalar(bytes);
        let rest = vstd::utf8::pop_first_scalar(bytes);
        lemma_valid_is_uncut(rest);
        if cut_len(bytes) > 0 {
            let n = bytes.len() - cut_len(bytes);
            let tail = bytes.skip(n);
            lemma_char_start(tail);
            if n >= k {
                assert(rest.skip(n - k) =~= tail);
                lemma_cut_is_unique(rest, n - k);
            } else if n > 0 {
                assert(tail[0] == bytes[n]);
            } else {
                assert(tail =~= bytes);
            }
        }
    }
    assert(cut_char(bytes) =~= Seq::<u8>::empty());
    assert(uncut(bytes) =~= bytes);
}

proof fn lemma_ascii_encoded(chars: Seq<char>, b: u8)
    requires
        b < 0x80,
        chars.contains(b as char),
    ensures
        vstd::utf8::encode_utf8(chars).contains(b),
    decreases chars.len(),
{
    let first = vstd::utf8::encode_scalar(chars[0] as u32);
    let rest = vstd::utf8::encode_utf8(chars.drop_first());
    if chars[0] == b as char {
        assert(((b as u32) & 0x7f) as u8 == b) by (bit_vector)
            requires
                b < 0x80,
        ;
        assert(first[0] == b);
        assert((first + rest)[0] == b);
    } else {
        let i = choose|i: int| 0 <= i < chars.len() && chars[i] == b as char;
        assert(chars.drop_first()[i - 1] == b as char);
        lemma_ascii_encoded(chars.drop_first(), b);
        let j = choose|j: int| 0 <= j < rest.len() && rest[j] == b;
        assert((first + rest)[first.len() + j] == b);
    }
}

/// Valid UTF-8 without a given ASCII byte encodes text without that
/// character.
pub proof fn lemma_ascii_absent(bytes: Seq<u8>, b: u8)
    requires
        vstd::utf8::valid_utf8(bytes),
        b < 0x80,
        !bytes.contains(b),
    ensures
        !vstd::utf8::decode_utf8(bytes).contains(b as char),
{
    vstd::utf8::decode_utf8_encode_utf8(bytes);
    if vstd::utf8::decode_utf8(bytes).contains(b as char) {
        lemma_ascii_encoded(vstd::utf8::decode_utf8(bytes), b);
    }
}

/// Text without a given ASCII character is encoded without that byte.
pub proof fn lemma_ascii_not_encoded(chars: Seq<char>, b: u8)
    requires
        b < 0x80,
        !chars.contains(b as char),
    ensures
        !vstd::utf8::encode_utf8(chars).contains(b),
    decreases chars.len(),
{
    let whole = vstd::utf8::encode_utf8(chars);
    if whole.contains(b) {
        let i = choose|i: int| 0 <= i < whole.len() && whole[i] == b;
        vstd::utf8::encode_utf8_valid_utf8(chars);
        vstd::utf8::encode_utf8_decode_utf8(chars);
        vstd::utf8::is_char_boundary_iff_not_is_continuation_byte(whole, i);
        vstd::utf8::decode_utf8_split(whole, i);
        vstd::utf8::valid_utf8_split(whole, i);
        let head = whole.subrange(0, i);
        let tail = whole.subrange(i, whole.len() as int);
        assert(tail[0] == b);
        assert(((b & 0x7f) as u32) == b as u32) by (bit_vector)
            requires
                b < 0x80,
        ;
        assert(vstd::utf8::decode_utf8(tail)[0] == b as char);
        assert(chars[vstd::utf8::decode_utf8(head).len() as int] == b as char);
    }
}

/// Two texts are encoded one after the other.
pub proof fn lemma_encoded_apart(a: Seq<char>, b: Seq<char>)
    ensures
        vstd::utf8::encode_utf8(a + b) == vstd::utf8::encode_utf8(a) + vstd::utf8::encode_utf8(b),
    decreases a.len(),
{
    if a.len() == 0 {
        assert(a + b =~= b);
        assert(vstd::utf8::encode_utf8(a) + vstd::utf8::encode_utf8(b)
            =~= vstd::utf8::encode_utf8(b));
    } else {
        lemma_encoded_apart(a.drop_first(), b);
        assert((a + b).drop_first() =~= a.drop_first() + b);
        assert(vstd::utf8::encode_utf8(a + b) =~= vstd::utf8::encode_utf8(a)
            + vstd::utf8::encode_utf8(b));
    }
}

/// An ASCII character at the end of a text is encoded as one byte at the end.
pub proof fn lemma_ascii_appended(chars: Seq<char>, b: u8)
    requires
        b < 0x80,
    ensures
        vstd::utf8::encode_utf8(chars.push(b as char)) == vstd::utf8::encode_utf8(chars).push(b),
{
    let last = seq![b as char];
    assert(((b as u32) & 0x7f) as u8 == b) by (bit_vector)
        requires
            b < 0x80,
    ;
    lemma_encoded_apart(chars, last);
    assert(last.drop_first() =~= Seq::<char>::empty());
    assert(vstd::utf8::encode_utf8(last.drop_first()) =~= Seq::<u8>::empty());
    assert(vstd::utf8::encode_scalar(b as u32) =~= seq![b]);
    assert(vstd::utf8::encode_utf8(last) =~= seq![b]);
    assert(chars.push(b as char) =~= chars + last);
    assert(vstd::utf8::encode_utf8(chars) + seq![b] =~= vstd::utf8::encode_utf8(chars).push(b));
}

/// ASCII bytes as characters.
pub open spec fn ascii_chars(bytes: Seq<u8>) -> Seq<char> {
    bytes.map_values(|b: u8| b as char)
}

/// A text starts with ASCII characters if and only if its encoding starts with
/// their bytes, and behind these stands the encoding of the rest.
pub proof fn lemma_ascii_prefix(chars: Seq<char>, prefix: Seq<u8>)
    requires
        forall|i: int| 0 <= i < prefix.len() ==> #[trigger] prefix[i] < 0x80,
    ensures
        prefix.is_prefix_of(vstd::utf8::encode_utf8(chars)) <==> ascii_chars(prefix).is_prefix_of(
            chars,
        ),
        prefix.is_prefix_of(vstd::utf8::encode_utf8(chars)) ==> vstd::utf8::encode_utf8(chars).skip(
            prefix.len() as int,
        ) == vstd::utf8::encode_utf8(chars.skip(prefix.len() as int)),
    decreases prefix.len(),
{
    let bytes = vstd::utf8::encode_utf8(chars);
    let start = ascii_chars(prefix);
    if prefix.len() == 0 {
        assert(start =~= Seq::<char>::empty());
        assert(bytes.subrange(0, 0) =~= prefix);
        assert(chars.subrange(0, 0) =~= start);
        assert(bytes.skip(0) =~= bytes);
        assert(chars.skip(0) =~= chars);
    } else if chars.len() > 0 {
        let b = prefix[0];
        let rest = chars.drop_first();
        let later = prefix.drop_first();
        let rest_bytes = vstd::utf8::encode_utf8(rest);
        vstd::utf8::encode_utf8_first_scalar(chars);
        assert(((b as u32) & 0x7f) as u8 == b && ((b & 0x7f) as u32) == b as u32) by (bit_vector)
            requires
                b < 0x80,
        ;
        assert forall|i: int| 0 <= i < later.len() implies #[trigger] later[i] < 0x80 by {
            assert(later[i] == prefix[i + 1]);
        }
        lemma_ascii_prefix(rest, later);
        assert(start[0] == b as char);
        assert(start.drop_first() =~= ascii_chars(later));
        if chars[0] == b as char {
            assert(vstd::utf8::encode_scalar(chars[0] as u32) =~= seq![b]);
            assert(bytes[0] == b);
        }
        if bytes.len() > 0 && bytes[0] == b {
            vstd::utf8::char_u32_cast(chars[0], b as u32);
            assert(chars[0] == b as char);
        }
        if chars[0] == b as char {
            assert(vstd::utf8::encode_scalar(chars[0] as u32) =~= seq![b]);
            assert(bytes =~= seq![b] + rest_bytes);
            let n = prefix.len() as int;
            if prefix.is_prefix_of(bytes) {
                assert(later =~= rest_bytes.subrange(0, n - 1)) by {
                    assert forall|i: int| 0 <= i < n - 1 implies later[i] == rest_bytes[i] by {
                        assert(prefix[i + 1] == bytes.subrange(0, n)[i + 1]);
                    }
                }
                assert(start =~= chars.subrange(0, n)) by {
                    assert forall|i: int| 0 <= i < n implies start[i] == chars[i] by {
                        if i > 0 {
                            assert(start.drop_first()[i - 1] == rest.subrange(0, n - 1)[i - 1]);
                        }
                    }
                }
                assert(bytes.skip(n) =~= rest_bytes.skip(n - 1));
                assert(chars.skip(n) =~= rest.skip(n - 1));
            }
            if start.is_prefix_of(chars) {
                assert(ascii_chars(later) =~= rest.subrange(0, n - 1)) by {
                    assert forall|i: int| 0 <= i < n - 1 implies ascii_chars(later)[i]
                        == rest[i] by {
                        assert(start[i + 1] == chars.subrange(0, n)[i + 1]);
                    }
                }
                assert(prefix =~= bytes.subrange(0, n)) by {
                    assert forall|i: int| 0 <= i < n implies prefix[i] == bytes[i] by {
                        if i > 0 {
                            assert(later[i - 1] == rest_bytes.subrange(0, n - 1)[i - 1]);
                        }
                    }
                }
            }
        } else {
            assert(prefix.is_prefix_of(bytes) ==> bytes.subrange(0, prefix.len() as int)[0] == b);
            assert(start.is_prefix_of(chars) ==> chars.subrange(0, start.len() as int)[0]
                == b as char);
        }
    }
}

/// The characters of a string, one by one.
pub fn chars_of(s: &str) -> (r: Vec<char>)
    ensures
        r@ == s@,
{
    let mut out: Vec<char> = Vec::new();
    for c in it: s.chars()
        invariant
            out@ == s@.take(it.index() as int),
            it.seq() == s@,
    {
        proof {
            assert(s@.take(it.index() as int + 1) =~= s@.take(it.index() as int).push(c));
        }
        out.push(c);
    }
    assert(s@.take(s@.len() as int) =~= s@);
    out
}

/// A string holding the given characters.
pub fn string_of(chars: &[char]) -> (r: String)
    ensures
        r@ == chars@,
{
    let mut out: String = String::new();
    let mut i: usize = 0;
    while i < chars.len()
        invariant
            i <= chars@.len(),
            out@ == chars@.take(i as int),
        decreases chars@.len() - i,
    {
        assert(chars@.take(i as int + 1) =~= chars@.take(i as int).push(chars@[i as int]));
        out.push(chars[i]);
        i += 1;
    }
    assert(chars@.take(chars@.len() as int) =~= chars@);
    out
}

/// The text before the first `sep` and the text after it, if there is one.
pub open spec fn split_once(s: Seq<char>, sep: char) -> Option<(Seq<char>, Seq<char>)> {
    match s.index_of_first(sep) {
        Some(i) => Some((s.take(i), s.skip(i + 1))),
        None => None,
    }
}

/// Where the first `sep` stands, if there is one.
pub fn first_index_of(s: &[char], sep: char) -> (r: Option<usize>)
    ensures
        match r {
            Some(i) => s@.index_of_first(sep) == Some(i as int) && i < s@.len(),
            None => s@.index_of_first(sep) is None,
        },
{
    proof {
        s@.index_of_first_ensures(sep);
    }
    let mut i: usize = 0;
    while i < s.len()
        invariant
            i <= s@.len(),
            forall|j: int| 0 <= j < i ==> s@[j] != sep,
            match s@.index_of_first(sep) {
                Some(index) => {
                    &&& s@.contains(sep)
                    &&& 0 <= index < s@.len()
                    &&& s@[index] == sep
                    &&& forall|j: int| 0 <= j < index < s@.len() ==> s@[j] != sep
                },
                None => { !s@.contains(sep) },
            },
        decreases s@.len() - i,
    {
        if s[i] == sep {
            return Some(i);
        }
        i += 1;
    }
    None
}

/// The first `sep` in `head + [sep] + tail` is the one after `head`, when
/// `head` holds none.
pub proof fn lemma_split_once(head: Seq<char>, sep: char, tail: Seq<char>)
    requires
        !head.contains(sep),
    ensures
        split_once(head.push(sep) + tail, sep) == Some((head, tail)),
{
    let s = head.push(sep) + tail;
    s.index_of_first_ensures(sep);
    assert(s[head.len() as int] == sep);
    let i = s.index_of_first(sep).unwrap();
    if i < head.len() {
        assert(head[i] == sep);
    }
    assert(i == head.len());
    assert(s.take(i) =~= head);
    assert(s.skip(i + 1) =~= tail);
}

/// Whether two strings hold the same characters.
pub fn same_text(a: &str, b: &str) -> (r: bool)
    ensures
        r == (a@ == b@),
{
    let x = chars_of(a);
    let y = chars_of(b);
    same_chars(x.as_slice(), y.as_slice())
}

/// Whether two character slices are equal.
pub fn same_chars(x: &[char], y: &[char]) -> (r: bool)
    ensures
        r == (x@ == y@),
{
    if x.len() != y.len() {
        return false;
    }
    let mut i: usize = 0;
    while i < x.len()
        invariant
            i <= x@.len(),
            x@.len() == y@.len(),
            x@.take(i as int) == y@.take(i as int),
        decreases x@.len() - i,
    {
        if x[i] != y[i] {
            return false;
        }
        assert(x@.take(i as int + 1) =~= x@.take(i as int).push(x@[i as int]));
        assert(y@.take(i as int + 1) =~= y@.take(i as int).push(y@[i as int]));
        i += 1;
    }
    assert(x@.take(x@.len() as int) =~= x@);
    assert(y@.take(y@.len() as int) =~= y@);
    true
}

/// The decimal digit `0` to `9` as a character.
pub open spec fn digit_char(d: int) -> char {
    ('0' as int + d) as char
}

/// The decimal digits of a number, most significant first, with no sign and
/// no leading zero.
pub open spec fn decimal(n: nat) -> Seq<char>
    decreases n,
{
    if n < 10 {
        seq![digit_char(n as int)]
    } else {
        decimal(n / 10).push(digit_char((n % 10) as int))
    }
}

pub open spec fn is_digit(c: char) -> bool {
    '0' <= c <= '9'
}

/// The number a run of decimal digits stands for.
pub open spec fn digits_value(s: Seq<char>) -> nat
    decreases s.len(),
{
    if s.len() == 0 {
        0
    } else {
        digits_value(s.drop_last()) * 10 + (s.last() as int - '0' as int) as nat
    }
}

pub open spec fn all_digits(s: Seq<char>) -> bool {
    forall|i: int| 0 <= i < s.len() ==> is_digit(#[trigger] s[i])
}

/// Writing a number out in decimal and reading it back gives the number.
pub proof fn lemma_decimal_round_trip(n: nat)
    ensures
        decimal(n).len() > 0,
        all_digits(decimal(n)),
        digits_value(decimal(n)) == n,
    decreases n,
{
    if n < 10 {
        let s = decimal(n);
        assert(s.drop_last() =~= Seq::<char>::empty());
        assert(digits_value(s.drop_last()) == 0);
    } else {
        lemma_decimal_round_trip(n / 10);
        let s = decimal(n);
        assert(s.drop_last() =~= decimal(n / 10));
    }
}

/// A number written out in decimal.
pub fn decimal_text(n: u64) -> (r: String)
    ensures
        r@ == decimal(n as nat),
    decreases n,
{
    if n < 10 {
        let mut s: String = String::new();
        let d: u8 = (n as u8) + 48;
        s.push(d as char);
        assert(s@ =~= decimal(n as nat));
        s
    } else {
        let mut s: String = decimal_text(n / 10);
        let d: u8 = ((n % 10) as u8) + 48;
        s.push(d as char);
        s
    }
}

/// A number is written digit by digit: the last digit is the remainder by ten,
/// what stands in front of it is the number without it, and there is no zero
/// in front.
pub proof fn lemma_decimal_digits(n: nat)
    ensures
        decimal(n).last() as int == 48 + n % 10,
        n < 10 ==> decimal(n).len() == 1,
        n >= 10 ==> decimal(n).drop_last() == decimal(n / 10),
        n > 0 ==> decimal(n)[0] as int != 48,
        forall|i: int| 0 <= i < decimal(n).len() ==> 48 <= (#[trigger] decimal(n)[i]) as int <= 57,
    decreases n,
{
    lemma_decimal_round_trip(n);
    let s = decimal(n);
    assert forall|i: int| 0 <= i < s.len() implies 48 <= (#[trigger] s[i]) as int <= 57 by {
        assert(is_digit(s[i]));
    }
    if n >= 10 {
        lemma_decimal_digits(n / 10);
        lemma_decimal_round_trip(n / 10);
        assert(s.drop_last() =~= decimal(n / 10));
        assert(s[0] == decimal(n / 10)[0]);
    }
}

/// Different numbers are written differently.
pub proof fn lemma_decimal_is_unambiguous(a: nat, b: nat)
    requires
        decimal(a) == decimal(b),
    ensures
        a == b,
{
    lemma_decimal_round_trip(a);
    lemma_decimal_round_trip(b);
}

/// Text is split at its first separator: what stands before it holds none, and
/// both parts with the separator between them are the text.
pub proof fn lemma_split_at_the_first(s: Seq<char>, sep: char)
    ensures
        split_once(s, sep) is None <==> !s.contains(sep),
        split_once(s, sep) matches Some((head, tail)) ==> !head.contains(sep) && s == head.push(sep)
            + tail,
{
    s.index_of_first_ensures(sep);
    match s.index_of_first(sep) {
        Some(i) => {
            assert(s =~= s.take(i).push(sep) + s.skip(i + 1));
            if s.take(i).contains(sep) {
                let j = choose|j: int| 0 <= j < i && s.take(i)[j] == sep;
                assert(s[j] == sep);
            }
        },
        None => {},
    }
}

/// A character cut anywhere inside is held back whole: of text followed by
/// the first bytes of one more character, the text is left and these bytes are
/// kept.
pub proof fn lemma_cut_character_is_held_back(text: Seq<char>, c: char, k: int)
    requires
        0 < k < vstd::utf8::encode_utf8(seq![c]).len(),
    ensures
        ({
            let start = vstd::utf8::encode_utf8(seq![c]).take(k);
            let bytes = vstd::utf8::encode_utf8(text) + start;
            &&& cut_char(bytes) == start
            &&& uncut(bytes) == vstd::utf8::encode_utf8(text)
        }),
{
    let whole = vstd::utf8::encode_utf8(seq![c]);
    let start = whole.take(k);
    let before = vstd::utf8::encode_utf8(text);
    let bytes = before + start;
    let n = before.len() as int;
    vstd::utf8::encode_utf8_first_scalar(seq![c]);
    vstd::utf8::encode_utf8_valid_utf8(seq![c]);
    assert(seq![c].drop_first() =~= Seq::<char>::empty());
    assert(vstd::utf8::encode_utf8(seq![c].drop_first()) =~= Seq::<u8>::empty());
    assert(start + whole.skip(k) =~= whole);
    assert(completes(start, whole.skip(k)));
    reveal(is_char_start);
    assert(is_char_start(start));
    assert(bytes.skip(n) =~= start);
    lemma_cut_is_unique(bytes, n);
    assert(cut_char(bytes) =~= start);
    assert(uncut(bytes) =~= before);
}

} // verus!
