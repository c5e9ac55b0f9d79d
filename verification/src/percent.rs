//! Percent-encoding of path segments and decoding of percent-encoded text.
use percent_encoding::percent_decode_str;
use percent_encoding::utf8_percent_encode;
use percent_encoding::NON_ALPHANUMERIC;
use vstd::prelude::*;
use vstd::string::*;
use vstd::utf8::*;

verus! {

/// The bytes that RFC 3986 calls unreserved: letters, digits and `-._~`.
pub open spec fn unreserved(b: u8) -> bool {
    ||| 0x30 <= b <= 0x39
    ||| 0x41 <= b <= 0x5a
    ||| 0x61 <= b <= 0x7a
    ||| b == 0x2d
    ||| b == 0x2e
    ||| b == 0x5f
    ||| b == 0x7e
}

/// The upper-case hexadecimal digit of `n`, as a byte.
pub open spec fn hex_digit(n: int) -> u8 {
    if n < 10 {
        (0x30 + n) as u8
    } else {
        (0x41 + n - 10) as u8
    }
}

/// The value of a hexadecimal digit of either case.
pub open spec fn hex_value(b: u8) -> Option<int> {
    if 0x30 <= b <= 0x39 {
        Some(b - 0x30)
    } else if 0x41 <= b <= 0x46 {
        Some(b - 0x41 + 10)
    } else if 0x61 <= b <= 0x66 {
        Some(b - 0x61 + 10)
    } else {
        None
    }
}

/// One byte as an escape.
pub open spec fn escape(b: u8) -> Seq<char> {
    seq!['%', hex_digit(b as int / 16) as char, hex_digit(b as int % 16) as char]
}

/// One byte, escaped unless it is unreserved.
pub open spec fn encoded_byte(b: u8) -> Seq<char> {
    if unreserved(b) {
        seq![b as char]
    } else {
        escape(b)
    }
}

/// Bytes, each escaped unless it is unreserved.
pub open spec fn encoded_bytes(bytes: Seq<u8>) -> Seq<char>
    decreases bytes.len(),
{
    if bytes.len() == 0 {
        Seq::empty()
    } else {
        encoded_byte(bytes[0]) + encoded_bytes(bytes.skip(1))
    }
}

/// A path segment, with everything outside the unreserved set escaped.
pub open spec fn encoded(s: Seq<char>) -> Seq<char> {
    encoded_bytes(encode_utf8(s))
}

/// Bytes, with every `%` that two hexadecimal digits follow replaced by the byte
/// they stand for.
pub open spec fn decoded_bytes(bytes: Seq<u8>) -> Seq<u8>
    decreases bytes.len(),
{
    if bytes.len() == 0 {
        Seq::empty()
    } else if bytes[0] == 0x25 && bytes.len() >= 3 && hex_value(bytes[1]) is Some && hex_value(
        bytes[2],
    ) is Some {
        seq![(hex_value(bytes[1])->0 * 16 + hex_value(bytes[2])->0) as u8] + decoded_bytes(
            bytes.skip(3),
        )
    } else {
        seq![bytes[0]] + decoded_bytes(bytes.skip(1))
    }
}

/// Percent-encoded text, decoded, if that is well-formed UTF-8.
pub open spec fn decoded(s: Seq<char>) -> Option<Seq<char>> {
    let bytes = decoded_bytes(encode_utf8(s));
    if valid_utf8(bytes) {
        Some(decode_utf8(bytes))
    } else {
        None
    }
}

/// The ASCII letters and digits.
pub open spec fn alphanumeric(b: u8) -> bool {
    ||| 0x30 <= b <= 0x39
    ||| 0x41 <= b <= 0x5a
    ||| 0x61 <= b <= 0x7a
}

/// Bytes, each escaped unless it is an ASCII letter or digit.
pub open spec fn strictly_encoded(bytes: Seq<u8>) -> Seq<char>
    decreases bytes.len(),
{
    if bytes.len() == 0 {
        Seq::empty()
    } else {
        (if alphanumeric(bytes[0]) {
            seq![bytes[0] as char]
        } else {
            escape(bytes[0])
        }) + strictly_encoded(bytes.skip(1))
    }
}

/// `percent_encoding::utf8_percent_encode` with the set `NON_ALPHANUMERIC`: every
/// byte that is no ASCII letter or digit is escaped.
#[verifier::external_body]
fn encode_non_alphanumeric(s: &str) -> (r: String)
    ensures
        r@ == strictly_encoded(encode_utf8(s@)),
{
    utf8_percent_encode(s, NON_ALPHANUMERIC).to_string()
}

/// A path segment, with everything outside the unreserved set escaped. Escaping `.`
/// and `-` too would work, but leaves unreadable URLs in error messages.
pub fn encode_segment(s: &str) -> (r: String)
    ensures
        r@ == encoded(s@),
{
    let n: usize = s.unicode_len();
    let mut r: String = String::new();
    let mut i: usize = 0;
    while i < n
        invariant
            0 <= i <= n,
            n == s@.len(),
            r@ == encoded(s@.take(i as int)),
        decreases n - i,
    {
        let one = s.substring_char(i, i + 1);
        let c = s.get_char(i);
        proof {
            assert(one@ =~= seq![c]);
            assert(s@.take(i + 1) =~= s@.take(i as int) + seq![c]);
            lemma_utf8_concat(s@.take(i as int), seq![c]);
            lemma_encoded_concat(encode_utf8(s@.take(i as int)), encode_utf8(seq![c]));
        }
        if c == '-' || c == '.' || c == '_' || c == '~' {
            proof {
                lemma_utf8_one(c);
                lemma_encoded_one(c as u8);
            }
            r.append(one);
        } else {
            proof {
                lemma_strict_is_encoded(c);
            }
            r.append(encode_non_alphanumeric(one).as_str());
        }
        i = i + 1;
    }
    assert(s@.take(n as int) =~= s@);
    r
}

/// `percent_encoding::percent_decode_str`, read as UTF-8: `None` where the decoded
/// bytes are not well-formed.
#[verifier::external_body]
pub(crate) fn decode(s: &str) -> (r: Option<String>)
    ensures
        match r {
            Some(t) => decoded(s@) == Some(t@),
            None => decoded(s@) is None,
        },
{
    percent_decode_str(s).decode_utf8().ok().map(|t| t.into_owned())
}

/// The UTF-8 encoding of two strings in a row is that of one after that of the other.
pub proof fn lemma_utf8_concat(a: Seq<char>, b: Seq<char>)
    ensures
        encode_utf8(a + b) == encode_utf8(a) + encode_utf8(b),
    decreases a.len(),
{
    if a.len() == 0 {
        assert(a + b =~= b);
        assert(encode_utf8(a) + encode_utf8(b) =~= encode_utf8(b));
    } else {
        assert((a + b).drop_first() =~= a.drop_first() + b);
        lemma_utf8_concat(a.drop_first(), b);
        assert(encode_utf8(a + b) =~= encode_utf8(a) + encode_utf8(b));
    }
}

/// An ASCII character is one byte.
pub proof fn lemma_utf8_one(c: char)
    requires
        c <= '\u{7f}',
    ensures
        encode_utf8(seq![c]) == seq![c as u8],
{
    assert(is_ascii_chars(seq![c]));
    is_ascii_chars_encode_utf8(seq![c]);
    assert(encode_utf8(seq![c]) =~= seq![c as u8]);
}

/// All bytes of a character outside ASCII are outside ASCII.
proof fn lemma_utf8_high(c: char)
    requires
        c > '\u{7f}',
    ensures
        forall|i: int|
            0 <= i < encode_utf8(seq![c]).len() ==> #[trigger] encode_utf8(seq![c])[i] >= 0x80,
{
    let u = c as u32;
    assert(seq![c].drop_first() =~= Seq::empty());
    assert(encode_utf8(Seq::<char>::empty()) =~= Seq::empty());
    assert(encode_utf8(seq![c]) =~= encode_scalar(u));
    assert((0xC0u8 | ((u >> 6) & 0x1F) as u8) >= 0x80) by (bit_vector);
    assert((0xE0u8 | ((u >> 12) & 0x0F) as u8) >= 0x80) by (bit_vector);
    assert((0xF0u8 | ((u >> 18) & 0x7) as u8) >= 0x80) by (bit_vector);
    assert((0x80u8 | (u & 0x3F) as u8) >= 0x80) by (bit_vector);
    assert((0x80u8 | ((u >> 6) & 0x3F) as u8) >= 0x80) by (bit_vector);
    assert((0x80u8 | ((u >> 12) & 0x3F) as u8) >= 0x80) by (bit_vector);
}

proof fn lemma_utf8_char_no_percent(c: char)
    requires
        c != '%',
    ensures
        forall|i: int|
            0 <= i < encode_utf8(seq![c]).len() ==> #[trigger] encode_utf8(seq![c])[i] != 0x25,
{
    if c <= '\u{7f}' {
        lemma_utf8_one(c);
    } else {
        lemma_utf8_high(c);
    }
}

/// Text without a `%` has no such byte.
pub proof fn lemma_utf8_no_percent(s: Seq<char>)
    requires
        !s.contains('%'),
    ensures
        forall|i: int| 0 <= i < encode_utf8(s).len() ==> #[trigger] encode_utf8(s)[i] != 0x25,
    decreases s.len(),
{
    if s.len() > 0 {
        let c = s[0];
        let rest = s.skip(1);
        assert(s =~= seq![c] + rest);
        assert(s.contains(c));
        assert forall|i: int| 0 <= i < rest.len() implies rest[i] != '%' by {
            assert(s.contains(s[i + 1]));
        }
        lemma_utf8_concat(seq![c], rest);
        lemma_utf8_no_percent(rest);
        lemma_utf8_char_no_percent(c);
        let head = encode_utf8(seq![c]);
        assert forall|i: int| 0 <= i < encode_utf8(s).len() implies #[trigger] encode_utf8(s)[i]
            != 0x25 by {
            if i < head.len() {
                assert(encode_utf8(s)[i] == head[i]);
            } else {
                assert(encode_utf8(s)[i] == encode_utf8(rest)[i - head.len()]);
            }
        }
    }
}

/// Encoding works byte by byte.
pub proof fn lemma_encoded_concat(a: Seq<u8>, b: Seq<u8>)
    ensures
        encoded_bytes(a + b) == encoded_bytes(a) + encoded_bytes(b),
    decreases a.len(),
{
    if a.len() == 0 {
        assert(a + b =~= b);
        assert(encoded_bytes(a) + encoded_bytes(b) =~= encoded_bytes(b));
    } else {
        assert((a + b).skip(1) =~= a.skip(1) + b);
        lemma_encoded_concat(a.skip(1), b);
        assert(encoded_bytes(a + b) =~= encoded_bytes(a) + encoded_bytes(b));
    }
}

proof fn lemma_encoded_one(b: u8)
    ensures
        encoded_bytes(seq![b]) == encoded_byte(b),
{
    assert(seq![b].skip(1) =~= Seq::empty());
    assert(encoded_bytes(Seq::<u8>::empty()) =~= Seq::empty());
    assert(encoded_bytes(seq![b]) =~= encoded_byte(b));
}

/// Where none of `-._~` occurs, escaping all but letters and digits is the same.
proof fn lemma_strict_is_encoded(c: char)
    requires
        c != '-' && c != '.' && c != '_' && c != '~',
    ensures
        strictly_encoded(encode_utf8(seq![c])) == encoded(seq![c]),
{
    let bytes = encode_utf8(seq![c]);
    if c <= '\u{7f}' {
        lemma_utf8_one(c);
    } else {
        lemma_utf8_high(c);
    }
    assert forall|i: int| 0 <= i < bytes.len() implies alphanumeric(#[trigger] bytes[i])
        == unreserved(bytes[i]) by {}
    lemma_strict_bytes(bytes);
}

proof fn lemma_strict_bytes(bytes: Seq<u8>)
    requires
        forall|i: int|
            0 <= i < bytes.len() ==> alphanumeric(#[trigger] bytes[i]) == unreserved(bytes[i]),
    ensures
        strictly_encoded(bytes) == encoded_bytes(bytes),
    decreases bytes.len(),
{
    if bytes.len() > 0 {
        assert(alphanumeric(bytes[0]) == unreserved(bytes[0]));
        assert forall|i: int| 0 <= i < bytes.skip(1).len() implies alphanumeric(
            #[trigger] bytes.skip(1)[i],
        ) == unreserved(bytes.skip(1)[i]) by {
            assert(bytes.skip(1)[i] == bytes[i + 1]);
        }
        lemma_strict_bytes(bytes.skip(1));
    }
}

/// Bytes without a `%` decode to themselves.
pub proof fn lemma_decode_plain(plain: Seq<u8>, rest: Seq<u8>)
    requires
        forall|i: int| 0 <= i < plain.len() ==> #[trigger] plain[i] != 0x25,
    ensures
        decoded_bytes(plain + rest) == plain + decoded_bytes(rest),
    decreases plain.len(),
{
    if plain.len() == 0 {
        assert(plain + rest =~= rest);
        assert(plain + decoded_bytes(rest) =~= decoded_bytes(rest));
    } else {
        assert((plain + rest).skip(1) =~= plain.skip(1) + rest);
        assert forall|i: int| 0 <= i < plain.skip(1).len() implies #[trigger] plain.skip(1)[i]
            != 0x25 by {
            assert(plain.skip(1)[i] == plain[i + 1]);
        }
        lemma_decode_plain(plain.skip(1), rest);
        assert((plain + rest)[0] == plain[0]);
        assert(decoded_bytes(plain + rest) =~= plain + decoded_bytes(rest));
    }
}

/// The encoding of a byte decodes to the byte.
proof fn lemma_decode_encoded_byte(b: u8, rest: Seq<u8>)
    ensures
        decoded_bytes(encode_utf8(encoded_byte(b)) + rest) == seq![b] + decoded_bytes(rest),
{
    let text = encoded_byte(b);
    assert(is_ascii_chars(text));
    is_ascii_chars_encode_utf8(text);
    let bytes = encode_utf8(text);
    if unreserved(b) {
        assert(bytes =~= seq![b]);
        lemma_decode_plain(bytes, rest);
    } else {
        let h = hex_digit(b as int / 16);
        let l = hex_digit(b as int % 16);
        assert(bytes =~= seq![0x25u8, h, l]);
        assert((bytes + rest).skip(3) =~= rest);
        assert(hex_value(h) == Some(b as int / 16));
        assert(hex_value(l) == Some(b as int % 16));
    }
}

/// What was percent-encoded decodes to the bytes it was made from, whatever follows.
pub proof fn lemma_decode_encoded(bytes: Seq<u8>, rest: Seq<u8>)
    ensures
        decoded_bytes(encode_utf8(encoded_bytes(bytes)) + rest) == bytes + decoded_bytes(rest),
    decreases bytes.len(),
{
    if bytes.len() == 0 {
        assert(encode_utf8(encoded_bytes(bytes)) + rest =~= rest);
        assert(bytes + decoded_bytes(rest) =~= decoded_bytes(rest));
    } else {
        let head = encoded_byte(bytes[0]);
        let tail = encoded_bytes(bytes.skip(1));
        lemma_utf8_concat(head, tail);
        lemma_decode_encoded_byte(bytes[0], encode_utf8(tail) + rest);
        lemma_decode_encoded(bytes.skip(1), rest);
        assert(encode_utf8(encoded_bytes(bytes)) + rest =~= encode_utf8(head) + (encode_utf8(tail)
            + rest));
        assert(bytes + decoded_bytes(rest) =~= seq![bytes[0]] + (bytes.skip(1) + decoded_bytes(
            rest,
        )));
    }
}

/// Encoded text does not begin with a slash.
pub proof fn lemma_encoded_start(s: Seq<char>)
    ensures
        encoded(s).len() > 0 ==> encoded(s)[0] != '/',
{
    let bytes = encode_utf8(s);
    if bytes.len() > 0 {
        let b = bytes[0];
        lemma_encoded_byte_start(b);
        assert(encoded(s)[0] == encoded_byte(b)[0]);
    }
}

proof fn lemma_encoded_byte_start(b: u8)
    ensures
        encoded_byte(b).len() > 0,
        encoded_byte(b)[0] != '/',
{
}

/// Decoding undoes encoding.
pub proof fn law_decode_encode(s: Seq<char>)
    ensures
        decoded(encoded(s)) == Some(s),
{
    let bytes = encode_utf8(s);
    lemma_decode_encoded(bytes, Seq::empty());
    assert(encode_utf8(encoded(s)) + Seq::<u8>::empty() =~= encode_utf8(encoded(s)));
    assert(decoded_bytes(Seq::<u8>::empty()) =~= Seq::empty());
    assert(bytes + Seq::<u8>::empty() =~= bytes);
    encode_utf8_valid_utf8(s);
    encode_utf8_decode_utf8(s);
}

/// Text is encoded character by character.
pub proof fn law_encoding_is_piecewise(a: Seq<char>, b: Seq<char>)
    ensures
        encoded(a + b) == encoded(a) + encoded(b),
        encoded(Seq::empty()).len() == 0,
{
    lemma_utf8_concat(a, b);
    lemma_encoded_concat(encode_utf8(a), encode_utf8(b));
    assert(encode_utf8(Seq::<char>::empty()) =~= Seq::empty());
}

/// An upper-case hexadecimal digit.
pub open spec fn is_hex(c: char) -> bool {
    '0' <= c <= '9' || 'A' <= c <= 'F'
}

/// The characters that stay as they are: letters, digits and four signs.
pub open spec fn stays(c: char) -> bool {
    ||| 'a' <= c <= 'z'
    ||| 'A' <= c <= 'Z'
    ||| '0' <= c <= '9'
    ||| seq!['-', '.', '_', '~'].contains(c)
}

/// Letters, digits and the four signs stay as they are. Of anything else every byte becomes a
/// percent sign and two upper-case hexadecimal digits, so that nothing of an encoded segment can
/// be taken for a part of a URL.
pub proof fn law_encoded_character(c: char, k: int)
    ensures
        stays(c) ==> encoded(seq![c]) == seq![c],
        !stays(c) ==> encoded(seq![c]).len() == 3 * encode_utf8(seq![c]).len(),
        !stays(c) && 0 <= k < encode_utf8(seq![c]).len() ==> encoded(seq![c])[3 * k] == '%'
            && is_hex(encoded(seq![c])[3 * k + 1]) && is_hex(encoded(seq![c])[3 * k + 2]),
{
    let signs = seq!['-', '.', '_', '~'];
    assert(signs[0] == '-' && signs[1] == '.' && signs[2] == '_' && signs[3] == '~');
    let bytes = encode_utf8(seq![c]);
    if c <= '\u{7f}' {
        lemma_utf8_one(c);
        lemma_encoded_one(c as u8);
        if stays(c) {
            assert(unreserved(c as u8));
            assert(encoded(seq![c]) =~= seq![c]);
        }
    } else {
        lemma_utf8_high(c);
        assert(!stays(c));
    }
    if !stays(c) {
        assert forall|i: int| 0 <= i < bytes.len() implies !unreserved(#[trigger] bytes[i]) by {
            if c <= '\u{7f}' {
                assert(bytes[i] == c as u8);
            }
        }
        lemma_all_escaped(bytes, k);
    }
}

proof fn lemma_all_escaped(bytes: Seq<u8>, k: int)
    requires
        forall|i: int| 0 <= i < bytes.len() ==> !unreserved(#[trigger] bytes[i]),
    ensures
        encoded_bytes(bytes).len() == 3 * bytes.len(),
        0 <= k < bytes.len() ==> encoded_bytes(bytes)[3 * k] == '%' && is_hex(
            encoded_bytes(bytes)[3 * k + 1],
        ) && is_hex(encoded_bytes(bytes)[3 * k + 2]),
    decreases bytes.len(),
{
    if bytes.len() > 0 {
        let rest = bytes.skip(1);
        assert forall|i: int| 0 <= i < rest.len() implies !unreserved(#[trigger] rest[i]) by {
            assert(rest[i] == bytes[i + 1]);
        }
        lemma_all_escaped(rest, k - 1);
        let b = bytes[0];
        assert(!unreserved(b));
        assert(encoded_byte(b).len() == 3);
        assert(is_hex(encoded_byte(b)[1]) && is_hex(encoded_byte(b)[2]));
        if k > 0 && k < bytes.len() {
            let e = encoded_bytes(bytes);
            let r = encoded_bytes(rest);
            assert(e[3 * k] == r[3 * (k - 1)]);
            assert(e[3 * k + 1] == r[3 * (k - 1) + 1]);
            assert(e[3 * k + 2] == r[3 * (k - 1) + 2]);
        }
    }
}

/// A percent sign and two hexadecimal digits of either case are decoded to the byte they stand
/// for; a percent sign without them is taken as it is.
pub proof fn law_escape_is_decoded(h: u8, l: u8, rest: Seq<u8>)
    ensures
        hex_value(h) is Some && hex_value(l) is Some ==> decoded_bytes(seq![0x25u8, h, l] + rest)
            == seq![(hex_value(h)->0 * 16 + hex_value(l)->0) as u8] + decoded_bytes(rest),
        hex_value(h) is None ==> decoded_bytes(seq![0x25u8, h] + rest) == seq![0x25u8]
            + decoded_bytes(seq![h] + rest),
        hex_value(h) is Some <==> '0' as int <= h <= '9' as int || 'a' as int <= h <= 'f' as int
            || 'A' as int <= h <= 'F' as int,
{
    assert((seq![0x25u8, h, l] + rest).skip(3) =~= rest);
    assert((seq![0x25u8, h] + rest).skip(1) =~= seq![h] + rest);
}

} // verus!
