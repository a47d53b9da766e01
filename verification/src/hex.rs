//! Bytes written as pairs of hex digits.

use vstd::prelude::*;
use vstd::string::*;

use crate::text::{debug_str, utf8_text};

verus! {

/// Why text is not a row of hex bytes.
#[derive(Debug)]
pub enum HexError {
    /// The text has an odd number of bytes.
    Odd,
    /// A pair of bytes cuts a character apart; carries the words of the UTF-8
    /// error.
    NotUtf8(String),
    /// A pair that is not a byte in hex; carries the pair.
    NotHex(String),
}

/// What a [`HexError`] says, as a value of specifications.
pub ghost enum HexErrorSpec {
    Odd,
    NotUtf8(Seq<char>),
    NotHex(Seq<char>),
}

impl View for HexError {
    type V = HexErrorSpec;

    open spec fn view(&self) -> HexErrorSpec {
        match self {
            HexError::Odd => HexErrorSpec::Odd,
            HexError::NotUtf8(e) => HexErrorSpec::NotUtf8(e@),
            HexError::NotHex(t) => HexErrorSpec::NotHex(t@),
        }
    }
}

/// What [`HexError::message`] says, where `what` introduces a bad pair.
pub open spec fn message_of(e: HexErrorSpec, what: Seq<char>) -> Seq<char> {
    match e {
        HexErrorSpec::Odd => "odd number of hex digits"@,
        HexErrorSpec::NotUtf8(text) => text,
        HexErrorSpec::NotHex(text) => what + crate::text::debug_text(text),
    }
}

impl HexError {
    /// The error in words; `what` introduces a bad pair.
    pub fn message(&self, what: &str) -> (r: String)
        ensures
            r@ == message_of(self@, what@),
    {
        let mut out = String::new();
        match self {
            HexError::Odd => {
                out.append("odd number of hex digits");
            },
            HexError::NotUtf8(e) => {
                out.append(e.as_str());
            },
            HexError::NotHex(t) => {
                out.append(what);
                out.append(debug_str(t.as_str()).as_str());
            },
        }
        proof {
            assert(out@ =~= message_of(self@, what@));
        }
        out
    }
}

/// The value of a hex digit of either case.
pub open spec fn digit_value(c: char) -> Option<u8> {
    if '0' <= c <= '9' {
        Some((c as int - '0' as int) as u8)
    } else if 'a' <= c <= 'f' {
        Some((c as int - 'a' as int + 10) as u8)
    } else if 'A' <= c <= 'F' {
        Some((c as int - 'A' as int + 10) as u8)
    } else {
        None
    }
}

/// The value of a hex digit of either case.
pub(crate) fn hex_digit(c: char) -> (r: Option<u8>)
    ensures
        r == digit_value(c),
        r matches Some(d) ==> d < 16,
{
    let n: u32 = c as u32;
    if 48 <= n && n <= 57 {
        Some((n - 48) as u8)
    } else if 97 <= n && n <= 102 {
        Some((n - 87) as u8)
    } else if 65 <= n && n <= 70 {
        Some((n - 55) as u8)
    } else {
        None
    }
}

/// The byte that a pair of hex digits stands for.
pub open spec fn pair_value(text: Seq<char>) -> Option<u8> {
    if text.len() != 2 {
        None
    } else {
        match (digit_value(text[0]), digit_value(text[1])) {
            (Some(hi), Some(lo)) => Some((16 * hi + lo) as u8),
            _ => None,
        }
    }
}

/// What two bytes of text come to.
pub open spec fn pair_result(a: u8, b: u8) -> Result<u8, HexErrorSpec> {
    let bytes = seq![a, b];
    if !vstd::utf8::valid_utf8(bytes) {
        Err(HexErrorSpec::NotUtf8(crate::text::utf8_error_text(bytes)))
    } else {
        match pair_value(vstd::utf8::decode_utf8(bytes)) {
            Some(v) => Ok(v),
            None => Err(HexErrorSpec::NotHex(vstd::utf8::decode_utf8(bytes))),
        }
    }
}

/// What the pairs of `bytes` come to, up to the first bad one.
pub open spec fn pairs_result(bytes: Seq<u8>) -> Result<Seq<u8>, HexErrorSpec>
    decreases bytes.len(),
{
    if bytes.len() < 2 {
        Ok(seq![])
    } else {
        let n = bytes.len();
        match pairs_result(bytes.take(n - 2)) {
            Err(e) => Err(e),
            Ok(head) => match pair_result(bytes[n - 2], bytes[n - 1]) {
                Err(e) => Err(e),
                Ok(v) => Ok(head.push(v)),
            },
        }
    }
}

/// What text in hex comes to.
pub open spec fn decoded(text: Seq<char>) -> Result<Seq<u8>, HexErrorSpec> {
    let bytes = vstd::utf8::encode_utf8(text);
    if bytes.len() % 2 != 0 {
        Err(HexErrorSpec::Odd)
    } else {
        pairs_result(bytes)
    }
}

/// What two bytes of text come to.
fn decode_pair(a: u8, b: u8) -> (r: Result<u8, HexError>)
    ensures
        match pair_result(a, b) {
            Ok(v) => r == Ok::<u8, HexError>(v),
            Err(e) => r is Err && r->Err_0@ == e,
        },
{
    let pair: [u8; 2] = [a, b];
    proof {
        assert(pair@ =~= seq![a, b]);
    }
    match utf8_text(&pair) {
        Err(e) => Err(HexError::NotUtf8(e)),
        Ok(text) => {
            let s: &str = text.as_str();
            if s.unicode_len() != 2 {
                return Err(HexError::NotHex(text));
            }
            let hi: char = s.get_char(0);
            let lo: char = s.get_char(1);
            match (hex_digit(hi), hex_digit(lo)) {
                (Some(h), Some(l)) => Ok(16 * h + l),
                _ => Err(HexError::NotHex(text)),
            }
        },
    }
}

/// An even number of hex digits and nothing else.
pub open spec fn is_hex_text(text: Seq<char>) -> bool {
    &&& text.len() % 2 == 0
    &&& forall|i: int| 0 <= i < text.len() ==> digit_value(#[trigger] text[i]) is Some
}

/// The bytes that hex digits stand for, two to a byte.
pub open spec fn hex_bytes(text: Seq<char>) -> Seq<u8> {
    Seq::new(
        text.len() / 2,
        |i: int| (16 * digit_value(text[2 * i])->0 + digit_value(text[2 * i + 1])->0) as u8,
    )
}

/// Bytes as the ASCII characters that they are.
spec fn ascii(bytes: Seq<u8>) -> Seq<char> {
    bytes.map_values(|b: u8| b as char)
}

/// Hex digits are ASCII, so they are encoded as themselves.
proof fn lemma_digits_are_bytes(text: Seq<char>)
    requires
        forall|i: int| 0 <= i < text.len() ==> digit_value(#[trigger] text[i]) is Some,
    ensures
        vstd::utf8::encode_utf8(text).len() == text.len(),
        forall|i: int|
            0 <= i < text.len() ==> #[trigger] vstd::utf8::encode_utf8(text)[i] == text[i] as u8,
        ascii(vstd::utf8::encode_utf8(text)) == text,
{
    assert(vstd::utf8::is_ascii_chars(text));
    vstd::utf8::is_ascii_chars_encode_utf8(text);
    assert(ascii(vstd::utf8::encode_utf8(text)) =~= text);
}

/// A pair is accepted exactly where both bytes are hex digits.
proof fn lemma_pair(a: u8, b: u8)
    ensures
        pair_result(a, b) is Ok <==> digit_value(a as char) is Some && digit_value(
            b as char,
        ) is Some,
        pair_result(a, b) matches Ok(v) ==> v == (16 * digit_value(a as char)->0 + digit_value(
            b as char,
        )->0) as u8,
{
    let bytes = seq![a, b];
    let chars = seq![a as char, b as char];
    if digit_value(a as char) is Some && digit_value(b as char) is Some {
        lemma_digits_are_bytes(chars);
        assert(vstd::utf8::encode_utf8(chars) =~= bytes);
        vstd::utf8::encode_utf8_valid_utf8(chars);
        vstd::utf8::encode_utf8_decode_utf8(chars);
    }
    if pair_result(a, b) is Ok {
        let text = vstd::utf8::decode_utf8(bytes);
        vstd::utf8::decode_utf8_encode_utf8(bytes);
        lemma_digits_are_bytes(text);
        assert(text[0] as u8 == a && text[1] as u8 == b);
    }
}

/// Pairs are accepted exactly where every byte is a hex digit.
proof fn lemma_pairs(bytes: Seq<u8>)
    requires
        bytes.len() % 2 == 0,
    ensures
        pairs_result(bytes) is Ok <==> is_hex_text(ascii(bytes)),
        pairs_result(bytes) matches Ok(out) ==> out == hex_bytes(ascii(bytes)),
    decreases bytes.len(),
{
    let n = bytes.len();
    let text = ascii(bytes);
    if n >= 2 {
        let head = bytes.take(n - 2);
        lemma_pairs(head);
        lemma_pair(bytes[n - 2], bytes[n - 1]);
        assert(ascii(head) =~= text.take(n - 2));
        assert(text[n - 2] == bytes[n - 2] as char && text[n - 1] == bytes[n - 1] as char);
        if is_hex_text(text) {
            assert forall|i: int| 0 <= i < ascii(head).len() implies digit_value(
                #[trigger] ascii(head)[i],
            ) is Some by {
                assert(ascii(head)[i] == text[i]);
            }
        }
        if pairs_result(bytes) is Ok {
            assert forall|i: int| 0 <= i < text.len() implies digit_value(
                #[trigger] text[i],
            ) is Some by {
                if i < n - 2 {
                    assert(ascii(head)[i] == text[i]);
                }
            }
            let out = pairs_result(bytes)->Ok_0;
            assert(out =~= hex_bytes(text));
        }
    } else {
        assert(hex_bytes(text) =~= Seq::<u8>::empty());
    }
}

/// Only hex digits are decoded: text is accepted exactly where it is an even
/// number of them, and then each two give one byte.
pub proof fn law_only_hex_digits_are_decoded(text: Seq<char>)
    ensures
        decoded(text) is Ok <==> is_hex_text(text),
        decoded(text) matches Ok(bytes) ==> bytes == hex_bytes(text),
{
    let bytes = vstd::utf8::encode_utf8(text);
    if is_hex_text(text) {
        lemma_digits_are_bytes(text);
        lemma_pairs(bytes);
    }
    if decoded(text) is Ok {
        lemma_pairs(bytes);
        let chars = ascii(bytes);
        lemma_digits_are_bytes(chars);
        assert(vstd::utf8::encode_utf8(chars) =~= bytes);
        vstd::utf8::encode_utf8_decode_utf8(chars);
        vstd::utf8::encode_utf8_decode_utf8(text);
    }
}

/// A failed pair fails everything that starts with it.
proof fn lemma_pairs_fail(bytes: Seq<u8>, n: int, e: HexErrorSpec)
    requires
        0 <= n <= bytes.len(),
        n % 2 == 0,
        bytes.len() % 2 == 0,
        pairs_result(bytes.take(n)) == Err::<Seq<u8>, HexErrorSpec>(e),
    ensures
        pairs_result(bytes) == Err::<Seq<u8>, HexErrorSpec>(e),
    decreases bytes.len(),
{
    if n == bytes.len() {
        assert(bytes.take(n) =~= bytes);
    } else {
        let head = bytes.take(bytes.len() - 2);
        assert(head.take(n) =~= bytes.take(n));
        lemma_pairs_fail(head, n, e);
    }
}

/// Decodes text made of pairs of hex digits.
///
/// # Errors
///
/// [`HexError::Odd`] if its length in bytes is odd; otherwise the error of
/// the first pair that is not a byte in hex.
pub fn decode_hex(s: &str) -> (r: Result<Vec<u8>, HexError>)
    ensures
        match decoded(s@) {
            Ok(bytes) => r is Ok && r->Ok_0@ == bytes,
            Err(e) => r is Err && r->Err_0@ == e,
        },
        r is Ok <==> is_hex_text(s@),
        r matches Ok(bytes) ==> bytes@ == hex_bytes(s@),
{
    proof {
        law_only_hex_digits_are_decoded(s@);
    }
    let bytes: &[u8] = s.as_bytes();
    if bytes.len() % 2 != 0 {
        return Err(HexError::Odd);
    }
    let mut out: Vec<u8> = Vec::new();
    let mut i: usize = 0;
    proof {
        assert(bytes@.take(0) =~= Seq::<u8>::empty());
        assert(out@ =~= Seq::<u8>::empty());
    }
    while i < bytes.len()
        invariant
            i <= bytes@.len(),
            i % 2 == 0,
            bytes@.len() % 2 == 0,
            bytes@ == vstd::utf8::encode_utf8(s@),
            decoded(s@) is Ok <==> is_hex_text(s@),
            pairs_result(bytes@.take(i as int)) == Ok::<Seq<u8>, HexErrorSpec>(out@),
        decreases bytes@.len() - i,
    {
        let ghost head = bytes@.take(i + 2);
        proof {
            assert(head.take(head.len() - 2) =~= bytes@.take(i as int));
        }
        match decode_pair(bytes[i], bytes[i + 1]) {
            Ok(v) => {
                out.push(v);
            },
            Err(e) => {
                proof {
                    lemma_pairs_fail(bytes@, i + 2, e@);
                }
                return Err(e);
            },
        }
        i = i + 2;
    }
    proof {
        assert(bytes@.take(i as int) =~= bytes@);
    }
    Ok(out)
}

/// Whether `c` is how the number `v` below sixteen is written as a digit.
pub open spec fn writes_digit(c: char, v: int) -> bool {
    c == "0123456789abcdef"@[v] || c == "0123456789ABCDEF"@[v]
}

/// A digit has the value that it is written for.
proof fn lemma_writes_digit(c: char, v: int)
    requires
        0 <= v < 16,
    ensures
        writes_digit(c, v) <==> digit_value(c) is Some && digit_value(c)->0 == v,
{
    reveal_strlit("0123456789abcdef");
    reveal_strlit("0123456789ABCDEF");
}

/// Reading hex undoes writing it: text comes to `bytes` if and only if it has
/// two digits of either case for each of them, the upper four bits first.
pub proof fn law_hex_reads_back(text: Seq<char>, bytes: Seq<u8>)
    ensures
        decoded(text) == Ok::<Seq<u8>, HexErrorSpec>(bytes) <==> text.len() == 2 * bytes.len()
            && forall|i: int|
            0 <= i < bytes.len() ==> writes_digit(text[2 * i], (#[trigger] bytes[i]) as int / 16)
                && writes_digit(text[2 * i + 1], bytes[i] as int % 16),
{
    law_only_hex_digits_are_decoded(text);
    if decoded(text) == Ok::<Seq<u8>, HexErrorSpec>(bytes) {
        assert forall|i: int| 0 <= i < bytes.len() implies writes_digit(
            text[2 * i],
            (#[trigger] bytes[i]) as int / 16,
        ) && writes_digit(text[2 * i + 1], bytes[i] as int % 16) by {
            lemma_writes_digit(text[2 * i], bytes[i] as int / 16);
            lemma_writes_digit(text[2 * i + 1], bytes[i] as int % 16);
            assert(bytes[i] == hex_bytes(text)[i]);
            assert(digit_value(text[2 * i]) is Some);
            assert(digit_value(text[2 * i + 1]) is Some);
        }
    }
    if text.len() == 2 * bytes.len() && forall|i: int|
        0 <= i < bytes.len() ==> writes_digit(text[2 * i], (#[trigger] bytes[i]) as int / 16)
            && writes_digit(text[2 * i + 1], bytes[i] as int % 16) {
        assert forall|j: int| 0 <= j < text.len() implies digit_value(#[trigger] text[j]) is Some by {
            let i = j / 2;
            assert(0 <= bytes[i] as int);
            lemma_writes_digit(text[2 * i], bytes[i] as int / 16);
            lemma_writes_digit(text[2 * i + 1], bytes[i] as int % 16);
            assert(j == 2 * i || j == 2 * i + 1);
        }
        assert forall|i: int| 0 <= i < bytes.len() implies hex_bytes(text)[i] == bytes[i] by {
            lemma_writes_digit(text[2 * i], bytes[i] as int / 16);
            lemma_writes_digit(text[2 * i + 1], bytes[i] as int % 16);
        }
        assert(hex_bytes(text) =~= bytes);
    }
}

/// What text that is no hex is told: an odd number of bytes that it is odd,
/// and else the first pair that is not two digits, as it stands there.
pub proof fn law_first_bad_pair_is_named(text: Seq<char>, i: int)
    requires
        vstd::utf8::is_ascii_chars(text),
    ensures
        text.len() % 2 == 1 ==> decoded(text) == Err::<Seq<u8>, HexErrorSpec>(HexErrorSpec::Odd),
        text.len() % 2 == 0 && 0 <= i && 2 * i + 1 < text.len() && is_hex_text(text.take(2 * i))
            && !is_hex_text(text.subrange(2 * i, 2 * i + 2)) ==> decoded(text) == Err::<
            Seq<u8>,
            HexErrorSpec,
        >(HexErrorSpec::NotHex(text.subrange(2 * i, 2 * i + 2))),
{
    let bytes = vstd::utf8::encode_utf8(text);
    vstd::utf8::is_ascii_chars_encode_utf8(text);
    if text.len() % 2 == 0 && 0 <= i && 2 * i + 1 < text.len() && is_hex_text(text.take(2 * i))
        && !is_hex_text(text.subrange(2 * i, 2 * i + 2)) {
        let pair = text.subrange(2 * i, 2 * i + 2);
        let e = HexErrorSpec::NotHex(pair);
        let head = bytes.take(2 * i);
        let more = bytes.take(2 * i + 2);
        assert(ascii(head) =~= text.take(2 * i));
        lemma_pairs(head);
        assert(vstd::utf8::is_ascii_chars(pair));
        vstd::utf8::is_ascii_chars_encode_utf8(pair);
        vstd::utf8::encode_utf8_valid_utf8(pair);
        vstd::utf8::encode_utf8_decode_utf8(pair);
        assert(vstd::utf8::encode_utf8(pair) =~= seq![bytes[2 * i], bytes[2 * i + 1]]);
        assert(pair_value(pair) is None) by {
            if pair_value(pair) is Some {
                assert(is_hex_text(pair));
            }
        }
        assert(more.take(2 * i) =~= head);
        assert(pairs_result(more) == Err::<Seq<u8>, HexErrorSpec>(e));
        lemma_pairs_fail(bytes, 2 * i + 2, e);
    }
}

} // verus!
