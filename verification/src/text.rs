//! Rendering of numbers and the small text helpers that messages are built
//! from.

use vstd::prelude::*;

verus! {

/// `String::push` appends one character to the end of the string.
pub assume_specification[ String::push ](s: &mut String, c: char)
    ensures
        final(s)@ == old(s)@.push(c),
;

/// The character of one digit below sixteen, letters in lower case.
pub open spec fn digit_char(d: nat) -> char {
    if d < 10 {
        (48 + d) as char
    } else {
        (87 + d) as char
    }
}

/// A number in base ten, without leading zeros.
pub open spec fn decimal(n: nat) -> Seq<char>
    decreases n,
{
    if n < 10 {
        seq![digit_char(n)]
    } else {
        decimal(n / 10).push(digit_char(n % 10))
    }
}

/// A byte as `0x` and two lower-case hex digits.
pub open spec fn hex_byte(b: u8) -> Seq<char> {
    seq!['0', 'x', digit_char((b / 16) as nat), digit_char((b % 16) as nat)]
}

/// The character of one digit below sixteen.
pub(crate) fn digit(d: u8) -> (c: char)
    requires
        d < 16,
    ensures
        c == digit_char(d as nat),
{
    if d < 10 {
        (48u8 + d) as char
    } else {
        (87u8 + d) as char
    }
}

/// Appends `n` in base ten.
pub(crate) fn push_decimal(out: &mut String, n: u64)
    ensures
        final(out)@ == old(out)@ + decimal(n as nat),
    decreases n,
{
    if n >= 10 {
        push_decimal(out, n / 10);
    }
    out.push(digit((n % 10) as u8));
    proof {
        if n >= 10 {
            assert(old(out)@ + decimal((n / 10) as nat).push(digit_char((n % 10) as nat))
                =~= (old(out)@ + decimal((n / 10) as nat)).push(digit_char((n % 10) as nat)));
        } else {
            assert(old(out)@ + seq![digit_char(n as nat)] =~= old(out)@.push(
                digit_char(n as nat),
            ));
        }
    }
}

/// A number in base ten, with a minus sign where it is negative.
pub open spec fn signed_decimal(n: int) -> Seq<char> {
    if n < 0 {
        seq!['-'] + decimal((-n) as nat)
    } else {
        decimal(n as nat)
    }
}

/// Appends `n` in base ten, with a minus sign where it is negative.
pub(crate) fn push_signed(out: &mut String, n: i32)
    ensures
        final(out)@ == old(out)@ + signed_decimal(n as int),
{
    if n < 0 {
        out.push('-');
        push_decimal(out, (-(n as i64)) as u64);
        proof {
            assert(final(out)@ =~= old(out)@ + signed_decimal(n as int));
        }
    } else {
        push_decimal(out, n as u64);
    }
}

/// Appends a byte as `0x` and two hex digits.
pub(crate) fn push_hex_byte(out: &mut String, b: u8)
    ensures
        final(out)@ == old(out)@ + hex_byte(b),
{
    out.push('0');
    out.push('x');
    out.push(digit(b / 16));
    out.push(digit(b % 16));
    proof {
        assert(final(out)@ =~= old(out)@ + hex_byte(b));
    }
}

/// A number in base sixteen with lower-case digits, without leading zeros.
pub open spec fn hex(n: nat) -> Seq<char>
    decreases n,
{
    if n < 16 {
        seq![digit_char(n)]
    } else {
        hex(n / 16).push(digit_char(n % 16))
    }
}

/// A number as `0x` and at least two lower-case hex digits.
pub open spec fn hex_prefixed(n: nat) -> Seq<char> {
    if n < 16 {
        seq!['0', 'x', '0'] + hex(n)
    } else {
        seq!['0', 'x'] + hex(n)
    }
}

/// Appends `n` in base sixteen.
fn push_hex(out: &mut String, n: u32)
    ensures
        final(out)@ == old(out)@ + hex(n as nat),
    decreases n,
{
    if n >= 16 {
        push_hex(out, n / 16);
    }
    out.push(digit((n % 16) as u8));
    proof {
        if n >= 16 {
            assert(old(out)@ + hex((n / 16) as nat).push(digit_char((n % 16) as nat)) =~= (old(
                out,
            )@ + hex((n / 16) as nat)).push(digit_char((n % 16) as nat)));
        } else {
            assert(old(out)@ + seq![digit_char(n as nat)] =~= old(out)@.push(
                digit_char(n as nat),
            ));
        }
    }
}

/// Appends `n` as `0x` and at least two hex digits.
pub(crate) fn push_hex_prefixed(out: &mut String, n: u32)
    ensures
        final(out)@ == old(out)@ + hex_prefixed(n as nat),
{
    out.push('0');
    out.push('x');
    if n < 16 {
        out.push('0');
    }
    let ghost head = out@;
    push_hex(out, n);
    proof {
        if n < 16 {
            assert(head =~= old(out)@ + seq!['0', 'x', '0']);
        } else {
            assert(head =~= old(out)@ + seq!['0', 'x']);
        }
        assert(final(out)@ =~= old(out)@ + hex_prefixed(n as nat));
    }
}

/// The Unicode property `White_Space`.
pub open spec fn whitespace(c: char) -> bool {
    ||| 0x09 <= c <= 0x0D
    ||| c == 0x20
    ||| c == 0x85
    ||| c == 0xA0
    ||| c == 0x1680
    ||| 0x2000 <= c <= 0x200A
    ||| c == 0x2028
    ||| c == 0x2029
    ||| c == 0x202F
    ||| c == 0x205F
    ||| c == 0x3000
}

/// Is `c` white space?
pub(crate) fn is_whitespace(c: char) -> (r: bool)
    ensures
        r == whitespace(c),
{
    let n: u32 = c as u32;
    (0x09 <= n && n <= 0x0D) || n == 0x20 || n == 0x85 || n == 0xA0 || n == 0x1680 || (0x2000 <= n
        && n <= 0x200A) || n == 0x2028 || n == 0x2029 || n == 0x202F || n == 0x205F || n == 0x3000
}

/// Text without the white space at its front.
pub open spec fn trim_start(s: Seq<char>) -> Seq<char>
    decreases s.len(),
{
    if s.len() > 0 && whitespace(s[0]) {
        trim_start(s.skip(1))
    } else {
        s
    }
}

/// Text without the white space at its end.
pub open spec fn trim_end(s: Seq<char>) -> Seq<char>
    decreases s.len(),
{
    if s.len() > 0 && whitespace(s.last()) {
        trim_end(s.drop_last())
    } else {
        s
    }
}

/// Text without the white space around it.
pub open spec fn trimmed(s: Seq<char>) -> Seq<char> {
    trim_end(trim_start(s))
}

/// The characters of `s`.
pub(crate) fn chars_of(s: &str) -> (r: Vec<char>)
    ensures
        r@ == s@,
{
    let mut out: Vec<char> = Vec::new();
    for c in it: s.chars()
        invariant
            it.seq() == s@,
            out@ == s@.take(it.index() as int),
    {
        out.push(c);
        proof {
            assert(s@.take(it.index() + 1) =~= s@.take(it.index() as int).push(c));
        }
    }
    proof {
        assert(s@.take(s@.len() as int) =~= s@);
    }
    out
}

/// The text of characters `from..to` of `chars`.
pub(crate) fn text_of(chars: &Vec<char>, from: usize, to: usize) -> (r: String)
    requires
        from <= to <= chars@.len(),
    ensures
        r@ == chars@.subrange(from as int, to as int),
{
    let mut out = String::new();
    let mut i: usize = from;
    while i < to
        invariant
            from <= i <= to <= chars@.len(),
            out@ == chars@.subrange(from as int, i as int),
        decreases to - i,
    {
        out.push(chars[i]);
        proof {
            assert(chars@.subrange(from as int, i + 1) =~= chars@.subrange(
                from as int,
                i as int,
            ).push(chars@[i as int]));
        }
        i = i + 1;
    }
    out
}

/// Where the text in characters `from..to` of `chars` starts and ends once
/// the white space around it is left out.
pub(crate) fn trim(chars: &Vec<char>, from: usize, to: usize) -> (r: (usize, usize))
    requires
        from <= to <= chars@.len(),
    ensures
        from <= r.0 <= r.1 <= to,
        chars@.subrange(r.0 as int, r.1 as int) == trimmed(
            chars@.subrange(from as int, to as int),
        ),
{
    let ghost whole = chars@.subrange(from as int, to as int);
    let mut a: usize = from;
    while a < to && is_whitespace(chars[a])
        invariant
            from <= a <= to <= chars@.len(),
            trim_start(chars@.subrange(a as int, to as int)) == trim_start(whole),
        decreases to - a,
    {
        proof {
            assert(chars@.subrange(a as int, to as int).skip(1) =~= chars@.subrange(
                a + 1,
                to as int,
            ));
        }
        a = a + 1;
    }
    let ghost front = chars@.subrange(a as int, to as int);
    proof {
        assert(front == trim_start(whole));
    }
    let mut b: usize = to;
    while a < b && is_whitespace(chars[b - 1])
        invariant
            from <= a <= b <= to <= chars@.len(),
            trim_end(chars@.subrange(a as int, b as int)) == trim_end(front),
        decreases b,
    {
        proof {
            assert(chars@.subrange(a as int, b as int).drop_last() =~= chars@.subrange(
                a as int,
                b - 1,
            ));
        }
        b = b - 1;
    }
    (a, b)
}

/// What the `Debug` form of a string is.
pub uninterp spec fn debug_text(s: Seq<char>) -> Seq<char>;

/// The `Debug` form of `str`, as `format!` writes it for `{:?}`: the text in
/// double quotes with special characters escaped. It depends on the text
/// alone and is left unspecified beyond that.
#[verifier::external_body]
pub(crate) fn debug_str(s: &str) -> (r: String)
    ensures
        r@ == debug_text(s@),
{
    format!("{s:?}")
}

/// What [`std::str::Utf8Error`] says of bytes that are not UTF-8.
pub uninterp spec fn utf8_error_text(bytes: Seq<u8>) -> Seq<char>;

/// `std::str::from_utf8` accepts exactly the valid UTF-8 sequences and gives
/// their text. For any other input the wording of its error depends on the
/// bytes alone and is left unspecified beyond that.
#[verifier::external_body]
pub(crate) fn utf8_text(bytes: &[u8]) -> (r: Result<String, String>)
    ensures
        r is Ok <==> vstd::utf8::valid_utf8(bytes@),
        r matches Ok(s) ==> s@ == vstd::utf8::decode_utf8(bytes@),
        r matches Err(e) ==> e@ == utf8_error_text(bytes@),
{
    match std::str::from_utf8(bytes) {
        Ok(s) => Ok(s.to_owned()),
        Err(e) => Err(e.to_string()),
    }
}

/// Texts one after the other, with `sep` between them.
pub open spec fn join(list: Seq<Seq<char>>, sep: Seq<char>) -> Seq<char>
    decreases list.len(),
{
    if list.len() == 0 {
        seq![]
    } else if list.len() == 1 {
        list[0]
    } else {
        join(list.drop_last(), sep) + sep + list.last()
    }
}

/// Whether `a` comes before `b` in the order of strings.
pub open spec fn before(a: Seq<char>, b: Seq<char>) -> bool
    decreases a.len(),
{
    if b.len() == 0 {
        false
    } else if a.len() == 0 {
        true
    } else if a[0] != b[0] {
        a[0] < b[0]
    } else {
        before(a.skip(1), b.skip(1))
    }
}

/// The order of strings is one: of two different texts one comes before the
/// other, and no text before itself.
pub proof fn law_text_order_is_total(a: Seq<char>, b: Seq<char>)
    ensures
        a == b || before(a, b) || before(b, a),
        !before(a, a),
        !(before(a, b) && before(b, a)),
    decreases a.len(),
{
    if a.len() > 0 && b.len() > 0 {
        law_text_order_is_total(a.skip(1), b.skip(1));
        if a[0] == b[0] && a.skip(1) == b.skip(1) {
            assert(a =~= seq![a[0]] + a.skip(1));
            assert(b =~= seq![b[0]] + b.skip(1));
        }
    } else if a.len() == 0 && b.len() == 0 {
        assert(a =~= b);
    } else if a.len() > 0 {
        law_text_order_is_total(a.skip(1), a.skip(1));
    }
}

/// The order of strings is transitive.
pub proof fn law_text_order_is_transitive(a: Seq<char>, b: Seq<char>, c: Seq<char>)
    requires
        before(a, b),
        before(b, c),
    ensures
        before(a, c),
    decreases a.len(),
{
    if a.len() > 0 && a[0] == b[0] && b[0] == c[0] {
        law_text_order_is_transitive(a.skip(1), b.skip(1), c.skip(1));
    }
}

/// The number of a character.
fn code_point(c: char) -> (r: u32)
    ensures
        r as int == c as int,
{
    c as u32
}

/// Does `a` come before `b` in the order of strings?
pub(crate) fn is_before(a: &str, b: &str) -> (r: bool)
    ensures
        r == before(a@, b@),
{
    let x: Vec<char> = chars_of(a);
    let y: Vec<char> = chars_of(b);
    let mut i: usize = 0;
    proof {
        assert(x@.skip(0) =~= a@);
        assert(y@.skip(0) =~= b@);
    }
    while i < x.len() && i < y.len()
        invariant
            i <= x@.len(),
            i <= y@.len(),
            before(a@, b@) == before(x@.skip(i as int), y@.skip(i as int)),
        decreases x@.len() - i,
    {
        let p: char = x[i];
        let q: char = y[i];
        if p != q {
            return code_point(p) < code_point(q);
        }
        proof {
            assert(x@.skip(i as int).skip(1) =~= x@.skip(i + 1));
            assert(y@.skip(i as int).skip(1) =~= y@.skip(i + 1));
        }
        i = i + 1;
    }
    i < y.len()
}

/// Is the text nothing but white space?
pub(crate) fn is_blank(s: &str) -> (r: bool)
    ensures
        r == (trimmed(s@).len() == 0),
{
    let chars: Vec<char> = chars_of(s);
    let (a, b) = trim(&chars, 0, chars.len());
    proof {
        assert(chars@.subrange(0, chars@.len() as int) =~= s@);
    }
    a == b
}

/// The number that a text of digits stands for, read from the left: each
/// further digit counts the ones before it `radix` times.
pub open spec fn read_number(s: Seq<char>, digits: Seq<char>) -> int
    decreases s.len(),
{
    if s.len() == 0 {
        0
    } else {
        read_number(s.drop_last(), digits) * digits.len() + digits.index_of(s.last())
    }
}

/// A digit stands where it counts.
proof fn lemma_digit_index(d: nat)
    ensures
        d < 10 ==> "0123456789"@.index_of(digit_char(d)) == d && "0123456789"@.len() == 10,
        d < 16 ==> "0123456789abcdef"@.index_of(digit_char(d)) == d && "0123456789abcdef"@.len()
            == 16,
        d < 10 ==> "0123456789"@.contains(digit_char(d)),
        d < 16 ==> "0123456789abcdef"@.contains(digit_char(d)),
        d < 16 ==> (digit_char(d) == '0' <==> d == 0),
{
    reveal_strlit("0123456789");
    reveal_strlit("0123456789abcdef");
    if d < 10 {
        let t = "0123456789"@;
        assert(t[d as int] == digit_char(d));
        assert(t.contains(digit_char(d)));
        assert(t[t.index_of(digit_char(d))] == digit_char(d));
    }
    if d < 16 {
        let t = "0123456789abcdef"@;
        assert(t[d as int] == digit_char(d));
        assert(t.contains(digit_char(d)));
        assert(t[t.index_of(digit_char(d))] == digit_char(d));
    }
}

/// A number in base ten reads back as itself; it is made of decimal digits,
/// and starts with a zero only where it is zero.
pub proof fn law_decimal_reads_back(n: nat)
    ensures
        read_number(decimal(n), "0123456789"@) == n,
        decimal(n).len() >= 1,
        forall|i: int| 0 <= i < decimal(n).len() ==> "0123456789"@.contains(#[trigger] decimal(n)[i]),
        decimal(n)[0] == '0' <==> n == 0,
    decreases n,
{
    let t = "0123456789"@;
    lemma_digit_index(n % 10);
    let s = decimal(n);
    if n < 10 {
        assert(s.drop_last() =~= seq![]);
        assert(read_number(s.drop_last(), t) == 0);
    } else {
        law_decimal_reads_back(n / 10);
        let head = decimal(n / 10);
        assert(s.drop_last() =~= head);
        assert(s[0] == head[0]);
        assert forall|i: int| 0 <= i < s.len() implies t.contains(#[trigger] s[i]) by {
            if i < head.len() {
                assert(s[i] == head[i]);
            }
        }
    }
}

/// A number in base sixteen reads back as itself; it is made of hex digits of
/// lower case, and starts with a zero only where it is zero.
pub proof fn law_hex_number_reads_back(n: nat)
    ensures
        read_number(hex(n), "0123456789abcdef"@) == n,
        hex(n).len() >= 1,
        n >= 16 ==> hex(n).len() >= 2,
        forall|i: int| 0 <= i < hex(n).len() ==> "0123456789abcdef"@.contains(#[trigger] hex(n)[i]),
        hex(n)[0] == '0' <==> n == 0,
    decreases n,
{
    let t = "0123456789abcdef"@;
    lemma_digit_index(n % 16);
    let s = hex(n);
    if n < 16 {
        assert(s.drop_last() =~= seq![]);
        assert(read_number(s.drop_last(), t) == 0);
    } else {
        law_hex_number_reads_back(n / 16);
        let head = hex(n / 16);
        assert(s.drop_last() =~= head);
        assert(s[0] == head[0]);
        assert forall|i: int| 0 <= i < s.len() implies t.contains(#[trigger] s[i]) by {
            if i < head.len() {
                assert(s[i] == head[i]);
            }
        }
    }
}

/// What stands behind the `0x` of a byte and of a number reads back as it: two
/// digits for a byte, and at least two for a number.
pub proof fn law_prefixed_hex_reads_back(b: u8, n: nat)
    ensures
        hex_byte(b).len() == 4 && hex_byte(b)[0] == '0' && hex_byte(b)[1] == 'x',
        hex_byte(b)[2] == "0123456789abcdef"@[b as int / 16],
        hex_byte(b)[3] == "0123456789abcdef"@[b as int % 16],
        hex_prefixed(n).len() >= 4 && hex_prefixed(n)[0] == '0' && hex_prefixed(n)[1] == 'x',
        read_number(hex_prefixed(n).skip(2), "0123456789abcdef"@) == n,
        n >= 16 ==> hex_prefixed(n)[2] != '0',
        n < 16 ==> hex_prefixed(n).len() == 4,
{
    let t = "0123456789abcdef"@;
    reveal_strlit("0123456789abcdef");
    law_hex_number_reads_back(n);
    lemma_digit_index(0);
    lemma_digit_index(n);
    let s = hex_prefixed(n).skip(2);
    if n < 16 {
        assert(s =~= seq!['0', digit_char(n)]);
        assert(s.drop_last() =~= seq!['0']);
        assert(s.drop_last().drop_last() =~= seq![]);
        assert(read_number(s.drop_last().drop_last(), t) == 0);
        assert(read_number(s.drop_last(), t) == 0);
    } else {
        assert(s =~= hex(n));
    }
}

/// A number with a sign: a minus in front of what the number without it is.
pub proof fn law_minus_goes_in_front(n: int)
    ensures
        n >= 0 ==> read_number(signed_decimal(n), "0123456789"@) == n && signed_decimal(n)[0] != '-',
        n < 0 ==> signed_decimal(n)[0] == '-' && read_number(
            signed_decimal(n).skip(1),
            "0123456789"@,
        ) == -n,
{
    reveal_strlit("0123456789");
    if n < 0 {
        law_decimal_reads_back((-n) as nat);
        assert(signed_decimal(n).skip(1) =~= decimal((-n) as nat));
    } else {
        law_decimal_reads_back(n as nat);
        assert("0123456789"@.contains(decimal(n as nat)[0]));
    }
}

/// Trimming takes away white space on either side and nothing else: what is
/// left stands in the text between nothing but white space, and neither starts
/// nor ends with any.
pub proof fn law_trimming_takes_white_space_only(s: Seq<char>) -> (cut: (int, int))
    ensures
        ({
            let (a, b) = cut;
            &&& 0 <= a <= b <= s.len()
            &&& trimmed(s) == s.subrange(a, b)
            &&& forall|i: int| 0 <= i < a ==> whitespace(#[trigger] s[i])
            &&& forall|i: int| b <= i < s.len() ==> whitespace(#[trigger] s[i])
            &&& a < b ==> !whitespace(s[a]) && !whitespace(s[b - 1])
        }),
{
    let a = lemma_trim_start(s);
    let rest = s.skip(a);
    let n = lemma_trim_end(rest);
    assert(rest.take(n) =~= s.subrange(a, a + n));
    assert forall|i: int| a + n <= i < s.len() implies whitespace(#[trigger] s[i]) by {
        assert(rest[i - a] == s[i]);
    }
    if n > 0 {
        assert(rest[n - 1] == s[a + n - 1]);
        assert(rest[0] == s[a]);
    }
    (a, a + n)
}

/// Where the text at the front starts.
proof fn lemma_trim_start(s: Seq<char>) -> (a: int)
    ensures
        0 <= a <= s.len(),
        trim_start(s) == s.skip(a),
        forall|i: int| 0 <= i < a ==> whitespace(#[trigger] s[i]),
        a < s.len() ==> !whitespace(s[a]),
    decreases s.len(),
{
    if s.len() > 0 && whitespace(s[0]) {
        let a = lemma_trim_start(s.skip(1));
        assert(s.skip(1).skip(a) =~= s.skip(a + 1));
        assert forall|i: int| 0 <= i < a + 1 implies whitespace(#[trigger] s[i]) by {
            if i > 0 {
                assert(s.skip(1)[i - 1] == s[i]);
            }
        }
        if a < s.skip(1).len() {
            assert(s.skip(1)[a] == s[a + 1]);
        }
        a + 1
    } else {
        assert(s.skip(0) =~= s);
        0
    }
}

/// Where the text at the end stops.
proof fn lemma_trim_end(s: Seq<char>) -> (n: int)
    ensures
        0 <= n <= s.len(),
        trim_end(s) == s.take(n),
        forall|i: int| n <= i < s.len() ==> whitespace(#[trigger] s[i]),
        n > 0 ==> !whitespace(s[n - 1]),
    decreases s.len(),
{
    if s.len() > 0 && whitespace(s.last()) {
        let n = lemma_trim_end(s.drop_last());
        assert(s.drop_last().take(n) =~= s.take(n));
        assert forall|i: int| n <= i < s.len() implies whitespace(#[trigger] s[i]) by {
            if i < s.len() - 1 {
                assert(s.drop_last()[i] == s[i]);
            }
        }
        if n > 0 {
            assert(s.drop_last()[n - 1] == s[n - 1]);
        }
        n
    } else {
        assert(s.take(s.len() as int) =~= s);
        s.len() as int
    }
}

/// Joining: nothing comes to nothing and one text to itself, and two lists
/// joined are both joined with the separator between them.
pub proof fn law_joining(a: Seq<Seq<char>>, b: Seq<Seq<char>>, one: Seq<char>, sep: Seq<char>)
    ensures
        join(seq![], sep) == Seq::<char>::empty(),
        join(seq![one], sep) == one,
        a.len() > 0 && b.len() > 0 ==> join(a + b, sep) == join(a, sep) + sep + join(b, sep),
    decreases b.len(),
{
    if a.len() > 0 && b.len() > 0 {
        let all = a + b;
        if b.len() == 1 {
            assert(all.drop_last() =~= a);
            assert(all.last() == b[0]);
        } else {
            law_joining(a, b.drop_last(), one, sep);
            assert(all.drop_last() =~= a + b.drop_last());
            assert(join(all, sep) =~= join(a, sep) + sep + join(b, sep));
        }
    }
}

/// Texts are ordered by the first character in which they differ, and one that
/// ends there comes first.
pub proof fn law_first_difference_decides(a: Seq<char>, b: Seq<char>, k: int)
    requires
        0 <= k <= a.len(),
        k <= b.len(),
        forall|i: int| 0 <= i < k ==> a[i] == b[i],
    ensures
        k == a.len() && k < b.len() ==> before(a, b),
        k == b.len() ==> !before(a, b),
        k < a.len() && k < b.len() && a[k] < b[k] ==> before(a, b),
        k < a.len() && k < b.len() && b[k] < a[k] ==> !before(a, b),
    decreases k,
{
    if k > 0 {
        assert(a[0] == b[0]);
        assert forall|i: int| 0 <= i < k - 1 implies a.skip(1)[i] == b.skip(1)[i] by {
            assert(a[i + 1] == b[i + 1]);
        }
        law_first_difference_decides(a.skip(1), b.skip(1), k - 1);
    }
}

/// Whether a message is a number in base ten between those texts.
pub open spec fn says_number(message: Seq<char>, front: Seq<char>, n: int, back: Seq<char>) -> bool {
    exists|d: Seq<char>|
        message == front + d + back && read_number(d, "0123456789"@) == n && is_number(d)
}

/// Whether a text is decimal digits without a zero too many.
pub open spec fn is_number(d: Seq<char>) -> bool {
    &&& d.len() >= 1
    &&& forall|i: int| 0 <= i < d.len() ==> "0123456789"@.contains(#[trigger] d[i])
    &&& d[0] == '0' ==> d.len() == 1
}

/// A number in base ten is said by a message that has it between two texts.
pub(crate) proof fn lemma_says_number(message: Seq<char>, front: Seq<char>, n: nat, back: Seq<char>)
    requires
        message == front + decimal(n) + back,
    ensures
        says_number(message, front, n as int, back),
{
    law_decimal_reads_back(n);
    let d = decimal(n);
    assert(d[0] == '0' ==> d.len() == 1);
    assert(message == front + d + back && read_number(d, "0123456789"@) == n && is_number(d));
}

/// Which characters are white space: of ASCII the blank and the five controls
/// from the tabulator to the carriage return; beyond it next line, the spaces
/// of the typographers and the two separators; and no others.
pub proof fn law_what_white_space_is(c: char)
    ensures
        (c as int) < 0x80 ==> (whitespace(c) <==> c as int == 32 || 9 <= c as int <= 13),
        (c as int) >= 0x80 ==> (whitespace(c) <==> c as int == 133 || c as int == 160 || c as int
            == 5760 || 8192 <= c as int <= 8202 || c as int == 8232 || c as int == 8233 || c as int
            == 8239 || c as int == 8287 || c as int == 12288),
{
}

} // verus!
