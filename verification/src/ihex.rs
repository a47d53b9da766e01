//! Minimal Intel-HEX parser: `:llaaaatt[dd..]cc`, record types 00 (data) and
//! 01 (EOF) only, checksum verified, extended-address records rejected with
//! the offending line number.
//!
//! The app region lives at offset 0 of a 16-bit address space, so anything
//! that needs extended addressing is a wrong file. Gaps between data records
//! are filled with `0xFF`, the erased-flash value.

use vstd::prelude::*;
use vstd::string::*;

use crate::hex::{decode_hex, HexError};
use crate::text::{chars_of, push_decimal, push_hex_byte, text_of, trim};

verus! {

/// Why a file is not accepted; `line` counts from one.
#[derive(Debug)]
pub enum IhexError<H = HexError> {
    /// A record follows the EOF record.
    AfterEof { line: usize },
    /// A record does not start with a colon.
    NoColon { line: usize },
    /// The digits of a record are not hex bytes.
    Digits { line: usize, error: H },
    /// A record has fewer bytes than its header.
    TooShort { line: usize, len: usize },
    /// A record ends before its checksum.
    NoChecksum { line: usize },
    /// A record carries another number of data bytes than it declares.
    Length { line: usize, declared: u8, carried: usize },
    /// The bytes of a record do not sum to zero.
    Checksum { line: usize },
    /// An extended-address record.
    ExtendedAddress { line: usize, rtype: u8 },
    /// A record of any other type than data and EOF.
    RecordType { line: usize, rtype: u8 },
    /// There is no EOF record.
    MissingEof,
}

impl View for IhexError {
    type V = IhexError<crate::hex::HexErrorSpec>;

    open spec fn view(&self) -> IhexError<crate::hex::HexErrorSpec> {
        match self {
            IhexError::AfterEof { line } => IhexError::AfterEof { line: *line },
            IhexError::NoColon { line } => IhexError::NoColon { line: *line },
            IhexError::Digits { line, error } => IhexError::Digits { line: *line, error: error@ },
            IhexError::TooShort { line, len } => IhexError::TooShort { line: *line, len: *len },
            IhexError::NoChecksum { line } => IhexError::NoChecksum { line: *line },
            IhexError::Length { line, declared, carried } => IhexError::Length {
                line: *line,
                declared: *declared,
                carried: *carried,
            },
            IhexError::Checksum { line } => IhexError::Checksum { line: *line },
            IhexError::ExtendedAddress { line, rtype } => IhexError::ExtendedAddress {
                line: *line,
                rtype: *rtype,
            },
            IhexError::RecordType { line, rtype } => IhexError::RecordType {
                line: *line,
                rtype: *rtype,
            },
            IhexError::MissingEof => IhexError::MissingEof,
        }
    }
}

/// How a message about a line starts.
pub open spec fn line_prefix(line: usize) -> Seq<char> {
    "line "@ + crate::text::decimal(line as nat) + ": "@
}

/// What [`IhexError::message`] says.
pub open spec fn message_of(e: IhexError<crate::hex::HexErrorSpec>) -> Seq<char> {
    match e {
        IhexError::AfterEof { line } => line_prefix(line) + "record after EOF record"@,
        IhexError::NoColon { line } => line_prefix(line) + "record does not start with ':'"@,
        IhexError::Digits { line, error } => line_prefix(line) + crate::hex::message_of(
            error,
            "invalid hex digits "@,
        ),
        IhexError::TooShort { line, len } => line_prefix(line) + "record too short ("@
            + crate::text::decimal(len as nat) + " bytes, need at least 5)"@,
        IhexError::NoChecksum { line } => line_prefix(line)
            + "record too short (missing checksum)"@,
        IhexError::Length { line, declared, carried } => line_prefix(line) + "length field says "@
            + crate::text::decimal(declared as nat) + " data byte(s) but record carries "@
            + crate::text::decimal(carried as nat),
        IhexError::Checksum { line } => line_prefix(line) + "checksum mismatch"@,
        IhexError::ExtendedAddress { line, rtype } => line_prefix(line)
            + "extended address record (type "@ + crate::text::hex_byte(rtype)
            + ") is not supported — the updater image must fit 16-bit addresses starting at 0"@,
        IhexError::RecordType { line, rtype } => line_prefix(line) + "unsupported record type "@
            + crate::text::hex_byte(rtype),
        IhexError::MissingEof => "missing EOF record (:00000001FF)"@,
    }
}

/// Appends the start of a message about a line.
fn push_line(out: &mut String, line: usize)
    ensures
        final(out)@ == old(out)@ + line_prefix(line),
{
    out.append("line ");
    push_decimal(out, line as u64);
    out.append(": ");
    proof {
        assert(final(out)@ =~= old(out)@ + line_prefix(line));
    }
}

impl IhexError {
    /// The error in words.
    pub fn message(&self) -> (r: String)
        ensures
            r@ == message_of(self@),
    {
        let mut out = String::new();
        match self {
            IhexError::AfterEof { line } => {
                push_line(&mut out, *line);
                out.append("record after EOF record");
            },
            IhexError::NoColon { line } => {
                push_line(&mut out, *line);
                out.append("record does not start with ':'");
            },
            IhexError::Digits { line, error } => {
                push_line(&mut out, *line);
                out.append(error.message("invalid hex digits ").as_str());
            },
            IhexError::TooShort { line, len } => {
                push_line(&mut out, *line);
                out.append("record too short (");
                push_decimal(&mut out, *len as u64);
                out.append(" bytes, need at least 5)");
            },
            IhexError::NoChecksum { line } => {
                push_line(&mut out, *line);
                out.append("record too short (missing checksum)");
            },
            IhexError::Length { line, declared, carried } => {
                push_line(&mut out, *line);
                out.append("length field says ");
                push_decimal(&mut out, *declared as u64);
                out.append(" data byte(s) but record carries ");
                push_decimal(&mut out, *carried as u64);
            },
            IhexError::Checksum { line } => {
                push_line(&mut out, *line);
                out.append("checksum mismatch");
            },
            IhexError::ExtendedAddress { line, rtype } => {
                push_line(&mut out, *line);
                out.append("extended address record (type ");
                push_hex_byte(&mut out, *rtype);
                out.append(
                    ") is not supported — the updater image must fit 16-bit addresses starting at 0",
                );
            },
            IhexError::RecordType { line, rtype } => {
                push_line(&mut out, *line);
                out.append("unsupported record type ");
                push_hex_byte(&mut out, *rtype);
            },
            IhexError::MissingEof => {
                out.append("missing EOF record (:00000001FF)");
            },
        }
        proof {
            assert(out@ =~= message_of(self@));
        }
        out
    }
}

/// The lines of a text: what stands between its line feeds.
pub open spec fn lines_of(text: Seq<char>) -> Seq<Seq<char>>
    decreases text.len(),
{
    if text.len() == 0 {
        seq![seq![]]
    } else {
        let before = lines_of(text.drop_last());
        if text.last() == '\n' {
            before.push(seq![])
        } else {
            before.drop_last().push(before.last().push(text.last()))
        }
    }
}

/// What the records read so far come to.
pub ghost struct Parsed {
    /// The binary, from address zero on.
    pub out: Seq<u8>,
    /// Whether the EOF record was seen.
    pub eof: bool,
}

/// The sum of all bytes.
pub open spec fn byte_sum(bytes: Seq<u8>) -> int
    decreases bytes.len(),
{
    if bytes.len() == 0 {
        0
    } else {
        byte_sum(bytes.drop_last()) + bytes.last()
    }
}

/// A binary with `data` laid over it at `addr`; what neither covers is `0xFF`.
pub open spec fn overlaid(out: Seq<u8>, addr: int, data: Seq<u8>) -> Seq<u8> {
    Seq::new(
        if out.len() < addr + data.len() {
            (addr + data.len()) as nat
        } else {
            out.len()
        },
        |i: int|
            if addr <= i < addr + data.len() {
                data[i - addr]
            } else if i < out.len() {
                out[i]
            } else {
                0xFF
            },
    )
}

/// What the bytes of one record on line `line` add.
pub open spec fn after_record(p: Parsed, bytes: Seq<u8>, line: usize) -> Result<
    Parsed,
    IhexError<crate::hex::HexErrorSpec>,
> {
    let data = bytes.subrange(4, bytes.len() - 1);
    let addr = 256 * bytes[1] + bytes[2];
    let rtype = bytes[3];
    if bytes.len() < 4 {
        Err(IhexError::TooShort { line, len: bytes.len() as usize })
    } else if bytes.len() == 4 {
        Err(IhexError::NoChecksum { line })
    } else if data.len() != bytes[0] {
        Err(IhexError::Length { line, declared: bytes[0], carried: data.len() as usize })
    } else if byte_sum(bytes) % 256 != 0 {
        Err(IhexError::Checksum { line })
    } else if rtype == 0 {
        Ok(Parsed { out: overlaid(p.out, addr, data), ..p })
    } else if rtype == 1 {
        Ok(Parsed { eof: true, ..p })
    } else if rtype == 2 || rtype == 4 {
        Err(IhexError::ExtendedAddress { line, rtype })
    } else {
        Err(IhexError::RecordType { line, rtype })
    }
}

/// What line `line` adds. White space around a record and blank lines do not
/// matter.
pub open spec fn after_line(p: Parsed, raw: Seq<char>, line: usize) -> Result<
    Parsed,
    IhexError<crate::hex::HexErrorSpec>,
> {
    let text = crate::text::trimmed(raw);
    if text.len() == 0 {
        Ok(p)
    } else if p.eof {
        Err(IhexError::AfterEof { line })
    } else if text[0] != ':' {
        Err(IhexError::NoColon { line })
    } else {
        match crate::hex::decoded(text.skip(1)) {
            Err(error) => Err(IhexError::Digits { line, error }),
            Ok(bytes) => after_record(p, bytes, line),
        }
    }
}

/// What lines come to, up to the first bad one.
pub open spec fn after_lines(lines: Seq<Seq<char>>) -> Result<
    Parsed,
    IhexError<crate::hex::HexErrorSpec>,
>
    decreases lines.len(),
{
    if lines.len() == 0 {
        Ok(Parsed { out: seq![], eof: false })
    } else {
        match after_lines(lines.drop_last()) {
            Err(e) => Err(e),
            Ok(p) => after_line(p, lines.last(), lines.len() as usize),
        }
    }
}

/// What a whole file comes to.
pub open spec fn parse_result(text: Seq<char>) -> Result<
    Seq<u8>,
    IhexError<crate::hex::HexErrorSpec>,
> {
    match after_lines(lines_of(text)) {
        Err(e) => Err(e),
        Ok(p) => if p.eof {
            Ok(p.out)
        } else {
            Err(IhexError::MissingEof)
        },
    }
}

/// Do the bytes sum to a multiple of 256?
fn sums_to_zero(bytes: &Vec<u8>) -> (r: bool)
    ensures
        r == (byte_sum(bytes@) % 256 == 0),
{
    let mut sum: u8 = 0;
    let mut i: usize = 0;
    while i < bytes.len()
        invariant
            i <= bytes@.len(),
            sum == byte_sum(bytes@.take(i as int)) % 256,
        decreases bytes@.len() - i,
    {
        proof {
            assert(bytes@.take(i + 1).drop_last() =~= bytes@.take(i as int));
        }
        sum = sum.wrapping_add(bytes[i]);
        i = i + 1;
    }
    proof {
        assert(bytes@.take(i as int) =~= bytes@);
    }
    sum == 0
}

/// Lays `bytes[4..end]` over `out` at `addr`.
fn overlay(out: &mut Vec<u8>, addr: usize, bytes: &Vec<u8>, end: usize)
    requires
        4 <= end <= bytes@.len(),
        addr <= 0xFFFF,
        end <= 0x1_0000,
    ensures
        final(out)@ == overlaid(old(out)@, addr as int, bytes@.subrange(4, end as int)),
{
    let count: usize = end - 4;
    while out.len() < addr + count
        invariant
            addr <= 0xFFFF,
            count <= 0x1_0000,
            old(out)@.len() <= out@.len(),
            out@.len() <= addr + count || out@.len() == old(out)@.len(),
            forall|j: int| 0 <= j < old(out)@.len() ==> out@[j] == old(out)@[j],
            forall|j: int| old(out)@.len() <= j < out@.len() ==> out@[j] == 0xFF,
        decreases addr + count - out@.len(),
    {
        out.push(0xFF);
    }
    let ghost filled = out@;
    let mut i: usize = 0;
    while i < count
        invariant
            i <= count,
            count == end - 4,
            end <= bytes@.len(),
            addr <= 0xFFFF,
            count <= 0x1_0000,
            addr + count <= out@.len(),
            out@.len() == filled.len(),
            forall|j: int| addr <= j < addr + i ==> out@[j] == bytes@[4 + j - addr],
            forall|j: int|
                0 <= j < out@.len() && !(addr <= j < addr + i) ==> out@[j] == filled[j],
        decreases count - i,
    {
        out.set(addr + i, bytes[4 + i]);
        i = i + 1;
    }
    proof {
        let data = bytes@.subrange(4, end as int);
        let want = overlaid(old(out)@, addr as int, data);
        assert(out@.len() == want.len());
        assert forall|j: int| 0 <= j < want.len() implies out@[j] == want[j] by {
            if addr <= j < addr + count {
                assert(data[j - addr] == bytes@[4 + j - addr]);
            } else {
                assert(out@[j] == filled[j]);
            }
        }
        assert(out@ =~= overlaid(old(out)@, addr as int, bytes@.subrange(4, end as int)));
    }
}

/// A binary under construction.
struct Parser {
    out: Vec<u8>,
    eof: bool,
}

impl View for Parser {
    type V = Parsed;

    closed spec fn view(&self) -> Parsed {
        Parsed { out: self.out@, eof: self.eof }
    }
}

impl Parser {
    /// Takes the bytes of one record.
    fn record(&mut self, bytes: &Vec<u8>, line: usize) -> (r: Result<(), IhexError>)
        ensures
            match after_record(old(self)@, bytes@, line) {
                Ok(p) => r is Ok && final(self)@ == p,
                Err(e) => r is Err && r->Err_0@ == e,
            },
    {
        if bytes.len() < 4 {
            return Err(IhexError::TooShort { line, len: bytes.len() });
        }
        if bytes.len() == 4 {
            return Err(IhexError::NoChecksum { line });
        }
        let end: usize = bytes.len() - 1;
        let carried: usize = end - 4;
        let declared: u8 = bytes[0];
        if carried != declared as usize {
            return Err(IhexError::Length { line, declared, carried });
        }
        if !sums_to_zero(bytes) {
            return Err(IhexError::Checksum { line });
        }
        let addr: usize = 256 * bytes[1] as usize + bytes[2] as usize;
        let rtype: u8 = bytes[3];
        if rtype == 0 {
            overlay(&mut self.out, addr, bytes, end);
            Ok(())
        } else if rtype == 1 {
            self.eof = true;
            Ok(())
        } else if rtype == 2 || rtype == 4 {
            Err(IhexError::ExtendedAddress { line, rtype })
        } else {
            Err(IhexError::RecordType { line, rtype })
        }
    }

    /// Takes the line in characters `from..to` of `chars`.
    fn line(&mut self, chars: &Vec<char>, from: usize, to: usize, line: usize) -> (r: Result<
        (),
        IhexError,
    >)
        requires
            from <= to <= chars@.len(),
        ensures
            match after_line(old(self)@, chars@.subrange(from as int, to as int), line) {
                Ok(p) => r is Ok && final(self)@ == p,
                Err(e) => r is Err && r->Err_0@ == e,
            },
    {
        let (a, b) = trim(chars, from, to);
        if a == b {
            return Ok(());
        }
        if self.eof {
            return Err(IhexError::AfterEof { line });
        }
        if chars[a] != ':' {
            return Err(IhexError::NoColon { line });
        }
        let digits: String = text_of(chars, a + 1, b);
        proof {
            assert(digits@ =~= chars@.subrange(a as int, b as int).skip(1));
        }
        match decode_hex(digits.as_str()) {
            Err(error) => Err(IhexError::Digits { line, error }),
            Ok(bytes) => self.record(&bytes, line),
        }
    }
}

/// A bad line fails everything that starts with it.
proof fn lemma_lines_fail(
    lines: Seq<Seq<char>>,
    n: int,
    e: IhexError<crate::hex::HexErrorSpec>,
)
    requires
        0 <= n <= lines.len(),
        after_lines(lines.take(n)) == Err::<Parsed, IhexError<crate::hex::HexErrorSpec>>(e),
    ensures
        after_lines(lines) == Err::<Parsed, IhexError<crate::hex::HexErrorSpec>>(e),
    decreases lines.len(),
{
    if n == lines.len() {
        assert(lines.take(n) =~= lines);
    } else {
        assert(lines.drop_last().take(n) =~= lines.take(n));
        lemma_lines_fail(lines.drop_last(), n, e);
    }
}

/// More text keeps the lines that are already ended.
proof fn lemma_lines_grow(text: Seq<char>, k: int)
    requires
        0 <= k <= text.len(),
    ensures
        1 <= lines_of(text.take(k)).len() <= lines_of(text).len(),
        lines_of(text.take(k)).drop_last() == lines_of(text).take(
            lines_of(text.take(k)).len() - 1,
        ),
        lines_of(text).len() <= text.len() + 1,
    decreases text.len() - k,
{
    lemma_lines_some(text.take(k));
    if k == text.len() {
        assert(text.take(k) =~= text);
        assert(lines_of(text).drop_last() =~= lines_of(text).take(lines_of(text).len() - 1));
    } else {
        lemma_lines_grow(text, k + 1);
        let next = text.take(k + 1);
        assert(next.drop_last() =~= text.take(k));
        let before = lines_of(text.take(k));
        let after = lines_of(next);
        if next.last() == '\n' {
            assert(after.drop_last() =~= before);
            assert(before.drop_last() =~= after.drop_last().take(before.len() - 1));
            assert(lines_of(text).take(after.len() - 1).take(before.len() - 1)
                =~= lines_of(text).take(before.len() - 1));
        } else {
            assert(after.drop_last() =~= before.drop_last());
        }
    }
}

/// There is always a line, and no more lines than characters and one.
proof fn lemma_lines_some(text: Seq<char>)
    ensures
        1 <= lines_of(text).len() <= text.len() + 1,
    decreases text.len(),
{
    if text.len() > 0 {
        lemma_lines_some(text.drop_last());
    }
}

/// Parses Intel HEX into a raw binary that starts at address 0.
///
/// # Errors
///
/// The first line that is not a blank one or an acceptable record, by its
/// number; or that there is no EOF record.
pub fn parse(text: &str) -> (r: Result<Vec<u8>, IhexError>)
    ensures
        match parse_result(text@) {
            Ok(bytes) => r is Ok && r->Ok_0@ == bytes,
            Err(e) => r is Err && r->Err_0@ == e,
        },
{
    let chars: Vec<char> = chars_of(text);
    let ghost all = lines_of(text@);
    let mut parser: Parser = Parser { out: Vec::new(), eof: false };
    let mut start: usize = 0;
    let mut ended: usize = 0;
    let mut i: usize = 0;
    proof {
        assert(text@.take(0) =~= Seq::<char>::empty());
        assert(lines_of(text@.take(0)).drop_last() =~= Seq::<Seq<char>>::empty());
        assert(chars@.subrange(0, 0) =~= Seq::<char>::empty());
        assert(parser.out@ =~= Seq::<u8>::empty());
    }
    while i < chars.len()
        invariant
            start <= i <= chars@.len(),
            chars@ == text@,
            all == lines_of(text@),
            lines_of(text@.take(i as int)).len() == ended + 1,
            ended <= start,
            lines_of(text@.take(i as int)).last() == chars@.subrange(start as int, i as int),
            after_lines(lines_of(text@.take(i as int)).drop_last()) == Ok::<
                Parsed,
                IhexError<crate::hex::HexErrorSpec>,
            >(parser@),
        decreases chars@.len() - i,
    {
        let ghost before = lines_of(text@.take(i as int));
        let ghost next = lines_of(text@.take(i + 1));
        proof {
            assert(text@.take(i + 1).drop_last() =~= text@.take(i as int));
            assert(text@.take(i + 1).last() == chars@[i as int]);
        }
        if chars[i] == '\n' {
            let res = parser.line(&chars, start, i, ended + 1);
            proof {
                assert(next.drop_last() =~= before);
            }
            match res {
                Ok(()) => {},
                Err(e) => {
                    proof {
                        lemma_lines_grow(text@, i + 1);
                        assert(before =~= all.take(ended + 1));
                        lemma_lines_fail(all, ended + 1, e@);
                    }
                    return Err(e);
                },
            }
            start = i + 1;
            ended = ended + 1;
            proof {
                assert(chars@.subrange(start as int, i + 1) =~= Seq::<char>::empty());
            }
        } else {
            proof {
                assert(next.drop_last() =~= before.drop_last());
                assert(chars@.subrange(start as int, i + 1) =~= chars@.subrange(
                    start as int,
                    i as int,
                ).push(chars@[i as int]));
            }
        }
        i = i + 1;
    }
    proof {
        assert(text@.take(i as int) =~= text@);
    }
    if start < chars.len() {
        match parser.line(&chars, start, i, ended + 1) {
            Ok(()) => {},
            Err(e) => return Err(e),
        }
    } else {
        // Nothing follows the last line feed.
        assert(crate::text::trimmed(Seq::<char>::empty()).len() == 0);
    }
    if parser.eof {
        Ok(parser.out)
    } else {
        Err(IhexError::MissingEof)
    }
}

/// Records may come in any order: data at disjoint addresses gives the same
/// binary either way.
pub proof fn law_disjoint_records_commute(
    out: Seq<u8>,
    a: int,
    x: Seq<u8>,
    b: int,
    y: Seq<u8>,
)
    requires
        0 <= a,
        0 <= b,
        a + x.len() <= b || b + y.len() <= a,
    ensures
        overlaid(overlaid(out, a, x), b, y) == overlaid(overlaid(out, b, y), a, x),
{
    assert(overlaid(overlaid(out, a, x), b, y) =~= overlaid(overlaid(out, b, y), a, x));
}

/// White space behind a record, the carriage return of a line ending among
/// it, does not matter.
pub proof fn law_trailing_white_space_is_ignored(p: Parsed, raw: Seq<char>, c: char, line: usize)
    requires
        crate::text::whitespace(c),
    ensures
        after_line(p, raw.push(c), line) == after_line(p, raw, line),
{
    lemma_trim_pushed(raw, c);
}

/// Trimming leaves white space at the end out.
proof fn lemma_trim_pushed(s: Seq<char>, c: char)
    requires
        crate::text::whitespace(c),
    ensures
        crate::text::trimmed(s.push(c)) == crate::text::trimmed(s),
    decreases s.len(),
{
    let t = s.push(c);
    if s.len() == 0 {
        assert(t.skip(1) =~= Seq::<char>::empty());
        assert(s =~= Seq::<char>::empty());
        assert(crate::text::trim_start(t) == crate::text::trim_start(t.skip(1)));
    } else {
        assert(t[0] == s[0]);
        if crate::text::whitespace(s[0]) {
            assert(t.skip(1) =~= s.skip(1).push(c));
            lemma_trim_pushed(s.skip(1), c);
        } else {
            assert(t.drop_last() =~= s);
            assert(t.last() == c);
        }
    }
}

/// Every line that was read is blank or a colon and hex digits.
proof fn lemma_records_are_hex(lines: Seq<Seq<char>>, k: int)
    requires
        after_lines(lines) is Ok,
        0 <= k < lines.len(),
    ensures
        ({
            let text = crate::text::trimmed(lines[k]);
            text.len() == 0 || (text[0] == ':' && crate::hex::is_hex_text(text.skip(1)))
        }),
    decreases lines.len(),
{
    if k < lines.len() - 1 {
        lemma_records_are_hex(lines.drop_last(), k);
        assert(lines.drop_last()[k] == lines[k]);
    } else {
        crate::hex::law_only_hex_digits_are_decoded(crate::text::trimmed(lines[k]).skip(1));
    }
}

/// A file that is accepted holds hex digits only: each of its lines is blank
/// or a colon and an even number of them.
pub proof fn law_accepted_records_are_hex(text: Seq<char>, k: int)
    requires
        parse_result(text) is Ok,
        0 <= k < lines_of(text).len(),
    ensures
        ({
            let line = crate::text::trimmed(lines_of(text)[k]);
            line.len() == 0 || (line[0] == ':' && crate::hex::is_hex_text(line.skip(1)))
        }),
{
    lemma_records_are_hex(lines_of(text), k);
}

/// A binary fits the 16-bit address space and the longest record at its end.
proof fn lemma_size(lines: Seq<Seq<char>>)
    ensures
        after_lines(lines) matches Ok(p) ==> p.out.len() <= 0xFFFF + 0xFF,
    decreases lines.len(),
{
    if lines.len() > 0 {
        lemma_size(lines.drop_last());
    }
}

/// No file gives more than what 16-bit addresses and the longest record can
/// reach.
pub proof fn law_binary_is_bounded(text: Seq<char>)
    ensures
        parse_result(text) matches Ok(out) ==> out.len() <= 0xFFFF + 0xFF,
{
    lemma_size(lines_of(text));
}

/// The bytes of the record on a line, where there is one.
pub open spec fn record_on(line: Seq<char>) -> Option<Seq<u8>> {
    let text = crate::text::trimmed(line);
    if text.len() > 0 && text[0] == ':' {
        match crate::hex::decoded(text.skip(1)) {
            Ok(bytes) => Some(bytes),
            Err(_) => None,
        }
    } else {
        None
    }
}

/// Bytes added up, from the first on.
pub open spec fn added_up(bytes: Seq<u8>) -> int
    decreases bytes.len(),
{
    if bytes.len() == 0 {
        0
    } else {
        bytes[0] + added_up(bytes.skip(1))
    }
}

/// Bytes add up from either end.
proof fn lemma_added_up(bytes: Seq<u8>)
    ensures
        added_up(bytes) == byte_sum(bytes),
    decreases bytes.len(),
{
    if bytes.len() == 1 {
        assert(bytes.skip(1) =~= seq![]);
        assert(bytes.drop_last() =~= seq![]);
        assert(added_up(bytes.skip(1)) == 0);
        assert(byte_sum(bytes.drop_last()) == 0);
    } else if bytes.len() > 1 {
        let mid = bytes.skip(1).drop_last();
        lemma_added_up(bytes.skip(1));
        lemma_added_up(bytes.drop_last());
        lemma_added_up(mid);
        assert(bytes.drop_last().skip(1) =~= mid);
        assert(byte_sum(bytes.skip(1)) == byte_sum(mid) + bytes.last());
        assert(added_up(bytes.drop_last()) == bytes[0] + added_up(mid));
    }
}

/// Whether a record is whole: the count of data bytes, two bytes of address,
/// the type, the data and a last byte with which all of them add up to a
/// multiple of 256. Data is type 0 and the end of the file type 1.
pub open spec fn is_whole(rec: Seq<u8>) -> bool {
    &&& rec.len() >= 5
    &&& rec.len() == rec[0] + 5
    &&& added_up(rec) % 256 == 0
    &&& rec[3] <= 1
}

/// Whether a line is blank or holds a whole record.
pub open spec fn is_good(line: Seq<char>) -> bool {
    crate::text::trimmed(line).len() == 0 || (record_on(line) matches Some(rec) && is_whole(rec))
}

/// Whether a line is the end of the file.
pub open spec fn is_end(line: Seq<char>) -> bool {
    record_on(line) matches Some(rec) && is_whole(rec) && rec[3] == 1
}

/// Whether a line is a data record.
pub open spec fn is_data(line: Seq<char>) -> bool {
    record_on(line) matches Some(rec) && is_whole(rec) && rec[3] == 0
}

/// The address of a record: its second byte counts for 256.
pub open spec fn address_on(line: Seq<char>) -> int {
    256 * record_on(line)->0[1] + record_on(line)->0[2]
}

/// Where the data of a record ends.
pub open spec fn end_on(line: Seq<char>) -> int {
    address_on(line) + record_on(line)->0[0]
}

/// Whether the data of a line lies over the address `a`.
pub open spec fn covers(line: Seq<char>, a: int) -> bool {
    is_data(line) && address_on(line) <= a < end_on(line)
}

/// The byte that a line puts at the address `a`.
pub open spec fn byte_on(line: Seq<char>, a: int) -> u8 {
    record_on(line)->0[4 + a - address_on(line)]
}

/// Nothing stands behind the end of the file.
pub open spec fn ends_last(lines: Seq<Seq<char>>) -> bool {
    forall|i: int, j: int|
        0 <= i < j < lines.len() && is_end(#[trigger] lines[i]) ==> crate::text::trimmed(
            #[trigger] lines[j],
        ).len() == 0
}

/// Which lines are accepted, and whether the end of the file is among them.
proof fn lemma_accepted_lines(lines: Seq<Seq<char>>)
    ensures
        after_lines(lines) is Ok <==> ends_last(lines) && forall|k: int|
            0 <= k < lines.len() ==> is_good(#[trigger] lines[k]),
        after_lines(lines) matches Ok(p) ==> (p.eof <==> exists|k: int|
            0 <= k < lines.len() && is_end(#[trigger] lines[k])),
    decreases lines.len(),
{
    if lines.len() > 0 {
        let front = lines.drop_last();
        let n = lines.len() - 1;
        let last = lines.last();
        lemma_accepted_lines(front);
        assert forall|k: int| 0 <= k < n implies front[k] == lines[k] by {}
        if let Some(rec) = record_on(last) {
            lemma_added_up(rec);
        }
        let text = crate::text::trimmed(last);
        assert(lines[n] == last);
        if after_lines(lines) is Ok {
            let p = after_lines(front)->Ok_0;
            assert forall|k: int| 0 <= k < lines.len() implies is_good(#[trigger] lines[k]) by {
                if k < n {
                    assert(is_good(front[k]));
                }
            }
            assert forall|i: int, j: int|
                0 <= i < j < lines.len() && is_end(#[trigger] lines[i]) implies crate::text::trimmed(
                #[trigger] lines[j],
            ).len() == 0 by {
                assert(front[i] == lines[i]);
                if j < n {
                    assert(front[j] == lines[j]);
                } else {
                    assert(is_end(front[i]));
                    assert(p.eof);
                }
            }
            if p.eof {
                let k = choose|k: int| 0 <= k < front.len() && is_end(#[trigger] front[k]);
                assert(is_end(lines[k]));
            }
            if is_end(last) {
                assert(is_end(lines[n]));
            }
            let q = after_lines(lines)->Ok_0;
            if exists|k: int| 0 <= k < lines.len() && is_end(#[trigger] lines[k]) {
                let k = choose|k: int| 0 <= k < lines.len() && is_end(#[trigger] lines[k]);
                if k < n {
                    assert(is_end(front[k]));
                }
                assert(q.eof);
            }
            if q.eof && !p.eof {
                assert(is_end(last));
            }
        }
        if ends_last(lines) && forall|k: int| 0 <= k < lines.len() ==> is_good(#[trigger] lines[k]) {
            assert(ends_last(front)) by {
                assert forall|i: int, j: int|
                    0 <= i < j < front.len() && is_end(
                        #[trigger] front[i],
                    ) implies crate::text::trimmed(#[trigger] front[j]).len() == 0 by {
                    assert(is_end(lines[i]));
                    assert(lines[j] == front[j]);
                }
            }
            assert forall|k: int| 0 <= k < front.len() implies is_good(#[trigger] front[k]) by {
                assert(is_good(lines[k]));
            }
            assert(is_good(lines[n]));
            let p = after_lines(front)->Ok_0;
            if text.len() > 0 && p.eof {
                let k = choose|k: int| 0 <= k < front.len() && is_end(#[trigger] front[k]);
                assert(is_end(lines[k]));
                assert(crate::text::trimmed(lines[n]).len() == 0);
            }
            assert(after_lines(lines) is Ok);
        }
    }
}

/// A file is accepted if and only if each of its lines is blank or a whole
/// record, the end of the file is among them, and nothing but blank lines
/// follows it.
pub proof fn law_which_files_are_accepted(text: Seq<char>)
    ensures
        parse_result(text) is Ok <==> {
            let lines = lines_of(text);
            &&& forall|k: int| 0 <= k < lines.len() ==> is_good(#[trigger] lines[k])
            &&& exists|k: int| 0 <= k < lines.len() && is_end(#[trigger] lines[k])
            &&& ends_last(lines)
        },
{
    lemma_accepted_lines(lines_of(text));
}

/// What lines put at an address: the last one that lies over it decides.
proof fn lemma_last_line_decides(lines: Seq<Seq<char>>, k: int, a: int)
    requires
        after_lines(lines) is Ok,
        0 <= k < lines.len(),
        covers(lines[k], a),
        forall|l: int| k < l < lines.len() ==> !covers(#[trigger] lines[l], a),
    ensures
        a < after_lines(lines)->Ok_0.out.len(),
        after_lines(lines)->Ok_0.out[a] == byte_on(lines[k], a),
    decreases lines.len(),
{
    let front = lines.drop_last();
    let n = lines.len() - 1;
    if let Some(rec) = record_on(lines.last()) {
        lemma_added_up(rec);
    }
    if k < n {
        assert(front[k] == lines[k]);
        assert forall|l: int| k < l < front.len() implies !covers(#[trigger] front[l], a) by {
            assert(front[l] == lines[l]);
        }
        lemma_last_line_decides(front, k, a);
        assert(!covers(lines[n], a));
    }
}

/// What no line lies over is erased flash.
proof fn lemma_gaps_are_erased(lines: Seq<Seq<char>>, a: int)
    requires
        after_lines(lines) is Ok,
        0 <= a < after_lines(lines)->Ok_0.out.len(),
        forall|l: int| 0 <= l < lines.len() ==> !covers(#[trigger] lines[l], a),
    ensures
        after_lines(lines)->Ok_0.out[a] == 0xFF,
    decreases lines.len(),
{
    if lines.len() > 0 {
        let front = lines.drop_last();
        let n = lines.len() - 1;
        if let Some(rec) = record_on(lines.last()) {
            lemma_added_up(rec);
        }
        assert(!covers(lines[n], a));
        assert forall|l: int| 0 <= l < front.len() implies !covers(#[trigger] front[l], a) by {
            assert(front[l] == lines[l]);
        }
        if a < after_lines(front)->Ok_0.out.len() {
            lemma_gaps_are_erased(front, a);
        }
    }
}

/// How far lines reach.
proof fn lemma_reach(lines: Seq<Seq<char>>)
    requires
        after_lines(lines) is Ok,
    ensures
        forall|k: int|
            0 <= k < lines.len() && is_data(#[trigger] lines[k]) ==> end_on(lines[k]) <= after_lines(
                lines,
            )->Ok_0.out.len(),
        after_lines(lines)->Ok_0.out.len() == 0 || exists|k: int|
            0 <= k < lines.len() && is_data(#[trigger] lines[k]) && end_on(lines[k]) == after_lines(
                lines,
            )->Ok_0.out.len(),
    decreases lines.len(),
{
    if lines.len() > 0 {
        let front = lines.drop_last();
        let n = lines.len() - 1;
        let p = after_lines(front)->Ok_0;
        let q = after_lines(lines)->Ok_0;
        lemma_reach(front);
        if let Some(rec) = record_on(lines.last()) {
            lemma_added_up(rec);
        }
        assert(lines[n] == lines.last());
        assert forall|k: int| 0 <= k < lines.len() && is_data(#[trigger] lines[k]) implies end_on(
            lines[k],
        ) <= q.out.len() by {
            if k < n {
                assert(front[k] == lines[k]);
            }
        }
        if q.out.len() == p.out.len() && p.out.len() != 0 {
            let k = choose|k: int|
                0 <= k < front.len() && is_data(#[trigger] front[k]) && end_on(front[k])
                    == p.out.len();
            assert(is_data(lines[k]) && end_on(lines[k]) == q.out.len());
        } else if q.out.len() != 0 {
            assert(is_data(lines[n]) && end_on(lines[n]) == q.out.len());
        }
    }
}

/// Every data byte of an accepted file is in the binary: byte `j` of the data
/// on line `k` stands at that record's address and `j` more, unless a later
/// record lies over it.
pub proof fn law_every_data_byte_is_in_the_binary(text: Seq<char>, k: int, j: int)
    requires
        parse_result(text) is Ok,
        0 <= k < lines_of(text).len(),
        is_data(lines_of(text)[k]),
        0 <= j < record_on(lines_of(text)[k])->0[0],
        forall|l: int|
            k < l < lines_of(text).len() ==> !covers(
                #[trigger] lines_of(text)[l],
                address_on(lines_of(text)[k]) + j,
            ),
    ensures
        ({
            let rec = record_on(lines_of(text)[k])->0;
            let a = 256 * rec[1] + rec[2] + j;
            a < parse_result(text)->Ok_0.len() && parse_result(text)->Ok_0[a] == rec[4 + j]
        }),
{
    lemma_last_line_decides(lines_of(text), k, address_on(lines_of(text)[k]) + j);
}

/// The binary holds nothing else: it ends where the furthest record does, and
/// what no record lies over is erased flash.
pub proof fn law_nothing_else_is_in_the_binary(text: Seq<char>, a: int)
    requires
        parse_result(text) is Ok,
    ensures
        ({
            let lines = lines_of(text);
            let out = parse_result(text)->Ok_0;
            &&& forall|k: int|
                0 <= k < lines.len() && is_data(#[trigger] lines[k]) ==> end_on(lines[k])
                    <= out.len()
            &&& out.len() == 0 || exists|k: int|
                0 <= k < lines.len() && is_data(#[trigger] lines[k]) && end_on(lines[k])
                    == out.len()
            &&& 0 <= a < out.len() && (forall|k: int|
                0 <= k < lines.len() ==> !covers(#[trigger] lines[k], a)) ==> out[a] == 0xFF
        }),
{
    lemma_reach(lines_of(text));
    if 0 <= a < parse_result(text)->Ok_0.len() && (forall|k: int|
        0 <= k < lines_of(text).len() ==> !covers(#[trigger] lines_of(text)[k], a)) {
        lemma_gaps_are_erased(lines_of(text), a);
    }
}

/// Lines written one behind the other with a line feed between each two.
pub open spec fn with_line_feeds(lines: Seq<Seq<char>>) -> Seq<char>
    decreases lines.len(),
{
    if lines.len() == 0 {
        seq![]
    } else if lines.len() == 1 {
        lines[0]
    } else {
        with_line_feeds(lines.drop_last()).push('\n') + lines.last()
    }
}

/// The lines of a text are what its line feeds part: none holds one, and with
/// one between each two they are the text again.
pub proof fn law_lines_are_what_line_feeds_part(text: Seq<char>)
    ensures
        lines_of(text).len() >= 1,
        with_line_feeds(lines_of(text)) == text,
        forall|k: int| 0 <= k < lines_of(text).len() ==> !(#[trigger] lines_of(text)[k]).contains('\n'),
    decreases text.len(),
{
    let lines = lines_of(text);
    if text.len() == 0 {
        assert(with_line_feeds(lines) =~= text);
    } else {
        let front = text.drop_last();
        let before = lines_of(front);
        law_lines_are_what_line_feeds_part(front);
        if text.last() == '\n' {
            assert(lines.drop_last() =~= before);
            assert(with_line_feeds(lines) =~= text);
            assert forall|k: int| 0 <= k < lines.len() implies !(#[trigger] lines[k]).contains('\n') by {
                if k < before.len() {
                    assert(lines[k] == before[k]);
                }
            }
        } else {
            assert(lines.drop_last() =~= before.drop_last());
            assert(lines.last() == before.last().push(text.last()));
            if before.len() == 1 {
                assert(lines.len() == 1);
                assert(before.last() == front);
                assert(with_line_feeds(lines) =~= text);
            } else {
                let head = with_line_feeds(before.drop_last()).push('\n');
                assert(front == head + before.last());
                assert(with_line_feeds(lines) == head + lines.last());
                assert(text =~= front.push(text.last()));
                assert(head + before.last().push(text.last()) =~= (head + before.last()).push(
                    text.last(),
                ));
                assert(with_line_feeds(lines) == text);
            }
            assert forall|k: int| 0 <= k < lines.len() implies !(#[trigger] lines[k]).contains('\n') by {
                if k < before.len() - 1 {
                    assert(lines[k] == before[k]);
                } else {
                    assert(before[k] == before.last());
                    if lines[k].contains('\n') {
                        let i = choose|i: int| 0 <= i < lines[k].len() && lines[k][i] == '\n';
                        assert(before.last()[i] == '\n');
                    }
                }
            }
        }
    }
}

/// The line that an error is about; the missing end of the file is about none.
pub open spec fn line_of_error(e: IhexError<crate::hex::HexErrorSpec>) -> Option<usize> {
    match e {
        IhexError::AfterEof { line } => Some(line),
        IhexError::NoColon { line } => Some(line),
        IhexError::Digits { line, .. } => Some(line),
        IhexError::TooShort { line, .. } => Some(line),
        IhexError::NoChecksum { line } => Some(line),
        IhexError::Length { line, .. } => Some(line),
        IhexError::Checksum { line } => Some(line),
        IhexError::ExtendedAddress { line, .. } => Some(line),
        IhexError::RecordType { line, .. } => Some(line),
        IhexError::MissingEof => None,
    }
}

/// The error of lines is about the first one, counted from one, up to which
/// they are not accepted.
pub proof fn law_first_bad_line_is_named(lines: Seq<Seq<char>>)
    requires
        lines.len() <= usize::MAX,
    ensures
        after_lines(lines) matches Err(e) ==> exists|k: int|
            0 <= k < lines.len() && line_of_error(e) == Some((k + 1) as usize) && after_lines(
                #[trigger] lines.take(k),
            ) is Ok && after_lines(lines.take(k + 1)) is Err,
    decreases lines.len(),
{
    if lines.len() > 0 && after_lines(lines) is Err {
        let e = after_lines(lines)->Err_0;
        let front = lines.drop_last();
        let n = lines.len() - 1;
        law_first_bad_line_is_named(front);
        assert(front =~= lines.take(n));
        if after_lines(front) is Err {
            let k = choose|k: int|
                0 <= k < front.len() && line_of_error(e) == Some((k + 1) as usize) && after_lines(
                    #[trigger] front.take(k),
                ) is Ok && after_lines(front.take(k + 1)) is Err;
            assert(front.take(k) =~= lines.take(k));
            assert(front.take(k + 1) =~= lines.take(k + 1));
            assert(after_lines(lines.take(k)) is Ok);
        } else {
            assert(lines.take(n + 1) =~= lines);
            assert(after_lines(lines.take(n)) is Ok);
        }
    }
}

/// What is wrong with a record, in the order in which it is looked at: too few
/// bytes, no checksum, another number of data bytes than it says, a sum that
/// is no multiple of 256, and a type other than 0 and 1, of which 2 and 4 are
/// extended addresses.
pub proof fn law_what_is_wrong_with_a_record(p: Parsed, rec: Seq<u8>, line: usize)
    requires
        rec.len() <= usize::MAX,
    ensures
        after_record(p, rec, line) is Ok <==> is_whole(rec),
        after_record(p, rec, line) matches Err(e) ==> (match e {
            IhexError::TooShort { line: l, len } => l == line && len == rec.len() && len < 4,
            IhexError::NoChecksum { line: l } => l == line && rec.len() == 4,
            IhexError::Length { line: l, declared, carried } => l == line && rec.len() >= 5
                && declared == rec[0] && carried == rec.len() - 5 && declared != carried,
            IhexError::Checksum { line: l } => l == line && rec.len() == rec[0] + 5 && added_up(rec)
                % 256 != 0,
            IhexError::ExtendedAddress { line: l, rtype } => l == line && rec.len() == rec[0] + 5
                && added_up(rec) % 256 == 0 && rtype == rec[3] && (rtype == 2 || rtype == 4),
            IhexError::RecordType { line: l, rtype } => l == line && rec.len() == rec[0] + 5
                && added_up(rec) % 256 == 0 && rtype == rec[3] && (rtype == 3 || rtype > 4),
            _ => false,
        }),
{
    lemma_added_up(rec);
}

/// Every message but that of the missing end starts with its line.
pub proof fn law_messages_start_with_the_line(e: IhexError<crate::hex::HexErrorSpec>)
    ensures
        line_of_error(e) matches Some(line) ==> exists|back: Seq<char>|
            #[trigger] crate::text::says_number(message_of(e), "line "@, line as int, ": "@ + back),
        e matches IhexError::Length { line, declared, carried } ==> message_of(e) == "line "@
            + crate::text::decimal(line as nat) + ": length field says "@ + crate::text::decimal(
            declared as nat,
        ) + " data byte(s) but record carries "@ + crate::text::decimal(carried as nat),
{
    if let Some(line) = line_of_error(e) {
        let m = message_of(e);
        let head = line_prefix(line);
        let back = m.skip(head.len() as int);
        assert(m =~= head + back);
        assert(m =~= "line "@ + crate::text::decimal(line as nat) + (": "@ + back));
        crate::text::lemma_says_number(m, "line "@, line as nat, ": "@ + back);
    }
    if let IhexError::Length { line, declared, carried } = e {
        reveal_strlit(": ");
        reveal_strlit("length field says ");
        reveal_strlit(": length field says ");
        assert(": "@ + "length field says "@ =~= ": length field says "@);
        let n = crate::text::decimal(line as nat);
        let x = crate::text::decimal(declared as nat);
        let y = " data byte(s) but record carries "@;
        let z = crate::text::decimal(carried as nat);
        assert("line "@ + n + ": "@ + "length field says "@ =~= "line "@ + n
            + ": length field says "@);
        assert(message_of(e) == "line "@ + n + ": "@ + "length field says "@ + x + y + z);
    }
}

} // verus!
