//! The grammar of the text format, at the specification level.
//!
//! [`json_chars`] gives the canonical encoding of a document value;
//! [`spec_parse`] gives the meaning of an arbitrary input text.  The
//! executable serializer and parser are each proved against these, and
//! [`lemma_parse_canonical`] closes the loop: parsing a canonical encoding
//! of a well-formed value yields that value back.

use vstd::prelude::*;

use crate::value::{NumberModel, ValueModel};

verus! {

// ---------------------------------------------------------------------------
// Character helpers
// ---------------------------------------------------------------------------

/// JSON insignificant whitespace.
pub open spec fn is_ws(c: char) -> bool {
    c == ' ' || c == '\t' || c == '\n' || c == '\r'
}

pub open spec fn is_digit(c: char) -> bool {
    48 <= c as u32 && c as u32 <= 57
}

/// The character for decimal digit `d`.
pub open spec fn digit_char(d: int) -> char {
    ((48 + d) as u8) as char
}

/// The lower-case hex character for `d` in `0 .. 16`.
pub open spec fn hex_char(d: int) -> char {
    if d < 10 {
        digit_char(d)
    } else {
        ((87 + d) as u8) as char
    }
}

/// Decimal digits of `n`, most significant first.
pub open spec fn dec_chars(n: nat) -> Seq<char>
    decreases n,
{
    if n < 10 {
        seq![digit_char(n as int)]
    } else {
        dec_chars(n / 10).push(digit_char((n % 10) as int))
    }
}

/// Canonical text of a number: non-negative integers in plain decimal,
/// negative ones with a leading minus.
pub open spec fn number_chars(m: NumberModel) -> Seq<char> {
    match m {
        NumberModel::U64(n) => dec_chars(n as nat),
        NumberModel::I64(i) => if i < 0 {
            seq!['-'] + dec_chars((-(i as int)) as nat)
        } else {
            dec_chars(i as nat)
        },
    }
}

// ---------------------------------------------------------------------------
// String escaping
// ---------------------------------------------------------------------------

/// How one character is written inside a quoted string: the named escapes,
/// a `\u00XX` escape for the remaining control characters, the character
/// itself otherwise.
pub open spec fn escape_char(c: char) -> Seq<char> {
    if c == '"' {
        seq!['\\', '"']
    } else if c == '\\' {
        seq!['\\', '\\']
    } else if c == '\u{8}' {
        seq!['\\', 'b']
    } else if c == '\t' {
        seq!['\\', 't']
    } else if c == '\n' {
        seq!['\\', 'n']
    } else if c == '\u{c}' {
        seq!['\\', 'f']
    } else if c == '\r' {
        seq!['\\', 'r']
    } else if (c as u32) < 0x20 {
        seq!['\\', 'u', '0', '0', hex_char(c as u32 as int / 16), hex_char(c as u32 as int % 16)]
    } else {
        seq![c]
    }
}

/// A character that is written as itself.
pub open spec fn is_plain_char(c: char) -> bool {
    c != '"' && c != '\\' && (c as u32) >= 0x20
}

/// The escaped form of a whole string.
pub open spec fn escape_str(s: Seq<char>) -> Seq<char>
    decreases s.len(),
{
    if s.len() == 0 {
        Seq::empty()
    } else {
        escape_char(s[0]) + escape_str(s.drop_first())
    }
}

// ---------------------------------------------------------------------------
// Binary payloads as hex strings
// ---------------------------------------------------------------------------

/// Lower-case hex digits of a byte sequence.
pub open spec fn hex_chars(b: Seq<u8>) -> Seq<char>
    decreases b.len(),
{
    if b.len() == 0 {
        Seq::empty()
    } else {
        seq![hex_char(b[0] as int / 16), hex_char(b[0] as int % 16)] + hex_chars(b.drop_first())
    }
}

/// Content of the quoted string a binary payload becomes: the `#` sigil,
/// one `--` pair per two units of alignment, then the bytes in hex.
pub open spec fn bin_content(bytes: Seq<u8>, align: usize) -> Seq<char> {
    seq!['#'] + Seq::new((2 * (align as int / 2)) as nat, |i: int| '-') + hex_chars(bytes)
}

// ---------------------------------------------------------------------------
// Canonical encoding of a value
// ---------------------------------------------------------------------------

/// Canonical text of a value: no insignificant whitespace, object fields in
/// their stored order, keys written verbatim.
pub open spec fn json_chars(v: ValueModel) -> Seq<char>
    decreases v,
{
    match v {
        ValueModel::Null => seq!['n', 'u', 'l', 'l'],
        ValueModel::Bool(b) => if b {
            seq!['t', 'r', 'u', 'e']
        } else {
            seq!['f', 'a', 'l', 's', 'e']
        },
        ValueModel::Number(m) => number_chars(m),
        ValueModel::Str(s) => seq!['"'] + escape_str(s) + seq!['"'],
        ValueModel::Binary { bytes, align } => seq!['"'] + bin_content(bytes, align) + seq!['"'],
        ValueModel::Array(es) => seq!['['] + json_list(es) + seq![']'],
        ValueModel::Object(fs) => seq!['{'] + json_fields(fs) + seq!['}'],
    }
}

/// Comma-separated canonical texts of the elements of an array.
pub open spec fn json_list(es: Seq<ValueModel>) -> Seq<char>
    decreases es,
{
    if es.len() == 0 {
        Seq::empty()
    } else if es.len() == 1 {
        json_chars(es[0])
    } else {
        json_chars(es[0]) + seq![','] + json_list(es.drop_first())
    }
}

/// Comma-separated canonical texts of the fields of an object.
pub open spec fn json_fields(fs: Seq<(Seq<char>, ValueModel)>) -> Seq<char>
    decreases fs,
{
    if fs.len() == 0 {
        Seq::empty()
    } else if fs.len() == 1 {
        seq!['"'] + fs[0].0 + seq!['"', ':'] + json_chars(fs[0].1)
    } else {
        seq!['"'] + fs[0].0 + seq!['"', ':'] + json_chars(fs[0].1) + seq![','] + json_fields(
            fs.drop_first(),
        )
    }
}

// ---------------------------------------------------------------------------
// Well-formedness for round-tripping
// ---------------------------------------------------------------------------

/// A key is written verbatim, so it round-trips exactly when every one of
/// its characters is written as itself.
pub open spec fn key_ok(k: Seq<char>) -> bool {
    forall|i: int| 0 <= i < k.len() ==> is_plain_char(#[trigger] k[i])
}

/// Values whose canonical text parses back to the same value: negative
/// numbers only use the signed variant, strings do not begin with the
/// binary sigil, binary alignments are representable as a dash run.
pub open spec fn wf_value(v: ValueModel) -> bool
    decreases v,
{
    match v {
        ValueModel::Null => true,
        ValueModel::Bool(b) => true,
        ValueModel::Number(m) => match m {
            NumberModel::U64(n) => true,
            NumberModel::I64(i) => i < 0,
        },
        ValueModel::Str(s) => s.len() == 0 || s[0] != '#',
        ValueModel::Binary { bytes, align } => align >= 1 && (align == 1 || align % 2 == 0),
        ValueModel::Array(es) => forall|i: int| 0 <= i < es.len() ==> wf_value(#[trigger] es[i]),
        ValueModel::Object(fs) => forall|i: int|
            0 <= i < fs.len() ==> key_ok(#[trigger] fs[i].0) && wf_value(fs[i].1),
    }
}

/// Escaping processes one character after the other.
pub proof fn lemma_escape_str_snoc(s: Seq<char>, i: int)
    requires
        0 <= i < s.len(),
    ensures
        escape_str(s.take(i + 1)) == escape_str(s.take(i)) + escape_char(s[i]),
    decreases i,
{
    if i == 0 {
        assert(s.take(1).drop_first() =~= Seq::<char>::empty());
        assert(s.take(0) =~= Seq::<char>::empty());
        assert(s.take(1)[0] == s[0]);
        assert(escape_str(s.take(1)) == escape_char(s[0]) + escape_str(Seq::<char>::empty()));
        assert(escape_char(s[0]) + Seq::<char>::empty() =~= escape_char(s[0]));
        assert(escape_str(s.take(i)) + escape_char(s[i]) =~= escape_char(s[0]));
    } else {
        lemma_escape_str_snoc(s.drop_first(), i - 1);
        assert(s.take(i + 1).drop_first() =~= s.drop_first().take(i));
        assert(s.take(i).drop_first() =~= s.drop_first().take(i - 1));
        assert(s.drop_first()[i - 1] == s[i]);
        assert(escape_str(s.take(i + 1)) == escape_char(s[0]) + escape_str(s.drop_first().take(i)));
        assert(escape_str(s.take(i)) == escape_char(s[0]) + escape_str(s.drop_first().take(i - 1)));
        assert(escape_char(s[0]) + (escape_str(s.drop_first().take(i - 1)) + escape_char(s[i]))
            =~= (escape_char(s[0]) + escape_str(s.drop_first().take(i - 1))) + escape_char(s[i]));
    }
}

/// Hex encoding processes one byte after the other.
pub proof fn lemma_hex_chars_snoc(b: Seq<u8>, i: int)
    requires
        0 <= i < b.len(),
    ensures
        hex_chars(b.take(i + 1)) == hex_chars(b.take(i)) + seq![
            hex_char(b[i] as int / 16),
            hex_char(b[i] as int % 16),
        ],
    decreases i,
{
    let two = seq![hex_char(b[i] as int / 16), hex_char(b[i] as int % 16)];
    if i == 0 {
        assert(b.take(1).drop_first() =~= Seq::<u8>::empty());
        assert(b.take(0) =~= Seq::<u8>::empty());
        assert(b.take(1)[0] == b[0]);
        assert(hex_chars(b.take(1)) == seq![
            hex_char(b.take(1)[0] as int / 16),
            hex_char(b.take(1)[0] as int % 16),
        ] + hex_chars(Seq::<u8>::empty()));
        assert(two + Seq::<char>::empty() =~= two);
        assert(hex_chars(b.take(0)) + two =~= two);
    } else {
        lemma_hex_chars_snoc(b.drop_first(), i - 1);
        assert(b.take(i + 1).drop_first() =~= b.drop_first().take(i));
        assert(b.take(i).drop_first() =~= b.drop_first().take(i - 1));
        assert(b.drop_first()[i - 1] == b[i]);
        let head = seq![hex_char(b[0] as int / 16), hex_char(b[0] as int % 16)];
        assert(hex_chars(b.take(i + 1)) == head + hex_chars(b.drop_first().take(i)));
        assert(hex_chars(b.take(i)) == head + hex_chars(b.drop_first().take(i - 1)));
        assert(head + (hex_chars(b.drop_first().take(i - 1)) + two) =~= (head + hex_chars(
            b.drop_first().take(i - 1),
        )) + two);
    }
}

// ---------------------------------------------------------------------------
// Scanning: the atoms of the grammar
// ---------------------------------------------------------------------------

/// First index at or after `i` holding a non-whitespace character.
pub open spec fn skip_ws(s: Seq<char>, i: int) -> int
    decreases s.len() - i,
{
    if 0 <= i < s.len() && is_ws(s[i]) {
        skip_ws(s, i + 1)
    } else {
        i
    }
}

/// Value of a hex digit, or `-1`.
pub open spec fn hex_val(c: char) -> int {
    if is_digit(c) {
        c as u32 as int - 48
    } else if 97 <= c as u32 && c as u32 <= 102 {
        c as u32 as int - 87
    } else if 65 <= c as u32 && c as u32 <= 70 {
        c as u32 as int - 55
    } else {
        -1
    }
}

/// Value of the four hex digits at `i`, or `-1`.
pub open spec fn hex4_val(s: Seq<char>, i: int) -> int {
    if 0 <= i && i + 4 <= s.len() && hex_val(s[i]) >= 0 && hex_val(s[i + 1]) >= 0 && hex_val(
        s[i + 2],
    ) >= 0 && hex_val(s[i + 3]) >= 0 {
        4096 * hex_val(s[i]) + 256 * hex_val(s[i + 1]) + 16 * hex_val(s[i + 2]) + hex_val(s[i + 3])
    } else {
        -1
    }
}

/// A code point that is a unicode scalar value: not a surrogate, at most
/// `0x10FFFF`.
pub open spec fn is_scalar_code(code: int) -> bool {
    (0 <= code < 0xD800) || (0xE000 <= code <= 0x10FFFF)
}

/// The character with code point `code`.
pub open spec fn char_from_code(code: int) -> char {
    (code as u32) as char
}

/// Prepends a character to the content of a successful string scan.
pub open spec fn scan_cons(c: char, rest: Option<(Seq<char>, int)>) -> Option<(Seq<char>, int)> {
    match rest {
        Some((cs, j)) => Some((seq![c] + cs, j)),
        None => None,
    }
}

/// Scans quoted string content beginning at `i` (just after the opening
/// quote): unescapes until the closing quote, rejecting raw control
/// characters, bad escapes and lone surrogates.  Returns the content and
/// the index just past the closing quote.
pub open spec fn scan_string(s: Seq<char>, i: int) -> Option<(Seq<char>, int)>
    decreases s.len() - i,
{
    if i < 0 || i >= s.len() {
        None
    } else {
        let c = s[i];
        if c == '"' {
            Some((Seq::empty(), i + 1))
        } else if c == '\\' {
            if i + 1 >= s.len() {
                None
            } else {
                let e = s[i + 1];
                if e == '"' || e == '\\' || e == '/' {
                    scan_cons(e, scan_string(s, i + 2))
                } else if e == 'b' {
                    scan_cons('\u{8}', scan_string(s, i + 2))
                } else if e == 't' {
                    scan_cons('\t', scan_string(s, i + 2))
                } else if e == 'n' {
                    scan_cons('\n', scan_string(s, i + 2))
                } else if e == 'f' {
                    scan_cons('\u{c}', scan_string(s, i + 2))
                } else if e == 'r' {
                    scan_cons('\r', scan_string(s, i + 2))
                } else if e == 'u' {
                    let code = hex4_val(s, i + 2);
                    if code < 0 {
                        None
                    } else if 0xD800 <= code < 0xDC00 {
                        if i + 12 <= s.len() && s[i + 6] == '\\' && s[i + 7] == 'u' {
                            let low = hex4_val(s, i + 8);
                            if 0xDC00 <= low < 0xE000 {
                                scan_cons(
                                    char_from_code(
                                        0x10000 + (code - 0xD800) * 0x400 + (low - 0xDC00),
                                    ),
                                    scan_string(s, i + 12),
                                )
                            } else {
                                None
                            }
                        } else {
                            None
                        }
                    } else if 0xDC00 <= code < 0xE000 {
                        None
                    } else {
                        scan_cons(char_from_code(code), scan_string(s, i + 6))
                    }
                } else {
                    None
                }
            }
        } else if (c as u32) < 0x20 {
            None
        } else {
            scan_cons(c, scan_string(s, i + 1))
        }
    }
}

/// First index at or after `i` holding a non-digit.
pub open spec fn digits_end(s: Seq<char>, i: int) -> int
    decreases s.len() - i,
{
    if 0 <= i < s.len() && is_digit(s[i]) {
        digits_end(s, i + 1)
    } else {
        i
    }
}

/// Numeric value of the digits in `s[i .. e)`.
pub open spec fn digits_val(s: Seq<char>, i: int, e: int) -> int
    decreases e - i,
{
    if i >= e {
        0
    } else {
        digits_val(s, i, e - 1) * 10 + (s[e - 1] as u32 as int - 48)
    }
}

/// Scans an integer literal at `i`.  A fraction or exponent makes the scan
/// fail: this library does not carry floating-point numbers.  A value
/// outside `u64` (or, negated, outside `i64`) fails too.
pub open spec fn scan_number(s: Seq<char>, i: int) -> Option<(NumberModel, int)> {
    if !(0 <= i < s.len()) {
        None
    } else {
        let neg = s[i] == '-';
        let j = if neg {
            i + 1
        } else {
            i
        };
        if !(j < s.len() && is_digit(s[j])) {
            None
        } else {
            let e = digits_end(s, j);
            if s[j] == '0' && e > j + 1 {
                None
            } else if e < s.len() && (s[e] == '.' || s[e] == 'e' || s[e] == 'E') {
                None
            } else {
                let m = digits_val(s, j, e);
                if neg {
                    if m > 0x8000000000000000 {
                        None
                    } else if m == 0x8000000000000000 {
                        Some((NumberModel::I64(i64::MIN), e))
                    } else {
                        Some((NumberModel::I64((-m) as i64), e))
                    }
                } else {
                    if m > u64::MAX {
                        None
                    } else {
                        Some((NumberModel::U64(m as u64), e))
                    }
                }
            }
        }
    }
}

/// First index at or after `i` that does not hold a dash.
pub open spec fn dashes_end(s: Seq<char>, i: int) -> int
    decreases s.len() - i,
{
    if 0 <= i < s.len() && s[i] == '-' {
        dashes_end(s, i + 1)
    } else {
        i
    }
}

/// Bytes of an even-length hex character sequence.
pub open spec fn hex_decode(cs: Seq<char>) -> Option<Seq<u8>>
    decreases cs.len(),
{
    if cs.len() == 0 {
        Some(Seq::empty())
    } else if cs.len() == 1 {
        None
    } else {
        let h = hex_val(cs[0]);
        let l = hex_val(cs[1]);
        if h < 0 || l < 0 {
            None
        } else {
            match hex_decode(cs.skip(2)) {
                Some(b) => Some(seq![(16 * h + l) as u8] + b),
                None => None,
            }
        }
    }
}

/// Reads a sigil-prefixed string content as a binary payload: a run of
/// dashes encoding the alignment, then the bytes in hex.
pub open spec fn reinterpret_bin(content: Seq<char>) -> Option<(Seq<u8>, usize)> {
    let d = dashes_end(content, 1) - 1;
    if d > usize::MAX {
        None
    } else {
        let align: usize = if d == 0 {
            1usize
        } else {
            d as usize
        };
        match hex_decode(content.skip(1 + d)) {
            Some(b) => Some((b, align)),
            None => None,
        }
    }
}

// ---------------------------------------------------------------------------
// Facts about the scanners
// ---------------------------------------------------------------------------

/// A successful string scan consumes at least the closing quote and stays
/// inside the input.
pub proof fn lemma_scan_string_advances(s: Seq<char>, i: int)
    ensures
        scan_string(s, i) matches Some((cs, j)) ==> i < j <= s.len(),
    decreases s.len() + 12 - i,
{
    if 0 <= i < s.len() {
        lemma_scan_string_advances(s, i + 1);
        lemma_scan_string_advances(s, i + 2);
        lemma_scan_string_advances(s, i + 6);
        lemma_scan_string_advances(s, i + 12);
    }
}

/// Everything before the digit run's end is a digit, and the end stays
/// inside the input.
pub proof fn lemma_digits_end(s: Seq<char>, i: int)
    requires
        0 <= i <= s.len(),
    ensures
        i <= digits_end(s, i) <= s.len(),
        forall|p: int| i <= p < digits_end(s, i) ==> is_digit(#[trigger] s[p]),
    decreases s.len() - i,
{
    if i < s.len() && is_digit(s[i]) {
        lemma_digits_end(s, i + 1);
    }
}

/// The value of a digit run is non-negative.
pub proof fn lemma_digits_val_nonneg(s: Seq<char>, i: int, e: int)
    requires
        forall|p: int| i <= p < e ==> is_digit(#[trigger] s[p]),
    ensures
        digits_val(s, i, e) >= 0,
    decreases e - i,
{
    if i < e {
        lemma_digits_val_nonneg(s, i, e - 1);
        assert(is_digit(s[e - 1]));
        assert(digits_val(s, i, e - 1) * 10 >= 0) by (nonlinear_arith)
            requires
                digits_val(s, i, e - 1) >= 0,
        ;
    }
}

/// The value of a digit run never shrinks as the run extends.
pub proof fn lemma_digits_val_mono(s: Seq<char>, i: int, e1: int, e2: int)
    requires
        i <= e1 <= e2,
        forall|p: int| i <= p < e2 ==> is_digit(#[trigger] s[p]),
    ensures
        0 <= digits_val(s, i, e1) <= digits_val(s, i, e2),
    decreases e2 - e1,
{
    lemma_digits_val_nonneg(s, i, e1);
    if e1 < e2 {
        lemma_digits_val_mono(s, i, e1, e2 - 1);
        assert(is_digit(s[e2 - 1]));
        assert(digits_val(s, i, e2) == digits_val(s, i, e2 - 1) * 10 + (s[e2 - 1] as u32 as int
            - 48));
        assert(digits_val(s, i, e2 - 1) * 10 >= digits_val(s, i, e2 - 1)) by (nonlinear_arith)
            requires
                digits_val(s, i, e2 - 1) >= 0,
        ;
    }
}

// ---------------------------------------------------------------------------
// The parser, in continuation style
// ---------------------------------------------------------------------------

/// One open container while parsing: the elements gathered so far and, for
/// an object, the key whose value is being parsed.
pub enum FrameModel {
    ArrF(Seq<ValueModel>),
    ObjF(Seq<(Seq<char>, ValueModel)>, Seq<char>),
}

/// Outcome of a bounded parsing step.
pub enum PStep {
    /// The step bound ran out; never the meaning of an input.
    OutOfFuel,
    /// The input is not a value here.
    Fail,
    /// The root value, and the index just past it.
    Done(ValueModel, int),
}

/// Parses one value at `i` under the open containers `ss`, then unwinds
/// `ss`; `f` bounds the number of steps.
#[verifier::opaque]
pub open spec fn cparse_a(ss: Seq<FrameModel>, s: Seq<char>, i: int, f: nat) -> PStep
    decreases f,
{
    if f == 0 {
        PStep::OutOfFuel
    } else {
        let i = skip_ws(s, i);
        if !(0 <= i < s.len()) {
            PStep::Fail
        } else {
            let c = s[i];
            if c == '[' {
                let j = skip_ws(s, i + 1);
                if j < s.len() && s[j] == ']' {
                    cparse_b(ss, ValueModel::Array(Seq::empty()), s, j + 1, (f - 1) as nat)
                } else {
                    cparse_a(ss.push(FrameModel::ArrF(Seq::empty())), s, i + 1, (f - 1) as nat)
                }
            } else if c == '{' {
                let j = skip_ws(s, i + 1);
                if j < s.len() && s[j] == '}' {
                    cparse_b(ss, ValueModel::Object(Seq::empty()), s, j + 1, (f - 1) as nat)
                } else if j < s.len() && s[j] == '"' {
                    match scan_string(s, j + 1) {
                        Some((k, j2)) => {
                            let j3 = skip_ws(s, j2);
                            if j3 < s.len() && s[j3] == ':' {
                                cparse_a(
                                    ss.push(FrameModel::ObjF(Seq::empty(), k)),
                                    s,
                                    j3 + 1,
                                    (f - 1) as nat,
                                )
                            } else {
                                PStep::Fail
                            }
                        },
                        None => PStep::Fail,
                    }
                } else {
                    PStep::Fail
                }
            } else if c == '"' {
                match scan_string(s, i + 1) {
                    Some((content, j)) => {
                        if content.len() > 0 && content[0] == '#' {
                            match reinterpret_bin(content) {
                                Some((bytes, align)) => cparse_b(
                                    ss,
                                    ValueModel::Binary { bytes, align },
                                    s,
                                    j,
                                    (f - 1) as nat,
                                ),
                                None => PStep::Fail,
                            }
                        } else {
                            cparse_b(ss, ValueModel::Str(content), s, j, (f - 1) as nat)
                        }
                    },
                    None => PStep::Fail,
                }
            } else if c == 'n' {
                if i + 4 <= s.len() && s[i + 1] == 'u' && s[i + 2] == 'l' && s[i + 3] == 'l' {
                    cparse_b(ss, ValueModel::Null, s, i + 4, (f - 1) as nat)
                } else {
                    PStep::Fail
                }
            } else if c == 't' {
                if i + 4 <= s.len() && s[i + 1] == 'r' && s[i + 2] == 'u' && s[i + 3] == 'e' {
                    cparse_b(ss, ValueModel::Bool(true), s, i + 4, (f - 1) as nat)
                } else {
                    PStep::Fail
                }
            } else if c == 'f' {
                if i + 5 <= s.len() && s[i + 1] == 'a' && s[i + 2] == 'l' && s[i + 3] == 's' && s[i
                    + 4] == 'e' {
                    cparse_b(ss, ValueModel::Bool(false), s, i + 5, (f - 1) as nat)
                } else {
                    PStep::Fail
                }
            } else if c == '-' || is_digit(c) {
                match scan_number(s, i) {
                    Some((m, j)) => cparse_b(ss, ValueModel::Number(m), s, j, (f - 1) as nat),
                    None => PStep::Fail,
                }
            } else {
                PStep::Fail
            }
        }
    }
}

/// Hands the finished value `v` to the innermost open container (or out, if
/// none is open) and continues parsing at `i`.
#[verifier::opaque]
pub open spec fn cparse_b(ss: Seq<FrameModel>, v: ValueModel, s: Seq<char>, i: int, f: nat) -> PStep
    decreases f,
{
    if f == 0 {
        PStep::OutOfFuel
    } else if ss.len() == 0 {
        PStep::Done(v, i)
    } else {
        let j = skip_ws(s, i);
        if !(0 <= j < s.len()) {
            PStep::Fail
        } else {
            match ss.last() {
                FrameModel::ArrF(es) => {
                    if s[j] == ',' {
                        cparse_a(
                            ss.update(ss.len() - 1, FrameModel::ArrF(es.push(v))),
                            s,
                            j + 1,
                            (f - 1) as nat,
                        )
                    } else if s[j] == ']' {
                        cparse_b(
                            ss.drop_last(),
                            ValueModel::Array(es.push(v)),
                            s,
                            j + 1,
                            (f - 1) as nat,
                        )
                    } else {
                        PStep::Fail
                    }
                },
                FrameModel::ObjF(fs, k) => {
                    if s[j] == ',' {
                        let j2 = skip_ws(s, j + 1);
                        if j2 < s.len() && s[j2] == '"' {
                            match scan_string(s, j2 + 1) {
                                Some((k2, j3)) => {
                                    let j4 = skip_ws(s, j3);
                                    if j4 < s.len() && s[j4] == ':' {
                                        cparse_a(
                                            ss.update(
                                                ss.len() - 1,
                                                FrameModel::ObjF(fs.push((k, v)), k2),
                                            ),
                                            s,
                                            j4 + 1,
                                            (f - 1) as nat,
                                        )
                                    } else {
                                        PStep::Fail
                                    }
                                },
                                None => PStep::Fail,
                            }
                        } else {
                            PStep::Fail
                        }
                    } else if s[j] == '}' {
                        cparse_b(
                            ss.drop_last(),
                            ValueModel::Object(fs.push((k, v))),
                            s,
                            j + 1,
                            (f - 1) as nat,
                        )
                    } else {
                        PStep::Fail
                    }
                },
            }
        }
    }
}

// ---------------------------------------------------------------------------
// One unfolding step of the parser, one lemma per transition
// ---------------------------------------------------------------------------

/// The next value is an atom: the step hands it over.  For a binary
/// payload, `aux` is the scanned string content; other cases ignore it.
pub proof fn lemma_step_atom(
    ss: Seq<FrameModel>,
    s: Seq<char>,
    i: int,
    f: nat,
    v: ValueModel,
    e: int,
    aux: Seq<char>,
)
    requires
        f >= 1,
        ({
            let j = skip_ws(s, i);
            &&& 0 <= j < s.len()
            &&& match v {
                ValueModel::Null => s[j] == 'n' && j + 4 <= s.len() && s[j + 1] == 'u' && s[j + 2]
                    == 'l' && s[j + 3] == 'l' && e == j + 4,
                ValueModel::Bool(b) => if b {
                    s[j] == 't' && j + 4 <= s.len() && s[j + 1] == 'r' && s[j + 2] == 'u' && s[j
                        + 3] == 'e' && e == j + 4
                } else {
                    s[j] == 'f' && j + 5 <= s.len() && s[j + 1] == 'a' && s[j + 2] == 'l' && s[j
                        + 3] == 's' && s[j + 4] == 'e' && e == j + 5
                },
                ValueModel::Number(m) => (s[j] == '-' || is_digit(s[j])) && scan_number(s, j)
                    == Some((m, e)),
                ValueModel::Str(cs) => s[j] == '"' && scan_string(s, j + 1) == Some((cs, e)) && !(
                cs.len() > 0 && cs[0] == '#'),
                ValueModel::Binary { bytes, align } => s[j] == '"' && scan_string(s, j + 1)
                    == Some::<(Seq<char>, int)>((aux, e)) && aux.len() > 0 && aux[0] == '#'
                    && reinterpret_bin(aux) == Some::<(Seq<u8>, usize)>((bytes, align)),
                _ => false,
            }
        }),
    ensures
        cparse_a(ss, s, i, f) == cparse_b(ss, v, s, e, (f - 1) as nat),
{
    reveal_with_fuel(cparse_a, 1);
    reveal_with_fuel(cparse_b, 1);
}

/// The next token opens an empty array or object.
pub proof fn lemma_step_empty_container(
    ss: Seq<FrameModel>,
    s: Seq<char>,
    i: int,
    f: nat,
    arr: bool,
)
    requires
        f >= 1,
        ({
            let j = skip_ws(s, i);
            let j2 = skip_ws(s, j + 1);
            &&& 0 <= j < s.len()
            &&& j2 < s.len()
            &&& if arr {
                s[j] == '[' && s[j2] == ']'
            } else {
                s[j] == '{' && s[j2] == '}'
            }
        }),
    ensures
        cparse_a(ss, s, i, f) == cparse_b(
            ss,
            if arr {
                ValueModel::Array(Seq::empty())
            } else {
                ValueModel::Object(Seq::empty())
            },
            s,
            skip_ws(s, skip_ws(s, i) + 1) + 1,
            (f - 1) as nat,
        ),
{
    reveal_with_fuel(cparse_a, 1);
    reveal_with_fuel(cparse_b, 1);
}

/// The next token opens a non-empty array: a frame is pushed.
pub proof fn lemma_step_open_array(ss: Seq<FrameModel>, s: Seq<char>, i: int, f: nat)
    requires
        f >= 1,
        ({
            let j = skip_ws(s, i);
            let j2 = skip_ws(s, j + 1);
            &&& 0 <= j < s.len()
            &&& s[j] == '['
            &&& !(j2 < s.len() && s[j2] == ']')
        }),
    ensures
        cparse_a(ss, s, i, f) == cparse_a(
            ss.push(FrameModel::ArrF(Seq::empty())),
            s,
            skip_ws(s, i) + 1,
            (f - 1) as nat,
        ),
{
    reveal_with_fuel(cparse_a, 1);
}

/// The next token opens a non-empty object with a valid first key.
pub proof fn lemma_step_open_object(
    ss: Seq<FrameModel>,
    s: Seq<char>,
    i: int,
    f: nat,
    k: Seq<char>,
    j3: int,
)
    requires
        f >= 1,
        ({
            let j = skip_ws(s, i);
            let j2 = skip_ws(s, j + 1);
            let j4 = skip_ws(s, j3);
            &&& 0 <= j < s.len()
            &&& s[j] == '{'
            &&& j2 < s.len()
            &&& s[j2] != '}'
            &&& s[j2] == '"'
            &&& scan_string(s, j2 + 1) == Some::<(Seq<char>, int)>((k, j3))
            &&& j4 < s.len()
            &&& s[j4] == ':'
        }),
    ensures
        cparse_a(ss, s, i, f) == cparse_a(
            ss.push(FrameModel::ObjF(Seq::empty(), k)),
            s,
            skip_ws(s, j3) + 1,
            (f - 1) as nat,
        ),
{
    reveal_with_fuel(cparse_a, 1);
}

/// No value can start here: the step fails.
pub proof fn lemma_step_a_fail(ss: Seq<FrameModel>, s: Seq<char>, i: int, f: nat)
    requires
        f >= 1,
        ({
            let j = skip_ws(s, i);
            ||| !(0 <= j < s.len())
            ||| {
                let c = s[j];
                &&& c != '['
                &&& (c == '{' ==> {
                    let j2 = skip_ws(s, j + 1);
                    &&& !(j2 < s.len() && s[j2] == '}')
                    &&& (j2 < s.len() && s[j2] == '"' ==> match scan_string(s, j2 + 1) {
                        Some((k, j3)) => !(skip_ws(s, j3) < s.len() && s[skip_ws(s, j3)] == ':'),
                        None => true,
                    })
                })
                &&& (c == '"' ==> match scan_string(s, j + 1) {
                    Some((cs, e)) => cs.len() > 0 && cs[0] == '#' && reinterpret_bin(cs) is None,
                    None => true,
                })
                &&& (c == 'n' ==> !(j + 4 <= s.len() && s[j + 1] == 'u' && s[j + 2] == 'l' && s[j
                    + 3] == 'l'))
                &&& (c == 't' ==> !(j + 4 <= s.len() && s[j + 1] == 'r' && s[j + 2] == 'u' && s[j
                    + 3] == 'e'))
                &&& (c == 'f' ==> !(j + 5 <= s.len() && s[j + 1] == 'a' && s[j + 2] == 'l' && s[j
                    + 3] == 's' && s[j + 4] == 'e'))
                &&& (c == '-' || is_digit(c) ==> scan_number(s, j) is None)
            }
        }),
    ensures
        cparse_a(ss, s, i, f) == PStep::Fail,
{
    reveal_with_fuel(cparse_a, 1);
}

/// With no container open, a finished value ends the parse.
pub proof fn lemma_step_done(v: ValueModel, s: Seq<char>, i: int, f: nat)
    requires
        f >= 1,
    ensures
        cparse_b(Seq::empty(), v, s, i, f) == PStep::Done(v, i),
{
    reveal_with_fuel(cparse_b, 1);
}

/// An open array absorbs the value and continues after a comma.
pub proof fn lemma_step_arr_comma(
    ss: Seq<FrameModel>,
    es: Seq<ValueModel>,
    v: ValueModel,
    s: Seq<char>,
    i: int,
    f: nat,
)
    requires
        f >= 1,
        ss.len() > 0,
        ss.last() == FrameModel::ArrF(es),
        ({
            let j = skip_ws(s, i);
            0 <= j < s.len() && s[j] == ','
        }),
    ensures
        cparse_b(ss, v, s, i, f) == cparse_a(
            ss.update(ss.len() - 1, FrameModel::ArrF(es.push(v))),
            s,
            skip_ws(s, i) + 1,
            (f - 1) as nat,
        ),
{
    reveal_with_fuel(cparse_a, 1);
    reveal_with_fuel(cparse_b, 1);
}

/// An open array absorbs the value and closes.
pub proof fn lemma_step_arr_close(
    ss: Seq<FrameModel>,
    es: Seq<ValueModel>,
    v: ValueModel,
    s: Seq<char>,
    i: int,
    f: nat,
)
    requires
        f >= 1,
        ss.len() > 0,
        ss.last() == FrameModel::ArrF(es),
        ({
            let j = skip_ws(s, i);
            0 <= j < s.len() && s[j] == ']'
        }),
    ensures
        cparse_b(ss, v, s, i, f) == cparse_b(
            ss.drop_last(),
            ValueModel::Array(es.push(v)),
            s,
            skip_ws(s, i) + 1,
            (f - 1) as nat,
        ),
{
    reveal_with_fuel(cparse_b, 1);
}

/// An open object absorbs the field and continues after a comma and the
/// next key.
pub proof fn lemma_step_obj_comma(
    ss: Seq<FrameModel>,
    fs: Seq<(Seq<char>, ValueModel)>,
    k: Seq<char>,
    v: ValueModel,
    s: Seq<char>,
    i: int,
    f: nat,
    k2: Seq<char>,
    j3: int,
)
    requires
        f >= 1,
        ss.len() > 0,
        ss.last() == FrameModel::ObjF(fs, k),
        ({
            let j = skip_ws(s, i);
            let j2 = skip_ws(s, j + 1);
            let j4 = skip_ws(s, j3);
            &&& 0 <= j < s.len()
            &&& s[j] == ','
            &&& j2 < s.len()
            &&& s[j2] == '"'
            &&& scan_string(s, j2 + 1) == Some::<(Seq<char>, int)>((k2, j3))
            &&& j4 < s.len()
            &&& s[j4] == ':'
        }),
    ensures
        cparse_b(ss, v, s, i, f) == cparse_a(
            ss.update(ss.len() - 1, FrameModel::ObjF(fs.push((k, v)), k2)),
            s,
            skip_ws(s, j3) + 1,
            (f - 1) as nat,
        ),
{
    reveal_with_fuel(cparse_a, 1);
    reveal_with_fuel(cparse_b, 1);
}

/// An open object absorbs the field and closes.
pub proof fn lemma_step_obj_close(
    ss: Seq<FrameModel>,
    fs: Seq<(Seq<char>, ValueModel)>,
    k: Seq<char>,
    v: ValueModel,
    s: Seq<char>,
    i: int,
    f: nat,
)
    requires
        f >= 1,
        ss.len() > 0,
        ss.last() == FrameModel::ObjF(fs, k),
        ({
            let j = skip_ws(s, i);
            0 <= j < s.len() && s[j] == '}'
        }),
    ensures
        cparse_b(ss, v, s, i, f) == cparse_b(
            ss.drop_last(),
            ValueModel::Object(fs.push((k, v))),
            s,
            skip_ws(s, i) + 1,
            (f - 1) as nat,
        ),
{
    reveal_with_fuel(cparse_b, 1);
}

/// The value cannot be followed here: the step fails.
pub proof fn lemma_step_b_fail(ss: Seq<FrameModel>, v: ValueModel, s: Seq<char>, i: int, f: nat)
    requires
        f >= 1,
        ss.len() > 0,
        ({
            let j = skip_ws(s, i);
            ||| !(0 <= j < s.len())
            ||| match ss.last() {
                FrameModel::ArrF(es) => s[j] != ',' && s[j] != ']',
                FrameModel::ObjF(fs, k) => {
                    &&& s[j] != '}'
                    &&& (s[j] == ',' ==> {
                        let j2 = skip_ws(s, j + 1);
                        j2 < s.len() && s[j2] == '"' ==> match scan_string(s, j2 + 1) {
                            Some((k2, j3)) => !(skip_ws(s, j3) < s.len() && s[skip_ws(s, j3)]
                                == ':'),
                            None => true,
                        }
                    })
                },
            }
        }),
    ensures
        cparse_b(ss, v, s, i, f) == PStep::Fail,
{
    reveal_with_fuel(cparse_b, 1);
}

// ---------------------------------------------------------------------------
// Scanning canonical text
// ---------------------------------------------------------------------------

/// Hex characters give their value back.
proof fn lemma_hex_char_val(d: int)
    requires
        0 <= d < 16,
    ensures
        hex_val(hex_char(d)) == d,
        is_plain_char(hex_char(d)),
        hex_char(d) != '-',
        hex_char(d) != '"',
{
}

/// A decimal digit character is a digit and gives its value back.
proof fn lemma_digit_char(d: int)
    requires
        0 <= d < 10,
    ensures
        is_digit(digit_char(d)),
        digit_char(d) as u32 == 48 + d,
        is_plain_char(digit_char(d)),
{
}

/// A string whose characters all stand for themselves escapes to itself.
proof fn lemma_escape_plain(cs: Seq<char>)
    requires
        forall|i: int| 0 <= i < cs.len() ==> is_plain_char(#[trigger] cs[i]),
    ensures
        escape_str(cs) == cs,
    decreases cs.len(),
{
    if cs.len() > 0 {
        lemma_escape_plain(cs.drop_first());
        assert(escape_char(cs[0]) == seq![cs[0]]);
        assert(seq![cs[0]] + cs.drop_first() =~= cs);
    }
}

/// One escaped character at `a` scans back to itself.
#[verifier::rlimit(100)]
proof fn lemma_scan_one(c: char, s: Seq<char>, a: int)
    requires
        0 <= a,
        a + escape_char(c).len() < s.len(),
        forall|k: int| 0 <= k < escape_char(c).len() ==> s[a + k] == #[trigger] escape_char(c)[k],
    ensures
        scan_string(s, a) == scan_cons(c, scan_string(s, a + escape_char(c).len())),
{
    if c == '"' || c == '\\' {
        assert(escape_char(c)[0] == '\\' && escape_char(c)[1] == c);
        assert(s[a] == '\\' && s[a + 1] == c);
    } else if c == '\u{8}' {
        assert(s[a] == '\\' && s[a + 1] == 'b');
    } else if c == '\t' {
        assert(s[a] == '\\' && s[a + 1] == 't');
    } else if c == '\n' {
        assert(s[a] == '\\' && s[a + 1] == 'n');
    } else if c == '\u{c}' {
        assert(s[a] == '\\' && s[a + 1] == 'f');
    } else if c == '\r' {
        assert(s[a] == '\\' && s[a + 1] == 'r');
    } else if (c as u32) < 0x20 {
        let code = c as u32 as int;
        assert(s[a] == '\\' && s[a + 1] == 'u' && s[a + 2] == '0' && s[a + 3] == '0');
        assert(s[a + 4] == hex_char(code / 16) && s[a + 5] == hex_char(code % 16));
        lemma_hex_char_val(code / 16);
        lemma_hex_char_val(code % 16);
        assert(hex_val(s[a + 2]) == 0 && hex_val(s[a + 3]) == 0);
        assert(hex4_val(s, a + 2) == code);
        assert(char_from_code(code) == c) by {
            vstd::utf8::char_u32_cast(c, c as u32);
        }
    } else {
        assert(escape_char(c)[0] == c);
        assert(s[a] == c);
    }
}

/// Scanning the escaped text of `cs` followed by a quote yields `cs`.
proof fn lemma_scan_escaped(cs: Seq<char>, s: Seq<char>, a: int)
    requires
        0 <= a,
        a + escape_str(cs).len() + 1 <= s.len(),
        s.subrange(a, a + escape_str(cs).len() + 1) == escape_str(cs) + seq!['"'],
    ensures
        scan_string(s, a) == Some((cs, a + escape_str(cs).len() + 1)),
    decreases cs.len(),
{
    let esc = escape_str(cs);
    let region = esc + seq!['"'];
    if cs.len() == 0 {
        assert(s.subrange(a, a + 1)[0] == s[a]);
        assert(region[0] == '"');
        assert(s[a] == '"');
    } else {
        let c = cs[0];
        let e1 = escape_char(c);
        let rest = cs.drop_first();
        let resc = escape_str(rest);
        assert(esc == e1 + resc);
        let a2 = a + e1.len();
        assert forall|k: int| 0 <= k < e1.len() implies s[a + k] == #[trigger] e1[k] by {
            assert(s.subrange(a, a + esc.len() + 1)[k] == s[a + k]);
            assert(region[k] == e1[k]);
        }
        assert(s.subrange(a2, a2 + resc.len() + 1) =~= resc + seq!['"']) by {
            assert forall|k: int| 0 <= k < resc.len() + 1 implies s[a2 + k] == #[trigger] (resc
                + seq!['"'])[k] by {
                assert(s.subrange(a, a + esc.len() + 1)[e1.len() + k] == s[a2 + k]);
                assert(region[e1.len() + k] == (resc + seq!['"'])[k]);
            }
        }
        lemma_scan_escaped(rest, s, a2);
        lemma_scan_one(c, s, a);
        assert(seq![c] + rest =~= cs);
    }
}

/// Every decimal digit of a number is a digit character, and a number of
/// more than one digit does not start with zero.
proof fn lemma_dec_chars_shape(n: nat)
    ensures
        dec_chars(n).len() >= 1,
        forall|i: int| 0 <= i < dec_chars(n).len() ==> is_digit(#[trigger] dec_chars(n)[i]),
        dec_chars(n)[0] == '0' ==> n == 0,
        forall|i: int|
            0 <= i < dec_chars(n).len() ==> is_plain_char(#[trigger] dec_chars(n)[i]) && dec_chars(
                n,
            )[i] != '.' && dec_chars(n)[i] != 'e' && dec_chars(n)[i] != 'E',
    decreases n,
{
    if n < 10 {
        lemma_digit_char(n as int);
    } else {
        lemma_dec_chars_shape(n / 10);
        lemma_digit_char((n % 10) as int);
        assert(dec_chars(n)[0] == dec_chars(n / 10)[0]);
    }
}

/// The value of the decimal text of `n` is `n`.
proof fn lemma_dec_val(n: nat, s: Seq<char>, a: int)
    requires
        0 <= a,
        a + dec_chars(n).len() <= s.len(),
        s.subrange(a, a + dec_chars(n).len()) == dec_chars(n),
    ensures
        digits_val(s, a, a + dec_chars(n).len()) == n,
    decreases n,
{
    let l = dec_chars(n).len() as int;
    lemma_dec_chars_shape(n);
    if n < 10 {
        lemma_digit_char(n as int);
        assert(l == 1);
        assert(dec_chars(n)[0] == digit_char(n as int));
        assert(s.subrange(a, a + 1)[0] == s[a]);
        assert(s[a] == digit_char(n as int));
        assert(digits_val(s, a, a) == 0);
        assert(digits_val(s, a, a + 1) == (s[a] as u32 as int - 48));
    } else {
        assert(s.subrange(a, a + l - 1) =~= dec_chars(n / 10)) by {
            assert forall|k: int| 0 <= k < l - 1 implies s[a + k] == #[trigger] dec_chars(
                n / 10,
            )[k] by {
                assert(s.subrange(a, a + l)[k] == s[a + k]);
                assert(dec_chars(n)[k] == dec_chars(n / 10)[k]);
            }
        }
        lemma_dec_val(n / 10, s, a);
        lemma_digit_char((n % 10) as int);
        assert(s.subrange(a, a + l)[l - 1] == s[a + l - 1]);
        assert(s[a + l - 1] == dec_chars(n)[l - 1]);
        assert(dec_chars(n)[l - 1] == digit_char((n % 10) as int));
        assert(digits_val(s, a, a + l) == digits_val(s, a, a + l - 1) * 10 + (s[a + l - 1] as u32
            as int - 48));
    }
}

/// Scanning the decimal text of `n` (bounded right by a non-number
/// character) gives `n` back.
proof fn lemma_scan_digits(n: nat, s: Seq<char>, a: int)
    requires
        0 <= a,
        a + dec_chars(n).len() <= s.len(),
        s.subrange(a, a + dec_chars(n).len()) == dec_chars(n),
        a + dec_chars(n).len() < s.len() ==> !is_digit(s[a + dec_chars(n).len()]),
    ensures
        digits_end(s, a) == a + dec_chars(n).len(),
        digits_val(s, a, a + dec_chars(n).len()) == n,
{
    let l = dec_chars(n).len() as int;
    lemma_dec_chars_shape(n);
    assert forall|k: int| a <= k < a + l implies is_digit(#[trigger] s[k]) by {
        assert(s.subrange(a, a + l)[k - a] == s[k]);
    }
    lemma_digits_end_region(s, a, a + l);
    lemma_dec_val(n, s, a);
}

/// A run of digits bounded on the right ends exactly at the bound.
proof fn lemma_digits_end_region(s: Seq<char>, a: int, e: int)
    requires
        0 <= a <= e <= s.len(),
        forall|k: int| a <= k < e ==> is_digit(#[trigger] s[k]),
        e < s.len() ==> !is_digit(s[e]),
    ensures
        digits_end(s, a) == e,
    decreases e - a,
{
    if a < e {
        lemma_digits_end_region(s, a + 1, e);
    }
}

/// Scanning the canonical text of a well-formed number (bounded right by
/// a non-number character) gives it back.
proof fn lemma_scan_number_canonical(m: NumberModel, s: Seq<char>, i: int)
    requires
        m is I64 ==> m->I64_0 < 0,
        0 <= i,
        i + number_chars(m).len() <= s.len(),
        s.subrange(i, i + number_chars(m).len()) == number_chars(m),
        i + number_chars(m).len() < s.len() ==> !(is_digit(s[i + number_chars(m).len()]) || s[i
            + number_chars(m).len()] == '.' || s[i + number_chars(m).len()] == 'e' || s[i
            + number_chars(m).len()] == 'E'),
    ensures
        scan_number(s, i) == Some((m, i + number_chars(m).len())),
{
    let l = number_chars(m).len() as int;
    match m {
        NumberModel::U64(n) => {
            lemma_dec_chars_shape(n as nat);
            assert(s.subrange(i, i + l)[0] == s[i]);
            assert(s[i] == dec_chars(n as nat)[0]);
            assert(s[i] != '-') by {
                assert(is_digit(dec_chars(n as nat)[0]));
            }
            lemma_scan_digits(n as nat, s, i);
            if s[i] == '0' {
                assert(n == 0);
            }
            assert(digits_val(s, i, digits_end(s, i)) <= u64::MAX);
        },
        NumberModel::I64(v) => {
            let mag = (-(v as int)) as nat;
            lemma_dec_chars_shape(mag);
            assert(number_chars(m) == seq!['-'] + dec_chars(mag));
            assert(s.subrange(i, i + l)[0] == s[i]);
            assert(s[i] == '-');
            assert(s.subrange(i + 1, i + 1 + dec_chars(mag).len()) =~= dec_chars(mag)) by {
                assert forall|k: int| 0 <= k < dec_chars(mag).len() implies s[i + 1 + k]
                    == #[trigger] dec_chars(mag)[k] by {
                    assert(s.subrange(i, i + l)[1 + k] == s[i + 1 + k]);
                }
            }
            lemma_scan_digits(mag, s, i + 1);
            assert(s.subrange(i, i + l)[1] == s[i + 1]);
            assert(is_digit(s[i + 1]));
            if s[i + 1] == '0' {
                assert(dec_chars(mag)[0] == '0');
                assert(mag == 0);
            }
            assert(mag <= 0x8000000000000000);
            if mag == 0x8000000000000000 {
                assert(v == i64::MIN);
            } else {
                assert((-(mag as int)) as i64 == v);
            }
        },
    }
}

/// Hex digits and dashes are plain characters, and a byte sequence
/// decodes from its own hex text.
proof fn lemma_hex_chars_canonical(b: Seq<u8>)
    ensures
        hex_chars(b).len() == 2 * b.len(),
        forall|i: int| 0 <= i < hex_chars(b).len() ==> is_plain_char(#[trigger] hex_chars(b)[i]),
        forall|i: int| 0 <= i < hex_chars(b).len() ==> #[trigger] hex_chars(b)[i] != '-',
        forall|i: int| 0 <= i < hex_chars(b).len() ==> #[trigger] hex_chars(b)[i] != '"',
        hex_decode(hex_chars(b)) == Some(b),
    decreases b.len(),
{
    if b.len() > 0 {
        lemma_hex_chars_canonical(b.drop_first());
        lemma_hex_char_val(b[0] as int / 16);
        lemma_hex_char_val(b[0] as int % 16);
        let two = seq![hex_char(b[0] as int / 16), hex_char(b[0] as int % 16)];
        assert(hex_chars(b) == two + hex_chars(b.drop_first()));
        assert(hex_chars(b).skip(2) =~= hex_chars(b.drop_first()));
        assert(hex_chars(b)[0] == two[0] && hex_chars(b)[1] == two[1]);
        assert(16 * (b[0] as int / 16) + b[0] as int % 16 == b[0] as int);
        assert(seq![b[0]] + b.drop_first() =~= b);
    }
}

/// A dash run bounded on the right ends exactly at the bound.
proof fn lemma_dashes_end_region(s: Seq<char>, a: int, e: int)
    requires
        0 <= a <= e <= s.len(),
        forall|k: int| a <= k < e ==> #[trigger] s[k] == '-',
        e < s.len() ==> s[e] != '-',
    ensures
        dashes_end(s, a) == e,
    decreases e - a,
{
    if a < e {
        lemma_dashes_end_region(s, a + 1, e);
    }
}

/// The hex form of a binary payload reads back as the same payload with
/// the same alignment.
proof fn lemma_reinterpret_canonical(bytes: Seq<u8>, align: usize)
    requires
        align >= 1,
        align == 1 || align % 2 == 0,
    ensures
        bin_content(bytes, align).len() >= 1,
        bin_content(bytes, align)[0] == '#',
        reinterpret_bin(bin_content(bytes, align)) == Some((bytes, align)),
        forall|i: int|
            0 <= i < bin_content(bytes, align).len() ==> is_plain_char(
                #[trigger] bin_content(bytes, align)[i],
            ),
{
    let d = 2 * (align as int / 2);
    let dashes = Seq::new(d as nat, |i: int| '-');
    let content = bin_content(bytes, align);
    lemma_hex_chars_canonical(bytes);
    assert(content == seq!['#'] + dashes + hex_chars(bytes));
    assert(content[0] == '#');
    assert forall|k: int| 1 <= k < 1 + d implies #[trigger] content[k] == '-' by {
        assert(content[k] == dashes[k - 1]);
    }
    assert(1 + d < content.len() ==> content[1 + d] != '-') by {
        if 1 + d < content.len() {
            assert(content[1 + d] == hex_chars(bytes)[0]);
        }
    }
    lemma_dashes_end_region(content, 1, 1 + d);
    assert(content.skip(1 + d) =~= hex_chars(bytes));
    if align == 1 {
        assert(d == 0);
    } else {
        assert(align % 2 == 0);
        assert(d == align) by {
            assert(2 * (align as int / 2) == align as int) by (nonlinear_arith)
                requires
                    align as int % 2 == 0,
                    align >= 1,
            ;
        }
    }
    assert forall|k: int| 0 <= k < content.len() implies is_plain_char(#[trigger] content[k]) by {
        if k == 0 {
        } else if k < 1 + d {
            assert(content[k] == '-');
        } else {
            assert(content[k] == hex_chars(bytes)[k - 1 - d]);
        }
    }
}

/// Canonical text is never empty, never starts with whitespace nor with a
/// separator or closer.
proof fn lemma_json_first(v: ValueModel)
    ensures
        json_chars(v).len() >= 1,
        !is_ws(json_chars(v)[0]),
        json_chars(v)[0] != ']',
        json_chars(v)[0] != '}',
        json_chars(v)[0] != ',',
        json_chars(v)[0] != ':',
{
    match v {
        ValueModel::Number(m) => {
            match m {
                NumberModel::U64(n) => {
                    lemma_dec_chars_shape(n as nat);
                    assert(is_digit(dec_chars(n as nat)[0]));
                },
                NumberModel::I64(i) => {
                    if i < 0 {
                        assert(json_chars(v)[0] == '-');
                    } else {
                        lemma_dec_chars_shape(i as nat);
                        assert(is_digit(dec_chars(i as nat)[0]));
                    }
                },
            }
        },
        _ => {},
    }
}

// ---------------------------------------------------------------------------
// Parsing canonical text: the round trip
// ---------------------------------------------------------------------------

/// The number of parsing steps the canonical text of `v` takes.
pub open spec fn steps(v: ValueModel) -> nat
    decreases v,
{
    match v {
        ValueModel::Array(es) => if es.len() == 0 {
            1
        } else {
            1 + steps_list(es)
        },
        ValueModel::Object(fs) => if fs.len() == 0 {
            1
        } else {
            1 + steps_fields(fs)
        },
        _ => 1,
    }
}

/// Steps for a run of array elements: each costs its own steps plus one
/// separator or closer step.
pub open spec fn steps_list(es: Seq<ValueModel>) -> nat
    decreases es,
{
    if es.len() == 0 {
        0
    } else {
        steps(es[0]) + 1 + steps_list(es.drop_first())
    }
}

/// Steps for a run of object fields.
pub open spec fn steps_fields(fs: Seq<(Seq<char>, ValueModel)>) -> nat
    decreases fs,
{
    if fs.len() == 0 {
        0
    } else {
        steps(fs[0].1) + 1 + steps_fields(fs.drop_first())
    }
}

/// Parsing steps never outnumber twice the canonical text.
proof fn lemma_steps_bound(v: ValueModel)
    ensures
        steps(v) <= json_chars(v).len(),
    decreases v, 0nat,
{
    match v {
        ValueModel::Array(es) => {
            if es.len() > 0 {
                lemma_steps_list_bound(es);
            }
        },
        ValueModel::Object(fs) => {
            if fs.len() > 0 {
                lemma_steps_fields_bound(fs);
            }
        },
        _ => {
            lemma_json_first(v);
        },
    }
}

proof fn lemma_steps_list_bound(es: Seq<ValueModel>)
    requires
        es.len() >= 1,
    ensures
        steps_list(es) <= json_list(es).len() + 1,
    decreases es, 1nat,
{
    lemma_steps_bound(es[0]);
    if es.len() > 1 {
        lemma_steps_list_bound(es.drop_first());
        assert(json_list(es).len() == json_chars(es[0]).len() + 1 + json_list(
            es.drop_first(),
        ).len());
    } else {
        assert(steps_list(es.drop_first()) == 0);
        assert(json_list(es) == json_chars(es[0]));
    }
}

proof fn lemma_steps_fields_bound(fs: Seq<(Seq<char>, ValueModel)>)
    requires
        fs.len() >= 1,
    ensures
        steps_fields(fs) <= json_fields(fs).len() + 1,
    decreases fs, 1nat,
{
    lemma_steps_bound(fs[0].1);
    if fs.len() > 1 {
        lemma_steps_fields_bound(fs.drop_first());
        assert(json_fields(fs).len() == fs[0].0.len() + 3 + json_chars(fs[0].1).len() + 1
            + json_fields(fs.drop_first()).len());
    } else {
        assert(steps_fields(fs.drop_first()) == 0);
        assert(json_fields(fs).len() == fs[0].0.len() + 3 + json_chars(fs[0].1).len());
    }
}

/// Parsing the canonical text of a well-formed value hands exactly that
/// value to the waiting containers.
#[verifier::rlimit(100)]
proof fn lemma_rt_value(v: ValueModel, ss: Seq<FrameModel>, s: Seq<char>, i: int, f: nat)
    requires
        wf_value(v),
        0 <= i,
        i + json_chars(v).len() <= s.len(),
        s.subrange(i, i + json_chars(v).len()) == json_chars(v),
        i + json_chars(v).len() < s.len() ==> !(is_digit(s[i + json_chars(v).len()]) || s[i
            + json_chars(v).len()] == '.' || s[i + json_chars(v).len()] == 'e' || s[i
            + json_chars(v).len()] == 'E'),
    ensures
        cparse_a(ss, s, i, (f + steps(v)) as nat) == cparse_b(
            ss,
            v,
            s,
            i + json_chars(v).len(),
            f,
        ),
    decreases v, 0nat,
{
    let jc = json_chars(v);
    let l = jc.len() as int;
    lemma_json_first(v);
    assert forall|k: int| 0 <= k < l implies s[i + k] == #[trigger] jc[k] by {
        assert(s.subrange(i, i + l)[k] == s[i + k]);
    }
    assert(!is_ws(s[i]));
    assert(skip_ws(s, i) == i);
    match v {
        ValueModel::Null => {
            lemma_step_atom(ss, s, i, (f + 1) as nat, v, i + 4, Seq::empty());
            assert(cparse_a(ss, s, i, (f + steps(v)) as nat) == cparse_b(ss, v, s, i + l, f));
        },
        ValueModel::Bool(b) => {
            if b {
                lemma_step_atom(ss, s, i, (f + 1) as nat, v, i + 4, Seq::empty());
            } else {
                lemma_step_atom(ss, s, i, (f + 1) as nat, v, i + 5, Seq::empty());
            }
        },
        ValueModel::Number(m) => {
            lemma_scan_number_canonical(m, s, i);
            match m {
                NumberModel::U64(n) => {
                    lemma_dec_chars_shape(n as nat);
                    assert(is_digit(s[i]));
                },
                NumberModel::I64(x) => {
                    assert(s[i] == '-');
                },
            }
            lemma_step_atom(ss, s, i, (f + 1) as nat, v, i + l, Seq::empty());
            assert(cparse_a(ss, s, i, (f + steps(v)) as nat) == cparse_b(ss, v, s, i + l, f));
        },
        ValueModel::Str(cs) => {
            let esc = escape_str(cs);
            assert(s[i] == '"');
            assert(s.subrange(i + 1, i + 1 + esc.len() + 1) =~= esc + seq!['"']) by {
                assert forall|k: int| 0 <= k < esc.len() + 1 implies s[i + 1 + k] == #[trigger] (esc
                    + seq!['"'])[k] by {
                    assert(jc[1 + k] == (esc + seq!['"'])[k]);
                }
            }
            lemma_scan_escaped(cs, s, i + 1);
            lemma_step_atom(ss, s, i, (f + 1) as nat, v, i + l, Seq::empty());
            assert(cparse_a(ss, s, i, (f + steps(v)) as nat) == cparse_b(ss, v, s, i + l, f));
        },
        ValueModel::Binary { bytes, align } => {
            let content = bin_content(bytes, align);
            lemma_reinterpret_canonical(bytes, align);
            lemma_escape_plain(content);
            assert(s[i] == '"');
            assert(s.subrange(i + 1, i + 1 + content.len() + 1) =~= content + seq!['"']) by {
                assert forall|k: int| 0 <= k < content.len() + 1 implies s[i + 1 + k]
                    == #[trigger] (content + seq!['"'])[k] by {
                    assert(jc[1 + k] == (content + seq!['"'])[k]);
                }
            }
            lemma_scan_escaped(content, s, i + 1);
            lemma_step_atom(ss, s, i, (f + 1) as nat, v, i + l, content);
            assert(cparse_a(ss, s, i, (f + steps(v)) as nat) == cparse_b(ss, v, s, i + l, f));
        },
        ValueModel::Array(es) => {
            assert(s[i] == '[');
            if es.len() == 0 {
                assert(jc[1] == ']');
                assert(s[i + 1] == ']');
                assert(skip_ws(s, i + 1) == i + 1);
                lemma_step_empty_container(ss, s, i, (f + 1) as nat, true);
                assert(es =~= Seq::<ValueModel>::empty());
            } else {
                lemma_json_first(es[0]);
                assert(json_list(es)[0] == json_chars(es[0])[0]);
                assert(jc[1] == json_list(es)[0]);
                assert(s[i + 1] == json_list(es)[0]);
                assert(!is_ws(s[i + 1]) && s[i + 1] != ']');
                assert(skip_ws(s, i + 1) == i + 1);
                lemma_step_open_array(ss, s, i, (f + steps(v)) as nat);
                assert(s.subrange(i + 1, i + 1 + json_list(es).len() + 1) =~= json_list(es)
                    + seq![']']) by {
                    assert forall|k: int| 0 <= k < json_list(es).len() + 1 implies s[i + 1 + k]
                        == #[trigger] (json_list(es) + seq![']'])[k] by {
                        assert(jc[1 + k] == (json_list(es) + seq![']'])[k]);
                    }
                }
                lemma_rt_elems(es, Seq::empty(), ss, s, i + 1, f);
                assert(Seq::<ValueModel>::empty() + es =~= es);
                assert(steps(v) == 1 + steps_list(es));
                assert(jc.len() == json_list(es).len() + 2);
                assert(ValueModel::Array(Seq::<ValueModel>::empty() + es) == v);
                assert(((f + steps(v)) - 1) as nat == (f + steps_list(es)) as nat);
                assert(cparse_a(ss, s, i, (f + steps(v)) as nat) == cparse_b(ss, v, s, i + l, f));
            }
        },
        ValueModel::Object(fs) => {
            assert(s[i] == '{');
            if fs.len() == 0 {
                assert(jc[1] == '}');
                assert(s[i + 1] == '}');
                assert(skip_ws(s, i + 1) == i + 1);
                lemma_step_empty_container(ss, s, i, (f + 1) as nat, false);
                assert(fs =~= Seq::<(Seq<char>, ValueModel)>::empty());
            } else {
                let k0 = fs[0].0;
                let kl = k0.len() as int;
                assert(json_fields(fs)[0] == '"');
                assert(jc[1] == json_fields(fs)[0]);
                assert(s[i + 1] == '"');
                assert(skip_ws(s, i + 1) == i + 1);
                lemma_escape_plain(k0);
                assert(s.subrange(i + 2, i + 2 + k0.len() + 1) =~= k0 + seq!['"']) by {
                    assert forall|k: int| 0 <= k < k0.len() + 1 implies s[i + 2 + k] == #[trigger] (
                    k0 + seq!['"'])[k] by {
                        assert(jc[2 + k] == (k0 + seq!['"'])[k]);
                        assert(json_fields(fs)[1 + k] == (k0 + seq!['"'])[k]);
                    }
                }
                lemma_scan_escaped(k0, s, i + 2);
                let j3 = i + 2 + kl + 1;
                assert(jc[1 + (kl + 2)] == json_fields(fs)[kl + 2]);
                assert(s[j3] == ':');
                assert(skip_ws(s, j3) == j3);
                lemma_step_open_object(ss, s, i, (f + steps(v)) as nat, k0, j3);
                let r = json_fields(fs).len() - (kl + 3) + 1;
                assert(s.subrange(j3 + 1, j3 + 1 + r) =~= json_fields(fs).skip(kl + 3)
                    + seq!['}']) by {
                    assert forall|k: int| 0 <= k < r implies s[j3 + 1 + k] == #[trigger] (
                    json_fields(fs).skip(kl + 3) + seq!['}'])[k] by {
                        assert(jc[1 + kl + 3 + k] == (json_fields(fs).skip(kl + 3)
                            + seq!['}'])[k]);
                    }
                }
                lemma_rt_fields(fs, Seq::empty(), ss, s, j3 + 1, f);
                assert(Seq::<(Seq<char>, ValueModel)>::empty() + fs =~= fs);
                assert(steps(v) == 1 + steps_fields(fs));
                assert(jc.len() == json_fields(fs).len() + 2);
                assert(ValueModel::Object(Seq::<(Seq<char>, ValueModel)>::empty() + fs) == v);
                assert(((f + steps(v)) - 1) as nat == (f + steps_fields(fs)) as nat);
                assert(j3 + 1 + (json_fields(fs).len() - (kl + 3) + 1) == i + jc.len());
                assert(cparse_a(ss, s, i, (f + steps(v)) as nat) == cparse_b(ss, v, s, i + l, f));
            }
        },
    }
}

/// Parsing the remaining canonical elements of an array folds them onto
/// the accumulator.
#[verifier::rlimit(100)]
proof fn lemma_rt_elems(
    es: Seq<ValueModel>,
    acc: Seq<ValueModel>,
    ss: Seq<FrameModel>,
    s: Seq<char>,
    i: int,
    f: nat,
)
    requires
        es.len() >= 1,
        forall|k: int| 0 <= k < es.len() ==> wf_value(#[trigger] es[k]),
        0 <= i,
        i + json_list(es).len() + 1 <= s.len(),
        s.subrange(i, i + json_list(es).len() + 1) == json_list(es) + seq![']'],
    ensures
        cparse_a(ss.push(FrameModel::ArrF(acc)), s, i, (f + steps_list(es)) as nat) == cparse_b(
            ss,
            ValueModel::Array(acc + es),
            s,
            i + json_list(es).len() + 1,
            f,
        ),
    decreases es, 1nat,
{
    let v0 = es[0];
    let jc0 = json_chars(v0);
    let l0 = jc0.len() as int;
    let jl = json_list(es);
    let region = jl + seq![']'];
    assert forall|k: int| 0 <= k < jl.len() + 1 implies s[i + k] == #[trigger] region[k] by {
        assert(s.subrange(i, i + jl.len() + 1)[k] == s[i + k]);
    }
    assert(s.subrange(i, i + l0) =~= jc0) by {
        assert forall|k: int| 0 <= k < l0 implies s[i + k] == #[trigger] jc0[k] by {
            assert(region[k] == jc0[k]);
        }
    }
    let sp = ss.push(FrameModel::ArrF(acc));
    if es.len() == 1 {
        assert(region[l0] == ']');
        assert(s[i + l0] == ']');
        lemma_rt_value(v0, sp, s, i, (f + 1) as nat);
        assert(skip_ws(s, i + l0) == i + l0);
        lemma_step_arr_close(sp, acc, v0, s, i + l0, (f + 1) as nat);
        assert(sp.drop_last() =~= ss);
        assert(acc.push(v0) =~= acc + es);
    } else {
        let rest = es.drop_first();
        assert(jl == jc0 + seq![','] + json_list(rest));
        assert(region[l0] == ',');
        assert(s[i + l0] == ',');
        let frem = (f + steps_list(rest)) as nat;
        lemma_rt_value(v0, sp, s, i, (frem + 1) as nat);
        assert(skip_ws(s, i + l0) == i + l0);
        lemma_step_arr_comma(sp, acc, v0, s, i + l0, (frem + 1) as nat);
        assert(sp.update(sp.len() - 1, FrameModel::ArrF(acc.push(v0))) =~= ss.push(
            FrameModel::ArrF(acc.push(v0)),
        ));
        assert(s.subrange(i + l0 + 1, i + l0 + 1 + json_list(rest).len() + 1) =~= json_list(rest)
            + seq![']']) by {
            assert forall|k: int| 0 <= k < json_list(rest).len() + 1 implies s[i + l0 + 1 + k]
                == #[trigger] (json_list(rest) + seq![']'])[k] by {
                assert(region[l0 + 1 + k] == (json_list(rest) + seq![']'])[k]);
            }
        }
        assert forall|k: int| 0 <= k < rest.len() implies wf_value(#[trigger] rest[k]) by {
            assert(rest[k] == es[k + 1]);
        }
        lemma_rt_elems(rest, acc.push(v0), ss, s, i + l0 + 1, f);
        assert(acc.push(v0) + rest =~= acc + es);
    }
}

/// Parsing the remaining canonical fields of an object (standing at the
/// first remaining value) folds them onto the accumulator.
#[verifier::rlimit(100)]
proof fn lemma_rt_fields(
    fs: Seq<(Seq<char>, ValueModel)>,
    acc: Seq<(Seq<char>, ValueModel)>,
    ss: Seq<FrameModel>,
    s: Seq<char>,
    i: int,
    f: nat,
)
    requires
        fs.len() >= 1,
        forall|k: int|
            0 <= k < fs.len() ==> key_ok(#[trigger] fs[k].0) && wf_value(fs[k].1),
        0 <= i,
        i + json_fields(fs).len() - (fs[0].0.len() + 3) + 1 <= s.len(),
        s.subrange(i, i + json_fields(fs).len() - (fs[0].0.len() + 3) + 1) == json_fields(
            fs,
        ).skip(fs[0].0.len() + 3int) + seq!['}'],
    ensures
        cparse_a(ss.push(FrameModel::ObjF(acc, fs[0].0)), s, i, (f + steps_fields(fs)) as nat)
            == cparse_b(
            ss,
            ValueModel::Object(acc + fs),
            s,
            i + json_fields(fs).len() - (fs[0].0.len() + 3) + 1,
            f,
        ),
    decreases fs, 1nat,
{
    let k0 = fs[0].0;
    let kl = k0.len() as int;
    let v0 = fs[0].1;
    let jc0 = json_chars(v0);
    let l0 = jc0.len() as int;
    let jf = json_fields(fs);
    let tail = jf.skip(kl + 3);
    let region = tail + seq!['}'];
    let r = jf.len() - (kl + 3) + 1;
    assert(tail.len() == l0 || tail.len() == l0 + 1 + json_fields(fs.drop_first()).len());
    assert forall|k: int| 0 <= k < r implies s[i + k] == #[trigger] region[k] by {
        assert(s.subrange(i, i + r)[k] == s[i + k]);
    }
    assert forall|k: int| 0 <= k < tail.len() implies tail[k] == jf[kl + 3 + k] by {
    }
    assert(s.subrange(i, i + l0) =~= jc0) by {
        assert forall|k: int| 0 <= k < l0 implies s[i + k] == #[trigger] jc0[k] by {
            assert(region[k] == tail[k]);
            assert(jf[kl + 3 + k] == jc0[k]);
        }
    }
    let sp = ss.push(FrameModel::ObjF(acc, k0));
    if fs.len() == 1 {
        assert(region[l0] == '}');
        assert(s[i + l0] == '}');
        lemma_rt_value(v0, sp, s, i, (f + 1) as nat);
        assert(skip_ws(s, i + l0) == i + l0);
        lemma_step_obj_close(sp, acc, k0, v0, s, i + l0, (f + 1) as nat);
        assert(sp.drop_last() =~= ss);
        assert(acc.push((k0, v0)) =~= acc + fs);
        assert(steps_fields(fs) == steps(v0) + 1 + steps_fields(fs.drop_first()));
        assert(steps_fields(fs.drop_first()) == 0);
        assert(jf.len() == kl + 3 + l0);
        assert(r == l0 + 1);
    } else {
        let rest = fs.drop_first();
        let k1 = rest[0].0;
        let kl1 = k1.len() as int;
        assert(jf == seq!['"'] + k0 + seq!['"', ':'] + jc0 + seq![','] + json_fields(rest));
        assert(region[l0] == ',');
        assert(s[i + l0] == ',');
        let frem = (f + steps_fields(rest)) as nat;
        lemma_rt_value(v0, sp, s, i, (frem + 1) as nat);
        assert(skip_ws(s, i + l0) == i + l0);
        // The next key and its colon.
        let q = i + l0 + 1;
        assert(json_fields(rest)[0] == '"');
        assert(jf[kl + 3 + l0 + 1] == json_fields(rest)[0]);
        assert(tail[l0 + 1] == jf[kl + 3 + l0 + 1]);
        assert(region[l0 + 1] == '"');
        assert(s[q] == '"');
        assert(skip_ws(s, q) == q);
        lemma_escape_plain(k1);
        assert forall|k: int| 0 <= k < rest.len() implies key_ok(#[trigger] rest[k].0) && wf_value(
            rest[k].1,
        ) by {
            assert(rest[k] == fs[k + 1]);
        }
        assert(s.subrange(q + 1, q + 1 + k1.len() + 1) =~= k1 + seq!['"']) by {
            assert forall|k: int| 0 <= k < k1.len() + 1 implies s[q + 1 + k] == #[trigger] (k1
                + seq!['"'])[k] by {
                assert(region[l0 + 2 + k] == (k1 + seq!['"'])[k]);
                assert(json_fields(rest)[1 + k] == (k1 + seq!['"'])[k]);
            }
        }
        lemma_scan_escaped(k1, s, q + 1);
        let j3 = q + 1 + kl1 + 1;
        assert(json_fields(rest)[kl1 + 2] == ':');
        assert(region[l0 + 1 + kl1 + 2] == ':');
        assert(s[j3] == ':');
        assert(skip_ws(s, j3) == j3);
        lemma_step_obj_comma(sp, acc, k0, v0, s, i + l0, (frem + 1) as nat, k1, j3);
        assert(sp.update(sp.len() - 1, FrameModel::ObjF(acc.push((k0, v0)), k1)) =~= ss.push(
            FrameModel::ObjF(acc.push((k0, v0)), k1),
        ));
        let r1 = json_fields(rest).len() - (kl1 + 3) + 1;
        assert(s.subrange(j3 + 1, j3 + 1 + r1) =~= json_fields(rest).skip(kl1 + 3)
            + seq!['}']) by {
            assert forall|k: int| 0 <= k < r1 implies s[j3 + 1 + k] == #[trigger] (json_fields(
                rest,
            ).skip(kl1 + 3) + seq!['}'])[k] by {
                assert(region[l0 + 1 + kl1 + 3 + k] == (json_fields(rest).skip(kl1 + 3)
                    + seq!['}'])[k]);
            }
        }
        lemma_rt_fields(rest, acc.push((k0, v0)), ss, s, j3 + 1, f);
        assert(acc.push((k0, v0)) + rest =~= acc + fs);
        assert(steps_fields(fs) == steps(v0) + 1 + steps_fields(rest));
        assert(jf.len() == kl + 3 + l0 + 1 + json_fields(rest).len());
        assert(j3 + 1 + (json_fields(rest).len() - (kl1 + 3) + 1) == i + r);
    }
}

/// Round trip: the canonical text of any well-formed value parses back to
/// exactly that value.
pub proof fn lemma_parse_canonical(v: ValueModel)
    requires
        wf_value(v),
    ensures
        spec_parse(json_chars(v)) == Some(v),
{
    let s = json_chars(v);
    lemma_json_first(v);
    lemma_steps_bound(v);
    let f0 = (2 * s.len() + 3) as nat;
    let f = (f0 - steps(v)) as nat;
    assert(s.subrange(0, s.len() as int) =~= s);
    lemma_rt_value(v, Seq::empty(), s, 0, f);
    assert((f + steps(v)) as nat == f0);
    lemma_step_done(v, s, s.len() as int, f);
    assert(skip_ws(s, s.len() as int) == s.len());
}

/// The meaning of an input text: its one value, surrounded by nothing but
/// whitespace, or nothing.
pub open spec fn spec_parse(s: Seq<char>) -> Option<ValueModel> {
    match cparse_a(Seq::empty(), s, 0, (2 * s.len() + 3) as nat) {
        PStep::Done(v, j) => if skip_ws(s, j) == s.len() {
            Some(v)
        } else {
            None
        },
        _ => None,
    }
}

} // verus!
