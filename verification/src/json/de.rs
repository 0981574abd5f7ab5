//! The text parser: reads one document value, driving an explicit stack of
//! open containers so that input nesting depth never turns into call-stack
//! depth.  Proved sound and complete against [`grammar::spec_parse`].

use vstd::prelude::*;

use crate::chars::{char_from_u32, push_char, to_char_vec};
use crate::error::Error;
use crate::json::grammar::{
    self, char_from_code, cparse_a, cparse_b, dashes_end, digits_end, digits_val, hex4_val,
    hex_decode, hex_val, is_digit, lemma_digits_end, lemma_digits_val_mono,
    lemma_scan_string_advances, lemma_step_a_fail, lemma_step_arr_close, lemma_step_arr_comma,
    lemma_step_atom, lemma_step_b_fail, lemma_step_done, lemma_step_empty_container,
    lemma_step_obj_close, lemma_step_obj_comma, lemma_step_open_array, lemma_step_open_object,
    reinterpret_bin, scan_cons, scan_number, scan_string, skip_ws, spec_parse, FrameModel, PStep,
};
use crate::value::{view_elements, view_fields, view_value, Number, NumberModel, Value, ValueModel};
use crate::Result;

verus! {

// ---------------------------------------------------------------------------
// Exec scanners, each proved equal to its grammar counterpart
// ---------------------------------------------------------------------------

fn skip_ws_exec(chars: &Vec<char>, i: usize) -> (r: usize)
    requires
        i <= chars@.len(),
    ensures
        r == skip_ws(chars@, i as int),
        i <= r <= chars@.len(),
{
    let n = chars.len();
    let mut k = i;
    while k < n && (chars[k] == ' ' || chars[k] == '\t' || chars[k] == '\n' || chars[k] == '\r')
        invariant
            i <= k <= n,
            n == chars@.len(),
            skip_ws(chars@, i as int) == skip_ws(chars@, k as int),
        decreases n - k,
    {
        k = k + 1;
    }
    k
}

fn hex_val_exec(c: char) -> (r: i32)
    ensures
        r as int == hex_val(c),
{
    let u = c as u32;
    if 48 <= u && u <= 57 {
        (u - 48) as i32
    } else if 97 <= u && u <= 102 {
        (u - 87) as i32
    } else if 65 <= u && u <= 70 {
        (u - 55) as i32
    } else {
        -1
    }
}

fn hex4_exec(chars: &Vec<char>, i: usize) -> (r: i32)
    ensures
        r as int == hex4_val(chars@, i as int),
{
    let n = chars.len();
    if i > n || n - i < 4 {
        return -1;
    }
    let h0 = hex_val_exec(chars[i]);
    let h1 = hex_val_exec(chars[i + 1]);
    let h2 = hex_val_exec(chars[i + 2]);
    let h3 = hex_val_exec(chars[i + 3]);
    if h0 < 0 || h1 < 0 || h2 < 0 || h3 < 0 {
        return -1;
    }
    4096 * h0 + 256 * h1 + 16 * h2 + h3
}

/// Handles one backslash escape at `k`, appending the unescaped
/// character; mirrors the escape cases of [`grammar::scan_string`].
fn scan_escape_exec(chars: &Vec<char>, k: usize, acc: &mut String) -> (r: Option<usize>)
    requires
        k < chars@.len(),
        chars@[k as int] == '\\',
    ensures
        match r {
            Some(k2) => k < k2 <= chars@.len() && final(acc)@.len() == old(acc)@.len() + 1
                && final(acc)@ == old(acc)@.push(final(acc)@.last()) && scan_string(
                chars@,
                k as int,
            ) == scan_cons(final(acc)@.last(), scan_string(chars@, k2 as int)),
            None => scan_string(chars@, k as int) is None && final(acc)@ == old(acc)@,
        },
{
    let ghost s = chars@;
    let n = chars.len();
    if k + 1 >= n {
        return None;
    }
    let e = chars[k + 1];
    let simple: Option<char> = if e == '"' || e == '\\' || e == '/' {
        Some(e)
    } else if e == 'b' {
        Some('\u{8}')
    } else if e == 't' {
        Some('\t')
    } else if e == 'n' {
        Some('\n')
    } else if e == 'f' {
        Some('\u{c}')
    } else if e == 'r' {
        Some('\r')
    } else {
        None
    };
    match simple {
        Some(u) => {
            push_char(acc, u);
            Some(k + 2)
        },
        None => {
            if e == 'u' {
                let code = hex4_exec(chars, k + 2);
                if code < 0 {
                    return None;
                }
                if 0xD800 <= code && code < 0xDC00 {
                    if n - k >= 12 && chars[k + 6] == '\\' && chars[k + 7] == 'u' {
                        let low = hex4_exec(chars, k + 8);
                        if 0xDC00 <= low && low < 0xE000 {
                            let scalar: u32 = (0x10000 + (code - 0xD800) * 0x400 + (low
                                - 0xDC00)) as u32;
                            match char_from_u32(scalar) {
                                Some(u) => {
                                    push_char(acc, u);
                                    proof {
                                        vstd::utf8::char_u32_cast(u, scalar);
                                        assert((scalar as int) as u32 == scalar);
                                        assert(u == char_from_code(scalar as int));
                                    }
                                    Some(k + 12)
                                },
                                None => {
                                    proof {
                                        assert(false);
                                    }
                                    None
                                },
                            }
                        } else {
                            return None;
                        }
                    } else {
                        return None;
                    }
                } else if 0xDC00 <= code && code < 0xE000 {
                    return None;
                } else {
                    match char_from_u32(code as u32) {
                        Some(u) => {
                            push_char(acc, u);
                            proof {
                                vstd::utf8::char_u32_cast(u, code as u32);
                                assert((code as int) as u32 == code as u32);
                                assert(u == char_from_code(code as int));
                            }
                            Some(k + 6)
                        },
                        None => {
                            proof {
                                assert(false);
                            }
                            None
                        },
                    }
                }
            } else {
                return None;
            }
        },
    }
}

/// Scans quoted string content; mirrors [`grammar::scan_string`].
#[verifier::rlimit(100)]
fn scan_string_exec(chars: &Vec<char>, i: usize) -> (r: Option<(String, usize)>)
    requires
        i <= chars@.len(),
    ensures
        match r {
            Some((content, j)) => scan_string(chars@, i as int) == Some((content@, j as int)) && i
                < j <= chars@.len(),
            None => scan_string(chars@, i as int) is None,
        },
{
    let ghost s = chars@;
    let n = chars.len();
    let mut acc = String::new();
    let mut k = i;
    proof {
        assert(acc@ =~= Seq::<char>::empty());
    }
    loop
        invariant
            i <= k <= n,
            n == s.len(),
            s == chars@,
            forall|cs: Seq<char>, j: int|
                scan_string(s, k as int) == Some::<(Seq<char>, int)>((cs, j)) ==> scan_string(
                    s,
                    i as int,
                ) == Some::<(Seq<char>, int)>((acc@ + cs, j)),
            scan_string(s, k as int) is None ==> scan_string(s, i as int) is None,
        decreases n - k,
    {
        if k >= n {
            return None;
        }
        let c = chars[k];
        if c == '"' {
            proof {
                assert(scan_string(s, k as int) == Some((Seq::<char>::empty(), k + 1)));
                assert(acc@ + Seq::<char>::empty() =~= acc@);
                lemma_scan_string_advances(s, i as int);
            }
            return Some((acc, k + 1));
        } else if c == '\\' {
            let ghost pre = acc@;
            match scan_escape_exec(chars, k, &mut acc) {
                Some(k2) => {
                    proof {
                        let u = acc@.last();
                        assert forall|cs: Seq<char>, j: int|
                            scan_string(s, k2 as int) == Some::<(Seq<char>, int)>((cs, j)) implies
                            scan_string(s, i as int) == Some::<(Seq<char>, int)>(
                            (acc@ + cs, j),
                        ) by {
                            assert(scan_string(s, k as int) == Some::<(Seq<char>, int)>(
                                (seq![u] + cs, j),
                            ));
                            assert(pre + (seq![u] + cs) =~= acc@ + cs);
                        }
                    }
                    k = k2;
                },
                None => {
                    return None;
                },
            }
        } else if (c as u32) < 0x20 {
            return None;
        } else {
            let ghost pre = acc@;
            push_char(&mut acc, c);
            proof {
                assert(scan_string(s, k as int) == scan_cons(c, scan_string(s, k as int + 1)));
                assert forall|cs: Seq<char>, j: int|
                    scan_string(s, k as int + 1) == Some::<(Seq<char>, int)>((cs, j)) implies
                    scan_string(s, i as int) == Some::<(Seq<char>, int)>((acc@ + cs, j)) by {
                    assert(scan_string(s, k as int) == Some::<(Seq<char>, int)>((seq![c] + cs, j)));
                    assert(pre + (seq![c] + cs) =~= acc@ + cs);
                }
            }
            k = k + 1;
        }
    }
}

/// Scans an integer literal; mirrors [`grammar::scan_number`].
fn scan_number_exec(chars: &Vec<char>, i: usize) -> (r: Option<(Number, usize)>)
    requires
        i < chars@.len(),
    ensures
        match r {
            Some((num, j)) => scan_number(chars@, i as int) == Some((num@, j as int)) && i < j
                <= chars@.len(),
            None => scan_number(chars@, i as int) is None,
        },
{
    let ghost s = chars@;
    let n = chars.len();
    let neg = chars[i] == '-';
    let j0 = if neg {
        i + 1
    } else {
        i
    };
    if j0 >= n {
        return None;
    }
    let c0 = chars[j0] as u32;
    if !(48 <= c0 && c0 <= 57) {
        return None;
    }
    proof {
        lemma_digits_end(s, j0 as int);
    }
    if chars[j0] == '0' && j0 + 1 < n {
        let c1 = chars[j0 + 1] as u32;
        if 48 <= c1 && c1 <= 57 {
            proof {
                assert(digits_end(s, j0 as int) == digits_end(s, j0 as int + 1));
                assert(digits_end(s, j0 as int + 1) == digits_end(s, j0 as int + 2));
                lemma_digits_end(s, j0 as int + 2);
            }
            return None;
        }
    }
    proof {
        if s[j0 as int] == '0' {
            if j0 + 1 < n {
                assert(!is_digit(s[j0 as int + 1]));
                assert(digits_end(s, j0 as int) == digits_end(s, j0 as int + 1));
            } else {
                assert(digits_end(s, j0 as int) == digits_end(s, j0 as int + 1));
            }
        }
    }
    let mut m: u64 = 0;
    let mut k = j0;
    while k < n && 48 <= (chars[k] as u32) && (chars[k] as u32) <= 57
        invariant
            j0 <= k <= n,
            i < n,
            j0 < n,
            n == s.len(),
            s == chars@,
            neg == (s[i as int] == '-'),
            j0 == if neg { i + 1 } else { i as int },
            is_digit(s[j0 as int]),
            !(s[j0 as int] == '0' && digits_end(s, j0 as int) > j0 as int + 1),
            digits_end(s, j0 as int) == digits_end(s, k as int),
            forall|p: int| j0 <= p < k ==> is_digit(#[trigger] s[p]),
            m as int == digits_val(s, j0 as int, k as int),
        decreases n - k,
    {
        let d: u64 = (chars[k] as u32 - 48) as u64;
        let ghost mpre = m;
        if m > (u64::MAX - d) / 10 {
            proof {
                let e = digits_end(s, j0 as int);
                assert(is_digit(s[k as int]));
                assert(digits_end(s, k as int) == digits_end(s, k as int + 1));
                lemma_digits_end(s, k as int + 1);
                assert(k + 1 <= e);
                assert(digits_val(s, j0 as int, k as int + 1) == m * 10 + d);
                assert(m * 10 + d > u64::MAX) by (nonlinear_arith)
                    requires
                        m > (u64::MAX - d) / 10,
                        d <= 9,
                        (u64::MAX - d) / 10 == ((u64::MAX - d) as int) / 10,
                ;
                lemma_digits_end(s, j0 as int);
                lemma_digits_val_mono(s, j0 as int, k as int + 1, e);
            }
            return None;
        }
        proof {
            assert(m * 10 + d <= u64::MAX) by (nonlinear_arith)
                requires
                    m <= (u64::MAX - d) / 10,
                    d <= 9,
            ;
            assert(digits_end(s, k as int) == digits_end(s, k as int + 1));
        }
        m = m * 10 + d;
        k = k + 1;
    }
    proof {
        assert(digits_end(s, k as int) == k as int);
        assert(digits_end(s, j0 as int) == k as int);
    }
    if k < n && (chars[k] == '.' || chars[k] == 'e' || chars[k] == 'E') {
        return None;
    }
    if neg {
        if m > 0x8000000000000000u64 {
            return None;
        } else if m == 0x8000000000000000u64 {
            return Some((Number::I64(i64::MIN), k));
        } else {
            return Some((Number::I64(-(m as i64)), k));
        }
    } else {
        return Some((Number::U64(m), k));
    }
}

/// Reads a sigil-prefixed string content as a binary payload; mirrors
/// [`grammar::reinterpret_bin`].
fn reinterpret_bin_exec(content: &String) -> (r: Option<(Vec<u8>, usize)>)
    requires
        content@.len() > 0,
        content@[0] == '#',
    ensures
        match r {
            Some((b, a)) => reinterpret_bin(content@) == Some((b@, a)),
            None => reinterpret_bin(content@) is None,
        },
{
    let cv = to_char_vec(content.as_str());
    let ghost s = content@;
    let n = cv.len();
    let mut k: usize = 1;
    while k < n && cv[k] == '-'
        invariant
            1 <= k <= n,
            n == s.len(),
            s == content@,
            cv@ == s,
            dashes_end(s, 1) == dashes_end(s, k as int),
        decreases n - k,
    {
        k = k + 1;
    }
    proof {
        assert(dashes_end(s, k as int) == k as int);
    }
    let d = k - 1;
    let align: usize = if d == 0 {
        1
    } else {
        d
    };
    let mut bytes: Vec<u8> = Vec::new();
    let ghost tail = s.skip(1 + d as int);
    proof {
        assert(s.skip(k as int) == tail);
        assert forall|b: Seq<u8>|
            hex_decode(s.skip(k as int)) == Some::<Seq<u8>>(b) implies hex_decode(tail) == Some::<
            Seq<u8>,
        >(bytes@ + b) by {
            assert(bytes@ + b =~= b);
        }
    }
    while k < n
        invariant
            1 <= 1 + d <= k <= n,
            n == s.len(),
            s == content@,
            cv@ == s,
            d as int == dashes_end(s, 1) - 1,
            align == if d == 0 { 1usize } else { d },
            tail == s.skip(1 + d as int),
            forall|b: Seq<u8>|
                hex_decode(s.skip(k as int)) == Some::<Seq<u8>>(b) ==> hex_decode(tail) == Some::<
                    Seq<u8>,
                >(bytes@ + b),
            hex_decode(s.skip(k as int)) is None ==> hex_decode(tail) is None,
        decreases n - k,
    {
        let ghost rem = s.skip(k as int);
        if k + 1 >= n {
            proof {
                assert(rem.len() == 1);
                assert(hex_decode(rem) is None);
            }
            return None;
        }
        let h = hex_val_exec(cv[k]);
        let l = hex_val_exec(cv[k + 1]);
        proof {
            assert(rem.len() >= 2);
            assert(rem[0] == s[k as int] && rem[1] == s[k as int + 1]);
        }
        if h < 0 || l < 0 {
            proof {
                assert(hex_decode(rem) is None);
            }
            return None;
        }
        let byte: u8 = (16 * h + l) as u8;
        let ghost pre = bytes@;
        bytes.push(byte);
        proof {
            assert(rem.skip(2) =~= s.skip(k as int + 2));
            assert forall|b: Seq<u8>|
                hex_decode(s.skip(k as int + 2)) == Some::<Seq<u8>>(b) implies hex_decode(tail)
                == Some::<Seq<u8>>(bytes@ + b) by {
                assert(hex_decode(rem) == Some::<Seq<u8>>(seq![byte] + b));
                assert(pre + (seq![byte] + b) =~= bytes@ + b);
            }
            assert(hex_decode(s.skip(k as int + 2)) is None ==> hex_decode(rem) is None);
        }
        k = k + 2;
    }
    proof {
        assert(s.skip(k as int) =~= Seq::<char>::empty());
        assert(hex_decode(s.skip(k as int)) == Some(Seq::<u8>::empty()));
        assert(bytes@ + Seq::<u8>::empty() =~= bytes@);
        assert(reinterpret_bin(s) == Some::<(Seq<u8>, usize)>((bytes@, align)));
    }
    Some((bytes, align))
}

// ---------------------------------------------------------------------------
// The driving loop
// ---------------------------------------------------------------------------

/// An open container while parsing: the children read so far and, for an
/// object, the key whose value is being read.
enum PFrame {
    Arr(Vec<Value>),
    Obj(Vec<(String, Value)>, String),
}

spec fn view_pframe(f: PFrame) -> FrameModel {
    match f {
        PFrame::Arr(es) => FrameModel::ArrF(view_elements(es@)),
        PFrame::Obj(fs, k) => FrameModel::ObjF(view_fields(fs@), k@),
    }
}

spec fn view_pstack(ss: Seq<PFrame>) -> Seq<FrameModel>
    decreases ss.len(),
{
    if ss.len() == 0 {
        Seq::empty()
    } else {
        view_pstack(ss.drop_last()).push(view_pframe(ss.last()))
    }
}
/// One parsing step in the "expecting a value" state: reads the next
/// token at `*i`.  `Ok(None)` means a container was opened (and pushed),
/// `Ok(Some(v))` means a whole value was read; on `Err` the input has no
/// meaning here.  The returned ghost fuel witnesses the spec parser making
/// the same step.
fn step_value(
    chars: &Vec<char>,
    stack: &mut Vec<PFrame>,
    i: &mut usize,
    Ghost(gf0): Ghost<nat>,
) -> (out: (Result<Option<Value>>, Ghost<nat>))
    requires
        *old(i) <= chars@.len(),
        gf0 >= 2 * (chars@.len() - *old(i)) + old(stack)@.len() + 2,
    ensures
        ({
            let (r, gfn) = out;
            match r {
                Ok(None) => cparse_a(view_pstack(old(stack)@), chars@, *old(i) as int, gf0)
                    == cparse_a(view_pstack(final(stack)@), chars@, *final(i) as int, gfn@)
                    && gfn@ >= 2 * (chars@.len() - *final(i)) + final(stack)@.len() + 2 && gfn@
                    < gf0 && *final(i) <= chars@.len(),
                Ok(Some(v)) => cparse_a(view_pstack(old(stack)@), chars@, *old(i) as int, gf0)
                    == cparse_b(
                    view_pstack(final(stack)@),
                    view_value(v),
                    chars@,
                    *final(i) as int,
                    gfn@,
                ) && gfn@ >= 2 * (chars@.len() - *final(i)) + final(stack)@.len() + 2 && gfn@ < gf0
                    && *final(i) <= chars@.len(),
                Err(_) => cparse_a(view_pstack(old(stack)@), chars@, *old(i) as int, gf0)
                    == PStep::Fail,
            }
        }),
{
    let ghost ss0 = view_pstack(stack@);
    let ghost i0 = *i as int;
    let ghost s = chars@;
    let n = chars.len();
    let j = skip_ws_exec(chars, *i);
    if j >= n {
        proof {
            lemma_step_a_fail(ss0, s, i0, gf0);
        }
        return (Err(Error::expecting("value")), Ghost(gf0));
    }
    let c = chars[j];
    if c == '[' {
        let j2 = skip_ws_exec(chars, j + 1);
        if j2 < n && chars[j2] == ']' {
            proof {
                lemma_step_empty_container(ss0, s, i0, gf0, true);
                assert(view_elements(Seq::<Value>::empty()) =~= Seq::<ValueModel>::empty());
            }
            *i = j2 + 1;
            (Ok(Some(Value::Array(Vec::new()))), Ghost((gf0 - 1) as nat))
        } else {
            stack.push(PFrame::Arr(Vec::new()));
            *i = j + 1;
            proof {
                lemma_step_open_array(ss0, s, i0, gf0);
                assert(stack@.drop_last() =~= old(stack)@);
                assert(view_elements(Seq::<Value>::empty()) =~= Seq::<ValueModel>::empty());
                assert(view_pstack(stack@) =~= ss0.push(FrameModel::ArrF(Seq::empty())));
            }
            (Ok(None), Ghost((gf0 - 1) as nat))
        }
    } else if c == '{' {
        let j2 = skip_ws_exec(chars, j + 1);
        if j2 < n && chars[j2] == '}' {
            proof {
                lemma_step_empty_container(ss0, s, i0, gf0, false);
                assert(view_fields(Seq::<(String, Value)>::empty()) =~= Seq::<
                    (Seq<char>, ValueModel),
                >::empty());
            }
            *i = j2 + 1;
            (Ok(Some(Value::Object(Vec::new()))), Ghost((gf0 - 1) as nat))
        } else if j2 < n && chars[j2] == '"' {
            match scan_string_exec(chars, j2 + 1) {
                Some((key, j3)) => {
                    let j4 = skip_ws_exec(chars, j3);
                    if j4 < n && chars[j4] == ':' {
                        let ghost keyg = key@;
                        stack.push(PFrame::Obj(Vec::new(), key));
                        *i = j4 + 1;
                        proof {
                            lemma_step_open_object(ss0, s, i0, gf0, keyg, j3 as int);
                            assert(stack@.drop_last() =~= old(stack)@);
                            assert(view_fields(Seq::<(String, Value)>::empty()) =~= Seq::<
                                (Seq<char>, ValueModel),
                            >::empty());
                            assert(view_pstack(stack@) =~= ss0.push(
                                FrameModel::ObjF(Seq::empty(), keyg),
                            ));
                        }
                        (Ok(None), Ghost((gf0 - 1) as nat))
                    } else {
                        proof {
                            lemma_step_a_fail(ss0, s, i0, gf0);
                        }
                        (Err(Error::expecting("colon")), Ghost(gf0))
                    }
                },
                None => {
                    proof {
                        lemma_step_a_fail(ss0, s, i0, gf0);
                    }
                    (Err(Error::expecting("field name")), Ghost(gf0))
                },
            }
        } else {
            proof {
                lemma_step_a_fail(ss0, s, i0, gf0);
            }
            (Err(Error::expecting("field name")), Ghost(gf0))
        }
    } else if c == '"' {
        match scan_string_exec(chars, j + 1) {
            Some((content, j2)) => {
                let clen = content.as_str().unicode_len();
                if clen > 0 && content.as_str().get_char(0) == '#' {
                    match reinterpret_bin_exec(&content) {
                        Some((bytes, align)) => {
                            proof {
                                lemma_step_atom(
                                    ss0,
                                    s,
                                    i0,
                                    gf0,
                                    ValueModel::Binary { bytes: bytes@, align },
                                    j2 as int,
                                    content@,
                                );
                            }
                            *i = j2;
                            (Ok(Some(Value::Binary { bytes, align })), Ghost((gf0 - 1) as nat))
                        },
                        None => {
                            proof {
                                lemma_step_a_fail(ss0, s, i0, gf0);
                            }
                            (Err(Error::expecting("hex data")), Ghost(gf0))
                        },
                    }
                } else {
                    proof {
                        lemma_step_atom(
                            ss0,
                            s,
                            i0,
                            gf0,
                            ValueModel::Str(content@),
                            j2 as int,
                            Seq::empty(),
                        );
                    }
                    *i = j2;
                    (Ok(Some(Value::Str(content))), Ghost((gf0 - 1) as nat))
                }
            },
            None => {
                proof {
                    lemma_step_a_fail(ss0, s, i0, gf0);
                }
                (Err(Error::expecting("string")), Ghost(gf0))
            },
        }
    } else if c == 'n' {
        if n - j >= 4 && chars[j + 1] == 'u' && chars[j + 2] == 'l' && chars[j + 3] == 'l' {
            proof {
                lemma_step_atom(ss0, s, i0, gf0, ValueModel::Null, j + 4, Seq::empty());
            }
            *i = j + 4;
            (Ok(Some(Value::Null)), Ghost((gf0 - 1) as nat))
        } else {
            proof {
                lemma_step_a_fail(ss0, s, i0, gf0);
            }
            (Err(Error::expecting("null")), Ghost(gf0))
        }
    } else if c == 't' {
        if n - j >= 4 && chars[j + 1] == 'r' && chars[j + 2] == 'u' && chars[j + 3] == 'e' {
            proof {
                lemma_step_atom(ss0, s, i0, gf0, ValueModel::Bool(true), j + 4, Seq::empty());
            }
            *i = j + 4;
            (Ok(Some(Value::Bool(true))), Ghost((gf0 - 1) as nat))
        } else {
            proof {
                lemma_step_a_fail(ss0, s, i0, gf0);
            }
            (Err(Error::expecting("true")), Ghost(gf0))
        }
    } else if c == 'f' {
        if n - j >= 5 && chars[j + 1] == 'a' && chars[j + 2] == 'l' && chars[j + 3] == 's' && chars[j
            + 4] == 'e' {
            proof {
                lemma_step_atom(ss0, s, i0, gf0, ValueModel::Bool(false), j + 5, Seq::empty());
            }
            *i = j + 5;
            (Ok(Some(Value::Bool(false))), Ghost((gf0 - 1) as nat))
        } else {
            proof {
                lemma_step_a_fail(ss0, s, i0, gf0);
            }
            (Err(Error::expecting("false")), Ghost(gf0))
        }
    } else if c == '-' || (48 <= c as u32 && c as u32 <= 57) {
        match scan_number_exec(chars, j) {
            Some((num, j2)) => {
                proof {
                    lemma_step_atom(
                        ss0,
                        s,
                        i0,
                        gf0,
                        ValueModel::Number(num@),
                        j2 as int,
                        Seq::empty(),
                    );
                }
                *i = j2;
                (Ok(Some(Value::Number(num))), Ghost((gf0 - 1) as nat))
            },
            None => {
                proof {
                    lemma_step_a_fail(ss0, s, i0, gf0);
                }
                (Err(Error::expecting("number")), Ghost(gf0))
            },
        }
    } else {
        proof {
            lemma_step_a_fail(ss0, s, i0, gf0);
        }
        (Err(Error::expecting("value")), Ghost(gf0))
    }
}

/// One parsing step in the "value finished" state, with at least one open
/// container: hands `v` to the innermost container and reads the following
/// separator or closer.
fn step_finish(
    chars: &Vec<char>,
    stack: &mut Vec<PFrame>,
    i: &mut usize,
    v: Value,
    Ghost(gf0): Ghost<nat>,
) -> (out: (Result<Option<Value>>, Ghost<nat>))
    requires
        *old(i) <= chars@.len(),
        old(stack)@.len() > 0,
        gf0 >= 2 * (chars@.len() - *old(i)) + old(stack)@.len() + 2,
    ensures
        ({
            let (r, gfn) = out;
            match r {
                Ok(None) => cparse_b(
                    view_pstack(old(stack)@),
                    view_value(v),
                    chars@,
                    *old(i) as int,
                    gf0,
                ) == cparse_a(view_pstack(final(stack)@), chars@, *final(i) as int, gfn@) && gfn@
                    >= 2 * (chars@.len() - *final(i)) + final(stack)@.len() + 2 && gfn@ < gf0 && *final(i)
                    <= chars@.len(),
                Ok(Some(v2)) => cparse_b(
                    view_pstack(old(stack)@),
                    view_value(v),
                    chars@,
                    *old(i) as int,
                    gf0,
                ) == cparse_b(
                    view_pstack(final(stack)@),
                    view_value(v2),
                    chars@,
                    *final(i) as int,
                    gfn@,
                ) && gfn@ >= 2 * (chars@.len() - *final(i)) + final(stack)@.len() + 2 && gfn@ < gf0
                    && *final(i) <= chars@.len(),
                Err(_) => cparse_b(
                    view_pstack(old(stack)@),
                    view_value(v),
                    chars@,
                    *old(i) as int,
                    gf0,
                ) == PStep::Fail,
            }
        }),
{
    let ghost ss0 = view_pstack(stack@);
    let ghost i0 = *i as int;
    let ghost s = chars@;
    let ghost vv = view_value(v);
    let n = chars.len();
    let fr = stack.pop().unwrap();
    proof {
        assert(old(stack)@.drop_last() =~= stack@);
        assert(ss0 == view_pstack(stack@).push(view_pframe(fr)));
        assert(ss0.drop_last() =~= view_pstack(stack@));
    }
    let j = skip_ws_exec(chars, *i);
    if j >= n {
        proof {
            lemma_step_b_fail(ss0, vv, s, i0, gf0);
        }
        return (Err(Error::expecting("separator")), Ghost(gf0));
    }
    match fr {
        PFrame::Arr(mut es) => {
            let ghost es0 = view_elements(es@);
            let ghost espre = es@;
            if chars[j] == ',' {
                es.push(v);
                proof {
                    assert(es@.drop_last() =~= espre);
                    assert(view_elements(es@) == es0.push(vv));
                }
                let ghost ss1 = stack@;
                stack.push(PFrame::Arr(es));
                *i = j + 1;
                proof {
                    lemma_step_arr_comma(ss0, es0, vv, s, i0, gf0);
                    assert(stack@.drop_last() =~= ss1);
                    assert(view_pstack(stack@) =~= ss0.update(
                        ss0.len() - 1,
                        FrameModel::ArrF(es0.push(vv)),
                    ));
                }
                (Ok(None), Ghost((gf0 - 1) as nat))
            } else if chars[j] == ']' {
                es.push(v);
                proof {
                    lemma_step_arr_close(ss0, es0, vv, s, i0, gf0);
                    assert(es@.drop_last() =~= espre);
                    assert(view_elements(es@) == es0.push(vv));
                }
                *i = j + 1;
                (Ok(Some(Value::Array(es))), Ghost((gf0 - 1) as nat))
            } else {
                proof {
                    lemma_step_b_fail(ss0, vv, s, i0, gf0);
                }
                (Err(Error::expecting("comma or bracket")), Ghost(gf0))
            }
        },
        PFrame::Obj(mut fs, key) => {
            let ghost fs0 = view_fields(fs@);
            let ghost fspre = fs@;
            let ghost keyg = key@;
            if chars[j] == ',' {
                let j2 = skip_ws_exec(chars, j + 1);
                if j2 < n && chars[j2] == '"' {
                    match scan_string_exec(chars, j2 + 1) {
                        Some((key2, j3)) => {
                            let j4 = skip_ws_exec(chars, j3);
                            if j4 < n && chars[j4] == ':' {
                                let ghost key2g = key2@;
                                fs.push((key, v));
                                proof {
                                    assert(fs@.drop_last() =~= fspre);
                                    assert(view_fields(fs@) == fs0.push((keyg, vv)));
                                }
                                let ghost ss1 = stack@;
                                stack.push(PFrame::Obj(fs, key2));
                                *i = j4 + 1;
                                proof {
                                    lemma_step_obj_comma(
                                        ss0,
                                        fs0,
                                        keyg,
                                        vv,
                                        s,
                                        i0,
                                        gf0,
                                        key2g,
                                        j3 as int,
                                    );
                                    assert(stack@.drop_last() =~= ss1);
                                    assert(view_pstack(stack@) =~= ss0.update(
                                        ss0.len() - 1,
                                        FrameModel::ObjF(fs0.push((keyg, vv)), key2g),
                                    ));
                                }
                                (Ok(None), Ghost((gf0 - 1) as nat))
                            } else {
                                proof {
                                    lemma_step_b_fail(ss0, vv, s, i0, gf0);
                                }
                                (Err(Error::expecting("colon")), Ghost(gf0))
                            }
                        },
                        None => {
                            proof {
                                lemma_step_b_fail(ss0, vv, s, i0, gf0);
                            }
                            (Err(Error::expecting("field name")), Ghost(gf0))
                        },
                    }
                } else {
                    proof {
                        lemma_step_b_fail(ss0, vv, s, i0, gf0);
                    }
                    (Err(Error::expecting("field name")), Ghost(gf0))
                }
            } else if chars[j] == '}' {
                fs.push((key, v));
                proof {
                    lemma_step_obj_close(ss0, fs0, keyg, vv, s, i0, gf0);
                    assert(fs@.drop_last() =~= fspre);
                    assert(view_fields(fs@) == fs0.push((keyg, vv)));
                }
                *i = j + 1;
                (Ok(Some(Value::Object(fs))), Ghost((gf0 - 1) as nat))
            } else {
                proof {
                    lemma_step_b_fail(ss0, vv, s, i0, gf0);
                }
                (Err(Error::expecting("comma or brace")), Ghost(gf0))
            }
        },
    }
}

/// Parse one document value out of `s`.
///
/// Succeeds exactly when the grammar gives `s` a meaning, and then returns
/// that value; nesting depth is handled by an explicit stack of open
/// containers, never by call-stack recursion.
pub fn from_str(s: &str) -> (r: Result<Value>)
    ensures
        match r {
            Ok(v) => spec_parse(s@) == Some(view_value(v)),
            Err(_) => spec_parse(s@) is None,
        },
{
    let chars = to_char_vec(s);
    let n = chars.len();
    let ghost f0: nat = (2 * s@.len() + 3) as nat;
    let ghost target = cparse_a(Seq::empty(), s@, 0, f0);
    let mut stack: Vec<PFrame> = Vec::new();
    let mut i: usize = 0;
    let ghost mut gf: nat = f0;
    let mut mode: Option<Value> = None;
    proof {
        assert(view_pstack(stack@) =~= Seq::<FrameModel>::empty());
    }
    loop
        invariant
            n == s@.len(),
            chars@ == s@,
            i <= n,
            gf >= 2 * (n - i) + stack@.len() + 2,
            target == cparse_a(Seq::empty(), s@, 0, (2 * s@.len() + 3) as nat),
            match mode {
                None => cparse_a(view_pstack(stack@), s@, i as int, gf) == target,
                Some(v) => cparse_b(view_pstack(stack@), view_value(v), s@, i as int, gf)
                    == target,
            },
        decreases gf,
    {
        let cur = mode;
        mode = None;
        match cur {
            None => {
                let (r, gfn) = step_value(&chars, &mut stack, &mut i, Ghost(gf));
                proof {
                    gf = gfn@;
                }
                match r {
                    Ok(m) => {
                        mode = m;
                    },
                    Err(e) => {
                        proof {
                            assert(target == PStep::Fail);
                            assert(spec_parse(s@) is None);
                        }
                        return Err(e);
                    },
                }
            },
            Some(v) => {
                if stack.len() == 0 {
                    proof {
                        assert(view_pstack(stack@) =~= Seq::<FrameModel>::empty());
                        lemma_step_done(view_value(v), s@, i as int, gf);
                        assert(target == PStep::Done(view_value(v), i as int));
                    }
                    let j = skip_ws_exec(&chars, i);
                    if j == n {
                        proof {
                            assert(spec_parse(s@) == Some(view_value(v)));
                        }
                        return Ok(v);
                    } else {
                        proof {
                            assert(spec_parse(s@) is None);
                        }
                        return Err(Error::expecting("end of input"));
                    }
                }
                let (r, gfn) = step_finish(&chars, &mut stack, &mut i, v, Ghost(gf));
                proof {
                    gf = gfn@;
                }
                match r {
                    Ok(m) => {
                        mode = m;
                    },
                    Err(e) => {
                        proof {
                            assert(target == PStep::Fail);
                            assert(spec_parse(s@) is None);
                        }
                        return Err(e);
                    },
                }
            },
        }
    }
}

} // verus!
