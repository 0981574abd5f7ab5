//! The text serializer: emits the canonical encoding of a value, walking
//! the tree with an explicit frame stack so that the call stack stays flat
//! no matter how deep the value nests.

use vstd::prelude::*;

use crate::chars::push_char;
use crate::json::grammar::{
    bin_content, dec_chars, digit_char, escape_char, escape_str, hex_char, hex_chars, json_chars,
    json_fields, json_list, lemma_escape_str_snoc, lemma_hex_chars_snoc, number_chars,
};
use crate::value::{
    lemma_view_elements, lemma_view_fields, view_elements, view_fields, view_value, Number, Value,
    ValueModel,
};

verus! {

// ---------------------------------------------------------------------------
// What remains to be emitted for each open container
// ---------------------------------------------------------------------------

/// Text still owed for an array whose elements up to `k` are already out.
pub open spec fn arr_rest(es: Seq<ValueModel>, k: int) -> Seq<char>
    decreases es.len() - k,
{
    if k < 0 || k >= es.len() {
        seq![']']
    } else {
        seq![','] + json_chars(es[k]) + arr_rest(es, k + 1)
    }
}

/// Text still owed for an object whose fields up to `k` are already out.
pub open spec fn obj_rest(fs: Seq<(Seq<char>, ValueModel)>, k: int) -> Seq<char>
    decreases fs.len() - k,
{
    if k < 0 || k >= fs.len() {
        seq!['}']
    } else {
        seq![','] + seq!['"'] + fs[k].0 + seq!['"', ':'] + json_chars(fs[k].1) + obj_rest(
            fs,
            k + 1,
        )
    }
}

/// An open container while serializing: the sequence being walked and the
/// index of the next element to emit.
enum SerFrame<'a> {
    Arr(&'a Vec<Value>, usize),
    Obj(&'a Vec<(String, Value)>, usize),
}

/// Text still owed for one open container.
spec fn frame_rest(fr: SerFrame<'_>) -> Seq<char> {
    match fr {
        SerFrame::Arr(es, k) => arr_rest(view_elements(es@), k as int),
        SerFrame::Obj(fs, k) => obj_rest(view_fields(fs@), k as int),
    }
}

/// Text still owed for the whole stack of open containers, innermost
/// first.
spec fn stack_rest(ss: Seq<SerFrame<'_>>) -> Seq<char>
    decreases ss.len(),
{
    if ss.len() == 0 {
        Seq::empty()
    } else {
        frame_rest(ss.last()) + stack_rest(ss.drop_last())
    }
}

/// The text owed for a non-empty array equals its first element's text
/// plus the rest-text at index one; similarly for objects.
proof fn lemma_arr_rest_eq(es: Seq<ValueModel>, k: int)
    requires
        0 <= k <= es.len(),
    ensures
        arr_rest(es, k) == if k == es.len() {
            seq![']']
        } else {
            seq![','] + json_list(es.skip(k)) + seq![']']
        },
    decreases es.len() - k,
{
    if k < es.len() {
        lemma_arr_rest_eq(es, k + 1);
        assert(es.skip(k)[0] == es[k]);
        if k + 1 == es.len() {
            assert(es.skip(k).len() == 1);
            assert(json_list(es.skip(k)) == json_chars(es[k]));
            assert(seq![','] + json_chars(es[k]) + seq![']'] =~= seq![','] + json_list(es.skip(k))
                + seq![']']);
        } else {
            assert(es.skip(k).drop_first() =~= es.skip(k + 1));
            assert(json_list(es.skip(k)) == json_chars(es[k]) + seq![','] + json_list(
                es.skip(k + 1),
            ));
            assert(seq![','] + json_chars(es[k]) + (seq![','] + json_list(es.skip(k + 1))
                + seq![']']) =~= seq![','] + json_list(es.skip(k)) + seq![']']);
        }
    }
}

proof fn lemma_obj_rest_eq(fs: Seq<(Seq<char>, ValueModel)>, k: int)
    requires
        0 <= k <= fs.len(),
    ensures
        obj_rest(fs, k) == if k == fs.len() {
            seq!['}']
        } else {
            seq![','] + json_fields(fs.skip(k)) + seq!['}']
        },
    decreases fs.len() - k,
{
    if k < fs.len() {
        lemma_obj_rest_eq(fs, k + 1);
        assert(fs.skip(k)[0] == fs[k]);
        let head = seq!['"'] + fs[k].0 + seq!['"', ':'] + json_chars(fs[k].1);
        if k + 1 == fs.len() {
            assert(fs.skip(k).len() == 1);
            assert(json_fields(fs.skip(k)) == head);
            assert(seq![','] + seq!['"'] + fs[k].0 + seq!['"', ':'] + json_chars(fs[k].1)
                + seq!['}'] =~= seq![','] + json_fields(fs.skip(k)) + seq!['}']);
        } else {
            assert(fs.skip(k).drop_first() =~= fs.skip(k + 1));
            assert(json_fields(fs.skip(k)) == head + seq![','] + json_fields(fs.skip(k + 1)));
            assert(seq![','] + seq!['"'] + fs[k].0 + seq!['"', ':'] + json_chars(fs[k].1) + (
            seq![','] + json_fields(fs.skip(k + 1)) + seq!['}']) =~= seq![','] + json_fields(
                fs.skip(k),
            ) + seq!['}']);
        }
    }
}

// ---------------------------------------------------------------------------
// Emitting the atoms
// ---------------------------------------------------------------------------

fn push_dec_u64(out: &mut String, n: u64)
    ensures
        final(out)@ == old(out)@ + dec_chars(n as nat),
{
    let mut digits: Vec<char> = Vec::new();
    let mut m: u64 = n;
    proof {
        assert(dec_chars(n as nat) =~= dec_chars(m as nat) + digits@.reverse());
    }
    while m >= 10
        invariant
            dec_chars(n as nat) == dec_chars(m as nat) + digits@.reverse(),
        decreases m,
    {
        let ghost m0 = m;
        let ghost pre = digits@;
        let d: u8 = (m % 10) as u8;
        digits.push((48 + d) as char);
        m = m / 10;
        proof {
            assert(m0 as nat / 10 == m as nat && m0 as nat % 10 == d as nat);
            assert(dec_chars(m0 as nat) == dec_chars(m as nat).push(digit_char(d as int)));
            assert(digits@.reverse() =~= seq![digit_char(d as int)] + pre.reverse());
            assert(dec_chars(m as nat).push(digit_char(d as int)) + pre.reverse() =~= dec_chars(
                m as nat,
            ) + (seq![digit_char(d as int)] + pre.reverse()));
        }
    }
    let d: u8 = m as u8;
    push_char(out, (48 + d) as char);
    let ghost full = dec_chars(n as nat);
    let mut i: usize = digits.len();
    proof {
        assert(dec_chars(m as nat) =~= seq![digit_char(d as int)]);
        assert(full.len() == digits@.len() + 1);
        assert(full[0] == digit_char(d as int));
        assert(out@ =~= old(out)@ + full.take(full.len() - i));
        assert forall|p: int| 1 <= p < full.len() implies #[trigger] full[p] == digits@[digits@.len()
            - p] by {
            assert(digits@.reverse()[p - 1] == digits@[digits@.len() - p]);
        }
    }
    while i > 0
        invariant
            i <= digits@.len(),
            full == dec_chars(n as nat),
            full.len() == digits@.len() + 1,
            forall|p: int| 1 <= p < full.len() ==> #[trigger] full[p] == digits@[digits@.len() - p],
            out@ == old(out)@ + full.take(full.len() - i),
        decreases i,
    {
        i = i - 1;
        let c = digits[i];
        push_char(out, c);
        proof {
            let p = full.len() - i - 1;
            assert(full[p] == digits@[digits@.len() - p]);
            assert(digits@.len() - p == i);
            assert(out@ =~= old(out)@ + full.take(full.len() - i));
        }
    }
    proof {
        assert(full.take(full.len() - 0) =~= full);
    }
}

fn push_number(out: &mut String, num: &Number)
    ensures
        final(out)@ == old(out)@ + number_chars(num@),
{
    match num {
        Number::U64(n) => push_dec_u64(out, *n),
        Number::I64(i) => {
            if *i >= 0 {
                push_dec_u64(out, *i as u64);
            } else {
                push_char(out, '-');
                let mag: u64 = if *i == i64::MIN {
                    0x8000000000000000u64
                } else {
                    (-*i) as u64
                };
                let ghost mid = out@;
                push_dec_u64(out, mag);
                proof {
                    assert(mid =~= old(out)@ + seq!['-']);
                    assert(final(out)@ =~= old(out)@ + (seq!['-'] + dec_chars(mag as nat)));
                }
            }
        },
    }
}

fn hex_digit_char(d: u8) -> (c: char)
    requires
        d < 16,
    ensures
        c == hex_char(d as int),
{
    if d < 10 {
        (48 + d) as char
    } else {
        (87 + d) as char
    }
}

/// Emits `"`, the escaped content of `s`, `"`.
fn push_escaped(out: &mut String, s: &str)
    ensures
        final(out)@ == old(out)@ + seq!['"'] + escape_str(s@) + seq!['"'],
{
    push_char(out, '"');
    let n = s.unicode_len();
    let mut i: usize = 0;
    proof {
        assert(s@.take(0) =~= Seq::<char>::empty());
        assert(out@ =~= old(out)@ + seq!['"'] + escape_str(s@.take(0)));
    }
    while i < n
        invariant
            i <= n,
            n == s@.len(),
            out@ == old(out)@ + seq!['"'] + escape_str(s@.take(i as int)),
        decreases n - i,
    {
        let c = s.get_char(i);
        let ghost pre = out@;
        if c == '"' {
            push_char(out, '\\');
            push_char(out, '"');
        } else if c == '\\' {
            push_char(out, '\\');
            push_char(out, '\\');
        } else if c == '\u{8}' {
            push_char(out, '\\');
            push_char(out, 'b');
        } else if c == '\t' {
            push_char(out, '\\');
            push_char(out, 't');
        } else if c == '\n' {
            push_char(out, '\\');
            push_char(out, 'n');
        } else if c == '\u{c}' {
            push_char(out, '\\');
            push_char(out, 'f');
        } else if c == '\r' {
            push_char(out, '\\');
            push_char(out, 'r');
        } else if (c as u32) < 0x20 {
            push_char(out, '\\');
            push_char(out, 'u');
            push_char(out, '0');
            push_char(out, '0');
            let code = c as u32;
            push_char(out, hex_digit_char((code / 16) as u8));
            push_char(out, hex_digit_char((code % 16) as u8));
        } else {
            push_char(out, c);
        }
        proof {
            assert(out@ =~= pre + escape_char(s@[i as int]));
            lemma_escape_str_snoc(s@, i as int);
            assert(pre + escape_char(s@[i as int]) =~= old(out)@ + seq!['"'] + escape_str(
                s@.take(i as int + 1),
            ));
        }
        i = i + 1;
    }
    proof {
        assert(s@.take(n as int) =~= s@);
    }
    push_char(out, '"');
    proof {
        assert(final(out)@ =~= old(out)@ + seq!['"'] + escape_str(s@) + seq!['"']);
    }
}

/// Emits `"`, the sigil, the dash run for `align`, the payload in hex, `"`.
fn push_bin(out: &mut String, bytes: &Vec<u8>, align: usize)
    ensures
        final(out)@ == old(out)@ + seq!['"'] + bin_content(bytes@, align) + seq!['"'],
{
    push_char(out, '"');
    push_char(out, '#');
    let dashes = align / 2;
    let mut k: usize = 0;
    proof {
        assert(Seq::new(0nat, |i: int| '-') =~= Seq::<char>::empty());
        assert(out@ =~= old(out)@ + seq!['"', '#'] + Seq::new((2 * (k as int)) as nat, |i: int| '-'));
    }
    while k < dashes
        invariant
            k <= dashes,
            out@ == old(out)@ + seq!['"', '#'] + Seq::new((2 * (k as int)) as nat, |i: int| '-'),
        decreases dashes - k,
    {
        let ghost pre = out@;
        push_char(out, '-');
        push_char(out, '-');
        k = k + 1;
        proof {
            assert(out@ =~= old(out)@ + seq!['"', '#'] + Seq::new(
                (2 * (k as int)) as nat,
                |i: int| '-',
            ));
        }
    }
    let ghost mid = out@;
    let n = bytes.len();
    let mut i: usize = 0;
    proof {
        assert(hex_chars(bytes@.take(0)) =~= Seq::<char>::empty());
        assert(out@ =~= mid + hex_chars(bytes@.take(0)));
    }
    while i < n
        invariant
            i <= n,
            n == bytes@.len(),
            out@ == mid + hex_chars(bytes@.take(i as int)),
        decreases n - i,
    {
        let b = bytes[i];
        let ghost pre = out@;
        push_char(out, hex_digit_char(b / 16));
        push_char(out, hex_digit_char(b % 16));
        proof {
            lemma_hex_chars_snoc(bytes@, i as int);
            assert(out@ =~= mid + hex_chars(bytes@.take(i as int + 1)));
        }
        i = i + 1;
    }
    push_char(out, '"');
    proof {
        assert(bytes@.take(n as int) =~= bytes@);
        assert(2 * (dashes as int) == 2 * (align as int / 2));
        assert(final(out)@ =~= old(out)@ + seq!['"'] + bin_content(bytes@, align) + seq!['"']);
    }
}

// ---------------------------------------------------------------------------
// The driving loop
// ---------------------------------------------------------------------------

/// Emits the head of `v`: a whole atom, or the opening of a container
/// (with its first key for an object).  For a non-empty container the
/// first child is returned and a frame for the remaining children pushed.
#[verifier::rlimit(100)]
fn emit_head<'a>(out: &mut String, stack: &mut Vec<SerFrame<'a>>, v: &'a Value) -> (went: Option<
    &'a Value,
>)
    ensures
        final(out)@.len() > old(out)@.len(),
        ({
            match went {
                None => final(stack)@ == old(stack)@ && final(out)@ == old(out)@ + json_chars(
                    view_value(*v),
                ),
                Some(child) => final(stack)@.len() == old(stack)@.len() + 1
                    && final(stack)@.drop_last() == old(stack)@ && final(out)@ + json_chars(view_value(*child))
                    + frame_rest(final(stack)@.last()) == old(out)@ + json_chars(view_value(*v)),
            }
        }),
{
    let ghost pre = out@;
    match v {
        Value::Null => {
            out.append("null");
            proof {
                reveal_strlit("null");
                assert(pre + "null"@ =~= pre + json_chars(view_value(*v)));
            }
            None
        },
        Value::Bool(b) => {
            if *b {
                out.append("true");
                proof {
                    reveal_strlit("true");
                    assert(pre + "true"@ =~= pre + json_chars(view_value(*v)));
                }
            } else {
                out.append("false");
                proof {
                    reveal_strlit("false");
                    assert(pre + "false"@ =~= pre + json_chars(view_value(*v)));
                }
            }
            None
        },
        Value::Number(m) => {
            push_number(out, m);
            None
        },
        Value::Str(s) => {
            push_escaped(out, s.as_str());
            proof {
                assert(pre + (seq!['"'] + escape_str(s@) + seq!['"']) =~= pre + json_chars(
                    view_value(*v),
                ));
            }
            None
        },
        Value::Binary { bytes, align } => {
            push_bin(out, bytes, *align);
            proof {
                assert(pre + (seq!['"'] + bin_content(bytes@, *align) + seq!['"']) =~= pre
                    + json_chars(view_value(*v)));
            }
            None
        },
        Value::Array(es) => {
            proof {
                lemma_view_elements(es@);
            }
            if es.len() == 0 {
                out.append("[]");
                proof {
                    reveal_strlit("[]");
                    assert(view_elements(es@) =~= Seq::<ValueModel>::empty());
                    assert(json_list(view_elements(es@)) =~= Seq::<char>::empty());
                    assert(pre + "[]"@ =~= pre + json_chars(view_value(*v)));
                }
                None
            } else {
                push_char(out, '[');
                let first: &Value = &es[0];
                let ghost ss0 = stack@;
                stack.push(SerFrame::Arr(es, 1));
                proof {
                    let ges = view_elements(es@);
                    lemma_arr_rest_eq(ges, 1);
                    assert(stack@.drop_last() =~= ss0);
                    assert(stack@.last() == SerFrame::Arr(es, 1usize));
                    if ges.len() == 1 {
                        assert(json_list(ges) == json_chars(ges[0]));
                    } else {
                        assert(ges.skip(1) =~= ges.drop_first());
                    }
                    assert(json_chars(ges[0]) + arr_rest(ges, 1) =~= json_list(ges) + seq![']']);
                    assert(view_value(*first) == ges[0]);
                    assert((pre + seq!['[']) + json_chars(view_value(*first)) + arr_rest(ges, 1)
                        =~= pre + (seq!['['] + json_list(ges) + seq![']']));
                }
                Some(first)
            }
        },
        Value::Object(fs) => {
            proof {
                lemma_view_fields(fs@);
            }
            if fs.len() == 0 {
                out.append("{}");
                proof {
                    reveal_strlit("{}");
                    assert(view_fields(fs@) =~= Seq::<(Seq<char>, ValueModel)>::empty());
                    assert(json_fields(view_fields(fs@)) =~= Seq::<char>::empty());
                    assert(pre + "{}"@ =~= pre + json_chars(view_value(*v)));
                }
                None
            } else {
                push_char(out, '{');
                push_char(out, '"');
                let key: &String = &fs[0].0;
                out.append(key.as_str());
                push_char(out, '"');
                push_char(out, ':');
                let firstv: &Value = &fs[0].1;
                let ghost ss0 = stack@;
                stack.push(SerFrame::Obj(fs, 1));
                proof {
                    let gfs = view_fields(fs@);
                    lemma_obj_rest_eq(gfs, 1);
                    assert(stack@.drop_last() =~= ss0);
                    assert(stack@.last() == SerFrame::Obj(fs, 1usize));
                    let head = seq!['"'] + gfs[0].0 + seq!['"', ':'] + json_chars(gfs[0].1);
                    if gfs.len() == 1 {
                        assert(json_fields(gfs) == head);
                    } else {
                        assert(gfs.skip(1) =~= gfs.drop_first());
                    }
                    assert(head + obj_rest(gfs, 1) =~= json_fields(gfs) + seq!['}']);
                    assert(gfs[0].0 == key@ && gfs[0].1 == view_value(*firstv));
                    assert(out@ =~= pre + seq!['{'] + seq!['"'] + key@ + seq!['"', ':']);
                    assert(out@ + json_chars(view_value(*firstv)) + obj_rest(gfs, 1) =~= pre + (
                    seq!['{'] + json_fields(gfs) + seq!['}']));
                }
                Some(firstv)
            }
        },
    }
}

/// After a finished child, emits the top frame's next separator (and key)
/// and hands out its next child, or closes the frame.
#[verifier::rlimit(100)]
fn emit_next<'a>(out: &mut String, stack: &mut Vec<SerFrame<'a>>) -> (went: Option<&'a Value>)
    requires
        old(stack)@.len() > 0,
    ensures
        final(out)@.len() > old(out)@.len(),
        ({
            match went {
                None => final(stack)@ == old(stack)@.drop_last() && final(out)@ == old(out)@
                    + frame_rest(old(stack)@.last()),
                Some(child) => final(stack)@.len() == old(stack)@.len()
                    && final(stack)@.drop_last() == old(stack)@.drop_last() && final(out)@ + json_chars(
                    view_value(*child),
                ) + frame_rest(final(stack)@.last()) == old(out)@ + frame_rest(
                    old(stack)@.last(),
                ),
            }
        }),
{
    let ghost pre = out@;
    let ghost ss0 = stack@;
    let fr = stack.pop().unwrap();
    proof {
        assert(ss0.drop_last() =~= stack@);
        assert(ss0.last() == fr);
    }
    match fr {
        SerFrame::Arr(es, k) => {
            proof {
                lemma_view_elements(es@);
            }
            if k < es.len() {
                push_char(out, ',');
                let child: &Value = &es[k];
                let ghost ss1 = stack@;
                stack.push(SerFrame::Arr(es, k + 1));
                proof {
                    let ges = view_elements(es@);
                    assert(stack@.drop_last() =~= ss1);
                    assert(frame_rest(fr) == seq![','] + json_chars(ges[k as int]) + arr_rest(
                        ges,
                        k as int + 1,
                    ));
                    assert(view_value(*child) == ges[k as int]);
                    assert((pre + seq![',']) + json_chars(view_value(*child)) + arr_rest(
                        ges,
                        k as int + 1,
                    ) =~= pre + frame_rest(fr));
                }
                Some(child)
            } else {
                push_char(out, ']');
                proof {
                    assert(frame_rest(fr) =~= seq![']']);
                    assert(out@ =~= pre + frame_rest(fr));
                }
                None
            }
        },
        SerFrame::Obj(fs, k) => {
            proof {
                lemma_view_fields(fs@);
            }
            if k < fs.len() {
                push_char(out, ',');
                push_char(out, '"');
                let key: &String = &fs[k].0;
                out.append(key.as_str());
                push_char(out, '"');
                push_char(out, ':');
                let child: &Value = &fs[k].1;
                let ghost ss1 = stack@;
                stack.push(SerFrame::Obj(fs, k + 1));
                proof {
                    let gfs = view_fields(fs@);
                    assert(stack@.drop_last() =~= ss1);
                    assert(frame_rest(fr) == seq![','] + seq!['"'] + gfs[k as int].0 + seq!['"', ':']
                        + json_chars(gfs[k as int].1) + obj_rest(gfs, k as int + 1));
                    assert(gfs[k as int].0 == key@ && gfs[k as int].1 == view_value(*child));
                    assert(out@ =~= pre + seq![','] + seq!['"'] + key@ + seq!['"', ':']);
                    assert(out@ + json_chars(view_value(*child)) + obj_rest(gfs, k as int + 1) =~=
                        pre + frame_rest(fr));
                }
                Some(child)
            } else {
                push_char(out, '}');
                proof {
                    assert(frame_rest(fr) =~= seq!['}']);
                    assert(out@ =~= pre + frame_rest(fr));
                }
                None
            }
        },
    }
}

/// Serialize a value into its canonical text.
///
/// The tree is walked with an explicit stack of open containers, so input
/// depth never turns into call-stack depth.
pub fn to_string(value: &Value) -> (r: String)
    ensures
        r@ == json_chars(view_value(*value)),
{
    let mut out = String::new();
    let mut stack: Vec<SerFrame> = Vec::new();
    let mut cur: Option<&Value> = Some(value);
    loop
        invariant
            match cur {
                Some(v) => out@ + json_chars(view_value(*v)) + stack_rest(stack@) == json_chars(
                    view_value(*value),
                ),
                None => out@ + stack_rest(stack@) == json_chars(view_value(*value)),
            },
            out@.len() <= json_chars(view_value(*value)).len(),
        decreases json_chars(view_value(*value)).len() - out@.len(),
    {
        match cur {
            None => {
                if stack.len() == 0 {
                    proof {
                        assert(out@ =~= json_chars(view_value(*value)));
                    }
                    return out;
                }
                let ghost pre = out@;
                let ghost ss0 = stack@;
                cur = emit_next(&mut out, &mut stack);
                proof {
                    match cur {
                        None::<&Value> => {
                            assert(stack_rest(ss0) == frame_rest(ss0.last()) + stack_rest(
                                ss0.drop_last(),
                            ));
                            assert(out@ + stack_rest(stack@) =~= pre + stack_rest(ss0));
                        },
                        Some(child) => {
                            assert(stack_rest(ss0) == frame_rest(ss0.last()) + stack_rest(
                                ss0.drop_last(),
                            ));
                            assert(stack_rest(stack@) == frame_rest(stack@.last()) + stack_rest(
                                stack@.drop_last(),
                            ));
                            assert(out@ + json_chars(view_value(*child)) + stack_rest(stack@) =~= (
                            out@ + json_chars(view_value(*child)) + frame_rest(stack@.last()))
                                + stack_rest(stack@.drop_last()));
                            assert((out@ + json_chars(view_value(*child)) + frame_rest(
                                stack@.last(),
                            )) + stack_rest(stack@.drop_last()) == (pre + frame_rest(ss0.last()))
                                + stack_rest(ss0.drop_last()));
                            assert((pre + frame_rest(ss0.last())) + stack_rest(ss0.drop_last())
                                =~= pre + stack_rest(ss0));
                        },
                    }
                    assert(out@.len() > pre.len());
                }
            },
            Some(v) => {
                let ghost pre = out@;
                let ghost ss0 = stack@;
                cur = emit_head(&mut out, &mut stack, v);
                proof {
                    match cur {
                        None::<&Value> => {
                            assert(out@ + stack_rest(stack@) =~= pre + json_chars(view_value(*v))
                                + stack_rest(ss0));
                        },
                        Some(child) => {
                            assert(stack_rest(stack@) == frame_rest(stack@.last()) + stack_rest(
                                stack@.drop_last(),
                            ));
                            assert(out@ + json_chars(view_value(*child)) + stack_rest(stack@) =~=
                                pre + json_chars(view_value(*v)) + stack_rest(ss0));
                        },
                    }
                    assert(out@.len() > pre.len());
                }
            },
        }
    }
}

} // verus!
