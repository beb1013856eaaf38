//! The round-trip law.
//!
//! Rendering a value and parsing the rendering again yields the value back,
//! stated over the mathematical models.  Two conditions bound the law, both
//! of them properties every successfully parsed value has except the first:
//!
//! * the serializer does not re-escape string bodies, so a string (or an
//!   object key) holding a quote, a backslash or a control character renders
//!   to text that cannot parse back — such values are excluded by
//!   [`escape_free_val`];
//! * number literals and object keys must have the shape the parser itself
//!   produces (a grammatical numeral; unique keys), captured by
//!   [`parsed_shape`].

use vstd::prelude::*;

use crate::ast::{insert_member, key_idx, lemma_key_idx, render_elements, render_members, render_val, Val};
use crate::cursor::{char_at, sp_lit, spec_is_whitespace, spec_skip_ws};
use crate::error::ErrorKind;
use crate::parse::{
    at_least, is_digit, is_nonzero_digit, meas, sp_arr, sp_digits, sp_elements, sp_expr, sp_frac,
    sp_members, sp_num, sp_obj, sp_str, sp_str_body, spec_is_control,
};

verus! {

/// Text free of the characters that would need escaping on output: quotes,
/// backslashes and control characters.
pub open spec fn escape_free(t: Seq<char>) -> bool {
    forall|i: int|
        0 <= i < t.len() ==> t[i] != '"' && t[i] != '\\' && !spec_is_control(t[i])
}

/// The length of the optional minus sign of a numeral.
pub open spec fn num_sign_len(t: Seq<char>) -> int {
    if t.len() > 0 && t[0] == '-' {
        1
    } else {
        0
    }
}

/// The first position at or after `i` holding no digit.
pub open spec fn digits_end(t: Seq<char>, i: int) -> int
    decreases t.len() - i,
{
    if 0 <= i < t.len() && is_digit(t[i]) {
        digits_end(t, i + 1)
    } else {
        i
    }
}

/// Everything before the digits' end is a digit, and the end is the first
/// non-digit.
proof fn lemma_digits_end(t: Seq<char>, i: int)
    requires
        0 <= i,
    ensures
        i <= digits_end(t, i) <= t.len() || digits_end(t, i) == i,
        i <= digits_end(t, i),
        forall|j: int| i <= j < digits_end(t, i) ==> is_digit(t[j]),
        digits_end(t, i) < t.len() ==> !is_digit(t[digits_end(t, i)]),
        i < t.len() && is_digit(t[i]) ==> digits_end(t, i) <= t.len(),
        i <= t.len() ==> digits_end(t, i) <= t.len(),
    decreases t.len() - i,
{
    if 0 <= i < t.len() && is_digit(t[i]) {
        lemma_digits_end(t, i + 1);
    }
}

/// A grammatical numeral: an optional minus sign, then one or more digits
/// (a leading zero standing alone), then optionally a dot and digits running
/// to the end.
pub open spec fn wf_num_text(t: Seq<char>) -> bool {
    let b = num_sign_len(t);
    let ie = digits_end(t, b);
    &&& b < ie
    &&& (t[b] == '0' ==> ie == b + 1)
    &&& (ie == t.len() || (t[ie] == '.' && digits_end(t, ie + 1) == t.len()))
}

/// The shape every value produced by a successful parse has: numerals are
/// grammatical, object keys are distinct, and so on recursively.
pub open spec fn parsed_shape(v: Val) -> bool
    decreases v, 1int,
{
    match v {
        Val::Num(t) => wf_num_text(t),
        Val::Str(_) => true,
        Val::Obj(ms) => {
            &&& (forall|i: int, j: int|
                0 <= i < j < ms.len() ==> ms[i].0 != ms[j].0)
            &&& parsed_shape_members(ms, 0)
        },
        Val::Arr(es) => parsed_shape_elements(es, 0),
        Val::Bool(_) => true,
        Val::Null => true,
    }
}

pub open spec fn parsed_shape_members(ms: Seq<(Seq<char>, Val)>, i: int) -> bool
    decreases ms, ms.len() - i,
{
    if 0 <= i < ms.len() {
        parsed_shape(ms[i].1) && parsed_shape_members(ms, i + 1)
    } else {
        true
    }
}

pub open spec fn parsed_shape_elements(es: Seq<Val>, i: int) -> bool
    decreases es, es.len() - i,
{
    if 0 <= i < es.len() {
        parsed_shape(es[i]) && parsed_shape_elements(es, i + 1)
    } else {
        true
    }
}

/// No string body or object key anywhere in the value needs escaping.
pub open spec fn escape_free_val(v: Val) -> bool
    decreases v, 1int,
{
    match v {
        Val::Num(_) => true,
        Val::Str(t) => escape_free(t),
        Val::Obj(ms) => escape_free_members(ms, 0),
        Val::Arr(es) => escape_free_elements(es, 0),
        Val::Bool(_) => true,
        Val::Null => true,
    }
}

pub open spec fn escape_free_members(ms: Seq<(Seq<char>, Val)>, i: int) -> bool
    decreases ms, ms.len() - i,
{
    if 0 <= i < ms.len() {
        escape_free(ms[i].0) && escape_free_val(ms[i].1) && escape_free_members(ms, i + 1)
    } else {
        true
    }
}

pub open spec fn escape_free_elements(es: Seq<Val>, i: int) -> bool
    decreases es, es.len() - i,
{
    if 0 <= i < es.len() {
        escape_free_val(es[i]) && escape_free_elements(es, i + 1)
    } else {
        true
    }
}

/// The characters of `t` stand in `s` beginning at `p`.
pub open spec fn seg_at(s: Seq<char>, p: int, t: Seq<char>) -> bool {
    forall|i: int| 0 <= i < t.len() ==> char_at(s, p + i) == t[i]
}

/// A run of digits in the input is consumed whole, stopping at the first
/// non-digit.
proof fn lemma_parse_digits(s: Seq<char>, p: int, ds: Seq<char>)
    requires
        0 <= p,
        seg_at(s, p, ds),
        forall|i: int| 0 <= i < ds.len() ==> is_digit(ds[i]),
        !is_digit(char_at(s, p + ds.len())),
    ensures
        sp_digits(s, p) == (ds, p + ds.len()),
    decreases ds.len(),
{
    if ds.len() == 0 {
        assert(sp_digits(s, p) == (Seq::<char>::empty(), p));
        assert(ds =~= Seq::<char>::empty());
    } else {
        assert(char_at(s, p) == ds[0]);
        assert(seg_at(s, p + 1, ds.drop_first())) by {
            assert forall|i: int| 0 <= i < ds.drop_first().len() implies char_at(s, p + 1 + i)
                == ds.drop_first()[i] by {
                assert(ds.drop_first()[i] == ds[i + 1]);
                assert(char_at(s, p + (i + 1)) == ds[i + 1]);
            }
        }
        lemma_parse_digits(s, p + 1, ds.drop_first());
        assert(ds =~= seq![ds[0]] + ds.drop_first());
    }
}

/// A literal standing in the input matches in full.
proof fn lemma_parse_lit(s: Seq<char>, p: int, lit: Seq<char>)
    requires
        0 <= p,
        seg_at(s, p, lit),
    ensures
        sp_lit(s, p, lit) == (true, p + lit.len()),
    decreases lit.len(),
{
    if lit.len() > 0 {
        assert(char_at(s, p) == lit[0]);
        assert(seg_at(s, p + 1, lit.drop_first())) by {
            assert forall|i: int| 0 <= i < lit.drop_first().len() implies char_at(s, p + 1 + i)
                == lit.drop_first()[i] by {
                assert(lit.drop_first()[i] == lit[i + 1]);
                assert(char_at(s, p + (i + 1)) == lit[i + 1]);
            }
        }
        lemma_parse_lit(s, p + 1, lit.drop_first());
    }
}

/// An escape-free string body standing before a closing quote is read
/// verbatim, and the quote is consumed.
proof fn lemma_parse_str_body(s: Seq<char>, p: int, t: Seq<char>, acc: Seq<char>)
    requires
        0 <= p,
        seg_at(s, p, t),
        escape_free(t),
        char_at(s, p + t.len()) == '"',
    ensures
        sp_str_body(s, p, acc) == (Ok::<Seq<char>, ErrorKind>(acc + t), p + t.len() + 1),
    decreases t.len(),
{
    if t.len() == 0 {
        assert(char_at(s, p) == '"');
        assert(acc + t =~= acc);
    } else {
        assert(char_at(s, p) == t[0]);
        assert(t[0] != '"' && t[0] != '\\' && !spec_is_control(t[0]));
        assert(seg_at(s, p + 1, t.drop_first())) by {
            assert forall|i: int| 0 <= i < t.drop_first().len() implies char_at(s, p + 1 + i)
                == t.drop_first()[i] by {
                assert(t.drop_first()[i] == t[i + 1]);
                assert(char_at(s, p + (i + 1)) == t[i + 1]);
            }
        }
        assert(escape_free(t.drop_first())) by {
            assert forall|i: int|
                0 <= i < t.drop_first().len() implies t.drop_first()[i] != '"'
                && t.drop_first()[i] != '\\' && !spec_is_control(t.drop_first()[i]) by {
                assert(t.drop_first()[i] == t[i + 1]);
            }
        }
        lemma_parse_str_body(s, p + 1, t.drop_first(), acc.push(t[0]));
        assert(acc.push(t[0]) + t.drop_first() =~= acc + t);
    }
}

/// A quoted, escape-free string standing in the input parses to its body.
proof fn lemma_parse_str(s: Seq<char>, p: int, t: Seq<char>)
    requires
        0 <= p,
        char_at(s, p) == '"',
        seg_at(s, p + 1, t),
        escape_free(t),
        char_at(s, p + 1 + t.len()) == '"',
    ensures
        sp_str(s, p) == (Ok::<Seq<char>, ErrorKind>(t), p + t.len() + 2),
{
    lemma_parse_str_body(s, p + 1, t, Seq::empty());
    assert(Seq::<char>::empty() + t =~= t);
}

/// A grammatical numeral standing in the input, followed by neither a digit
/// nor a dot, parses to exactly its own text.
proof fn lemma_parse_num(s: Seq<char>, p: int, t: Seq<char>)
    requires
        0 <= p,
        seg_at(s, p, t),
        wf_num_text(t),
        !is_digit(char_at(s, p + t.len())),
        char_at(s, p + t.len()) != '.',
    ensures
        sp_num(s, p) == (Ok::<Seq<char>, ErrorKind>(t), p + t.len()),
{
    let b = num_sign_len(t);
    let ie = digits_end(t, b);
    lemma_digits_end(t, b);
    assert(b < ie <= t.len());
    if ie < t.len() {
        lemma_digits_end(t, ie + 1);
    }
    let p1 = p + b;
    assert(b == 1 ==> char_at(s, p) == '-');
    assert(b == 0 ==> char_at(s, p) != '-') by {
        if b == 0 && t.len() > 0 {
            assert(char_at(s, p) == t[0]);
        }
    }
    let sign: Seq<char> = if b == 1 {
        seq!['-']
    } else {
        Seq::empty()
    };
    assert(char_at(s, p1) == t[b]);
    assert(is_digit(t[b]));
    // the digits of the integer part after its first character
    let ds = t.subrange(b + 1, ie);
    assert(seg_at(s, p1 + 1, ds)) by {
        assert forall|i: int| 0 <= i < ds.len() implies char_at(s, p1 + 1 + i) == ds[i] by {
            assert(ds[i] == t[b + 1 + i]);
            assert(char_at(s, p + (b + 1 + i)) == t[b + 1 + i]);
        }
    }
    assert(!is_digit(char_at(s, p1 + 1 + ds.len()))) by {
        if ie == t.len() {
            assert(p1 + 1 + ds.len() == p + t.len());
        } else {
            assert(char_at(s, p + ie) == t[ie]);
            assert(t[ie] == '.');
        }
    }
    lemma_parse_digits(s, p1 + 1, ds);
    // the fraction
    let fstart = ie + 1;
    if ie < t.len() {
        assert(t[ie] == '.');
        assert(char_at(s, p + ie) == '.');
        let fs = t.subrange(fstart, t.len() as int);
        assert(seg_at(s, p + fstart, fs)) by {
            assert forall|i: int| 0 <= i < fs.len() implies char_at(s, p + fstart + i) == fs[i] by {
                assert(fs[i] == t[fstart + i]);
                assert(char_at(s, p + (fstart + i)) == t[fstart + i]);
            }
        }
        lemma_parse_digits(s, p + fstart, fs);
        if t[b] == '0' {
            assert(ie == b + 1);
            assert(char_at(s, p1) == '0');
            assert(sp_num(s, p) == sp_frac(s, p1 + 1, sign + seq!['0']));
            assert(sign + seq!['0'] + seq!['.'] + fs =~= t);
        } else {
            assert(is_nonzero_digit(t[b])) by {
                assert(is_digit(t[b]) && t[b] != '0');
            }
            assert(sign + seq![t[b]] + ds + seq!['.'] + fs =~= t);
        }
    } else {
        if t[b] == '0' {
            assert(ie == b + 1);
            assert(char_at(s, p1) == '0');
            assert(char_at(s, p1 + 1) != '.');
            assert(sign + seq!['0'] =~= t);
        } else {
            assert(is_nonzero_digit(t[b])) by {
                assert(is_digit(t[b]) && t[b] != '0');
            }
            assert(char_at(s, p + ie) != '.');
            assert(sign + seq![t[b]] + ds =~= t);
        }
    }
}

/// The text after element `j - 1` of an array: a comma and the remaining
/// elements if any are left, then the closing bracket.
pub open spec fn arr_rest(es: Seq<Val>, j: int) -> Seq<char> {
    if j < es.len() {
        seq![','] + render_elements(es, j) + seq![']']
    } else {
        seq![']']
    }
}

/// The text from member `j` of an object on: the remaining members, then
/// the closing brace.
pub open spec fn obj_rest(ms: Seq<(Seq<char>, Val)>, j: int) -> Seq<char> {
    render_members(ms, j) + seq!['}']
}

proof fn lemma_shape_elements_at(es: Seq<Val>, i: int, k: int)
    requires
        parsed_shape_elements(es, i),
        0 <= i <= k < es.len(),
    ensures
        parsed_shape(es[k]),
    decreases k - i,
{
    if i < k {
        lemma_shape_elements_at(es, i + 1, k);
    }
}

proof fn lemma_escape_elements_at(es: Seq<Val>, i: int, k: int)
    requires
        escape_free_elements(es, i),
        0 <= i <= k < es.len(),
    ensures
        escape_free_val(es[k]),
    decreases k - i,
{
    if i < k {
        lemma_escape_elements_at(es, i + 1, k);
    }
}

proof fn lemma_shape_members_at(ms: Seq<(Seq<char>, Val)>, i: int, k: int)
    requires
        parsed_shape_members(ms, i),
        0 <= i <= k < ms.len(),
    ensures
        parsed_shape(ms[k].1),
    decreases k - i,
{
    if i < k {
        lemma_shape_members_at(ms, i + 1, k);
    }
}

proof fn lemma_escape_members_at(ms: Seq<(Seq<char>, Val)>, i: int, k: int)
    requires
        escape_free_members(ms, i),
        0 <= i <= k < ms.len(),
    ensures
        escape_free(ms[k].0),
        escape_free_val(ms[k].1),
    decreases k - i,
{
    if i < k {
        lemma_escape_members_at(ms, i + 1, k);
    }
}

/// The rendering of a well-shaped value is nonempty, and its first
/// character is no whitespace and none of the characters that end a
/// container.
proof fn lemma_render_head(v: Val)
    requires
        parsed_shape(v),
    ensures
        render_val(v).len() >= 1,
        !spec_is_whitespace(render_val(v)[0]),
        render_val(v)[0] != ']',
        render_val(v)[0] != '}',
        render_val(v)[0] != ',',
        render_val(v)[0] != ':',
{
    match v {
        Val::Num(t) => {
            let b = num_sign_len(t);
            lemma_digits_end(t, b);
            if b == 1 {
                assert(render_val(v)[0] == '-');
            } else {
                assert(is_digit(t[0]));
            }
        },
        Val::Str(t) => {
            assert(render_val(v)[0] == '"');
        },
        Val::Obj(ms) => {
            assert(render_val(v)[0] == '{');
        },
        Val::Arr(es) => {
            assert(render_val(v)[0] == '[');
        },
        Val::Bool(b) => {
            if b {
                assert(render_val(v)[0] == 't');
            } else {
                assert(render_val(v)[0] == 'f');
            }
        },
        Val::Null => {
            assert(render_val(v)[0] == 'n');
        },
    }
}

/// The heart of the round trip: a rendered well-shaped, escape-free value
/// standing in the input, followed by neither a digit nor a dot, parses
/// back to exactly that value.
proof fn lemma_round_trip_at(v: Val, s: Seq<char>, p: int)
    requires
        parsed_shape(v),
        escape_free_val(v),
        0 <= p,
        seg_at(s, p, render_val(v)),
        !is_digit(char_at(s, p + render_val(v).len())),
        char_at(s, p + render_val(v).len()) != '.',
    ensures
        sp_expr(s, p) == (Ok::<Val, ErrorKind>(v), p + render_val(v).len()),
    decreases v, 2int,
{
    let r = render_val(v);
    lemma_render_head(v);
    assert(char_at(s, p) == r[0]);
    assert(spec_skip_ws(s, p) == p);
    assert(at_least(spec_skip_ws(s, p), p) == p);
    match v {
        Val::Num(t) => {
            lemma_parse_num(s, p, t);
        },
        Val::Str(t) => {
            assert(r =~= seq!['"'] + t + seq!['"']);
            assert(seg_at(s, p + 1, t)) by {
                assert forall|i: int| 0 <= i < t.len() implies char_at(s, p + 1 + i) == t[i] by {
                    assert(char_at(s, p + (1 + i)) == r[1 + i]);
                }
            }
            assert(char_at(s, p + 1 + t.len()) == r[1 + t.len() as int]);
            lemma_parse_str(s, p, t);
            assert(!is_digit('"') && '"' != '-');
        },
        Val::Obj(_) => {
            let ms = v->Obj_0;
            assert(r =~= seq!['{'] + render_members(ms, 0) + seq!['}']);
            assert(p < s.len()) by {
                assert(char_at(s, p) == '{');
            }
            if ms.len() == 0 {
                assert(render_members(ms, 0) =~= Seq::<char>::empty());
                assert(char_at(s, p + 1) == r[1]);
                assert(r[1] == '}');
                assert(sp_obj(s, p) == (Ok::<Val, ErrorKind>(Val::Obj(Seq::empty())), p + 2));
                assert(ms =~= Seq::<(Seq<char>, Val)>::empty());
            } else {
                assert(seg_at(s, p + 1, obj_rest(ms, 0))) by {
                    assert(obj_rest(ms, 0) =~= render_members(ms, 0) + seq!['}']);
                    assert forall|i: int| 0 <= i < obj_rest(ms, 0).len() implies char_at(
                        s,
                        p + 1 + i,
                    ) == obj_rest(ms, 0)[i] by {
                        assert(char_at(s, p + (1 + i)) == r[1 + i]);
                        assert(r[1 + i] == obj_rest(ms, 0)[i]);
                    }
                }
                lemma_render_members_head(ms, 0);
                assert(char_at(s, p + 1) == obj_rest(ms, 0)[0]);
                assert(char_at(s, p + 1) != '}');
                lemma_round_trip_members(v->Obj_0, 0, s, p + 1);
                assert(Seq::<(Seq<char>, Val)>::empty() =~= ms.take(0));
                assert(sp_members(s, p + 1, ms.take(0)) == (
                    Ok::<Val, ErrorKind>(Val::Obj(ms)),
                    p + 1 + obj_rest(ms, 0).len(),
                ));
            }
        },
        Val::Arr(_) => {
            let es = v->Arr_0;
            assert(r =~= seq!['['] + render_elements(es, 0) + seq![']']);
            assert(p < s.len()) by {
                assert(char_at(s, p) == '[');
            }
            if es.len() == 0 {
                assert(render_elements(es, 0) =~= Seq::<char>::empty());
                assert(char_at(s, p + 1) == r[1]);
                assert(r[1] == ']');
                assert(spec_skip_ws(s, p + 1) == p + 1);
                assert(sp_arr(s, p) == (Ok::<Val, ErrorKind>(Val::Arr(Seq::empty())), p + 2));
                assert(es =~= Seq::<Val>::empty());
            } else {
                lemma_shape_elements_at(es, 0, 0);
                lemma_escape_elements_at(es, 0, 0);
                lemma_render_head(es[0]);
                let r0 = render_val(es[0]);
                assert(seg_at(s, p + 1, r0)) by {
                    assert forall|i: int| 0 <= i < r0.len() implies char_at(s, p + 1 + i)
                        == r0[i] by {
                        assert(char_at(s, p + (1 + i)) == r[1 + i]);
                        assert(render_elements(es, 0)[i] == r0[i]);
                    }
                }
                assert(char_at(s, p + 1) == r0[0]);
                assert(spec_skip_ws(s, p + 1) == p + 1);
                assert(char_at(s, p + 1) != ']');
                // the character after the first element: a comma or the bracket
                assert(char_at(s, p + 1 + r0.len()) == arr_rest(es, 1)[0]) by {
                    assert(render_elements(es, 0).len() + 2 == r.len());
                    if es.len() > 1 {
                        assert(render_elements(es, 0) =~= r0 + seq![','] + render_elements(
                            es,
                            1,
                        ));
                        assert(char_at(s, p + (1 + r0.len())) == r[1 + r0.len() as int]);
                    } else {
                        assert(render_elements(es, 0) =~= r0);
                        assert(char_at(s, p + (1 + r0.len())) == r[1 + r0.len() as int]);
                    }
                }
                assert(!is_digit(arr_rest(es, 1)[0]) && arr_rest(es, 1)[0] != '.') by {
                    if es.len() > 1 {
                        assert(arr_rest(es, 1)[0] == ',');
                    } else {
                        assert(arr_rest(es, 1)[0] == ']');
                    }
                }
                lemma_round_trip_at(es[0], s, p + 1);
                assert(seg_at(s, p + 1 + r0.len(), arr_rest(es, 1))) by {
                    assert forall|i: int| 0 <= i < arr_rest(es, 1).len() implies char_at(
                        s,
                        p + 1 + r0.len() + i,
                    ) == arr_rest(es, 1)[i] by {
                        if es.len() > 1 {
                            assert(render_elements(es, 0) =~= r0 + seq![','] + render_elements(
                                es,
                                1,
                            ));
                        } else {
                            assert(render_elements(es, 0) =~= r0);
                        }
                        assert(char_at(s, p + (1 + r0.len() + i)) == r[1 + r0.len() + i]);
                    }
                }
                assert(seq![es[0]] =~= es.take(1));
                lemma_round_trip_elements(v->Arr_0, 1, s, p + 1 + r0.len());
                assert(r.len() == 1 + r0.len() + arr_rest(es, 1).len());
            }
        },
        Val::Bool(b) => {
            if b {
                assert(r =~= seq!['t', 'r', 'u', 'e']);
                lemma_parse_lit(s, p, seq!['t', 'r', 'u', 'e']);
            } else {
                assert(r =~= seq!['f', 'a', 'l', 's', 'e']);
                lemma_parse_lit(s, p, seq!['f', 'a', 'l', 's', 'e']);
            }
        },
        Val::Null => {
            assert(r =~= seq!['n', 'u', 'l', 'l']);
            lemma_parse_lit(s, p, seq!['n', 'u', 'l', 'l']);
        },
    }
}

/// The first character of the rendering of members `j` on is the key's
/// opening quote.
proof fn lemma_render_members_head(ms: Seq<(Seq<char>, Val)>, j: int)
    requires
        0 <= j < ms.len(),
    ensures
        render_members(ms, j).len() >= 1,
        render_members(ms, j)[0] == '"',
        obj_rest(ms, j).len() >= 1,
        obj_rest(ms, j)[0] == '"',
{
}

/// Remaining array elements standing in the input, each demanded by a
/// comma, parse and append in order until the closing bracket.
proof fn lemma_round_trip_elements(es: Seq<Val>, j: int, s: Seq<char>, p: int)
    requires
        1 <= j <= es.len(),
        parsed_shape_elements(es, 0),
        escape_free_elements(es, 0),
        0 <= p,
        seg_at(s, p, arr_rest(es, j)),
    ensures
        sp_elements(s, p, es.take(j)) == (
            Ok::<Val, ErrorKind>(Val::Arr(es)),
            p + arr_rest(es, j).len(),
        ),
    decreases es, (es.len() - j),
{
    let rest = arr_rest(es, j);
    assert(char_at(s, p) == rest[0]);
    if j == es.len() {
        assert(rest[0] == ']');
        assert(spec_skip_ws(s, p) == p);
        assert(es.take(j) =~= es);
    } else {
        assert(rest[0] == ',');
        assert(spec_skip_ws(s, p) == p);
        let rj = render_val(es[j]);
        lemma_shape_elements_at(es, 0, j);
        lemma_escape_elements_at(es, 0, j);
        lemma_render_head(es[j]);
        assert(rest =~= seq![','] + rj + arr_rest(es, j + 1)) by {
            if j + 1 < es.len() {
                assert(render_elements(es, j) =~= rj + seq![','] + render_elements(es, j + 1));
            } else {
                assert(render_elements(es, j) =~= rj);
            }
        }
        assert(seg_at(s, p + 1, rj)) by {
            assert forall|i: int| 0 <= i < rj.len() implies char_at(s, p + 1 + i) == rj[i] by {
                assert(char_at(s, p + (1 + i)) == rest[1 + i]);
            }
        }
        assert(char_at(s, p + 1 + rj.len()) == arr_rest(es, j + 1)[0]) by {
            assert(char_at(s, p + (1 + rj.len())) == rest[1 + rj.len() as int]);
        }
        assert(!is_digit(arr_rest(es, j + 1)[0]) && arr_rest(es, j + 1)[0] != '.') by {
            if j + 1 < es.len() {
                assert(arr_rest(es, j + 1)[0] == ',');
            } else {
                assert(arr_rest(es, j + 1)[0] == ']');
            }
        }
        lemma_round_trip_at(es[j], s, p + 1);
        assert(seg_at(s, p + 1 + rj.len(), arr_rest(es, j + 1))) by {
            assert forall|i: int| #![trigger arr_rest(es, j + 1)[i]] 0 <= i < arr_rest(
                es,
                j + 1,
            ).len() implies char_at(s, p + 1 + rj.len() + i) == arr_rest(es, j + 1)[i] by {
                assert(char_at(s, p + (1 + rj.len() + i)) == rest[1 + rj.len() + i]);
            }
        }
        assert(es.take(j).push(es[j]) =~= es.take(j + 1));
        lemma_round_trip_elements(es, j + 1, s, p + 1 + rj.len());
        assert(rest.len() == 1 + rj.len() + arr_rest(es, j + 1).len());
    }
}

/// Remaining object members standing in the input parse and insert in
/// order (every key fresh, so each insertion appends) until the closing
/// brace.
proof fn lemma_round_trip_members(ms: Seq<(Seq<char>, Val)>, j: int, s: Seq<char>, p: int)
    requires
        0 <= j < ms.len(),
        forall|i1: int, i2: int| 0 <= i1 < i2 < ms.len() ==> ms[i1].0 != ms[i2].0,
        parsed_shape_members(ms, 0),
        escape_free_members(ms, 0),
        0 <= p,
        seg_at(s, p, obj_rest(ms, j)),
    ensures
        sp_members(s, p, ms.take(j)) == (
            Ok::<Val, ErrorKind>(Val::Obj(ms)),
            p + obj_rest(ms, j).len(),
        ),
    decreases ms, (ms.len() - j),
{
    let rest = obj_rest(ms, j);
    let k = ms[j].0;
    let vj = ms[j].1;
    let rj = render_val(vj);
    lemma_shape_members_at(ms, 0, j);
    lemma_escape_members_at(ms, 0, j);
    lemma_render_head(vj);
    let one = seq!['"'] + k + seq!['"', ':'] + rj;
    assert(rest =~= one + member_sep(ms, j)) by {
        if j + 1 < ms.len() {
            assert(render_members(ms, j) =~= one + seq![','] + render_members(ms, j + 1));
        } else {
            assert(render_members(ms, j) =~= one);
        }
    }
    assert(char_at(s, p) == rest[0]);
    assert(rest[0] == '"');
    assert(spec_skip_ws(s, p) == p);
    // the key
    assert(seg_at(s, p + 1, k)) by {
        assert forall|i: int| 0 <= i < k.len() implies char_at(s, p + 1 + i) == k[i] by {
            assert(char_at(s, p + (1 + i)) == rest[1 + i]);
        }
    }
    assert(char_at(s, p + 1 + k.len()) == rest[1 + k.len() as int]);
    assert(rest[1 + k.len() as int] == '"');
    lemma_parse_str(s, p, k);
    let q1 = p + k.len() + 2;
    // the colon
    assert(char_at(s, q1) == rest[k.len() as int + 2]);
    assert(rest[k.len() as int + 2] == ':');
    assert(spec_skip_ws(s, q1) == q1);
    // the value
    assert(seg_at(s, q1 + 1, rj)) by {
        assert forall|i: int| 0 <= i < rj.len() implies char_at(s, q1 + 1 + i) == rj[i] by {
            assert(char_at(s, p + (k.len() + 3 + i)) == rest[k.len() + 3 + i]);
        }
    }
    assert(char_at(s, q1 + 1) == rj[0]);
    assert(spec_skip_ws(s, q1 + 1) == q1 + 1);
    let q2 = q1 + 1 + rj.len();
    assert(char_at(s, q2) == member_sep(ms, j)[0]) by {
        assert(char_at(s, p + (one.len())) == rest[one.len() as int]);
    }
    assert(!is_digit(member_sep(ms, j)[0]) && member_sep(ms, j)[0] != '.') by {
        if j + 1 < ms.len() {
            assert(member_sep(ms, j)[0] == ',');
        } else {
            assert(member_sep(ms, j)[0] == '}');
        }
    }
    lemma_round_trip_at(ms[j].1, s, q1 + 1);
    assert(spec_skip_ws(s, q2) == q2);
    // inserting a fresh key appends
    let acc = ms.take(j);
    lemma_key_idx(acc, k);
    assert(key_idx(acc, k) < 0) by {
        if key_idx(acc, k) >= 0 {
            assert(acc[key_idx(acc, k)].0 == ms[key_idx(acc, k)].0);
        }
    }
    assert(insert_member(acc, k, vj) =~= ms.take(j + 1)) by {
        assert(acc.push((k, vj)) =~= ms.take(j + 1));
    }
    if j + 1 < ms.len() {
        assert(char_at(s, q2) == ',');
        assert(seg_at(s, q2 + 1, obj_rest(ms, j + 1))) by {
            assert forall|i: int| #![trigger obj_rest(ms, j + 1)[i]] 0 <= i < obj_rest(
                ms,
                j + 1,
            ).len() implies char_at(s, q2 + 1 + i) == obj_rest(ms, j + 1)[i] by {
                assert(rest =~= one + seq![','] + obj_rest(ms, j + 1));
                assert(char_at(s, p + (one.len() + 1 + i)) == rest[one.len() as int + 1 + i]);
            }
        }
        lemma_round_trip_members(ms, j + 1, s, q2 + 1);
        assert(rest.len() == one.len() + 1 + obj_rest(ms, j + 1).len()) by {
            assert(rest =~= one + seq![','] + obj_rest(ms, j + 1));
        }
    } else {
        assert(char_at(s, q2) == '}');
        assert(ms.take(j + 1) =~= ms);
        assert(rest.len() == one.len() + 1);
    }
}

/// What follows one rendered member: a comma if more members come, else the
/// closing brace.
pub open spec fn member_sep(ms: Seq<(Seq<char>, Val)>, j: int) -> Seq<char> {
    if j + 1 < ms.len() {
        seq![','] + obj_rest(ms, j + 1)
    } else {
        seq!['}']
    }
}

/// The round-trip law: rendering a well-shaped value whose strings and keys
/// need no escaping, and parsing the rendering again, yields the very same
/// value, with the whole rendering consumed.  Values produced by a
/// successful parse have the required shape; the escape-freedom condition
/// excludes the known serializer gap (string bodies are emitted raw).
pub proof fn lemma_round_trip(v: Val)
    requires
        parsed_shape(v),
        escape_free_val(v),
    ensures
        sp_expr(render_val(v), 0) == (Ok::<Val, ErrorKind>(v), render_val(v).len() as int),
{
    let s = render_val(v);
    assert(seg_at(s, 0, s)) by {
        assert forall|i: int| 0 <= i < s.len() implies char_at(s, 0 + i) == s[i] by {}
    }
    assert(char_at(s, s.len() as int) == crate::cursor::EOF_CHAR);
    lemma_round_trip_at(v, s, 0);
}

/// The digits' end of a text whose digit run is known outright.
proof fn lemma_digits_end_of(t: Seq<char>, i: int, e: int)
    requires
        0 <= i <= e <= t.len(),
        forall|j: int| i <= j < e ==> is_digit(t[j]),
        e < t.len() ==> !is_digit(t[e]),
    ensures
        digits_end(t, i) == e,
    decreases e - i,
{
    if i < e {
        lemma_digits_end_of(t, i + 1, e);
    }
}

/// What a digit run consumes: its own characters, all digits, stopping at
/// the first non-digit.
proof fn lemma_sp_digits_chars(s: Seq<char>, p: int)
    ensures
        sp_digits(s, p).1 == p + sp_digits(s, p).0.len(),
        forall|i: int|
            0 <= i < sp_digits(s, p).0.len() ==> is_digit(#[trigger] sp_digits(s, p).0[i]),
        !is_digit(char_at(s, sp_digits(s, p).1)),
    decreases s.len() - p,
{
    if is_digit(char_at(s, p)) {
        lemma_sp_digits_chars(s, p + 1);
        assert forall|i: int| 0 <= i < sp_digits(s, p).0.len() implies is_digit(
            #[trigger] sp_digits(s, p).0[i],
        ) by {
            if i > 0 {
                assert(sp_digits(s, p).0[i] == sp_digits(s, p + 1).0[i - 1]);
            }
        }
    }
}

/// A successfully parsed numeral is grammatical.
proof fn lemma_parse_num_shape(s: Seq<char>, p: int)
    ensures
        sp_num(s, p).0 matches Ok(t) ==> wf_num_text(t),
{
    let sign: Seq<char> = if char_at(s, p) == '-' {
        seq!['-']
    } else {
        Seq::empty()
    };
    let b: int = sign.len() as int;
    let p1 = if char_at(s, p) == '-' {
        p + 1
    } else {
        p
    };
    if char_at(s, p1) == '0' {
        let core = sign + seq!['0'];
        if char_at(s, p1 + 1) == '.' {
            lemma_sp_digits_chars(s, p1 + 2);
            let fs = sp_digits(s, p1 + 2).0;
            let t = core + seq!['.'] + fs;
            assert(num_sign_len(t) == b);
            assert(t[b] == '0');
            lemma_digits_end_of(t, b, b + 1);
            assert(t[b + 1] == '.');
            lemma_digits_end_of(t, b + 2, t.len() as int);
            assert(wf_num_text(t));
        } else {
            let t = core;
            assert(num_sign_len(t) == b);
            assert(t[b] == '0');
            lemma_digits_end_of(t, b, b + 1);
            assert(wf_num_text(t));
        }
    } else if is_nonzero_digit(char_at(s, p1)) {
        lemma_sp_digits_chars(s, p1 + 1);
        let ds = sp_digits(s, p1 + 1).0;
        let p2 = sp_digits(s, p1 + 1).1;
        let core = sign + seq![char_at(s, p1)] + ds;
        assert(forall|j: int| b <= j < core.len() ==> is_digit(#[trigger] core[j]));
        if char_at(s, p2) == '.' {
            lemma_sp_digits_chars(s, p2 + 1);
            let fs = sp_digits(s, p2 + 1).0;
            let t = core + seq!['.'] + fs;
            assert(num_sign_len(t) == b);
            assert(t[core.len() as int] == '.');
            lemma_digits_end_of(t, b, core.len() as int);
            lemma_digits_end_of(t, core.len() as int + 1, t.len() as int);
            assert(t[b] != '0');
            assert(wf_num_text(t));
        } else {
            let t = core;
            assert(num_sign_len(t) == b);
            lemma_digits_end_of(t, b, t.len() as int);
            assert(t[b] != '0');
            assert(wf_num_text(t));
        }
    }
}

/// Members whose values are all well shaped, taken from any start.
proof fn lemma_shape_members_from(ms: Seq<(Seq<char>, Val)>, i: int)
    requires
        forall|k: int| i <= k < ms.len() ==> parsed_shape(#[trigger] ms[k].1),
    ensures
        parsed_shape_members(ms, i),
    decreases ms, (if i < ms.len() { ms.len() - i } else { 0 }),
{
    if 0 <= i < ms.len() {
        lemma_shape_members_from(ms, i + 1);
    }
}

proof fn lemma_shape_elements_from(es: Seq<Val>, i: int)
    requires
        forall|k: int| i <= k < es.len() ==> parsed_shape(#[trigger] es[k]),
    ensures
        parsed_shape_elements(es, i),
    decreases es, (if i < es.len() { es.len() - i } else { 0 }),
{
    if 0 <= i < es.len() {
        lemma_shape_elements_from(es, i + 1);
    }
}

/// Inserting a well-shaped value into well-shaped members with distinct
/// keys keeps both properties.
proof fn lemma_insert_member_shape(acc: Seq<(Seq<char>, Val)>, k: Seq<char>, v: Val)
    requires
        forall|i1: int, i2: int| 0 <= i1 < i2 < acc.len() ==> acc[i1].0 != acc[i2].0,
        forall|i: int| 0 <= i < acc.len() ==> parsed_shape(#[trigger] acc[i].1),
        parsed_shape(v),
    ensures
        forall|i1: int, i2: int|
            0 <= i1 < i2 < insert_member(acc, k, v).len() ==> insert_member(acc, k, v)[i1].0
                != insert_member(acc, k, v)[i2].0,
        forall|i: int|
            0 <= i < insert_member(acc, k, v).len() ==> parsed_shape(
                #[trigger] insert_member(acc, k, v)[i].1,
            ),
{
    lemma_key_idx(acc, k);
    let out = insert_member(acc, k, v);
    let ki = key_idx(acc, k);
    if ki < 0 {
        assert forall|i1: int, i2: int| 0 <= i1 < i2 < out.len() implies out[i1].0
            != out[i2].0 by {
            if i2 == out.len() - 1 {
                assert(out[i1].0 == acc[i1].0);
            }
        }
    } else {
        assert forall|i1: int, i2: int| 0 <= i1 < i2 < out.len() implies out[i1].0
            != out[i2].0 by {
            assert(acc[ki].0 == k);
            assert(out[i1].0 == if i1 == ki {
                k
            } else {
                acc[i1].0
            });
            assert(out[i2].0 == if i2 == ki {
                k
            } else {
                acc[i2].0
            });
        }
    }
}

/// Every value a successful parse of an expression yields is well shaped:
/// its numerals are grammatical and its object keys distinct, throughout
/// the tree.  Together with the round-trip law this covers every value the
/// parser produces.
pub proof fn lemma_parse_shape(s: Seq<char>, p: int)
    ensures
        sp_expr(s, p).0 matches Ok(v) ==> parsed_shape(v),
    decreases meas(s, p), 3int,
{
    let p1 = at_least(spec_skip_ws(s, p), p);
    let c = char_at(s, p1);
    if is_digit(c) || c == '-' {
        lemma_parse_num_shape(s, p1);
    } else if c == '"' {
    } else if c == '{' {
        lemma_parse_shape_obj(s, p1);
    } else if c == '[' {
        lemma_parse_shape_arr(s, p1);
    }
}

proof fn lemma_parse_shape_obj(s: Seq<char>, p: int)
    ensures
        sp_obj(s, p).0 matches Ok(v) ==> parsed_shape(v),
    decreases meas(s, p), 2int,
{
    if s.len() <= p {
    } else {
        let p1 = p + 1;
        if char_at(s, p1) == '}' {
            assert(parsed_shape_members(Seq::empty(), 0));
        } else {
            lemma_parse_shape_members(s, p1, Seq::empty());
        }
    }
}

proof fn lemma_parse_shape_members(s: Seq<char>, p: int, acc: Seq<(Seq<char>, Val)>)
    requires
        forall|i1: int, i2: int| 0 <= i1 < i2 < acc.len() ==> acc[i1].0 != acc[i2].0,
        forall|i: int| 0 <= i < acc.len() ==> parsed_shape(#[trigger] acc[i].1),
    ensures
        sp_members(s, p, acc).0 matches Ok(v) ==> parsed_shape(v),
    decreases meas(s, p), 1int,
{
    let p1 = at_least(spec_skip_ws(s, p), p);
    let (kr, p2r) = sp_str(s, p1);
    let p2 = at_least(p2r, p1 + 1);
    match kr {
        Err(e) => {},
        Ok(k) => {
            let p3 = at_least(spec_skip_ws(s, p2), p2);
            if char_at(s, p3) != ':' {
            } else {
                let p5 = at_least(spec_skip_ws(s, p3 + 1), p3 + 1);
                lemma_parse_shape(s, p5);
                let (vr, p6r) = sp_expr(s, p5);
                let p6 = at_least(p6r, p5 + 1);
                match vr {
                    Err(e) => {},
                    Ok(v) => {
                        lemma_insert_member_shape(acc, k, v);
                        let acc2 = insert_member(acc, k, v);
                        let p7 = at_least(spec_skip_ws(s, p6), p6);
                        if char_at(s, p7) == ',' {
                            lemma_parse_shape_members(s, p7 + 1, acc2);
                        } else {
                            lemma_shape_members_from(acc2, 0);
                        }
                    },
                }
            }
        },
    }
}

proof fn lemma_parse_shape_arr(s: Seq<char>, p: int)
    ensures
        sp_arr(s, p).0 matches Ok(v) ==> parsed_shape(v),
    decreases meas(s, p), 2int,
{
    if s.len() <= p {
    } else {
        let p1 = at_least(spec_skip_ws(s, p + 1), p + 1);
        if char_at(s, p1) == ']' {
            assert(parsed_shape_elements(Seq::empty(), 0));
        } else {
            lemma_parse_shape(s, p1);
            let (vr, p2r) = sp_expr(s, p1);
            let p2 = at_least(p2r, p1 + 1);
            match vr {
                Err(e) => {},
                Ok(v) => {
                    lemma_parse_shape_elements(s, p2, seq![v]);
                },
            }
        }
    }
}

proof fn lemma_parse_shape_elements(s: Seq<char>, p: int, acc: Seq<Val>)
    requires
        forall|i: int| 0 <= i < acc.len() ==> parsed_shape(#[trigger] acc[i]),
    ensures
        sp_elements(s, p, acc).0 matches Ok(v) ==> parsed_shape(v),
    decreases meas(s, p), 1int,
{
    let p1 = at_least(spec_skip_ws(s, p), p);
    if char_at(s, p1) == ',' {
        lemma_parse_shape(s, p1 + 1);
        let (vr, p3r) = sp_expr(s, p1 + 1);
        let p3 = at_least(p3r, p1 + 2);
        match vr {
            Err(e) => {},
            Ok(v) => {
                lemma_parse_shape_elements(s, p3, acc.push(v));
            },
        }
    } else {
        lemma_shape_elements_from(acc, 0);
    }
}

} // verus!
