//! The recursive-descent parser.
//!
//! The grammar is stated twice: once as spec functions over a character
//! sequence and a position (`sp_expr` and its helpers), and once as
//! executable methods on [`Cursor`] that are proved to return exactly what
//! the spec functions say, for every input.  The spec functions also define
//! where the cursor stands afterwards; on an error that resting position is
//! the error's offset.
//!
//! Two leniencies of the grammar are kept deliberately and pinned by the
//! contracts: a missing closing `}` or `]` is accepted silently (tolerant
//! close), and [`parse`] does not require the whole input to be consumed, so
//! trailing text after a complete value is ignored.  A comma inside an object
//! or array, by contrast, must be followed by another member or element.

use vstd::prelude::*;

use crate::ast::{
    insert_member, key_idx, lemma_key_idx, lemma_model_elements_push, lemma_model_elements_view,
    lemma_model_members_push, lemma_model_members_update, lemma_model_members_view, model_elements,
    model_members, string_from_chars, Expr, Val,
};
use crate::cursor::{char_at, sp_lit, spec_skip_ws, Cursor, EOF_CHAR};
use crate::error::{ErrorKind, ParseError};

verus! {

/// A decimal digit.
pub open spec fn is_digit(c: char) -> bool {
    ('0' as u32) <= (c as u32) <= ('9' as u32)
}

/// A decimal digit other than zero.
pub open spec fn is_nonzero_digit(c: char) -> bool {
    ('1' as u32) <= (c as u32) <= ('9' as u32)
}

/// A hexadecimal digit, either case.
pub open spec fn is_hex_digit(c: char) -> bool {
    ||| ('0' as u32) <= (c as u32) <= ('9' as u32)
    ||| ('a' as u32) <= (c as u32) <= ('f' as u32)
    ||| ('A' as u32) <= (c as u32) <= ('F' as u32)
}

/// A Unicode control character: the C0 range, delete, and the C1 range.
pub open spec fn spec_is_control(c: char) -> bool {
    (c as u32) < 0x20 || (0x7f <= (c as u32) <= 0x9f)
}

fn is_digit_char(c: char) -> (r: bool)
    ensures
        r == is_digit(c),
{
    let u = c as u32;
    48 <= u && u <= 57
}

fn is_nonzero_digit_char(c: char) -> (r: bool)
    ensures
        r == is_nonzero_digit(c),
{
    let u = c as u32;
    49 <= u && u <= 57
}

fn is_hex_char(c: char) -> (r: bool)
    ensures
        r == is_hex_digit(c),
{
    let u = c as u32;
    (48 <= u && u <= 57) || (97 <= u && u <= 102) || (65 <= u && u <= 70)
}

fn is_control_char(c: char) -> (r: bool)
    ensures
        r == spec_is_control(c),
{
    let u = c as u32;
    u < 0x20 || (0x7f <= u && u <= 0x9f)
}

/// The run of digits beginning at `p`, and the position after it.
pub open spec fn sp_digits(s: Seq<char>, p: int) -> (Seq<char>, int)
    decreases s.len() - p,
{
    if is_digit(char_at(s, p)) {
        let (ds, q) = sp_digits(s, p + 1);
        (seq![char_at(s, p)] + ds, q)
    } else {
        (Seq::empty(), p)
    }
}

/// The optional fraction (a dot and any digits) after the integer part
/// `t` of a number.
pub open spec fn sp_frac(s: Seq<char>, p: int, t: Seq<char>) -> (Result<Seq<char>, ErrorKind>, int) {
    if char_at(s, p) == '.' {
        let (ds, q) = sp_digits(s, p + 1);
        (Ok(t + seq!['.'] + ds), q)
    } else {
        (Ok(t), p)
    }
}

/// A number at `p`: an optional minus sign, then either a single `0` or a
/// nonzero digit followed by digits, then an optional fraction.  The result
/// is the literal text consumed.  A missing first digit is an error, reported
/// after the offending character is consumed.
pub open spec fn sp_num(s: Seq<char>, p: int) -> (Result<Seq<char>, ErrorKind>, int) {
    let sign: Seq<char> = if char_at(s, p) == '-' {
        seq!['-']
    } else {
        Seq::empty()
    };
    let p1 = if char_at(s, p) == '-' {
        p + 1
    } else {
        p
    };
    if char_at(s, p1) == '0' {
        sp_frac(s, p1 + 1, sign + seq!['0'])
    } else if is_nonzero_digit(char_at(s, p1)) {
        let (ds, p2) = sp_digits(s, p1 + 1);
        sp_frac(s, p2, sign + seq![char_at(s, p1)] + ds)
    } else {
        (Err(ErrorKind::ExpectedNumberDigit), p1 + 1)
    }
}

/// Four hex digits at `p`: whether all four are hex, and the position after
/// the last consumed character (the first offender is consumed on failure).
pub open spec fn sp_hex4(s: Seq<char>, p: int) -> (bool, int) {
    if !is_hex_digit(char_at(s, p)) {
        (false, p + 1)
    } else if !is_hex_digit(char_at(s, p + 1)) {
        (false, p + 2)
    } else if !is_hex_digit(char_at(s, p + 2)) {
        (false, p + 3)
    } else if !is_hex_digit(char_at(s, p + 3)) {
        (false, p + 4)
    } else {
        (true, p + 4)
    }
}

/// What a single-character escape maps to, or `None` if it names no escape.
/// The `u` escape is handled separately.
pub open spec fn escape_char(e: char) -> Option<char> {
    if e == '"' {
        Some('"')
    } else if e == '\\' {
        Some('\\')
    } else if e == '/' {
        Some('/')
    } else if e == 'n' {
        Some('\n')
    } else if e == 'r' {
        Some('\r')
    } else if e == 't' {
        Some('\t')
    } else {
        None
    }
}

/// The body of a string, read from `p` until an unescaped closing quote,
/// accumulating into `acc`.  A `\uXXXX` escape is checked for hex-ness but
/// yields the literal character `u`; a raw control character or an unknown
/// escape is an error.  The closing quote is consumed.
pub open spec fn sp_str_body(s: Seq<char>, p: int, acc: Seq<char>) -> (
    Result<Seq<char>, ErrorKind>,
    int,
)
    decreases s.len() - p,
{
    if char_at(s, p) == '"' {
        (Ok(acc), p + 1)
    } else {
        let c = char_at(s, p);
        if c == '\\' {
            let e = char_at(s, p + 1);
            if e == 'u' {
                let (ok, q) = sp_hex4(s, p + 2);
                if ok {
                    sp_str_body(s, q, acc.push('u'))
                } else {
                    (Err(ErrorKind::BadHexDigit), q)
                }
            } else if escape_char(e) is Some {
                sp_str_body(s, p + 2, acc.push(escape_char(e)->Some_0))
            } else {
                (Err(ErrorKind::UnknownEscape), p + 2)
            }
        } else if spec_is_control(c) {
            (Err(ErrorKind::UnallowedControlChar), p + 1)
        } else {
            sp_str_body(s, p + 1, acc.push(c))
        }
    }
}

/// A string at `p`: a tolerated opening quote, then the body up to the
/// closing quote.
pub open spec fn sp_str(s: Seq<char>, p: int) -> (Result<Seq<char>, ErrorKind>, int) {
    let p1 = if char_at(s, p) == '"' {
        p + 1
    } else {
        p
    };
    sp_str_body(s, p1, Seq::empty())
}

/// The parser's termination measure: how much input can still be looked at
/// from position `p`.
pub open spec fn meas(s: Seq<char>, p: int) -> int {
    if p <= s.len() {
        s.len() - p + 1
    } else {
        0
    }
}

/// The larger of two positions.  The spec parser clamps every intermediate
/// position with the lower bound the executable code maintains anyway, which
/// lets each recursive rule be seen to consume input.
pub open spec fn at_least(p: int, q: int) -> int {
    if p >= q {
        p
    } else {
        q
    }
}

/// A value expression at `p`: leading whitespace is skipped, then the rule
/// is chosen on one character of lookahead.  At the end of input the error
/// is `UnexpectedEnd`; on any other unexpected character, `UnexpectedChar`.
pub open spec fn sp_expr(s: Seq<char>, p: int) -> (Result<Val, ErrorKind>, int)
    decreases meas(s, p), 3int,
{
    let p1 = at_least(spec_skip_ws(s, p), p);
    let c = char_at(s, p1);
    if is_digit(c) || c == '-' {
        let (r, q) = sp_num(s, p1);
        match r {
            Ok(t) => (Ok(Val::Num(t)), q),
            Err(k) => (Err(k), q),
        }
    } else if c == '"' {
        let (r, q) = sp_str(s, p1);
        match r {
            Ok(t) => (Ok(Val::Str(t)), q),
            Err(k) => (Err(k), q),
        }
    } else if c == '{' {
        sp_obj(s, p1)
    } else if c == '[' {
        sp_arr(s, p1)
    } else if c == 't' {
        let (ok, q) = sp_lit(s, p1, seq!['t', 'r', 'u', 'e']);
        if ok {
            (Ok(Val::Bool(true)), q)
        } else {
            (Err(ErrorKind::ExpectedLiteral), q)
        }
    } else if c == 'f' {
        let (ok, q) = sp_lit(s, p1, seq!['f', 'a', 'l', 's', 'e']);
        if ok {
            (Ok(Val::Bool(false)), q)
        } else {
            (Err(ErrorKind::ExpectedLiteral), q)
        }
    } else if c == 'n' {
        let (ok, q) = sp_lit(s, p1, seq!['n', 'u', 'l', 'l']);
        if ok {
            (Ok(Val::Null), q)
        } else {
            (Err(ErrorKind::ExpectedLiteral), q)
        }
    } else if c == EOF_CHAR {
        (Err(ErrorKind::UnexpectedEnd), p1)
    } else {
        (Err(ErrorKind::UnexpectedChar), p1)
    }
}

/// An object whose `{` stands at `p`: either `}` follows at once (an empty
/// object), or members follow.  Only reached with `{` in view, so `p` is
/// within the input.
pub open spec fn sp_obj(s: Seq<char>, p: int) -> (Result<Val, ErrorKind>, int)
    decreases meas(s, p), 2int,
{
    if s.len() <= p {
        (Err(ErrorKind::UnexpectedEnd), p)
    } else {
        let p1 = p + 1;
        if char_at(s, p1) == '}' {
            (Ok(Val::Obj(Seq::empty())), p1 + 1)
        } else {
            sp_members(s, p1, Seq::empty())
        }
    }
}

/// The members of an object, read into `acc`: whitespace, a string key,
/// whitespace, `:`, whitespace, a value, whitespace; a `,` demands another
/// member, anything else ends the object, with a closing `}` consumed
/// tolerantly if present.
pub open spec fn sp_members(s: Seq<char>, p: int, acc: Seq<(Seq<char>, Val)>) -> (
    Result<Val, ErrorKind>,
    int,
)
    decreases meas(s, p), 1int,
{
    let p1 = at_least(spec_skip_ws(s, p), p);
    let (kr, p2r) = sp_str(s, p1);
    let p2 = at_least(p2r, p1 + 1);
    match kr {
        Err(e) => (Err(e), p2r),
        Ok(k) => {
            let p3 = at_least(spec_skip_ws(s, p2), p2);
            if char_at(s, p3) != ':' {
                (Err(ErrorKind::ExpectedColon), p3)
            } else {
                let p5 = at_least(spec_skip_ws(s, p3 + 1), p3 + 1);
                let (vr, p6r) = sp_expr(s, p5);
                let p6 = at_least(p6r, p5 + 1);
                match vr {
                    Err(e) => (Err(e), p6r),
                    Ok(v) => {
                        let acc2 = insert_member(acc, k, v);
                        let p7 = at_least(spec_skip_ws(s, p6), p6);
                        if char_at(s, p7) == ',' {
                            sp_members(s, p7 + 1, acc2)
                        } else {
                            let p8 = if char_at(s, p7) == '}' {
                                p7 + 1
                            } else {
                                p7
                            };
                            (Ok(Val::Obj(acc2)), p8)
                        }
                    },
                }
            }
        },
    }
}

/// An array whose `[` stands at `p`: whitespace, then either `]` at once (an
/// empty array), or a first element followed by the remaining elements.
pub open spec fn sp_arr(s: Seq<char>, p: int) -> (Result<Val, ErrorKind>, int)
    decreases meas(s, p), 2int,
{
    if s.len() <= p {
        (Err(ErrorKind::UnexpectedEnd), p)
    } else {
        let p1 = at_least(spec_skip_ws(s, p + 1), p + 1);
        if char_at(s, p1) == ']' {
            (Ok(Val::Arr(Seq::empty())), p1 + 1)
        } else {
            let (vr, p2r) = sp_expr(s, p1);
            let p2 = at_least(p2r, p1 + 1);
            match vr {
                Err(e) => (Err(e), p2r),
                Ok(v) => sp_elements(s, p2, seq![v]),
            }
        }
    }
}

/// The elements of an array after the first, read into `acc`: whitespace,
/// then a `,` demands another element; anything else ends the array, with a
/// closing `]` consumed tolerantly if present.
pub open spec fn sp_elements(s: Seq<char>, p: int, acc: Seq<Val>) -> (Result<Val, ErrorKind>, int)
    decreases meas(s, p), 1int,
{
    let p1 = at_least(spec_skip_ws(s, p), p);
    if char_at(s, p1) == ',' {
        let (vr, p3r) = sp_expr(s, p1 + 1);
        let p3 = at_least(p3r, p1 + 2);
        match vr {
            Err(e) => (Err(e), p3r),
            Ok(v) => sp_elements(s, p3, acc.push(v)),
        }
    } else {
        let p2 = if char_at(s, p1) == ']' {
            p1 + 1
        } else {
            p1
        };
        (Ok(Val::Arr(acc)), p2)
    }
}

/// A literal's characters are never the sentinel, so consuming it moves the
/// position at most one step past the end of the input.
proof fn lemma_sp_lit_bounds(s: Seq<char>, p: int, lit: Seq<char>)
    requires
        p <= s.len(),
        forall|i: int| 0 <= i < lit.len() ==> lit[i] != EOF_CHAR,
    ensures
        p <= sp_lit(s, p, lit).1 <= s.len() + 1,
        lit.len() > 0 ==> p < sp_lit(s, p, lit).1,
        sp_lit(s, p, lit).0 ==> sp_lit(s, p, lit).1 <= s.len(),
    decreases lit.len(),
{
    if lit.len() > 0 && char_at(s, p) == lit[0] {
        assert(p < s.len());
        lemma_sp_lit_bounds(s, p + 1, lit.drop_first());
    }
}

impl Cursor {
    /// Reads a run of digits, appending them to `num`.
    fn read_digits(&mut self, num: &mut Vec<char>)
        requires
            old(self).wf(),
        ensures
            final(self).wf(),
            final(self).text() == old(self).text(),
            old(self).pos <= final(self).pos,
            final(self).pos <= old(self).text().len() || final(self).pos == old(self).pos,
            final(self).pos as int == sp_digits(old(self).text(), old(self).pos as int).1,
            final(num)@ == old(num)@ + sp_digits(old(self).text(), old(self).pos as int).0,
    {
        let ghost s = self.text();
        let ghost p0: int = self.pos as int;
        let ghost n0 = num@;
        proof {
            assert(num@.skip(n0.len() as int) =~= Seq::<char>::empty());
            assert(sp_digits(s, p0).0 =~= num@.skip(n0.len() as int) + sp_digits(s, p0).0);
        }
        while is_digit_char(self.peek())
            invariant
                self.wf(),
                self.text() == s,
                p0 <= self.pos as int,
                self.pos <= s.len() || self.pos as int == p0,
                num@.len() >= n0.len(),
                num@.subrange(0, n0.len() as int) == n0,
                sp_digits(s, p0).1 == sp_digits(s, self.pos as int).1,
                sp_digits(s, p0).0 == num@.skip(n0.len() as int) + sp_digits(s, self.pos as int).0,
            decreases s.len() - self.pos,
        {
            let ghost numpre = num@;
            let ghost q: int = self.pos as int;
            let c = self.next();
            num.push(c);
            proof {
                assert(num@.subrange(0, n0.len() as int) =~= n0);
                assert(sp_digits(s, q).0 == seq![char_at(s, q)] + sp_digits(s, q + 1).0);
                assert(num@.skip(n0.len() as int) =~= numpre.skip(n0.len() as int) + seq![c]);
                assert(sp_digits(s, p0).0 =~= num@.skip(n0.len() as int) + sp_digits(
                    s,
                    self.pos as int,
                ).0);
            }
        }
        proof {
            assert(sp_digits(s, self.pos as int).0 =~= Seq::<char>::empty());
            assert(num@ =~= num@.subrange(0, n0.len() as int) + num@.skip(n0.len() as int));
            assert(num@ =~= n0 + sp_digits(s, p0).0);
        }
    }

    /// Parses a number and yields its literal text as an `Expr::Num`.
    fn parse_num(&mut self) -> (r: Result<Expr, ParseError>)
        requires
            old(self).wf(),
            is_digit(char_at(old(self).text(), old(self).pos as int)) || char_at(
                old(self).text(),
                old(self).pos as int,
            ) == '-',
        ensures
            final(self).wf(),
            final(self).text() == old(self).text(),
            old(self).pos < final(self).pos,
            r matches Ok(_) ==> final(self).pos <= old(self).text().len(),
            ({
                let (sr, q) = sp_num(old(self).text(), old(self).pos as int);
                &&& final(self).pos as int == q
                &&& (sr matches Ok(t) ==> (r matches Ok(e) && e.model() == Val::Num(t)))
                &&& (sr matches Err(k) ==> (r matches Err(pe) && pe.kind == k && pe.at as int
                    == q))
            }),
    {
        let ghost s = self.text();
        let ghost p0: int = self.pos as int;
        let mut num: Vec<char> = Vec::new();
        if self.peek() == '-' {
            let c = self.next();
            num.push(c);
        }
        let ghost sign = num@;
        let ghost p1: int = self.pos as int;
        if self.peek() == '0' {
            let c = self.next();
            num.push(c);
        } else {
            let c = self.next();
            if is_nonzero_digit_char(c) {
                num.push(c);
            } else {
                return Err(ParseError { kind: ErrorKind::ExpectedNumberDigit, at: self.pos });
            }
            self.read_digits(&mut num);
        }
        let ghost intpart = num@;
        let ghost p2: int = self.pos as int;
        proof {
            if char_at(s, p1) == '0' {
                assert(intpart =~= sign + seq!['0']);
            } else {
                assert(intpart =~= sign + seq![char_at(s, p1)] + sp_digits(s, p1 + 1).0);
            }
        }
        if self.peek() == '.' {
            let c = self.next();
            num.push(c);
            self.read_digits(&mut num);
            proof {
                assert(num@ =~= intpart + seq!['.'] + sp_digits(s, p2 + 1).0);
            }
        }
        let lit = string_from_chars(&num);
        Ok(Expr::Num(lit))
    }

    /// Parses a string body (the opening quote may or may not be present)
    /// and yields the decoded text.
    fn parse_str(&mut self) -> (r: Result<String, ParseError>)
        requires
            old(self).wf(),
            old(self).pos <= old(self).text().len(),
        ensures
            final(self).wf(),
            final(self).text() == old(self).text(),
            old(self).pos < final(self).pos,
            r matches Ok(_) ==> final(self).pos <= old(self).text().len(),
            ({
                let (sr, q) = sp_str(old(self).text(), old(self).pos as int);
                &&& final(self).pos as int == q
                &&& (sr matches Ok(t) ==> (r matches Ok(ks) && ks@ == t))
                &&& (sr matches Err(k) ==> (r matches Err(pe) && pe.kind == k && pe.at as int
                    == q))
            }),
    {
        let ghost s = self.text();
        let ghost p0: int = self.pos as int;
        self.eat('"');
        let ghost pb: int = self.pos as int;
        let mut buf: Vec<char> = Vec::new();
        proof {
            assert(buf@ =~= Seq::<char>::empty());
        }
        loop
            invariant_except_break
                self.wf(),
                s == old(self).text(),
                p0 == old(self).pos as int,
                pb == (if char_at(s, p0) == '"' { p0 + 1 } else { p0 }),
                self.text() == s,
                p0 <= pb <= self.pos as int,
                self.pos <= s.len(),
                sp_str_body(s, pb, Seq::empty()) == sp_str_body(s, self.pos as int, buf@),
            ensures
                self.wf(),
                s == old(self).text(),
                p0 == old(self).pos as int,
                pb == (if char_at(s, p0) == '"' { p0 + 1 } else { p0 }),
                self.text() == s,
                p0 <= pb <= self.pos as int,
                self.pos <= s.len(),
                char_at(s, self.pos as int) == '"',
                sp_str_body(s, pb, Seq::empty()) == sp_str_body(s, self.pos as int, buf@),
            decreases s.len() - self.pos,
        {
            if self.check('"') {
                break ;
            }
            let c = self.next();
            if c == '\\' {
                let e = self.next();
                if e == '"' {
                    buf.push('"');
                } else if e == '\\' {
                    buf.push('\\');
                } else if e == '/' {
                    buf.push('/');
                } else if e == 'n' {
                    buf.push('\n');
                } else if e == 'r' {
                    buf.push('\r');
                } else if e == 't' {
                    buf.push('\t');
                } else if e == 'u' {
                    let h1 = self.next();
                    if !is_hex_char(h1) {
                        return Err(ParseError { kind: ErrorKind::BadHexDigit, at: self.pos });
                    }
                    let h2 = self.next();
                    if !is_hex_char(h2) {
                        return Err(ParseError { kind: ErrorKind::BadHexDigit, at: self.pos });
                    }
                    let h3 = self.next();
                    if !is_hex_char(h3) {
                        return Err(ParseError { kind: ErrorKind::BadHexDigit, at: self.pos });
                    }
                    let h4 = self.next();
                    if !is_hex_char(h4) {
                        return Err(ParseError { kind: ErrorKind::BadHexDigit, at: self.pos });
                    }
                    buf.push('u');
                } else {
                    return Err(ParseError { kind: ErrorKind::UnknownEscape, at: self.pos });
                }
            } else if is_control_char(c) {
                return Err(ParseError { kind: ErrorKind::UnallowedControlChar, at: self.pos });
            } else {
                buf.push(c);
            }
            proof {
                assert(sp_str_body(s, pb, Seq::empty()) == sp_str_body(s, self.pos as int, buf@));
            }
        }
        self.eat('"');
        Ok(string_from_chars(&buf))
    }

    /// Parses the literal `true`.
    fn parse_true(&mut self) -> (r: Result<Expr, ParseError>)
        requires
            old(self).wf(),
            old(self).pos <= old(self).text().len(),
        ensures
            final(self).wf(),
            final(self).text() == old(self).text(),
            old(self).pos < final(self).pos,
            r matches Ok(_) ==> final(self).pos <= old(self).text().len(),
            ({
                let (ok, q) = sp_lit(old(self).text(), old(self).pos as int, seq!['t', 'r', 'u', 'e']);
                &&& final(self).pos as int == q
                &&& ok ==> (r matches Ok(e) && e.model() == Val::Bool(true))
                &&& !ok ==> (r matches Err(pe) && pe.kind == ErrorKind::ExpectedLiteral
                    && pe.at as int == q)
            }),
    {
        let lit = String::from_str("true");
        proof {
            reveal_strlit("true");
            assert(lit@ =~= seq!['t', 'r', 'u', 'e']);
            lemma_sp_lit_bounds(self.text(), self.pos as int, lit@);
        }
        match self.consume_str(lit, ErrorKind::ExpectedLiteral) {
            Ok(_) => Ok(Expr::Bool(true)),
            Err(e) => Err(e),
        }
    }

    /// Parses the literal `false`.
    fn parse_false(&mut self) -> (r: Result<Expr, ParseError>)
        requires
            old(self).wf(),
            old(self).pos <= old(self).text().len(),
        ensures
            final(self).wf(),
            final(self).text() == old(self).text(),
            old(self).pos < final(self).pos,
            r matches Ok(_) ==> final(self).pos <= old(self).text().len(),
            ({
                let (ok, q) = sp_lit(
                    old(self).text(),
                    old(self).pos as int,
                    seq!['f', 'a', 'l', 's', 'e'],
                );
                &&& final(self).pos as int == q
                &&& ok ==> (r matches Ok(e) && e.model() == Val::Bool(false))
                &&& !ok ==> (r matches Err(pe) && pe.kind == ErrorKind::ExpectedLiteral
                    && pe.at as int == q)
            }),
    {
        let lit = String::from_str("false");
        proof {
            reveal_strlit("false");
            assert(lit@ =~= seq!['f', 'a', 'l', 's', 'e']);
            lemma_sp_lit_bounds(self.text(), self.pos as int, lit@);
        }
        match self.consume_str(lit, ErrorKind::ExpectedLiteral) {
            Ok(_) => Ok(Expr::Bool(false)),
            Err(e) => Err(e),
        }
    }

    /// Parses the literal `null`.
    fn parse_null(&mut self) -> (r: Result<Expr, ParseError>)
        requires
            old(self).wf(),
            old(self).pos <= old(self).text().len(),
        ensures
            final(self).wf(),
            final(self).text() == old(self).text(),
            old(self).pos < final(self).pos,
            r matches Ok(_) ==> final(self).pos <= old(self).text().len(),
            ({
                let (ok, q) = sp_lit(old(self).text(), old(self).pos as int, seq!['n', 'u', 'l', 'l']);
                &&& final(self).pos as int == q
                &&& ok ==> (r matches Ok(e) && e.model() == Val::Null)
                &&& !ok ==> (r matches Err(pe) && pe.kind == ErrorKind::ExpectedLiteral
                    && pe.at as int == q)
            }),
    {
        let lit = String::from_str("null");
        proof {
            reveal_strlit("null");
            assert(lit@ =~= seq!['n', 'u', 'l', 'l']);
            lemma_sp_lit_bounds(self.text(), self.pos as int, lit@);
        }
        match self.consume_str(lit, ErrorKind::ExpectedLiteral) {
            Ok(_) => Ok(Expr::Null),
            Err(e) => Err(e),
        }
    }

    /// Parses an object whose `{` is in view.
    fn parse_obj(&mut self) -> (r: Result<Expr, ParseError>)
        requires
            old(self).wf(),
            char_at(old(self).text(), old(self).pos as int) == '{',
        ensures
            final(self).wf(),
            final(self).text() == old(self).text(),
            old(self).pos < final(self).pos,
            r matches Ok(_) ==> final(self).pos <= old(self).text().len(),
            ({
                let (sr, q) = sp_obj(old(self).text(), old(self).pos as int);
                &&& final(self).pos as int == q
                &&& (sr matches Ok(v) ==> (r matches Ok(e) && e.model() == v))
                &&& (sr matches Err(k) ==> (r matches Err(pe) && pe.kind == k && pe.at as int
                    == q))
            }),
        decreases meas(self.text(), self.pos as int), 2int,
    {
        let ghost s = self.text();
        let ghost p0: int = self.pos as int;
        self.eat('{');
        let mut obj: Vec<(String, Expr)> = Vec::new();
        proof {
            assert(model_members(obj@, 0) =~= Seq::<(Seq<char>, Val)>::empty());
        }
        if self.check('}') {
            self.next();
            return Ok(Expr::Obj(obj));
        }
        let ghost pm: int = self.pos as int;
        loop
            invariant_except_break
                self.wf(),
                s == old(self).text(),
                p0 == old(self).pos as int,
                char_at(s, p0) == '{',
                char_at(s, pm) != '}',
                self.text() == s,
                0 <= p0,
                p0 < s.len(),
                pm == p0 + 1,
                pm <= self.pos as int,
                self.pos <= s.len(),
                sp_members(s, pm, Seq::empty()) == sp_members(
                    s,
                    self.pos as int,
                    model_members(obj@, 0),
                ),
            ensures
                self.wf(),
                s == old(self).text(),
                p0 == old(self).pos as int,
                char_at(s, p0) == '{',
                char_at(s, pm) != '}',
                0 <= p0,
                p0 < s.len(),
                pm == p0 + 1,
                self.text() == s,
                pm <= self.pos as int,
                self.pos <= s.len(),
                char_at(s, self.pos as int) != ',',
                sp_members(s, pm, Seq::empty()) == ({
                    let p7: int = self.pos as int;
                    let p8: int = if char_at(s, p7) == '}' {
                        p7 + 1
                    } else {
                        p7
                    };
                    (Ok::<Val, ErrorKind>(Val::Obj(model_members(obj@, 0))), p8)
                }),
            decreases s.len() - self.pos,
        {
            let ghost acci = model_members(obj@, 0);
            self.skip_whitespace();
            let key = match self.parse_str() {
                Ok(kk) => kk,
                Err(e) => {
                    return Err(e);
                },
            };
            self.skip_whitespace();
            match self.consume(':', ErrorKind::ExpectedColon) {
                Ok(_) => {},
                Err(e) => {
                    return Err(e);
                },
            }
            self.skip_whitespace();
            let v = match self.parse_expr() {
                Ok(vv) => vv,
                Err(e) => {
                    return Err(e);
                },
            };
            let ghost kview = key@;
            let ghost vmodel = v.model();
            insert_pair(&mut obj, key, v);
            proof {
                assert(model_members(obj@, 0) == insert_member(acci, kview, vmodel));
            }
            self.skip_whitespace();
            if !self.eat(',') {
                break ;
            }
        }
        self.eat('}');
        Ok(Expr::Obj(obj))
    }

    /// Parses an array whose `[` is in view.
    fn parse_arr(&mut self) -> (r: Result<Expr, ParseError>)
        requires
            old(self).wf(),
            char_at(old(self).text(), old(self).pos as int) == '[',
        ensures
            final(self).wf(),
            final(self).text() == old(self).text(),
            old(self).pos < final(self).pos,
            r matches Ok(_) ==> final(self).pos <= old(self).text().len(),
            ({
                let (sr, q) = sp_arr(old(self).text(), old(self).pos as int);
                &&& final(self).pos as int == q
                &&& (sr matches Ok(v) ==> (r matches Ok(e) && e.model() == v))
                &&& (sr matches Err(k) ==> (r matches Err(pe) && pe.kind == k && pe.at as int
                    == q))
            }),
        decreases meas(self.text(), self.pos as int), 2int,
    {
        let ghost s = self.text();
        let ghost p0: int = self.pos as int;
        self.eat('[');
        self.skip_whitespace();
        let mut arr: Vec<Expr> = Vec::new();
        proof {
            assert(model_elements(arr@, 0) =~= Seq::<Val>::empty());
        }
        if self.check(']') {
            self.next();
            return Ok(Expr::Arr(arr));
        }
        let first = match self.parse_expr() {
            Ok(vv) => vv,
            Err(e) => {
                return Err(e);
            },
        };
        let ghost fmodel = first.model();
        arr.push(first);
        proof {
            lemma_model_elements_push(Seq::empty(), arr@[0]);
            assert(arr@ =~= Seq::<Expr>::empty().push(arr@[0]));
            assert(model_elements(arr@, 0) =~= seq![fmodel]);
        }
        loop
            invariant_except_break
                self.wf(),
                s == old(self).text(),
                p0 == old(self).pos as int,
                char_at(s, p0) == '[',
                self.text() == s,
                0 <= p0,
                p0 < s.len(),
                p0 < self.pos as int,
                self.pos <= s.len(),
                sp_arr(s, p0) == sp_elements(s, self.pos as int, model_elements(arr@, 0)),
            ensures
                self.wf(),
                s == old(self).text(),
                p0 == old(self).pos as int,
                char_at(s, p0) == '[',
                0 <= p0,
                p0 < s.len(),
                self.text() == s,
                p0 < self.pos as int,
                self.pos <= s.len(),
                char_at(s, self.pos as int) != ',',
                sp_arr(s, p0) == ({
                    let pe1: int = self.pos as int;
                    let pe2: int = if char_at(s, pe1) == ']' {
                        pe1 + 1
                    } else {
                        pe1
                    };
                    (Ok::<Val, ErrorKind>(Val::Arr(model_elements(arr@, 0))), pe2)
                }),
            decreases s.len() - self.pos,
        {
            let ghost acci = model_elements(arr@, 0);
            self.skip_whitespace();
            if !self.eat(',') {
                break ;
            }
            let v = match self.parse_expr() {
                Ok(vv) => vv,
                Err(e) => {
                    return Err(e);
                },
            };
            let ghost vmodel = v.model();
            let ghost before = arr@;
            arr.push(v);
            proof {
                lemma_model_elements_push(before, arr@[arr@.len() - 1]);
                assert(arr@ =~= before.push(arr@[arr@.len() - 1]));
                assert(model_elements(arr@, 0) =~= acci.push(vmodel));
            }
        }
        self.eat(']');
        Ok(Expr::Arr(arr))
    }

    /// Parses one value expression: skips whitespace and dispatches on one
    /// character of lookahead.
    fn parse_expr(&mut self) -> (r: Result<Expr, ParseError>)
        requires
            old(self).wf(),
        ensures
            final(self).wf(),
            final(self).text() == old(self).text(),
            old(self).pos <= final(self).pos,
            r matches Ok(_) ==> old(self).pos < final(self).pos && final(self).pos <= old(
                self,
            ).text().len(),
            ({
                let (sr, q) = sp_expr(old(self).text(), old(self).pos as int);
                &&& final(self).pos as int == q
                &&& (sr matches Ok(v) ==> (r matches Ok(e) && e.model() == v))
                &&& (sr matches Err(k) ==> (r matches Err(pe) && pe.kind == k && pe.at as int
                    == q))
            }),
        decreases meas(self.text(), self.pos as int), 3int,
    {
        self.skip_whitespace();
        let c = self.peek();
        if is_digit_char(c) || c == '-' {
            self.parse_num()
        } else if c == '"' {
            match self.parse_str() {
                Ok(t) => Ok(Expr::Str(t)),
                Err(e) => Err(e),
            }
        } else if c == '{' {
            self.parse_obj()
        } else if c == '[' {
            self.parse_arr()
        } else if c == 't' {
            self.parse_true()
        } else if c == 'f' {
            self.parse_false()
        } else if c == 'n' {
            self.parse_null()
        } else if c == EOF_CHAR {
            Err(ParseError { kind: ErrorKind::UnexpectedEnd, at: self.pos })
        } else {
            Err(ParseError { kind: ErrorKind::UnexpectedChar, at: self.pos })
        }
    }
}

/// Inserts `(k, v)` into the members: an existing key keeps its place but
/// takes the new value, a fresh key is appended.
fn insert_pair(obj: &mut Vec<(String, Expr)>, k: String, v: Expr)
    ensures
        model_members(final(obj)@, 0) == insert_member(
            model_members(old(obj)@, 0),
            k@,
            v.model(),
        ),
{
    let ghost m0 = model_members(obj@, 0);
    proof {
        lemma_model_members_view(obj@, 0);
        lemma_key_idx(m0, k@);
    }
    let n = obj.len();
    let mut i: usize = 0;
    while i < n
        invariant
            obj@ == old(obj)@,
            n == obj@.len(),
            0 <= i <= n,
            m0 == model_members(obj@, 0),
            m0.len() == n,
            forall|j: int| 0 <= j < m0.len() ==> m0[j] == (obj@[j].0@, obj@[j].1.model()),
            forall|j: int| 0 <= j < i ==> m0[j].0 != k@,
            key_idx(m0, k@) < 0 ==> forall|j: int| 0 <= j < m0.len() ==> m0[j].0 != k@,
            key_idx(m0, k@) >= 0 ==> {
                &&& 0 <= key_idx(m0, k@) < m0.len()
                &&& m0[key_idx(m0, k@)].0 == k@
                &&& forall|j: int| 0 <= j < key_idx(m0, k@) ==> m0[j].0 != k@
            },
        decreases n - i,
    {
        if obj[i].0 == k {
            proof {
                assert(m0[i as int].0 == k@);
                assert(key_idx(m0, k@) == i as int);
            }
            let ghost before = obj@;
            let ghost kv = k@;
            let ghost vm = v.model();
            let _prev = obj.remove(i);
            obj.insert(i, (k, v));
            proof {
                let pair = obj@[i as int];
                assert(pair.0@ == kv && pair.1.model() == vm);
                assert(obj@ =~= before.update(i as int, pair));
                lemma_model_members_update(before, i as int, pair.0, pair.1);
                assert(model_members(obj@, 0) =~= m0.update(i as int, (kv, vm)));
            }
            return ;
        }
        i = i + 1;
    }
    proof {
        assert(key_idx(m0, k@) < 0);
    }
    let ghost before = obj@;
    obj.push((k, v));
    proof {
        lemma_model_members_push(before, obj@[obj@.len() - 1].0, obj@[obj@.len() - 1].1);
        assert(model_members(obj@, 0) =~= m0.push((k@, v.model())));
    }
}

/// Parses `str`: builds a cursor over its characters and reads exactly one
/// value expression.  Trailing input after that value is ignored.  On
/// success the value's model is what the grammar says the text holds; on
/// failure the error kind and offset are the grammar's.
pub fn parse(str: &String) -> (r: Result<Expr, ParseError>)
    ensures
        ({
            let (sr, q) = sp_expr(str@, 0);
            &&& (sr matches Ok(v) ==> (r matches Ok(e) && e.model() == v))
            &&& (sr matches Err(k) ==> (r matches Err(pe) && pe.kind == k && pe.at as int == q))
        }),
{
    let mut cursor = Cursor::new(str);
    cursor.parse_expr()
}

} // verus!
