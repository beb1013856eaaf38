//! Character-indexed scanning primitive with one-character lookahead.
//!
//! A [`Cursor`] owns a fixed, read-only sequence of characters decoded from
//! the input text and a position that only ever moves forward.  Reading at or
//! past the end of the sequence yields the sentinel [`EOF_CHAR`] instead of
//! failing; because that sentinel is itself a legal character value, an
//! embedded literal `'\0'` in real input is indistinguishable from the end of
//! input.  That is a documented limitation of the scanner.

use vstd::prelude::*;

use crate::error::{ErrorKind, ParseError};

verus! {

/// Sentinel returned when reading at or past the end of the input.
pub const EOF_CHAR: char = '\0';

/// The whitespace characters the scanner skips: space, linefeed, carriage
/// return and horizontal tab.
pub open spec fn spec_is_whitespace(c: char) -> bool {
    c == ' ' || c == '\n' || c == '\r' || c == '\t'
}

/// True iff `c` is one of the four whitespace characters.
pub fn is_whitespace(c: char) -> (r: bool)
    ensures
        r == spec_is_whitespace(c),
{
    match c {
        ' ' | '\n' | '\r' | '\t' => true,
        _ => false,
    }
}

/// The character of `s` at position `p`, or the sentinel out of range.
pub open spec fn char_at(s: Seq<char>, p: int) -> char {
    if 0 <= p < s.len() {
        s[p]
    } else {
        EOF_CHAR
    }
}

/// The first position at or after `p` holding no whitespace character.
pub open spec fn spec_skip_ws(s: Seq<char>, p: int) -> int
    decreases s.len() - p,
{
    if spec_is_whitespace(char_at(s, p)) {
        spec_skip_ws(s, p + 1)
    } else {
        p
    }
}

/// What consuming the literal `lit` at position `p` of `s` yields: whether
/// every character matched, and the position after the last consumed
/// character.  A mismatching character is consumed before the failure is
/// reported, so the position is left partially advanced.
pub open spec fn sp_lit(s: Seq<char>, p: int, lit: Seq<char>) -> (bool, int)
    decreases lit.len(),
{
    if lit.len() == 0 {
        (true, p)
    } else if char_at(s, p) == lit[0] {
        sp_lit(s, p + 1, lit.drop_first())
    } else {
        (false, p + 1)
    }
}

/// Relies on `str::chars` to yield exactly the characters of the string, in
/// order (a `String`'s view is that character sequence), and on `Vec`'s
/// documented guarantee that a vector never occupies more than `isize::MAX`
/// bytes, so a vector of four-byte `char`s holds fewer than `usize::MAX / 4`
/// elements.
#[verifier::external_body]
pub(crate) fn chars_of(text: &String) -> (v: Vec<char>)
    ensures
        v@ == text@,
        v@.len() + 8 <= usize::MAX,
{
    text.chars().collect()
}

/// The scanning state: a position and the decoded input characters.
pub struct Cursor {
    pub pos: usize,
    pub chars: Vec<char>,
}

impl Cursor {
    /// The character sequence being scanned.
    pub open spec fn text(self) -> Seq<char> {
        self.chars@
    }

    /// The position has run at most one step past the end, and the input is
    /// short enough that advancing once more cannot overflow.
    pub open spec fn wf(self) -> bool {
        &&& self.pos <= self.text().len() + 1
        &&& self.text().len() + 8 <= usize::MAX
    }

    /// A fresh cursor over the characters of `str`, at position 0.
    pub fn new(str: &String) -> (c: Cursor)
        ensures
            c.pos == 0,
            c.text() == str@,
            c.wf(),
    {
        Cursor { pos: 0, chars: chars_of(str) }
    }

    /// The character at position `n`, or the sentinel out of range.
    pub fn nth_char(&self, n: usize) -> (c: char)
        ensures
            c == char_at(self.text(), n as int),
    {
        if n < self.chars.len() {
            self.chars[n]
        } else {
            EOF_CHAR
        }
    }

    /// The character at the current position, without advancing.
    pub fn peek(&self) -> (c: char)
        ensures
            c == char_at(self.text(), self.pos as int),
    {
        self.nth_char(self.pos)
    }

    /// True iff the current character is `c`.
    pub fn check(&self, c: char) -> (r: bool)
        ensures
            r == (char_at(self.text(), self.pos as int) == c),
    {
        self.peek() == c
    }

    /// Returns the current character and advances by one, even past the end.
    pub fn next(&mut self) -> (c: char)
        requires
            old(self).pos < usize::MAX,
        ensures
            final(self).text() == old(self).text(),
            final(self).pos == old(self).pos + 1,
            c == char_at(old(self).text(), old(self).pos as int),
    {
        let c = self.peek();
        self.pos = self.pos + 1;
        c
    }

    /// Advances past a run of space, linefeed, carriage-return and tab.
    pub fn skip_whitespace(&mut self)
        ensures
            final(self).text() == old(self).text(),
            final(self).pos as int == spec_skip_ws(old(self).text(), old(self).pos as int),
            old(self).pos <= final(self).pos,
            final(self).pos <= old(self).text().len() || final(self).pos == old(self).pos,
    {
        while self.pos < self.chars.len() && is_whitespace(self.peek())
            invariant
                self.text() == old(self).text(),
                old(self).pos <= self.pos,
                self.pos <= self.text().len() || self.pos == old(self).pos,
                spec_skip_ws(old(self).text(), old(self).pos as int) == spec_skip_ws(
                    self.text(),
                    self.pos as int,
                ),
            decreases self.text().len() - self.pos,
        {
            self.next();
        }
    }

    /// Advances over `c` and returns true if it is the current character;
    /// otherwise does nothing and returns false.
    pub fn eat(&mut self, c: char) -> (r: bool)
        requires
            old(self).pos < usize::MAX,
        ensures
            final(self).text() == old(self).text(),
            r == (char_at(old(self).text(), old(self).pos as int) == c),
            r ==> final(self).pos == old(self).pos + 1,
            !r ==> final(self).pos == old(self).pos,
    {
        if self.peek() == c {
            self.next();
            true
        } else {
            false
        }
    }

    /// Like [`Cursor::eat`], but a mismatch yields an error of kind `err` at
    /// the current position instead of a `false`.
    pub fn consume(&mut self, c: char, err: ErrorKind) -> (r: Result<char, ParseError>)
        requires
            old(self).pos < usize::MAX,
        ensures
            final(self).text() == old(self).text(),
            char_at(old(self).text(), old(self).pos as int) == c ==> {
                &&& final(self).pos == old(self).pos + 1
                &&& r matches Ok(d) && d == c
            },
            char_at(old(self).text(), old(self).pos as int) != c ==> {
                &&& final(self).pos == old(self).pos
                &&& r matches Err(e) && e.kind == err && e.at == old(self).pos
            },
    {
        if self.peek() == c {
            Ok(self.next())
        } else {
            Err(ParseError { kind: err, at: self.pos })
        }
    }

    /// Consumes the characters of `str` one at a time, comparing each against
    /// the input; the first mismatch is consumed and reported as an error of
    /// kind `err`, leaving the position partially advanced.
    pub fn consume_str(&mut self, str: String, err: ErrorKind) -> (r: Result<String, ParseError>)
        requires
            old(self).pos + str@.len() <= usize::MAX,
        ensures
            final(self).text() == old(self).text(),
            old(self).pos <= final(self).pos <= old(self).pos + str@.len(),
            ({
                let (ok, q) = sp_lit(old(self).text(), old(self).pos as int, str@);
                &&& final(self).pos as int == q
                &&& ok ==> (r matches Ok(rs) && rs@ == str@)
                &&& !ok ==> (r matches Err(e) && e.kind == err && e.at as int == q)
            }),
    {
        let n = str.as_str().unicode_len();
        let mut i: usize = 0;
        proof {
            assert(str@.skip(0) =~= str@);
        }
        while i < n
            invariant
                n == str@.len(),
                0 <= i <= n,
                old(self).pos + n <= usize::MAX,
                self.pos == old(self).pos + i,
                self.text() == old(self).text(),
                sp_lit(old(self).text(), old(self).pos as int, str@) == sp_lit(
                    self.text(),
                    self.pos as int,
                    str@.skip(i as int),
                ),
            decreases n - i,
        {
            let c = str.as_str().get_char(i);
            let d = self.next();
            proof {
                assert(str@.skip(i as int)[0] == str@[i as int]);
                assert(str@.skip(i as int).drop_first() =~= str@.skip(i as int + 1));
            }
            if c != d {
                return Err(ParseError { kind: err, at: self.pos });
            }
            i = i + 1;
        }
        proof {
            assert(str@.skip(n as int) =~= Seq::<char>::empty());
        }
        Ok(str)
    }
}

} // verus!
