use vstd::prelude::*;
use vstd::string::StrSliceExecFns;

verus! {

/// How a parse failed.
#[derive(Clone, Copy, Debug, PartialEq, Eq, Structural)]
pub enum ErrorKind {
    /// The input ended where a character was required.
    UnexpectedEof,
    /// A required literal or delimiter did not match.
    UnexpectedCharacter,
    /// A closing tag name differs from its opening tag name.
    MismatchedTag,
    /// A length unit other than `px` or `%`.
    UnrecognizedUnit,
    /// A hex byte pair that does not parse.
    InvalidHex,
    /// A numeric literal with more than one decimal point.
    InvalidNumber,
}

/// A fatal parse failure: its kind and the character offset at which it arose.
/// All parsing in this crate is fail-fast: the first malformed construct
/// aborts the whole parse with one of these.
#[derive(Clone, Copy, Debug, PartialEq, Eq, Structural)]
pub struct ParseError {
    pub kind: ErrorKind,
    pub pos: usize,
}

/// A `ParseError` at a spec-level position.
pub open spec fn err_at(kind: ErrorKind, p: int) -> ParseError {
    ParseError { kind, pos: p as usize }
}

/// The classes of characters the two parsers scan runs of.
#[derive(Clone, Copy, Debug, PartialEq, Eq, Structural)]
pub enum CharClass {
    /// ASCII whitespace.
    Whitespace,
    /// Anything but ASCII whitespace.
    NotWhitespace,
    /// A stylesheet identifier character: letters, digits, `-`, `_`, `%`.
    Identifier,
    /// A markup tag-name character: letters and digits.
    TagName,
    /// Markup text: anything but `<`.
    Text,
    /// An attribute value: anything but the given quote character.
    AttrValue(char),
    /// A numeric literal character: a digit or `.`.
    Number,
}

/// Which characters belong to each class.
pub open spec fn char_in_class(k: CharClass, c: char) -> bool {
    match k {
        CharClass::Whitespace => is_whitespace_char(c),
        CharClass::NotWhitespace => !is_whitespace_char(c),
        CharClass::Identifier => ('a' <= c && c <= 'z') || ('A' <= c && c <= 'Z') || ('0' <= c
            && c <= '9') || c == '-' || c == '_' || c == '%',
        CharClass::TagName => ('a' <= c && c <= 'z') || ('A' <= c && c <= 'Z') || ('0' <= c && c
            <= '9'),
        CharClass::Text => c != '<',
        CharClass::AttrValue(q) => c != q,
        CharClass::Number => ('0' <= c && c <= '9') || c == '.',
    }
}

/// Whitespace, for this crate, is ASCII whitespace.
pub open spec fn is_whitespace_char(c: char) -> bool {
    c == ' ' || c == '\t' || c == '\n' || c == '\r' || c == '\u{c}'
}

/// Runtime test for `char_in_class`.
pub fn check_char(k: CharClass, c: char) -> (b: bool)
    ensures
        b == char_in_class(k, c),
{
    match k {
        CharClass::Whitespace => c == ' ' || c == '\t' || c == '\n' || c == '\r' || c == '\u{c}',
        CharClass::NotWhitespace => !(c == ' ' || c == '\t' || c == '\n' || c == '\r' || c
            == '\u{c}'),
        CharClass::Identifier => ('a' <= c && c <= 'z') || ('A' <= c && c <= 'Z') || ('0' <= c && c
            <= '9') || c == '-' || c == '_' || c == '%',
        CharClass::TagName => ('a' <= c && c <= 'z') || ('A' <= c && c <= 'Z') || ('0' <= c && c
            <= '9'),
        CharClass::Text => c != '<',
        CharClass::AttrValue(q) => c != q,
        CharClass::Number => ('0' <= c && c <= '9') || c == '.',
    }
}

/// Where a greedy scan for characters of class `k`, started at `p`, stops:
/// the first offset at or after `p` holding a character outside the class,
/// or the end of the input.
pub open spec fn scan_end(t: Seq<char>, p: int, k: CharClass) -> int
    decreases t.len() - p,
{
    if 0 <= p < t.len() && char_in_class(k, t[p]) {
        scan_end(t, p + 1, k)
    } else {
        p
    }
}

pub proof fn lemma_scan_end(t: Seq<char>, p: int, k: CharClass)
    requires
        0 <= p <= t.len(),
    ensures
        p <= scan_end(t, p, k) <= t.len(),
        forall|i: int| p <= i < scan_end(t, p, k) ==> char_in_class(k, t[i]),
        scan_end(t, p, k) == t.len() || !char_in_class(k, t[scan_end(t, p, k)]),
    decreases t.len() - p,
{
    if p < t.len() && char_in_class(k, t[p]) {
        lemma_scan_end(t, p + 1, k);
    }
}

/// How much input is left at `p`: the measure the recursive grammar
/// functions shrink.
pub open spec fn remaining(t: Seq<char>, p: int) -> int {
    if p <= t.len() {
        t.len() - p
    } else {
        0
    }
}

/// `q` clamped to be no earlier than `p`.  The recursive grammar functions
/// below go through positions that earlier stages returned; these clamps make
/// the forward movement structural, so that every recursion terminates on
/// every argument.  A well-formed derivation never reaches the clamped branch.
pub open spec fn forward(p: int, q: int) -> int {
    if q >= p {
        q
    } else {
        p
    }
}

/// `q` clamped to be strictly later than `p`; see `forward`.
pub open spec fn onward(p: int, q: int) -> int {
    if q > p {
        q
    } else {
        p + 1
    }
}

/// The offset just past the whitespace run starting at `p`.
pub open spec fn skip_ws(t: Seq<char>, p: int) -> int {
    forward(p, scan_end(t, p, CharClass::Whitespace))
}

/// Does `t` hold `w` starting at offset `p`?
pub open spec fn starts_with_at(t: Seq<char>, p: int, w: Seq<char>) -> bool {
    &&& 0 <= p
    &&& p + w.len() <= t.len()
    &&& t.subrange(p, p + w.len()) == w
}

/// Relies on `FromIterator<char> for String`: collecting characters yields
/// the string holding exactly those characters in order.
#[verifier::external_body]
fn chars_to_string(v: Vec<char>) -> (s: String)
    ensures
        s@ == v@,
{
    v.into_iter().collect()
}

/// A character-offset cursor over an immutable input.  The input is held as
/// its characters, so advancing moves over one whole character at a time,
/// never through the middle of a multi-byte encoding.
pub struct Cursor {
    pub input: Vec<char>,
    pub pos: usize,
}

impl Cursor {
    /// The cursor never stands past the end of its input.
    pub open spec fn wf(self) -> bool {
        self.pos <= self.input.len()
    }

    /// The whole input, as characters.
    pub open spec fn text(self) -> Seq<char> {
        self.input@
    }

    /// The current offset.
    pub open spec fn at(self) -> int {
        self.pos as int
    }

    /// A cursor over `source`, standing at its start.
    pub fn new(source: &str) -> (c: Cursor)
        ensures
            c.wf(),
            c.text() == source@,
            c.at() == 0,
    {
        let n = source.unicode_len();
        let mut input: Vec<char> = Vec::new();
        let mut i: usize = 0;
        while i < n
            invariant
                i <= n,
                n == source@.len(),
                input@ =~= source@.subrange(0, i as int),
            decreases n - i,
        {
            input.push(source.get_char(i));
            i = i + 1;
        }
        proof {
            assert(input@ =~= source@);
        }
        Cursor { input, pos: 0 }
    }

    /// Is the cursor at the end of the input?
    pub fn at_end(&self) -> (b: bool)
        requires
            self.wf(),
        ensures
            b == (self.at() == self.text().len()),
    {
        self.pos >= self.input.len()
    }

    /// The character under the cursor, if any; the cursor does not move.
    pub fn peek(&self) -> (r: Option<char>)
        requires
            self.wf(),
        ensures
            r == (if self.at() < self.text().len() {
                Some(self.text()[self.at()])
            } else {
                None::<char>
            }),
    {
        if self.pos < self.input.len() {
            Some(self.input[self.pos])
        } else {
            None
        }
    }

    /// Consumes and returns the character under the cursor; fails with
    /// `UnexpectedEof` at the end of the input.
    pub fn advance(&mut self) -> (r: Result<char, ParseError>)
        requires
            old(self).wf(),
        ensures
            final(self).wf(),
            final(self).input == old(self).input,
            if old(self).at() < old(self).text().len() {
                r == Ok::<char, ParseError>(old(self).text()[old(self).at()]) && final(self).at()
                    == old(self).at() + 1
            } else {
                r == Err::<char, ParseError>(err_at(ErrorKind::UnexpectedEof, old(self).at()))
                    && *final(self) == *old(self)
            },
    {
        if self.pos < self.input.len() {
            let c = self.input[self.pos];
            self.pos = self.pos + 1;
            Ok(c)
        } else {
            Err(ParseError { kind: ErrorKind::UnexpectedEof, pos: self.pos })
        }
    }

    /// Consumes the character under the cursor if it is `c`; fails with
    /// `UnexpectedEof` at the end of the input and with
    /// `UnexpectedCharacter` on any other character, moving nothing.
    pub fn expect(&mut self, c: char) -> (r: Result<(), ParseError>)
        requires
            old(self).wf(),
        ensures
            final(self).wf(),
            final(self).input == old(self).input,
            match expect_s(old(self).text(), old(self).at(), c) {
                Ok(q) => r is Ok && final(self).at() == q,
                Err(e) => r == Err::<(), ParseError>(e) && *final(self) == *old(self),
            },
    {
        if self.pos >= self.input.len() {
            Err(ParseError { kind: ErrorKind::UnexpectedEof, pos: self.pos })
        } else if self.input[self.pos] != c {
            Err(ParseError { kind: ErrorKind::UnexpectedCharacter, pos: self.pos })
        } else {
            self.pos = self.pos + 1;
            Ok(())
        }
    }

    /// Does the input continue with `w` at the cursor?  The cursor does not
    /// move.
    pub fn starts_with(&self, w: &str) -> (b: bool)
        requires
            self.wf(),
        ensures
            b == starts_with_at(self.text(), self.at(), w@),
    {
        let n = w.unicode_len();
        if n > self.input.len() - self.pos {
            proof {
                assert(!starts_with_at(self.text(), self.at(), w@));
            }
            return false;
        }
        let mut i: usize = 0;
        while i < n
            invariant
                self.wf(),
                i <= n,
                n == w@.len(),
                self.at() + n <= self.text().len(),
                forall|j: int| 0 <= j < i ==> w@[j] == self.text()[self.at() + j],
            decreases n - i,
        {
            if w.get_char(i) != self.input[self.pos + i] {
                proof {
                    assert(self.text().subrange(self.at(), self.at() + w@.len())[i as int] != w@[i as int]);
                }
                return false;
            }
            i = i + 1;
        }
        proof {
            assert(self.text().subrange(self.at(), self.at() + w@.len()) =~= w@);
        }
        true
    }

    /// Greedily consumes the run of characters of class `k` under the cursor
    /// and returns it; never fails, and returns the empty string when the
    /// character under the cursor is already outside the class.
    pub fn consume_while(&mut self, k: CharClass) -> (r: String)
        requires
            old(self).wf(),
        ensures
            final(self).wf(),
            final(self).input == old(self).input,
            old(self).at() <= final(self).at(),
            final(self).at() == scan_end(old(self).text(), old(self).at(), k),
            r@ == old(self).text().subrange(old(self).at(), final(self).at()),
    {
        let mut collected: Vec<char> = Vec::new();
        let ghost t = old(self).text();
        let ghost p0 = old(self).at();
        loop
            invariant
                self.wf(),
                self.input == old(self).input,
                p0 <= self.at() <= t.len(),
                t == old(self).text(),
                p0 == old(self).at(),
                scan_end(t, p0, k) == scan_end(t, self.at(), k),
                collected@ =~= t.subrange(p0, self.at()),
            ensures
                self.wf(),
                self.input == old(self).input,
                self.at() == scan_end(t, p0, k),
                collected@ =~= t.subrange(p0, self.at()),
            decreases t.len() - self.at(),
        {
            if self.pos >= self.input.len() {
                break;
            }
            let c = self.input[self.pos];
            if !check_char(k, c) {
                break;
            }
            collected.push(c);
            self.pos = self.pos + 1;
            proof {
                assert(collected@ =~= t.subrange(p0, self.at()));
            }
        }
        proof {
            assert(collected@ =~= t.subrange(p0, self.at()));
        }
        chars_to_string(collected)
    }

    /// Consumes the run of whitespace under the cursor, if any.
    pub fn skip_whitespace(&mut self)
        requires
            old(self).wf(),
        ensures
            final(self).wf(),
            final(self).input == old(self).input,
            old(self).at() <= final(self).at(),
            final(self).at() == scan_end(old(self).text(), old(self).at(), CharClass::Whitespace),
    {
        let _ = self.consume_while(CharClass::Whitespace);
    }
}

/// One step of expecting a literal character at a spec-level position.
pub open spec fn expect_s(t: Seq<char>, p: int, c: char) -> Result<int, ParseError> {
    if p >= t.len() {
        Err(err_at(ErrorKind::UnexpectedEof, p))
    } else if t[p] != c {
        Err(err_at(ErrorKind::UnexpectedCharacter, p))
    } else {
        Ok(p + 1)
    }
}

} // verus!
