//! A forward-only cursor over a character buffer, and scanners that consume
//! maximal runs of one character class.
use vstd::prelude::*;

verus! {

/// `c` is an ASCII letter.
pub open spec fn is_alpha(c: char) -> bool {
    ('a' <= c && c <= 'z') || ('A' <= c && c <= 'Z')
}

/// `c` is an ASCII decimal digit.
pub open spec fn is_digit(c: char) -> bool {
    '0' <= c && c <= '9'
}

/// `c` is an ASCII hexadecimal digit.
pub open spec fn is_hex_digit(c: char) -> bool {
    is_digit(c) || ('a' <= c && c <= 'f') || ('A' <= c && c <= 'F')
}

/// `c` is ASCII whitespace: space, tab, line feed, form feed or carriage return.
pub open spec fn is_ascii_space(c: char) -> bool {
    c == ' ' || c == '\t' || c == '\n' || c == '\x0C' || c == '\r'
}

/// `c` may start a C identifier.
pub open spec fn is_ident_start(c: char) -> bool {
    is_alpha(c) || c == '_'
}

/// `c` may continue a C identifier.
pub open spec fn is_ident_continue(c: char) -> bool {
    is_alpha(c) || is_digit(c) || c == '_'
}

/// A class of characters that a scanner consumes.
#[derive(Clone, Copy, Debug, PartialEq, Eq, Structural)]
pub enum CharClass {
    /// ASCII whitespace.
    Whitespace,
    /// Exactly the given character.
    Exactly(char),
    /// Any character but the given one.
    Except(char),
    /// Characters that can continue an identifier: ASCII letters, digits, `_`.
    IdentContinue,
    /// Characters that cannot start an identifier.
    NotIdentStart,
    /// ASCII hexadecimal digits.
    HexDigit,
}

impl CharClass {
    pub open spec fn spec_holds(self, c: char) -> bool {
        match self {
            CharClass::Whitespace => is_ascii_space(c),
            CharClass::Exactly(x) => c == x,
            CharClass::Except(x) => c != x,
            CharClass::IdentContinue => is_ident_continue(c),
            CharClass::NotIdentStart => !is_ident_start(c),
            CharClass::HexDigit => is_hex_digit(c),
        }
    }

    /// Whether `c` belongs to this class.
    pub fn holds(&self, c: char) -> (r: bool)
        ensures
            r == self.spec_holds(c),
    {
        match self {
            CharClass::Whitespace => c == ' ' || c == '\t' || c == '\n' || c == '\x0C' || c == '\r',
            CharClass::Exactly(x) => c == *x,
            CharClass::Except(x) => c != *x,
            CharClass::IdentContinue => ident_continue(c),
            CharClass::NotIdentStart => !ident_start(c),
            CharClass::HexDigit => hex_digit(c),
        }
    }
}

pub fn ident_start(c: char) -> (r: bool)
    ensures
        r == is_ident_start(c),
{
    ('a' <= c && c <= 'z') || ('A' <= c && c <= 'Z') || c == '_'
}

pub fn ident_continue(c: char) -> (r: bool)
    ensures
        r == is_ident_continue(c),
{
    ('a' <= c && c <= 'z') || ('A' <= c && c <= 'Z') || ('0' <= c && c <= '9') || c == '_'
}

pub fn hex_digit(c: char) -> (r: bool)
    ensures
        r == is_hex_digit(c),
{
    ('0' <= c && c <= '9') || ('a' <= c && c <= 'f') || ('A' <= c && c <= 'F')
}

/// The end of the maximal run of `cls` characters of `t` that starts at `i`.
pub open spec fn run_end(t: Seq<char>, i: int, cls: CharClass) -> int
    decreases t.len() - i,
{
    if 0 <= i < t.len() && cls.spec_holds(t[i]) {
        run_end(t, i + 1, cls)
    } else {
        i
    }
}

/// The end of the C identifier of `t` that starts at `i` (`i` itself when
/// none starts there).
pub open spec fn ident_end(t: Seq<char>, i: int) -> int {
    if 0 <= i < t.len() && is_ident_start(t[i]) {
        run_end(t, i + 1, CharClass::IdentContinue)
    } else {
        i
    }
}

/// A run never ends before it starts nor after the text.
pub proof fn lemma_run_end_bounds(t: Seq<char>, i: int, cls: CharClass)
    requires
        0 <= i <= t.len(),
    ensures
        i <= run_end(t, i, cls) <= t.len(),
        forall|k: int| i <= k < run_end(t, i, cls) ==> cls.spec_holds(#[trigger] t[k]),
        run_end(t, i, cls) < t.len() ==> !cls.spec_holds(t[run_end(t, i, cls)]),
    decreases t.len() - i,
{
    if i < t.len() && cls.spec_holds(t[i]) {
        lemma_run_end_bounds(t, i + 1, cls);
    }
}

/// An identifier never ends before it starts nor after the text.
pub proof fn lemma_ident_end_bounds(t: Seq<char>, i: int)
    requires
        0 <= i <= t.len(),
    ensures
        i <= ident_end(t, i) <= t.len(),
        i < t.len() && is_ident_start(t[i]) ==> i < ident_end(t, i),
{
    if i < t.len() && is_ident_start(t[i]) {
        lemma_run_end_bounds(t, i + 1, CharClass::IdentContinue);
    }
}

/// A read position in a borrowed character buffer; it only moves forward
/// and never changes the buffer.
pub struct Cursor<'a> {
    text: &'a [char],
    pos: usize,
}

impl<'a> View for Cursor<'a> {
    /// The buffer and the current offset into it.
    type V = (Seq<char>, int);

    closed spec fn view(&self) -> (Seq<char>, int) {
        (self.text@, self.pos as int)
    }
}

impl<'a> Cursor<'a> {
    /// The offset lies within the buffer.
    pub closed spec fn wf(&self) -> bool {
        self.pos <= self.text@.len()
    }

    pub proof fn lemma_wf(&self)
        requires
            self.wf(),
        ensures
            0 <= self@.1 <= self@.0.len(),
    {
    }

    /// A cursor at the start of `text`.
    pub fn new(text: &'a [char]) -> (r: Cursor<'a>)
        ensures
            r.wf(),
            r@ == (text@, 0int),
    {
        Cursor { text, pos: 0 }
    }

    /// The current offset.
    pub fn offset(&self) -> (r: usize)
        requires
            self.wf(),
        ensures
            r as int == self@.1,
    {
        self.pos
    }

    /// The text from the current offset to the end.
    pub fn remaining(&self) -> (r: &'a [char])
        requires
            self.wf(),
        ensures
            r@ == self@.0.subrange(self@.1, self@.0.len() as int),
    {
        let t: &'a [char] = self.text;
        &t[self.pos..t.len()]
    }

    /// The character at the current offset, if any.
    pub fn peek(&self) -> (r: Option<char>)
        requires
            self.wf(),
        ensures
            self@.1 < self@.0.len() ==> r == Some(self@.0[self@.1]),
            self@.1 >= self@.0.len() ==> r is None,
    {
        if self.pos < self.text.len() {
            Some(self.text[self.pos])
        } else {
            None
        }
    }

    /// Moves past one character.
    pub fn advance(&mut self)
        requires
            old(self).wf(),
            old(self)@.1 < old(self)@.0.len(),
        ensures
            final(self).wf(),
            final(self)@ == (old(self)@.0, old(self)@.1 + 1),
    {
        let n = self.text.len();
        self.pos = self.pos + 1;
    }

    /// The characters from `start` up to the current offset.
    fn since(&self, start: usize) -> (r: &'a [char])
        requires
            self.wf(),
            start <= self@.1,
        ensures
            r@ == self@.0.subrange(start as int, self@.1),
    {
        let t: &'a [char] = self.text;
        &t[start..self.pos]
    }
}

/// Consumes the longest run of `class` characters at the cursor and returns
/// it; an empty run leaves the cursor where it was.
pub fn take_while<'a>(src: &mut Cursor<'a>, class: CharClass) -> (r: &'a [char])
    requires
        old(src).wf(),
    ensures
        final(src).wf(),
        final(src)@.0 == old(src)@.0,
        old(src)@.1 <= final(src)@.1,
        final(src)@.1 == run_end(old(src)@.0, old(src)@.1, class),
        r@ == old(src)@.0.subrange(old(src)@.1, final(src)@.1),
{
    let start = src.offset();
    proof {
        src.lemma_wf();
    }
    loop
        invariant
            src.wf(),
            src@.0 == old(src)@.0,
            start as int == old(src)@.1 <= src@.1,
            run_end(src@.0, start as int, class) == run_end(src@.0, src@.1, class),
        ensures
            src.wf(),
            src@.0 == old(src)@.0,
            start as int == old(src)@.1 <= src@.1,
            run_end(src@.0, start as int, class) == src@.1,
        decreases src@.0.len() - src@.1,
    {
        proof {
            src.lemma_wf();
        }
        match src.peek() {
            Some(c) => {
                if class.holds(c) {
                    src.advance();
                } else {
                    break;
                }
            },
            None => break,
        }
    }
    src.since(start)
}

/// Consumes the ASCII whitespace at the cursor.
pub fn take_whitespace<'a>(src: &mut Cursor<'a>) -> (r: &'a [char])
    requires
        old(src).wf(),
    ensures
        final(src).wf(),
        final(src)@.0 == old(src)@.0,
        final(src)@.1 == run_end(old(src)@.0, old(src)@.1, CharClass::Whitespace),
        r@ == old(src)@.0.subrange(old(src)@.1, final(src)@.1),
{
    take_while(src, CharClass::Whitespace)
}

/// Consumes a C identifier at the cursor: a letter or `_`, then letters,
/// digits and `_`. Where no identifier starts, returns an empty slice and
/// leaves the cursor where it was.
pub fn take_c_token<'a>(src: &mut Cursor<'a>) -> (r: &'a [char])
    requires
        old(src).wf(),
    ensures
        final(src).wf(),
        final(src)@.0 == old(src)@.0,
        old(src)@.1 <= final(src)@.1,
        final(src)@.1 == ident_end(old(src)@.0, old(src)@.1),
        r@ == old(src)@.0.subrange(old(src)@.1, final(src)@.1),
{
    let start = src.offset();
    match src.peek() {
        Some(c) => {
            if ident_start(c) {
                src.advance();
                take_while(src, CharClass::IdentContinue);
            }
        },
        None => {},
    }
    src.since(start)
}

} // verus!
