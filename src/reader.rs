use vstd::prelude::*;

verus! {

/// Why a piece of text is not a tag.
#[derive(Debug, Clone, Copy, PartialEq, Eq, Structural)]
pub enum ParseError {
    /// No character is left where one is required.
    Insufficient,
    /// A character other than the one the grammar requires.
    Unexpected { expected: char, found: char },
    /// A quoted string does not start with a quote.
    InvalidQuote,
    /// A backslash followed by neither the quote nor a backslash.
    InvalidEscape,
    /// The text ends inside a quoted string.
    UnterminatedString,
    /// A compound key is empty or missing.
    MissingKey,
    /// A value is empty or missing.
    MissingValue,
    /// A list holds elements of different kinds.
    MixedTypes,
    /// A typed array holds an element of another kind.
    MixedTags,
    /// A typed array's letter is not `B`, `I` or `L`.
    UnknownArrayType,
    /// A list, array or compound is not closed.
    ExpectedClosure,
}

/// Unicode's White_Space property.
pub open spec fn is_white(c: char) -> bool {
    let u = c as u32;
    (0x9 <= u && u <= 0xd) || u == 0x20 || u == 0x85 || u == 0xa0 || u == 0x1680 || (0x2000
        <= u && u <= 0x200a) || u == 0x2028 || u == 0x2029 || u == 0x202f || u == 0x205f || u
        == 0x3000
}

/// Relies on `char::is_whitespace`, which tests the White_Space property.
#[verifier::external_body]
fn whitespace(c: char) -> (r: bool)
    ensures
        r == is_white(c),
{
    c.is_whitespace()
}

/// Relies on `String::push`, which appends one character.
#[verifier::external_body]
pub(crate) fn push_char(s: &mut String, c: char)
    ensures
        final(s)@ == old(s)@.push(c),
{
    s.push(c)
}

/// The characters of `s`, in order.
pub(crate) fn chars_of(s: &str) -> (r: Vec<char>)
    ensures
        r@ == s@,
{
    let mut chars: Vec<char> = Vec::new();
    for c in it: s.chars()
        invariant
            chars@ == it.seq().take(it.index() as int),
    {
        chars.push(c);
    }
    assert(chars@ =~= s@);
    chars
}

pub open spec fn quote_char(c: char) -> bool {
    c == '"' || c == '\''
}

/// The characters of an unquoted string: `[0-9A-Za-z_.+-]`.
pub open spec fn unquoted_char(c: char) -> bool {
    ('0' <= c && c <= '9') || ('A' <= c && c <= 'Z') || ('a' <= c && c <= 'z') || c == '_'
        || c == '-' || c == '.' || c == '+'
}

/// The end of the run of characters from `p` on that satisfy `f`.
pub open spec fn run_end(t: Seq<char>, p: int, f: spec_fn(char) -> bool) -> int
    decreases t.len() - p,
{
    if p < 0 || p >= t.len() || !f(t[p]) {
        p
    } else {
        run_end(t, p + 1, f)
    }
}

/// Reads the body of a quoted string from `p` to the closing quote `q`; a
/// backslash escapes only `q` and itself. On success, the string and the
/// position after the closing quote; on failure, the error and the position
/// the cursor is left at.
pub open spec fn scan_quoted(t: Seq<char>, p: int, q: char, acc: Seq<char>, escaped: bool) -> Result<
    (Seq<char>, int),
    (ParseError, int),
>
    decreases t.len() - p,
{
    if p < 0 || p >= t.len() {
        Err((ParseError::UnterminatedString, p))
    } else {
        let c = t[p];
        if escaped {
            if c == q || c == '\\' {
                scan_quoted(t, p + 1, q, acc.push(c), false)
            } else {
                Err((ParseError::InvalidEscape, p))
            }
        } else if c == '\\' {
            scan_quoted(t, p + 1, q, acc, true)
        } else if c == q {
            Ok((acc, p + 1))
        } else {
            scan_quoted(t, p + 1, q, acc.push(c), false)
        }
    }
}

pub proof fn lemma_run_end_bounds(t: Seq<char>, p: int, f: spec_fn(char) -> bool)
    requires
        0 <= p <= t.len(),
    ensures
        p <= run_end(t, p, f) <= t.len(),
        forall|i: int| p <= i < run_end(t, p, f) ==> f(#[trigger] t[i]),
        run_end(t, p, f) < t.len() ==> !f(t[run_end(t, p, f)]),
    decreases t.len() - p,
{
    if p < t.len() && f(t[p]) {
        lemma_run_end_bounds(t, p + 1, f);
    }
}

pub proof fn lemma_scan_quoted_progress(
    t: Seq<char>,
    p: int,
    q: char,
    acc: Seq<char>,
    escaped: bool,
)
    requires
        0 <= p,
    ensures
        scan_quoted(t, p, q, acc, escaped) matches Ok((_, e)) ==> p < e <= t.len(),
        scan_quoted(t, p, q, acc, escaped) matches Err((_, e)) ==> p <= e,
    decreases t.len() - p,
{
    if 0 <= p < t.len() {
        lemma_scan_quoted_progress(t, p + 1, q, acc.push(t[p]), false);
        lemma_scan_quoted_progress(t, p + 1, q, acc, true);
    }
}

/// A cursor over the characters of a text.
pub struct Reader {
    chars: Vec<char>,
    position: usize,
}

impl Reader {
    /// The characters being read.
    pub closed spec fn text(&self) -> Seq<char> {
        self.chars@
    }

    /// The cursor's position, in characters.
    pub closed spec fn pos(&self) -> int {
        self.position as int
    }

    pub open spec fn inv(&self) -> bool {
        0 <= self.pos() <= self.text().len()
    }

    /// A reader at the start of `s`.
    pub fn new(s: &str) -> (r: Reader)
        ensures
            r.text() == s@,
            r.pos() == 0,
            r.inv(),
    {
        Reader { chars: chars_of(s), position: 0 }
    }

    pub fn position(&self) -> (r: usize)
        ensures
            r as int == self.pos(),
    {
        self.position
    }

    /// Moves the cursor, for instance back to where a failed production began.
    pub fn set_position(&mut self, position: usize)
        requires
            position <= old(self).text().len(),
        ensures
            final(self).text() == old(self).text(),
            final(self).pos() == position as int,
            final(self).inv(),
    {
        self.position = position;
    }

    /// The number of characters in the text.
    pub fn len(&self) -> (r: usize)
        ensures
            r as int == self.text().len(),
    {
        self.chars.len()
    }

    /// The number of characters after the cursor.
    pub fn remaining(&self) -> (r: usize)
        requires
            self.inv(),
        ensures
            r as int == self.text().len() - self.pos(),
    {
        self.len() - self.position
    }

    pub fn has_remaining(&self, n: usize) -> (r: bool)
        requires
            self.inv(),
        ensures
            r == (self.text().len() - self.pos() >= n),
    {
        self.remaining() >= n
    }

    pub fn done(&self) -> (r: bool)
        requires
            self.inv(),
        ensures
            r == (self.pos() >= self.text().len()),
    {
        !self.has_remaining(1)
    }

    /// The character `n` places after the cursor, without moving it.
    pub fn peek_nth(&self, n: usize) -> (r: Result<char, ParseError>)
        requires
            self.inv(),
        ensures
            self.pos() + n < self.text().len() ==> r == Ok::<char, ParseError>(
                self.text()[self.pos() + n],
            ),
            self.pos() + n >= self.text().len() ==> r == Err::<char, ParseError>(
                ParseError::Insufficient,
            ),
    {
        if n < self.chars.len() - self.position {
            Ok(self.chars[self.position + n])
        } else {
            Err(ParseError::Insufficient)
        }
    }

    /// The character at the cursor, without moving it.
    pub fn peek(&self) -> (r: Result<char, ParseError>)
        requires
            self.inv(),
        ensures
            self.pos() < self.text().len() ==> r == Ok::<char, ParseError>(
                self.text()[self.pos()],
            ),
            self.pos() >= self.text().len() ==> r == Err::<char, ParseError>(
                ParseError::Insufficient,
            ),
    {
        self.peek_nth(0)
    }

    /// The character `n` places after the cursor; the cursor moves past it.
    pub fn read_nth(&mut self, n: usize) -> (r: Result<char, ParseError>)
        requires
            old(self).inv(),
        ensures
            final(self).text() == old(self).text(),
            final(self).inv(),
            old(self).pos() + n < old(self).text().len() ==> {
                &&& r == Ok::<char, ParseError>(old(self).text()[old(self).pos() + n])
                &&& final(self).pos() == old(self).pos() + n + 1
            },
            old(self).pos() + n >= old(self).text().len() ==> {
                &&& r == Err::<char, ParseError>(ParseError::Insufficient)
                &&& final(self).pos() == old(self).pos()
            },
    {
        let len = self.chars.len();
        let c = self.peek_nth(n)?;
        self.position = self.position + 1 + n;
        Ok(c)
    }

    /// The character at the cursor; the cursor moves past it.
    pub fn read(&mut self) -> (r: Result<char, ParseError>)
        requires
            old(self).inv(),
        ensures
            final(self).text() == old(self).text(),
            final(self).inv(),
            old(self).pos() < old(self).text().len() ==> {
                &&& r == Ok::<char, ParseError>(old(self).text()[old(self).pos()])
                &&& final(self).pos() == old(self).pos() + 1
            },
            old(self).pos() >= old(self).text().len() ==> {
                &&& r == Err::<char, ParseError>(ParseError::Insufficient)
                &&& final(self).pos() == old(self).pos()
            },
    {
        self.read_nth(0)
    }

    /// Moves the cursor one character on; at the end it stays.
    pub fn skip(&mut self)
        requires
            old(self).inv(),
        ensures
            final(self).text() == old(self).text(),
            final(self).inv(),
            final(self).pos() == if old(self).pos() < old(self).text().len() {
                old(self).pos() + 1
            } else {
                old(self).pos()
            },
    {
        if self.position < self.chars.len() {
            self.position = self.position + 1;
        }
    }

    /// Moves the cursor past a run of whitespace.
    pub fn skip_whitespace(&mut self) -> (r: Result<(), ParseError>)
        requires
            old(self).inv(),
        ensures
            final(self).text() == old(self).text(),
            final(self).inv(),
            final(self).pos() == run_end(old(self).text(), old(self).pos(), |c: char| is_white(c)),
            r is Ok,
    {
        let ghost f = |c: char| is_white(c);
        while self.position < self.chars.len() && whitespace(self.chars[self.position])
            invariant
                self.text() == old(self).text(),
                self.inv(),
                f == (|c: char| is_white(c)),
                run_end(self.text(), self.pos(), f) == run_end(
                    old(self).text(),
                    old(self).pos(),
                    f,
                ),
            decreases self.text().len() - self.pos(),
        {
            proof {
                assert(f(self.text()[self.pos()]));
            }
            self.position = self.position + 1;
        }
        Ok(())
    }

    /// Reads one character, which must be `c`.
    pub fn expect(&mut self, c: char) -> (r: Result<(), ParseError>)
        requires
            old(self).inv(),
        ensures
            final(self).text() == old(self).text(),
            final(self).inv(),
            old(self).pos() >= old(self).text().len() ==> r == Err::<(), ParseError>(
                ParseError::Insufficient,
            ) && final(self).pos() == old(self).pos(),
            old(self).pos() < old(self).text().len() ==> {
                &&& final(self).pos() == old(self).pos() + 1
                &&& (r is Ok <==> old(self).text()[old(self).pos()] == c)
                &&& r matches Err(e) ==> e == (ParseError::Unexpected {
                    expected: c,
                    found: old(self).text()[old(self).pos()],
                })
            },
    {
        let found = self.read()?;
        if found != c {
            return Err(ParseError::Unexpected { expected: c, found });
        }
        Ok(())
    }

    pub fn is_quote(c: char) -> (r: bool)
        ensures
            r == quote_char(c),
    {
        c == '"' || c == '\''
    }

    pub fn is_allowed_in_unquoted_string(c: char) -> (r: bool)
        ensures
            r == unquoted_char(c),
    {
        (c >= '0' && c <= '9') || (c >= 'A' && c <= 'Z') || (c >= 'a' && c <= 'z') || c == '_'
            || c == '-' || c == '.' || c == '+'
    }

    /// Reads the longest run of `[0-9A-Za-z_.+-]` at the cursor.
    pub fn read_unquoted_string(&mut self) -> (r: Result<String, ParseError>)
        requires
            old(self).inv(),
        ensures
            final(self).text() == old(self).text(),
            final(self).inv(),
            final(self).pos() == run_end(
                old(self).text(),
                old(self).pos(),
                |c: char| unquoted_char(c),
            ),
            r matches Ok(s) && s@ == old(self).text().subrange(old(self).pos(), final(self).pos()),
    {
        let ghost f = |c: char| unquoted_char(c);
        let mut s = String::new();
        while self.position < self.chars.len() && Reader::is_allowed_in_unquoted_string(
            self.chars[self.position],
        )
            invariant
                self.text() == old(self).text(),
                self.inv(),
                old(self).pos() <= self.pos(),
                s@ == self.text().subrange(old(self).pos(), self.pos()),
                f == (|c: char| unquoted_char(c)),
                run_end(self.text(), self.pos(), f) == run_end(
                    old(self).text(),
                    old(self).pos(),
                    f,
                ),
            decreases self.text().len() - self.pos(),
        {
            proof {
                assert(f(self.text()[self.pos()]));
            }
            push_char(&mut s, self.chars[self.position]);
            self.position = self.position + 1;
            assert(s@ =~= self.text().subrange(old(self).pos(), self.pos()));
        }
        Ok(s)
    }

    /// Reads up to and past the closing quote `q`; a backslash escapes only
    /// `q` and itself. On an invalid escape the cursor is left on the
    /// offending character.
    pub fn read_string_until(&mut self, q: char) -> (r: Result<String, ParseError>)
        requires
            old(self).inv(),
        ensures
            final(self).text() == old(self).text(),
            final(self).inv(),
            match scan_quoted(old(self).text(), old(self).pos(), q, Seq::empty(), false) {
                Ok((s, p)) => r matches Ok(t) && t@ == s && final(self).pos() == p,
                Err((e, p)) => r == Err::<String, ParseError>(e) && final(self).pos() == p,
            },
    {
        let ghost target = scan_quoted(old(self).text(), old(self).pos(), q, Seq::empty(), false);
        let mut s = String::new();
        let mut escaped = false;
        while self.position < self.chars.len()
            invariant
                self.text() == old(self).text(),
                self.inv(),
                scan_quoted(self.text(), self.pos(), q, s@, escaped) == target,
                target == scan_quoted(old(self).text(), old(self).pos(), q, Seq::empty(), false),
            decreases self.text().len() - self.pos(),
        {
            let c = self.chars[self.position];
            let ghost entry = self.pos();
            let ghost s0 = s@;
            let ghost e0 = escaped;
            assert(scan_quoted(self.text(), entry, q, s0, e0) == target);
            self.position = self.position + 1;
            if escaped {
                if c == q || c == '\\' {
                    push_char(&mut s, c);
                    escaped = false;
                } else {
                    self.position = self.position - 1;
                    return Err(ParseError::InvalidEscape);
                }
            } else if c == '\\' {
                escaped = true;
            } else if c == q {
                return Ok(s);
            } else {
                push_char(&mut s, c);
            }
        }
        Err(ParseError::UnterminatedString)
    }

    /// Reads a quoted string whose quote is the character at the cursor; at
    /// the end of the text, the empty string.
    pub fn read_quoted_string(&mut self) -> (r: Result<String, ParseError>)
        requires
            old(self).inv(),
        ensures
            final(self).text() == old(self).text(),
            final(self).inv(),
            old(self).pos() >= old(self).text().len() ==> (r matches Ok(s) && s@ == Seq::<char>::empty()),
            old(self).pos() < old(self).text().len() ==> {
                let c = old(self).text()[old(self).pos()];
                if !quote_char(c) {
                    r == Err::<String, ParseError>(ParseError::InvalidQuote)
                } else {
                    match scan_quoted(old(self).text(), old(self).pos() + 1, c, Seq::empty(), false) {
                        Ok((s, p)) => r matches Ok(t) && t@ == s && final(self).pos() == p,
                        Err((e, p)) => r == Err::<String, ParseError>(e) && final(self).pos() == p,
                    }
                }
            },
    {
        if self.done() {
            return Ok(String::new());
        }
        let c = self.peek()?;
        if !Reader::is_quote(c) {
            return Err(ParseError::InvalidQuote);
        }
        self.skip();
        self.read_string_until(c)
    }

    /// A quoted string when the cursor is on a quote, else an unquoted one.
    pub fn read_string(&mut self) -> (r: Result<String, ParseError>)
        requires
            old(self).inv(),
        ensures
            final(self).text() == old(self).text(),
            final(self).inv(),
            old(self).pos() >= old(self).text().len() ==> (r matches Ok(s) && s@ == Seq::<char>::empty()),
            old(self).pos() < old(self).text().len() ==> {
                let c = old(self).text()[old(self).pos()];
                if quote_char(c) {
                    match scan_quoted(old(self).text(), old(self).pos() + 1, c, Seq::empty(), false) {
                        Ok((s, p)) => r matches Ok(t) && t@ == s && final(self).pos() == p,
                        Err((e, p)) => r == Err::<String, ParseError>(e) && final(self).pos() == p,
                    }
                } else {
                    let e = run_end(old(self).text(), old(self).pos(), |c: char| unquoted_char(c));
                    &&& final(self).pos() == e
                    &&& r matches Ok(s) && s@ == old(self).text().subrange(old(self).pos(), e)
                }
            },
    {
        if self.done() {
            return Ok(String::new());
        }
        let c = self.peek()?;
        if Reader::is_quote(c) {
            self.read_quoted_string()
        } else {
            self.read_unquoted_string()
        }
    }
}

} // verus!
