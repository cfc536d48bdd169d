use crate::parsing::{lit_scan, lit_body, lit_value, parse_bigrational};
use crate::rational::{frac_eq, Rational};
use vstd::prelude::*;
use vstd::string::StringSliceAdditionalSpecFns;

verus! {

/// Why a token could not be read.
#[derive(Debug, Clone, Copy, PartialEq, Eq)]
pub enum TokenizerError {
    /// A character out of place.
    InvalidCharacter(char),
}

/// A lexical token.
#[derive(Debug)]
pub enum Token {
    Number(Rational),
    Unit(String),
    Add,
    Sub,
    Mul,
    Div,
    VarStore(String),
    VarRecall(String),
    Operator(char),
    MacroInvoke((String, String)),
    Comment(String),
}

/// A line and column in the input, both counted from one.
#[derive(Debug, Clone, Copy)]
pub struct ReaderCursor {
    pub line: usize,
    pub column: usize,
}

impl ReaderCursor {
    /// The start of the input.
    pub fn new() -> (r: ReaderCursor)
        ensures
            r.line == 1,
            r.column == 1,
    {
        ReaderCursor { line: 1, column: 1 }
    }
}

impl Default for ReaderCursor {
    fn default() -> (r: ReaderCursor)
        ensures
            r.line == 1,
            r.column == 1,
    {
        ReaderCursor::new()
    }
}

/// The character a byte stands for.
pub open spec fn chr(b: u8) -> char {
    b as char
}

/// The characters `char::is_whitespace` accepts among single bytes.
pub open spec fn is_space(c: char) -> bool {
    c == ' ' || c == '\t' || c == '\n' || c == '\x0b' || c == '\x0c' || c == '\r' || c == '\u{85}'
        || c == '\u{a0}'
}

pub open spec fn is_alpha(c: char) -> bool {
    ('a' <= c <= 'z') || ('A' <= c <= 'Z')
}

pub open spec fn is_alnum(c: char) -> bool {
    is_alpha(c) || ('0' <= c <= '9')
}

/// Characters that continue a number literal.
pub open spec fn in_number(c: char) -> bool {
    ('0' <= c <= '9') || c == '.' || c == 'e' || c == 'E' || c == '_' || c == '-'
}

/// Characters of a unit name.
pub open spec fn in_unit(c: char) -> bool {
    is_alnum(c) || c == '/' || c == '*' || c == '_'
}

/// Characters of a macro name.
pub open spec fn in_macro(c: char) -> bool {
    is_alpha(c) || c == '_'
}

/// Characters of a variable name.
pub open spec fn in_name(c: char) -> bool {
    is_alnum(c) || c == '_'
}

/// Characters that do not end a comment.
pub open spec fn in_comment(c: char) -> bool {
    c != '\r' && c != '\n'
}

/// Characters that do not end a macro argument.
pub open spec fn in_argument(c: char) -> bool {
    c != ')'
}

/// Which set of characters a scan accepts.
#[derive(Clone, Copy, PartialEq, Eq)]
pub enum CharClass {
    Space,
    Number,
    UnitName,
    MacroName,
    VarName,
    CommentText,
    Argument,
}

pub open spec fn in_class(k: CharClass, c: char) -> bool {
    match k {
        CharClass::Space => is_space(c),
        CharClass::Number => in_number(c),
        CharClass::UnitName => in_unit(c),
        CharClass::MacroName => in_macro(c),
        CharClass::VarName => in_name(c),
        CharClass::CommentText => in_comment(c),
        CharClass::Argument => in_argument(c),
    }
}

fn class_has(k: CharClass, c: char) -> (r: bool)
    ensures
        r == in_class(k, c),
{
    match k {
        CharClass::Space => c == ' ' || c == '\t' || c == '\n' || c == '\x0b' || c == '\x0c' || c == '\r'
            || c == '\u{85}' || c == '\u{a0}',
        CharClass::Number => ('0' <= c && c <= '9') || c == '.' || c == 'e' || c == 'E' || c == '_' || c == '-',
        CharClass::UnitName => ('a' <= c && c <= 'z') || ('A' <= c && c <= 'Z') || ('0' <= c && c <= '9')
            || c == '/' || c == '*' || c == '_',
        CharClass::MacroName => ('a' <= c && c <= 'z') || ('A' <= c && c <= 'Z') || c == '_',
        CharClass::VarName => ('a' <= c && c <= 'z') || ('A' <= c && c <= 'Z') || ('0' <= c && c <= '9')
            || c == '_',
        CharClass::CommentText => c != '\r' && c != '\n',
        CharClass::Argument => c != ')',
    }
}

/// The end of the longest run of characters of class `k` from `start`.
pub open spec fn run_end(s: Seq<char>, start: int, k: CharClass) -> int
    decreases s.len() - start,
{
    if start >= s.len() || !in_class(k, s[start]) {
        start
    } else {
        run_end(s, start + 1, k)
    }
}

pub proof fn lemma_run_end_bound(s: Seq<char>, start: int, k: CharClass)
    requires
        0 <= start <= s.len(),
    ensures
        start <= run_end(s, start, k) <= s.len(),
    decreases s.len() - start,
{
    if start < s.len() && in_class(k, s[start]) {
        lemma_run_end_bound(s, start + 1, k);
    }
}

/// Relies on `FromIterator<char> for String`: the characters in order.
#[verifier::external_body]
fn string_of(chars: &Vec<char>) -> (r: String)
    ensures
        r@ == chars@,
{
    chars.iter().collect()
}

/// The characters of `s` from `start` to `end`, as a `String`.
fn slice_string(s: &Vec<char>, start: usize, end: usize) -> (r: String)
    requires
        start <= end <= s@.len(),
    ensures
        r@ == s@.subrange(start as int, end as int),
{
    let mut v: Vec<char> = Vec::new();
    let mut i: usize = start;
    while i < end
        invariant
            start <= i <= end <= s@.len(),
            v@ == s@.subrange(start as int, i as int),
        decreases end - i,
    {
        v.push(s[i]);
        i += 1;
        assert(v@ == s@.subrange(start as int, i as int));
    }
    string_of(&v)
}

/// The line reached after reading the first `k` characters of `t`.
pub open spec fn line_at(t: Seq<char>, k: int) -> int
    decreases k,
{
    if k <= 0 {
        1
    } else if t[k - 1] == '\n' {
        line_at(t, k - 1) + 1
    } else {
        line_at(t, k - 1)
    }
}

/// The column reached after reading the first `k` characters of `t`.
pub open spec fn column_at(t: Seq<char>, k: int) -> int
    decreases k,
{
    if k <= 0 {
        1
    } else if t[k - 1] == '\n' {
        1
    } else {
        column_at(t, k - 1) + 1
    }
}

pub proof fn lemma_cursor_bound(t: Seq<char>, k: int)
    requires
        0 <= k,
    ensures
        1 <= line_at(t, k) <= k + 1,
        1 <= column_at(t, k) <= k + 1,
    decreases k,
{
    if k > 0 {
        lemma_cursor_bound(t, k - 1);
    }
}

/// Where the scan stands after the token that starts at `i0`.
pub open spec fn token_end(t: Seq<char>, i0: int) -> int {
    let c = t[i0];
    if ('0' <= c <= '9') || c == '_' {
        run_end(t, i0 + 1, CharClass::Number)
    } else if c == '(' {
        let e = run_end(t, i0 + 1, CharClass::UnitName);
        if e == t.len() { e } else { e + 1 }
    } else if c == '@' {
        let e = run_end(t, i0 + 1, CharClass::MacroName);
        let a = run_end(t, e + 1, CharClass::Argument);
        if e == t.len() { e } else if t[e] != '(' { e + 1 } else if a < t.len() { a + 1 } else { a }
    } else if c == '#' {
        let e = run_end(t, i0 + 1, CharClass::CommentText);
        if e < t.len() { e + 1 } else { e }
    } else if c == '>' || c == '<' {
        run_end(t, i0 + 1, CharClass::VarName)
    } else {
        i0 + 1
    }
}

pub proof fn lemma_token_end_bound(t: Seq<char>, i0: int)
    requires
        0 <= i0 < t.len(),
    ensures
        i0 < token_end(t, i0) <= t.len(),
{
    lemma_run_end_bound(t, i0 + 1, CharClass::Number);
    lemma_run_end_bound(t, i0 + 1, CharClass::UnitName);
    lemma_run_end_bound(t, i0 + 1, CharClass::MacroName);
    lemma_run_end_bound(t, i0 + 1, CharClass::CommentText);
    lemma_run_end_bound(t, i0 + 1, CharClass::VarName);
    let e = run_end(t, i0 + 1, CharClass::MacroName);
    if e < t.len() {
        lemma_run_end_bound(t, e + 1, CharClass::Argument);
    }
}

/// How far the characters after the token starting at `i0` have been looked at: one past its
/// end where the scan had to look at the next character to stop.
pub open spec fn token_seen(t: Seq<char>, i0: int) -> int {
    let c = t[i0];
    let e = token_end(t, i0);
    if (('0' <= c <= '9') || c == '_' || c == '>' || c == '<') && e < t.len() {
        e + 1
    } else {
        e
    }
}

/// The token read, if one was.
pub open spec fn produced(r: Result<Option<Token>, TokenizerError>) -> Option<Token> {
    match r {
        Ok(Some(t)) => Some(t),
        _ => None,
    }
}

/// The number read, if a number was.
pub open spec fn number_read(r: Result<Option<Token>, TokenizerError>) -> Option<Rational> {
    match r {
        Ok(Some(Token::Number(n))) => Some(n),
        _ => None,
    }
}

/// The name and text of what was read, if it was of the kind `kind` (one of `(`, `#`, `>`, `<`).
pub open spec fn text_read(r: Result<Option<Token>, TokenizerError>, kind: char) -> Option<Seq<char>> {
    match r {
        Ok(Some(Token::Unit(x))) => if kind == '(' { Some(x@) } else { None },
        Ok(Some(Token::Comment(x))) => if kind == '#' { Some(x@) } else { None },
        Ok(Some(Token::VarStore(x))) => if kind == '>' { Some(x@) } else { None },
        Ok(Some(Token::VarRecall(x))) => if kind == '<' { Some(x@) } else { None },
        _ => None,
    }
}

/// The macro name and argument read, if a macro invocation was.
pub open spec fn macro_read(r: Result<Option<Token>, TokenizerError>) -> Option<(Seq<char>, Seq<char>)> {
    match r {
        Ok(Some(Token::MacroInvoke(m))) => Some((m.0@, m.1@)),
        _ => None,
    }
}

/// A scanner over a command's characters, one token at a time.
pub struct Tokenizer {
    input: Vec<char>,
    pos: usize,
    read_upto: usize,
    cursor: ReaderCursor,
}

impl Tokenizer {
    /// The characters being read: one per byte of the command.
    pub closed spec fn text(&self) -> Seq<char> {
        self.input@
    }

    /// How far the scan has gone.
    pub closed spec fn position(&self) -> int {
        self.pos as int
    }

    pub proof fn lemma_position_bound(&self)
        requires
            self.wf(),
        ensures
            0 <= self.position() <= self.text().len(),
    {
    }

    pub closed spec fn wf(&self) -> bool {
        &&& self.pos <= self.read_upto <= self.input@.len()
        &&& self.cursor.line == line_at(self.input@, self.read_upto as int)
        &&& self.cursor.column == column_at(self.input@, self.read_upto as int)
        &&& self.input@.len() < usize::MAX
    }

    /// How many characters have been looked at, the one after a token included.
    pub closed spec fn seen(&self) -> int {
        self.read_upto as int
    }

    /// A scanner at the start of `input`.
    pub fn new(input: &str) -> (r: Tokenizer)
        requires
            input.spec_bytes().len() < usize::MAX,
        ensures
            r.wf(),
            r.text() == input.spec_bytes().map_values(|b: u8| chr(b)),
            r.position() == 0,
            r.seen() == 0,
    {
        let bytes = input.as_bytes();
        let mut chars: Vec<char> = Vec::new();
        let mut i: usize = 0;
        while i < bytes.len()
            invariant
                i <= bytes@.len(),
                bytes@ == input.spec_bytes(),
                chars@ == bytes@.take(i as int).map_values(|b: u8| chr(b)),
            decreases bytes.len() - i,
        {
            let b = bytes[i];
            chars.push(b as char);
            i += 1;
            assert(chars@ =~= bytes@.take(i as int).map_values(|b: u8| chr(b)));
        }
        assert(bytes@.take(bytes@.len() as int) == bytes@);
        Tokenizer { input: chars, pos: 0, read_upto: 0, cursor: ReaderCursor::new() }
    }

    /// The line and column reached.
    pub fn get_cursor(&self) -> (r: ReaderCursor)
        requires
            self.wf(),
        ensures
            r.line == line_at(self.text(), self.seen()),
            r.column == column_at(self.text(), self.seen()),
    {
        self.cursor
    }

    fn scan_run(&self, start: usize, k: CharClass) -> (r: usize)
        requires
            start <= self.input@.len(),
        ensures
            r == run_end(self.text(), start as int, k),
            start <= r <= self.input@.len(),
    {
        let mut i: usize = start;
        while i < self.input.len() && class_has(k, self.input[i])
            invariant
                start <= i <= self.input@.len(),
                run_end(self.text(), start as int, k) == run_end(self.text(), i as int, k),
            decreases self.input.len() - i,
        {
            i += 1;
        }
        i
    }

    /// Moves the scan to `to`, having looked at the characters before `seen`; lines and
    /// columns are counted over characters not looked at before.
    fn advance(&mut self, to: usize, seen: usize)
        requires
            old(self).wf(),
            old(self).pos <= to <= seen <= old(self).input@.len(),
        ensures
            final(self).wf(),
            final(self).text() == old(self).text(),
            final(self).position() == to,
            final(self).seen() == if seen > old(self).seen() { seen as int } else { old(self).seen() },
    {
        let mut line = self.cursor.line;
        let mut column = self.cursor.column;
        let mut i: usize = self.read_upto;
        while i < seen
            invariant
                self.read_upto <= i,
                i <= seen || i == self.read_upto,
                seen <= self.input@.len() < usize::MAX,
                line == line_at(self.input@, i as int),
                column == column_at(self.input@, i as int),
            decreases seen - i,
        {
            proof {
                lemma_cursor_bound(self.input@, i as int);
            }
            if self.input[i] == '\n' {
                line = line + 1;
                column = 1;
            } else {
                column = column + 1;
            }
            i += 1;
        }
        if seen > self.read_upto {
            self.read_upto = seen;
            self.cursor = ReaderCursor { line, column };
        }
        self.pos = to;
    }

    /// Reads the next token: `None` at the end of the input.
    pub fn parse_next_token(&mut self) -> (r: Result<Option<Token>, TokenizerError>)
        requires
            old(self).wf(),
        ensures
            final(self).wf(),
            final(self).text() == old(self).text(),
            final(self).position() >= old(self).position(),
            ({
                let t = old(self).text();
                let i0 = run_end(t, old(self).position(), CharClass::Space);
                &&& i0 < t.len() ==> final(self).position() == token_end(t, i0)
                &&& i0 < t.len() ==> final(self).seen() == if token_seen(t, i0) > old(self).seen() {
                    token_seen(t, i0)
                } else {
                    old(self).seen()
                }
                &&& i0 == t.len() ==> final(self).seen() == if t.len() > old(self).seen() {
                    t.len() as int
                } else {
                    old(self).seen()
                }
            }),
            number_read(r) is Some ==> number_read(r)->0.wf(),
            produced(r) is Some ==> final(self).position() > old(self).position(),
            r == Ok::<Option<Token>, TokenizerError>(None) ==> final(self).position() == final(self).text().len(),
            ({
                let t = old(self).text();
                let i0 = run_end(t, old(self).position(), CharClass::Space);
                let c = t[i0];
                &&& i0 == t.len() <==> r == Ok::<Option<Token>, TokenizerError>(None)
                &&& i0 < t.len() ==> final(self).position() > old(self).position()
                &&& i0 < t.len() && c == '+' ==> produced(r) == Some(Token::Add)
                &&& i0 < t.len() && c == '-' ==> produced(r) == Some(Token::Sub)
                &&& i0 < t.len() && c == '*' ==> produced(r) == Some(Token::Mul)
                &&& i0 < t.len() && c == '/' ==> produced(r) == Some(Token::Div)
                &&& i0 < t.len() && (c == 'p' || c == 'n' || c == 'f' || c == 'c' || c == 'd' || c == 'r'
                    || c == 's' || c == 'U') ==> produced(r) == Some(Token::Operator(c))
                &&& i0 < t.len() && (('0' <= c <= '9') || c == '_') ==> ({
                    let lit = t.subrange(i0, run_end(t, i0 + 1, CharClass::Number));
                    let st = lit_scan(lit_body(lit));
                    &&& st.err matches Some(e) ==> r == Err::<Option<Token>, TokenizerError>(TokenizerError::InvalidCharacter(e))
                    &&& st.err is None ==> number_read(r) is Some
                        && number_read(r)->0.wf() && frac_eq(number_read(r)->0@, lit_value(lit))
                })
                &&& i0 < t.len() && c == '(' ==> ({
                    let e = run_end(t, i0 + 1, CharClass::UnitName);
                    &&& e < t.len() && t[e] != ')' ==> r == Err::<Option<Token>, TokenizerError>(TokenizerError::InvalidCharacter(t[e]))
                    &&& (e == t.len() || t[e] == ')') ==> text_read(r, '(') == Some(t.subrange(i0 + 1, e))
                })
                &&& i0 < t.len() && c == '@' ==> ({
                    let e = run_end(t, i0 + 1, CharClass::MacroName);
                    let a = run_end(t, e + 1, CharClass::Argument);
                    &&& e < t.len() && t[e] != '(' ==> r == Err::<Option<Token>, TokenizerError>(TokenizerError::InvalidCharacter(t[e]))
                    &&& e == t.len() ==> macro_read(r) == Some((t.subrange(i0 + 1, e), Seq::<char>::empty()))
                    &&& e < t.len() && t[e] == '(' ==> macro_read(r) == Some((t.subrange(i0 + 1, e), t.subrange(e + 1, a)))
                })
                &&& i0 < t.len() && c == '#' ==> text_read(r, '#') == Some(t.subrange(i0 + 1, run_end(t, i0 + 1, CharClass::CommentText)))
                &&& i0 < t.len() && c == '>' ==> text_read(r, '>') == Some(t.subrange(i0 + 1, run_end(t, i0 + 1, CharClass::VarName)))
                &&& i0 < t.len() && c == '<' ==> text_read(r, '<') == Some(t.subrange(i0 + 1, run_end(t, i0 + 1, CharClass::VarName)))
                &&& i0 < t.len() && !(('0' <= c <= '9') || c == '_' || c == '(' || c == '@' || c == '#' || c == '>'
                    || c == '<' || c == '+' || c == '-' || c == '*' || c == '/' || c == 'p' || c == 'n' || c == 'f'
                    || c == 'c' || c == 'd' || c == 'r' || c == 's' || c == 'U') ==> r == Err::<Option<Token>, TokenizerError>(TokenizerError::InvalidCharacter(c))
            }),
    {
        let len = self.input.len();
        let i0 = self.scan_run(self.pos, CharClass::Space);
        if i0 == len {
            self.advance(len, len);
            return Ok(None);
        }
        let c = self.input[i0];
        if ('0' <= c && c <= '9') || c == '_' {
            let e = self.scan_run(i0 + 1, CharClass::Number);
            let lit = slice_string(&self.input, i0, e);
            let seen = if e < len { e + 1 } else { e };
            self.advance(e, seen);
            return match parse_bigrational(lit.as_str()) {
                Ok(n) => Ok(Some(Token::Number(n))),
                Err(err) => Err(err),
            };
        }
        if c == '(' {
            let e = self.scan_run(i0 + 1, CharClass::UnitName);
            let name = slice_string(&self.input, i0 + 1, e);
            if e == len {
                self.advance(len, len);
                return Ok(Some(Token::Unit(name)));
            }
            let d = self.input[e];
            self.advance(e + 1, e + 1);
            if d == ')' {
                return Ok(Some(Token::Unit(name)));
            }
            return Err(TokenizerError::InvalidCharacter(d));
        }
        if c == '@' {
            let e = self.scan_run(i0 + 1, CharClass::MacroName);
            let name = slice_string(&self.input, i0 + 1, e);
            if e == len {
                self.advance(len, len);
                let empty: Vec<char> = Vec::new();
                return Ok(Some(Token::MacroInvoke((name, string_of(&empty)))));
            }
            let d = self.input[e];
            if d != '(' {
                self.advance(e + 1, e + 1);
                return Err(TokenizerError::InvalidCharacter(d));
            }
            let a = self.scan_run(e + 1, CharClass::Argument);
            let arg = slice_string(&self.input, e + 1, a);
            let to = if a < len { a + 1 } else { a };
            self.advance(to, to);
            return Ok(Some(Token::MacroInvoke((name, arg))));
        }
        if c == '#' {
            let e = self.scan_run(i0 + 1, CharClass::CommentText);
            let text = slice_string(&self.input, i0 + 1, e);
            let to = if e < len { e + 1 } else { e };
            self.advance(to, to);
            return Ok(Some(Token::Comment(text)));
        }
        if c == '>' || c == '<' {
            let e = self.scan_run(i0 + 1, CharClass::VarName);
            let name = slice_string(&self.input, i0 + 1, e);
            let seen = if e < len { e + 1 } else { e };
            self.advance(e, seen);
            if c == '>' {
                return Ok(Some(Token::VarStore(name)));
            }
            return Ok(Some(Token::VarRecall(name)));
        }
        self.advance(i0 + 1, i0 + 1);
        if c == '+' {
            Ok(Some(Token::Add))
        } else if c == '-' {
            Ok(Some(Token::Sub))
        } else if c == '*' {
            Ok(Some(Token::Mul))
        } else if c == '/' {
            Ok(Some(Token::Div))
        } else if c == 'p' || c == 'n' || c == 'f' || c == 'c' || c == 'd' || c == 'r' || c == 's' || c == 'U' {
            Ok(Some(Token::Operator(c)))
        } else {
            Err(TokenizerError::InvalidCharacter(c))
        }
    }
}

} // verus!
