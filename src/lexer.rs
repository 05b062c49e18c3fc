use vstd::prelude::*;

verus! {

/// The kinds of lexeme, with their payloads.
#[derive(Debug, Clone, PartialEq)]
pub enum TokenType {
    Int,
    Float,
    If,
    Else,
    While,
    Return,
    IntLiteral(i64),
    /// The literal's text exactly as written: digits with one `.`.
    FloatLiteral(String),
    /// The characters between the quotes, escapes left as written.
    StringLiteral(String),
    Identifier(String),
    Plus,
    Minus,
    Multiply,
    Divide,
    Assign,
    Equal,
    NotEqual,
    LessThan,
    GreaterThan,
    LeftParen,
    RightParen,
    LeftBrace,
    RightBrace,
    Semicolon,
    Comma,
    EOF,
}

/// Mathematical form of a `TokenType`: text payloads as character sequences.
pub enum TokKind {
    Int,
    Float,
    If,
    Else,
    While,
    Return,
    IntLiteral(i64),
    FloatLiteral(Seq<char>),
    StringLiteral(Seq<char>),
    Identifier(Seq<char>),
    Plus,
    Minus,
    Multiply,
    Divide,
    Assign,
    Equal,
    NotEqual,
    LessThan,
    GreaterThan,
    LeftParen,
    RightParen,
    LeftBrace,
    RightBrace,
    Semicolon,
    Comma,
    EOF,
}

impl View for TokenType {
    type V = TokKind;

    open spec fn view(&self) -> TokKind {
        match self {
            TokenType::Int => TokKind::Int,
            TokenType::Float => TokKind::Float,
            TokenType::If => TokKind::If,
            TokenType::Else => TokKind::Else,
            TokenType::While => TokKind::While,
            TokenType::Return => TokKind::Return,
            TokenType::IntLiteral(v) => TokKind::IntLiteral(*v),
            TokenType::FloatLiteral(s) => TokKind::FloatLiteral(s@),
            TokenType::StringLiteral(s) => TokKind::StringLiteral(s@),
            TokenType::Identifier(s) => TokKind::Identifier(s@),
            TokenType::Plus => TokKind::Plus,
            TokenType::Minus => TokKind::Minus,
            TokenType::Multiply => TokKind::Multiply,
            TokenType::Divide => TokKind::Divide,
            TokenType::Assign => TokKind::Assign,
            TokenType::Equal => TokKind::Equal,
            TokenType::NotEqual => TokKind::NotEqual,
            TokenType::LessThan => TokKind::LessThan,
            TokenType::GreaterThan => TokKind::GreaterThan,
            TokenType::LeftParen => TokKind::LeftParen,
            TokenType::RightParen => TokKind::RightParen,
            TokenType::LeftBrace => TokKind::LeftBrace,
            TokenType::RightBrace => TokKind::RightBrace,
            TokenType::Semicolon => TokKind::Semicolon,
            TokenType::Comma => TokKind::Comma,
            TokenType::EOF => TokKind::EOF,
        }
    }
}

/// A lexeme with the line and column (both from 1) of its first character.
#[derive(Debug, Clone)]
pub struct Token {
    pub token_type: TokenType,
    pub line: usize,
    pub column: usize,
}

pub struct Tok {
    pub kind: TokKind,
    pub line: int,
    pub column: int,
}

impl View for Token {
    type V = Tok;

    open spec fn view(&self) -> Tok {
        Tok { kind: self.token_type@, line: self.line as int, column: self.column as int }
    }
}

#[derive(Debug, Clone, PartialEq)]
pub enum LexErrorKind {
    UnexpectedCharacter(char),
    UnterminatedString,
    UnterminatedBlockComment,
    /// The digits, which do not fit in an `i64`.
    InvalidIntegerLiteral(String),
}

pub enum LexErrKind {
    UnexpectedCharacter(char),
    UnterminatedString,
    UnterminatedBlockComment,
    InvalidIntegerLiteral(Seq<char>),
}

impl View for LexErrorKind {
    type V = LexErrKind;

    open spec fn view(&self) -> LexErrKind {
        match self {
            LexErrorKind::UnexpectedCharacter(c) => LexErrKind::UnexpectedCharacter(*c),
            LexErrorKind::UnterminatedString => LexErrKind::UnterminatedString,
            LexErrorKind::UnterminatedBlockComment => LexErrKind::UnterminatedBlockComment,
            LexErrorKind::InvalidIntegerLiteral(s) => LexErrKind::InvalidIntegerLiteral(s@),
        }
    }
}

/// A lexical error at the given line and column.
#[derive(Debug, Clone, PartialEq)]
pub struct LexerError {
    pub kind: LexErrorKind,
    pub line: usize,
    pub column: usize,
}

pub struct LexErr {
    pub kind: LexErrKind,
    pub line: int,
    pub column: int,
}

impl View for LexerError {
    type V = LexErr;

    open spec fn view(&self) -> LexErr {
        LexErr { kind: self.kind@, line: self.line as int, column: self.column as int }
    }
}

// ---- Character classes and scanning, as mathematics ----

pub open spec fn is_digit(c: char) -> bool {
    '0' <= c && c <= '9'
}

pub open spec fn is_word_start(c: char) -> bool {
    ('a' <= c && c <= 'z') || ('A' <= c && c <= 'Z') || c == '_'
}

/// What `char::is_alphanumeric` returns on `c` (Unicode's alphabetic or numeric).
pub uninterp spec fn alphanumeric(c: char) -> bool;

/// Letters, digits and `_`: for ASCII exactly `a`-`z`, `A`-`Z`, `0`-`9` and `_`,
/// beyond ASCII what `char::is_alphanumeric` accepts.
pub open spec fn is_word_char(c: char) -> bool {
    if (c as u32) < 128 {
        ('a' <= c && c <= 'z') || ('A' <= c && c <= 'Z') || ('0' <= c && c <= '9') || c == '_'
    } else {
        alphanumeric(c)
    }
}

/// First index at or after `i` that does not hold a digit.
pub open spec fn digits_end(s: Seq<char>, i: int) -> int
    decreases s.len() - i,
{
    if 0 <= i < s.len() && is_digit(s[i]) {
        digits_end(s, i + 1)
    } else {
        i
    }
}

/// First index at or after `i` that does not hold a word character.
pub open spec fn word_end(s: Seq<char>, i: int) -> int
    decreases s.len() - i,
{
    if 0 <= i < s.len() && is_word_char(s[i]) {
        word_end(s, i + 1)
    } else {
        i
    }
}

/// First index at or after `i` that holds a newline, or the end.
pub open spec fn line_end(s: Seq<char>, i: int) -> int
    decreases s.len() - i,
{
    if 0 <= i < s.len() && s[i] != '\n' {
        line_end(s, i + 1)
    } else {
        i
    }
}

/// Where a string body that starts at `i` stops: at a quote, a newline or the end.
/// A backslash takes the character after it along, whatever it is.
pub open spec fn string_stop(s: Seq<char>, i: int) -> int
    decreases s.len() - i,
{
    if 0 <= i < s.len() && s[i] != '"' && s[i] != '\n' {
        if s[i] == '\\' && i + 1 < s.len() {
            string_stop(s, i + 2)
        } else {
            string_stop(s, i + 1)
        }
    } else {
        i
    }
}

/// The value of a sequence of decimal digits.
pub open spec fn decimal_value(d: Seq<char>) -> int
    decreases d.len(),
{
    if d.len() == 0 {
        0
    } else {
        decimal_value(d.drop_last()) * 10 + (d.last() as int - '0' as int)
    }
}

/// Where a block comment whose body starts at `i` (at `line`, `col`) ends:
/// `Ok` with the position, line and column after the first `*/`, or `Err` with
/// the line and column at which the input ran out.
pub open spec fn block_comment_end(s: Seq<char>, i: int, line: int, col: int) -> Result<
    (int, int, int),
    (int, int),
>
    decreases s.len() - i,
{
    if 0 <= i && i + 1 < s.len() {
        if s[i] == '*' && s[i + 1] == '/' {
            Ok((i + 2, line, col + 2))
        } else if s[i] == '\n' {
            block_comment_end(s, i + 1, line + 1, 1)
        } else {
            block_comment_end(s, i + 1, line, col + 1)
        }
    } else {
        Err((line, col))
    }
}

pub open spec fn keyword(w: Seq<char>) -> Option<TokKind> {
    if w == seq!['i', 'n', 't'] {
        Some(TokKind::Int)
    } else if w == seq!['f', 'l', 'o', 'a', 't'] {
        Some(TokKind::Float)
    } else if w == seq!['i', 'f'] {
        Some(TokKind::If)
    } else if w == seq!['e', 'l', 's', 'e'] {
        Some(TokKind::Else)
    } else if w == seq!['w', 'h', 'i', 'l', 'e'] {
        Some(TokKind::While)
    } else if w == seq!['r', 'e', 't', 'u', 'r', 'n'] {
        Some(TokKind::Return)
    } else {
        None
    }
}

/// The token for a single character that is one token by itself.
pub open spec fn single_char_token(c: char) -> Option<TokKind> {
    if c == '+' {
        Some(TokKind::Plus)
    } else if c == '-' {
        Some(TokKind::Minus)
    } else if c == '*' {
        Some(TokKind::Multiply)
    } else if c == '<' {
        Some(TokKind::LessThan)
    } else if c == '>' {
        Some(TokKind::GreaterThan)
    } else if c == '(' {
        Some(TokKind::LeftParen)
    } else if c == ')' {
        Some(TokKind::RightParen)
    } else if c == '{' {
        Some(TokKind::LeftBrace)
    } else if c == '}' {
        Some(TokKind::RightBrace)
    } else if c == ';' {
        Some(TokKind::Semicolon)
    } else if c == ',' {
        Some(TokKind::Comma)
    } else {
        None
    }
}

/// One move of the scanner.
pub enum Move {
    /// Nothing emitted; go on at the position, line and column given.
    Skip(int, int, int),
    /// A token, then go on at the position, line and column given.
    Emit(Tok, int, int, int),
    Fail(LexErr),
}

/// The scan of a number starting at `p`: its end, and whether it holds a `.`.
pub open spec fn number_end(s: Seq<char>, p: int) -> (int, bool) {
    let e = digits_end(s, p);
    if e < s.len() && s[e] == '.' {
        (digits_end(s, e + 1), true)
    } else {
        (e, false)
    }
}

/// The move the scanner makes at position `p` (`p` inside `s`), at `line` and `col`.
pub open spec fn scan_move(s: Seq<char>, p: int, line: int, col: int) -> Move {
    let c = s[p];
    let next = if p + 1 < s.len() { s[p + 1] } else { '\0' };
    let at = |k: TokKind| Tok { kind: k, line: line, column: col };
    if c == ' ' || c == '\t' || c == '\r' {
        Move::Skip(p + 1, line, col + 1)
    } else if c == '\n' {
        Move::Skip(p + 1, line + 1, 1)
    } else if is_digit(c) {
        let (e, dotted) = number_end(s, p);
        let text = s.subrange(p, e);
        if dotted {
            Move::Emit(at(TokKind::FloatLiteral(text)), e, line, col + (e - p))
        } else if decimal_value(text) <= i64::MAX {
            Move::Emit(
                at(TokKind::IntLiteral(decimal_value(text) as i64)),
                e,
                line,
                col + (e - p),
            )
        } else {
            Move::Fail(
                LexErr { kind: LexErrKind::InvalidIntegerLiteral(text), line: line, column: col },
            )
        }
    } else if is_word_start(c) {
        let e = word_end(s, p + 1);
        let w = s.subrange(p, e);
        let k = match keyword(w) {
            Some(k) => k,
            None => TokKind::Identifier(w),
        };
        Move::Emit(at(k), e, line, col + (e - p))
    } else if c == '"' {
        let e = string_stop(s, p + 1);
        if e < s.len() && s[e] == '"' {
            Move::Emit(
                at(TokKind::StringLiteral(s.subrange(p + 1, e))),
                e + 1,
                line,
                col + (e + 1 - p),
            )
        } else {
            Move::Fail(
                LexErr { kind: LexErrKind::UnterminatedString, line: line, column: col + (e - p) },
            )
        }
    } else if c == '/' && next == '/' {
        let e = line_end(s, p + 2);
        Move::Skip(e, line, col + (e - p))
    } else if c == '/' && next == '*' {
        match block_comment_end(s, p + 2, line, col + 2) {
            Ok((q, l, k)) => Move::Skip(q, l, k),
            Err((l, k)) => Move::Fail(
                LexErr { kind: LexErrKind::UnterminatedBlockComment, line: l, column: k },
            ),
        }
    } else if c == '/' {
        Move::Emit(at(TokKind::Divide), p + 1, line, col + 1)
    } else if c == '=' && next == '=' {
        Move::Emit(at(TokKind::Equal), p + 2, line, col + 2)
    } else if c == '=' {
        Move::Emit(at(TokKind::Assign), p + 1, line, col + 1)
    } else if c == '!' && next == '=' {
        Move::Emit(at(TokKind::NotEqual), p + 2, line, col + 2)
    } else {
        match single_char_token(c) {
            Some(k) => Move::Emit(at(k), p + 1, line, col + 1),
            None => Move::Fail(
                LexErr { kind: LexErrKind::UnexpectedCharacter(c), line: line, column: col },
            ),
        }
    }
}

/// The tokens of `s` from position `p` on, at `line` and `col`: every move in
/// turn, then one end marker where the input ends; or the first error.
pub open spec fn lex(s: Seq<char>, p: int, line: int, col: int) -> Result<Seq<Tok>, LexErr>
    decreases s.len() - p,
{
    if p < 0 || p >= s.len() {
        Ok(seq![Tok { kind: TokKind::EOF, line: line, column: col }])
    } else {
        match scan_move(s, p, line, col) {
            Move::Skip(q, l, k) => if p < q && q <= s.len() {
                lex(s, q, l, k)
            } else {
                Ok(seq![Tok { kind: TokKind::EOF, line: line, column: col }])
            },
            Move::Emit(t, q, l, k) => if p < q && q <= s.len() {
                match lex(s, q, l, k) {
                    Ok(rest) => Ok(seq![t] + rest),
                    Err(e) => Err(e),
                }
            } else {
                Ok(seq![Tok { kind: TokKind::EOF, line: line, column: col }])
            },
            Move::Fail(e) => Err(e),
        }
    }
}

pub open spec fn tokens_view(v: Seq<Token>) -> Seq<Tok> {
    v.map_values(|t: Token| t@)
}

pub open spec fn result_view(r: Result<Vec<Token>, LexerError>) -> Result<Seq<Tok>, LexErr> {
    match r {
        Ok(v) => Ok(tokens_view(v@)),
        Err(e) => Err(e@),
    }
}

/// The whole of `source` scanned from its start at line 1, column 1.
pub open spec fn lex_all(source: Seq<char>) -> Result<Seq<Tok>, LexErr> {
    lex(source, 0, 1, 1)
}

} // verus!

verus! {

/// Relies on `char::is_alphanumeric`; among ASCII characters exactly the letters
/// and digits are alphanumeric.
#[verifier::external_body]
fn is_alphanumeric(c: char) -> (r: bool)
    ensures
        r == alphanumeric(c),
        (c as u32) < 128 ==> (r <==> (('a' <= c && c <= 'z') || ('A' <= c && c <= 'Z') || ('0' <= c
            && c <= '9'))),
{
    c.is_alphanumeric()
}

/// Relies on collecting characters into a `String`: the characters from `start` to
/// `end`, in order.
#[verifier::external_body]
pub(crate) fn string_from(chars: &Vec<char>, start: usize, end: usize) -> (r: String)
    requires
        start <= end <= chars.len(),
    ensures
        r@ == chars@.subrange(start as int, end as int),
{
    chars[start..end].iter().collect()
}

fn digit(c: char) -> (r: bool)
    ensures
        r == is_digit(c),
{
    '0' <= c && c <= '9'
}

proof fn lemma_decimal_push(t: Seq<char>, c: char)
    ensures
        decimal_value(t.push(c)) == decimal_value(t) * 10 + (c as int - '0' as int),
{
    assert(t.push(c).drop_last() =~= t);
}

proof fn lemma_decimal_nonneg(t: Seq<char>)
    requires
        forall|i: int| 0 <= i < t.len() ==> is_digit(t[i]),
    ensures
        decimal_value(t) >= 0,
    decreases t.len(),
{
    if t.len() > 0 {
        lemma_decimal_nonneg(t.drop_last());
    }
}

/// The characters of `s`, in order.
pub(crate) fn chars_of(s: &str) -> (r: Vec<char>)
    ensures
        r@ == s@,
{
    let mut chars: Vec<char> = Vec::new();
    let ghost whole = s@;
    for c in it: s.chars()
        invariant
            chars@ == it.seq().take(it.index() as int),
            it.seq() == whole,
    {
        chars.push(c);
    }
    assert(chars@ =~= whole);
    chars
}

/// Scans source text into tokens.
pub struct Lexer {
    input: Vec<char>,
    position: usize,
    line: usize,
    column: usize,
}

impl Lexer {
    /// The characters being scanned.
    pub closed spec fn source(&self) -> Seq<char> {
        self.input@
    }

    /// Index of the next character to scan.
    pub closed spec fn pos(&self) -> int {
        self.position as int
    }

    pub closed spec fn cur_line(&self) -> int {
        self.line as int
    }

    pub closed spec fn cur_column(&self) -> int {
        self.column as int
    }

    /// Position, line and column stay within the input and its length fits below `usize::MAX`.
    pub closed spec fn wf(&self) -> bool {
        &&& self.position <= self.input.len()
        &&& self.input.len() < usize::MAX
        &&& 1 <= self.line <= self.position + 1
        &&& 1 <= self.column <= self.position + 1
    }

    pub fn new(input: &str) -> (l: Lexer)
        ensures
            l.source() == input@,
            l.pos() == 0,
            l.cur_line() == 1,
            l.cur_column() == 1,
            input@.len() < usize::MAX ==> l.wf(),
    {
        Lexer { input: chars_of(input), position: 0, line: 1, column: 1 }
    }

    fn current_char(&self) -> (c: char)
        requires
            self.position < self.input.len(),
        ensures
            c == self.input@[self.position as int],
    {
        self.input[self.position]
    }

    /// The character after the current one, or `'\0'` past the end.
    fn peek(&self) -> (c: char)
        requires
            self.wf(),
        ensures
            c == (if self.position + 1 < self.input.len() {
                self.input@[self.position + 1]
            } else {
                '\0'
            }),
    {
        if self.position + 1 >= self.input.len() {
            '\0'
        } else {
            self.input[self.position + 1]
        }
    }

    fn advance(&mut self)
        requires
            old(self).wf(),
            old(self).position < old(self).input.len(),
        ensures
            final(self).wf(),
            final(self).input == old(self).input,
            final(self).position == old(self).position + 1,
            final(self).line == old(self).line,
            final(self).column == old(self).column + 1,
    {
        self.position = self.position + 1;
        self.column = self.column + 1;
    }

    fn create_token(&self, token_type: TokenType) -> (t: Token)
        ensures
            t.token_type == token_type,
            t.line == self.line,
            t.column == self.column,
    {
        Token { token_type, line: self.line, column: self.column }
    }

    /// Whether the characters from `start` to `end` are exactly `w`.
    fn word_is(&self, start: usize, end: usize, w: &Vec<char>) -> (r: bool)
        requires
            start <= end <= self.input.len(),
        ensures
            r == (self.input@.subrange(start as int, end as int) == w@),
    {
        if end - start != w.len() {
            assert(self.input@.subrange(start as int, end as int).len() != w@.len());
            return false;
        }
        let mut i: usize = 0;
        while i < w.len()
            invariant
                start <= end <= self.input.len(),
                end - start == w.len(),
                i <= w.len(),
                forall|j: int| 0 <= j < i ==> self.input@[start + j] == w@[j],
            decreases w.len() - i,
        {
            if self.input[start + i] != w[i] {
                assert(self.input@.subrange(start as int, end as int)[i as int] != w@[i as int]);
                return false;
            }
            i = i + 1;
        }
        assert(self.input@.subrange(start as int, end as int) =~= w@);
        true
    }
}

} // verus!

verus! {

impl Lexer {
    /// What the scanner's move at the old state says of the new state and of the result.
    pub closed spec fn moved(&self, after: &Lexer, r: Result<Option<Token>, LexerError>) -> bool {
        &&& after.input@ == self.input@
        &&& after.wf()
        &&& match scan_move(self.input@, self.position as int, self.line as int, self.column as int) {
            Move::Skip(q, l, k) => r is Ok && r->Ok_0 is None && after.position == q
                && after.line == l && after.column == k,
            Move::Emit(t, q, l, k) => r is Ok && r->Ok_0 is Some && (r->Ok_0->Some_0)@ == t
                && after.position == q && after.line == l && after.column == k,
            Move::Fail(e) => r is Err && (r->Err_0)@ == e,
        }
    }

    /// Scans a number that starts at the current digit.
    fn number(&mut self) -> (r: Result<Option<Token>, LexerError>)
        requires
            old(self).wf(),
            old(self).position < old(self).input.len(),
            is_digit(old(self).input@[old(self).position as int]),
        ensures
            old(self).moved(final(self), r),
    {
        let ghost s = self.input@;
        let start = self.position;
        let start_col = self.column;
        let mut value: i64 = 0;
        let mut fits = true;
        while self.position < self.input.len() && digit(self.current_char())
            invariant
                self.wf(),
                self.input@ == s,
                start <= self.position,
                self.line == old(self).line,
                self.column == start_col + (self.position - start),
                digits_end(s, start as int) == digits_end(s, self.position as int),
                forall|j: int| start <= j < self.position ==> is_digit(s[j]),
                fits ==> value == decimal_value(s.subrange(start as int, self.position as int)),
                !fits ==> decimal_value(s.subrange(start as int, self.position as int)) > i64::MAX,
                value >= 0,
            decreases s.len() - self.position,
        {
            let c = self.current_char();
            let d = (c as u32 - '0' as u32) as i64;
            let ghost before = s.subrange(start as int, self.position as int);
            proof {
                assert(s.subrange(start as int, self.position + 1) =~= before.push(c));
                lemma_decimal_push(before, c);
                lemma_decimal_nonneg(before);
            }
            if fits {
                if value > (i64::MAX - d) / 10 {
                    assert(value * 10 + d > i64::MAX) by (nonlinear_arith)
                        requires
                            value > (i64::MAX - d) / 10,
                            0 <= d <= 9,
                    ;
                    fits = false;
                } else {
                    assert(value * 10 + d <= i64::MAX) by (nonlinear_arith)
                        requires
                            value <= (i64::MAX - d) / 10,
                            0 <= d <= 9,
                            value >= 0,
                    ;
                    value = value * 10 + d;
                }
            } else {
                assert(decimal_value(before) * 10 + d > i64::MAX) by (nonlinear_arith)
                    requires
                        decimal_value(before) > i64::MAX,
                        0 <= d <= 9,
                ;
            }
            self.advance();
        }
        let digits_stop = self.position;
        assert(digits_end(s, digits_stop as int) == digits_stop);
        let mut dotted = false;
        if self.position < self.input.len() && self.current_char() == '.' {
            dotted = true;
            self.advance();
            while self.position < self.input.len() && digit(self.current_char())
                invariant
                    self.wf(),
                    self.input@ == s,
                    digits_stop < self.position,
                    self.line == old(self).line,
                    self.column == start_col + (self.position - start),
                    digits_end(s, digits_stop + 1) == digits_end(s, self.position as int),
                decreases s.len() - self.position,
            {
                self.advance();
            }
            assert(digits_end(s, self.position as int) == self.position);
        }
        let end = self.position;
        assert(number_end(s, start as int) == (end as int, dotted));
        if dotted {
            let text = string_from(&self.input, start, end);
            Ok(Some(Token { token_type: TokenType::FloatLiteral(text), line: self.line, column: start_col }))
        } else if fits {
            Ok(Some(Token { token_type: TokenType::IntLiteral(value), line: self.line, column: start_col }))
        } else {
            let text = string_from(&self.input, start, end);
            Err(LexerError { kind: LexErrorKind::InvalidIntegerLiteral(text), line: self.line, column: start_col })
        }
    }
}

} // verus!

verus! {

impl Lexer {
    /// Scans an identifier or keyword that starts at the current letter or underscore.
    fn identifier(&mut self) -> (r: Result<Option<Token>, LexerError>)
        requires
            old(self).wf(),
            old(self).position < old(self).input.len(),
            is_word_start(old(self).input@[old(self).position as int]),
        ensures
            old(self).moved(final(self), r),
    {
        let ghost s = self.input@;
        let start = self.position;
        let start_col = self.column;
        self.advance();
        while self.position < self.input.len() && (is_alphanumeric(self.current_char())
            || self.current_char() == '_')
            invariant
                self.wf(),
                self.input@ == s,
                start < self.position,
                self.line == old(self).line,
                self.column == start_col + (self.position - start),
                word_end(s, start + 1) == word_end(s, self.position as int),
            decreases s.len() - self.position,
        {
            self.advance();
        }
        let end = self.position;
        assert(word_end(s, end as int) == end);
        let token_type = if self.word_is(start, end, &vec!['i', 'n', 't']) {
            TokenType::Int
        } else if self.word_is(start, end, &vec!['f', 'l', 'o', 'a', 't']) {
            TokenType::Float
        } else if self.word_is(start, end, &vec!['i', 'f']) {
            TokenType::If
        } else if self.word_is(start, end, &vec!['e', 'l', 's', 'e']) {
            TokenType::Else
        } else if self.word_is(start, end, &vec!['w', 'h', 'i', 'l', 'e']) {
            TokenType::While
        } else if self.word_is(start, end, &vec!['r', 'e', 't', 'u', 'r', 'n']) {
            TokenType::Return
        } else {
            TokenType::Identifier(string_from(&self.input, start, end))
        };
        Ok(Some(Token { token_type, line: self.line, column: start_col }))
    }

    /// Scans a string literal that starts at the current quote.
    fn string_literal(&mut self) -> (r: Result<Option<Token>, LexerError>)
        requires
            old(self).wf(),
            old(self).position < old(self).input.len(),
            old(self).input@[old(self).position as int] == '"',
        ensures
            old(self).moved(final(self), r),
    {
        let ghost s = self.input@;
        let start = self.position;
        let start_col = self.column;
        self.advance();
        let body = self.position;
        while self.position < self.input.len() && self.current_char() != '"'
            invariant
                self.wf(),
                self.input@ == s,
                start < self.position,
                body == start + 1,
                s == old(self).input@,
                start == old(self).position,
                start_col == old(self).column,
                s[start as int] == '"',
                self.line == old(self).line,
                self.column == start_col + (self.position - start),
                string_stop(s, body as int) == string_stop(s, self.position as int),
            decreases s.len() - self.position,
        {
            if self.current_char() == '\n' {
                assert(string_stop(s, self.position as int) == self.position);
                return Err(
                    LexerError {
                        kind: LexErrorKind::UnterminatedString,
                        line: self.line,
                        column: self.column,
                    },
                );
            }
            if self.current_char() == '\\' && self.position + 1 < self.input.len() {
                self.advance();
            }
            self.advance();
        }
        if self.position >= self.input.len() {
            return Err(
                LexerError {
                    kind: LexErrorKind::UnterminatedString,
                    line: self.line,
                    column: self.column,
                },
            );
        }
        let end = self.position;
        let content = string_from(&self.input, body, end);
        self.advance();
        Ok(Some(Token { token_type: TokenType::StringLiteral(content), line: self.line, column: start_col }))
    }

    /// Skips the rest of a line comment, up to the newline or the end.
    fn skip_line_comment(&mut self)
        requires
            old(self).wf(),
        ensures
            final(self).wf(),
            final(self).input@ == old(self).input@,
            final(self).position == line_end(old(self).input@, old(self).position as int),
            final(self).line == old(self).line,
            final(self).column == old(self).column + (final(self).position - old(self).position),
    {
        let ghost s = self.input@;
        while self.position < self.input.len() && self.current_char() != '\n'
            invariant
                self.wf(),
                self.input@ == s,
                old(self).position <= self.position,
                self.line == old(self).line,
                self.column == old(self).column + (self.position - old(self).position),
                line_end(s, old(self).position as int) == line_end(s, self.position as int),
            decreases s.len() - self.position,
        {
            self.advance();
        }
    }

    /// Skips a block comment whose body starts at the current position, past the first `*/`.
    fn skip_block_comment(&mut self) -> (r: Result<(), LexerError>)
        requires
            old(self).wf(),
        ensures
            final(self).wf(),
            final(self).input@ == old(self).input@,
            match block_comment_end(
                old(self).input@,
                old(self).position as int,
                old(self).line as int,
                old(self).column as int,
            ) {
                Ok((q, l, k)) => r is Ok && final(self).position == q && final(self).line == l
                    && final(self).column == k,
                Err((l, k)) => r is Err && (r->Err_0)@ == (LexErr {
                    kind: LexErrKind::UnterminatedBlockComment,
                    line: l,
                    column: k,
                }),
            },
    {
        let ghost s = self.input@;
        let ghost goal = block_comment_end(
            s,
            self.position as int,
            self.line as int,
            self.column as int,
        );
        while self.position + 1 < self.input.len()
            invariant
                self.wf(),
                self.input@ == s,
                s == old(self).input@,
                goal == block_comment_end(
                    s,
                    old(self).position as int,
                    old(self).line as int,
                    old(self).column as int,
                ),
                goal == block_comment_end(
                    s,
                    self.position as int,
                    self.line as int,
                    self.column as int,
                ),
            decreases s.len() - self.position,
        {
            if self.current_char() == '*' && self.peek() == '/' {
                self.advance();
                self.advance();
                return Ok(());
            }
            if self.current_char() == '\n' {
                self.position = self.position + 1;
                self.line = self.line + 1;
                self.column = 1;
            } else {
                self.advance();
            }
        }
        Err(
            LexerError {
                kind: LexErrorKind::UnterminatedBlockComment,
                line: self.line,
                column: self.column,
            },
        )
    }
}

} // verus!

verus! {

proof fn lemma_digits_end(s: Seq<char>, i: int)
    requires
        0 <= i <= s.len(),
    ensures
        i <= digits_end(s, i) <= s.len(),
    decreases s.len() - i,
{
    if i < s.len() && is_digit(s[i]) {
        lemma_digits_end(s, i + 1);
    }
}

proof fn lemma_word_end(s: Seq<char>, i: int)
    requires
        0 <= i <= s.len(),
    ensures
        i <= word_end(s, i) <= s.len(),
    decreases s.len() - i,
{
    if i < s.len() && is_word_char(s[i]) {
        lemma_word_end(s, i + 1);
    }
}

proof fn lemma_line_end(s: Seq<char>, i: int)
    requires
        0 <= i <= s.len(),
    ensures
        i <= line_end(s, i) <= s.len(),
    decreases s.len() - i,
{
    if i < s.len() && s[i] != '\n' {
        lemma_line_end(s, i + 1);
    }
}

proof fn lemma_string_stop(s: Seq<char>, i: int)
    requires
        0 <= i <= s.len(),
    ensures
        i <= string_stop(s, i) <= s.len(),
    decreases s.len() - i,
{
    if i < s.len() && s[i] != '"' && s[i] != '\n' {
        if s[i] == '\\' && i + 1 < s.len() {
            lemma_string_stop(s, i + 2);
        } else {
            lemma_string_stop(s, i + 1);
        }
    }
}

proof fn lemma_block_comment_end(s: Seq<char>, i: int, line: int, col: int)
    requires
        0 <= i,
    ensures
        block_comment_end(s, i, line, col) matches Ok((q, l, k)) ==> i + 2 <= q <= s.len(),
    decreases s.len() - i,
{
    if i + 1 < s.len() {
        if s[i] == '*' && s[i + 1] == '/' {
        } else if s[i] == '\n' {
            lemma_block_comment_end(s, i + 1, line + 1, 1);
        } else {
            lemma_block_comment_end(s, i + 1, line, col + 1);
        }
    }
}

/// Every move that does not fail goes forward, and stays within the input.
proof fn lemma_move_progress(s: Seq<char>, p: int, line: int, col: int)
    requires
        0 <= p < s.len(),
    ensures
        scan_move(s, p, line, col) matches Move::Skip(q, l, k) ==> p < q <= s.len(),
        scan_move(s, p, line, col) matches Move::Emit(t, q, l, k) ==> p < q <= s.len(),
{
    lemma_digits_end(s, p);
    if digits_end(s, p) < s.len() {
        lemma_digits_end(s, digits_end(s, p) + 1);
    }
    lemma_word_end(s, p + 1);
    lemma_string_stop(s, p + 1);
    if p + 2 <= s.len() {
        lemma_line_end(s, p + 2);
    }
    lemma_block_comment_end(s, p + 2, line, col + 2);
}

pub open spec fn prepend(a: Seq<Tok>, r: Result<Seq<Tok>, LexErr>) -> Result<Seq<Tok>, LexErr> {
    match r {
        Ok(t) => Ok(a + t),
        Err(e) => Err(e),
    }
}

impl Lexer {
    /// Makes the scanner's move at the current character.
    fn scan_one(&mut self) -> (r: Result<Option<Token>, LexerError>)
        requires
            old(self).wf(),
            old(self).position < old(self).input.len(),
        ensures
            old(self).moved(final(self), r),
            final(self).position > old(self).position || r is Err,
    {
        proof {
            lemma_move_progress(self.input@, self.position as int, self.line as int, self.column as int);
        }
        let c = self.current_char();
        let next = self.peek();
        if c == ' ' || c == '\t' || c == '\r' {
            self.advance();
            Ok(None)
        } else if c == '\n' {
            self.position = self.position + 1;
            self.line = self.line + 1;
            self.column = 1;
            Ok(None)
        } else if digit(c) {
            self.number()
        } else if ('a' <= c && c <= 'z') || ('A' <= c && c <= 'Z') || c == '_' {
            self.identifier()
        } else if c == '"' {
            self.string_literal()
        } else if c == '/' && next == '/' {
            self.advance();
            self.advance();
            self.skip_line_comment();
            Ok(None)
        } else if c == '/' && next == '*' {
            self.advance();
            self.advance();
            match self.skip_block_comment() {
                Ok(()) => Ok(None),
                Err(e) => Err(e),
            }
        } else if c == '/' {
            let t = self.create_token(TokenType::Divide);
            self.advance();
            Ok(Some(t))
        } else if c == '=' && next == '=' {
            let t = self.create_token(TokenType::Equal);
            self.advance();
            self.advance();
            Ok(Some(t))
        } else if c == '=' {
            let t = self.create_token(TokenType::Assign);
            self.advance();
            Ok(Some(t))
        } else if c == '!' && next == '=' {
            let t = self.create_token(TokenType::NotEqual);
            self.advance();
            self.advance();
            Ok(Some(t))
        } else {
            let token_type = match c {
                '+' => TokenType::Plus,
                '-' => TokenType::Minus,
                '*' => TokenType::Multiply,
                '<' => TokenType::LessThan,
                '>' => TokenType::GreaterThan,
                '(' => TokenType::LeftParen,
                ')' => TokenType::RightParen,
                '{' => TokenType::LeftBrace,
                '}' => TokenType::RightBrace,
                ';' => TokenType::Semicolon,
                ',' => TokenType::Comma,
                _ => {
                    return Err(
                        LexerError {
                            kind: LexErrorKind::UnexpectedCharacter(c),
                            line: self.line,
                            column: self.column,
                        },
                    );
                },
            };
            let t = self.create_token(token_type);
            self.advance();
            Ok(Some(t))
        }
    }

    /// Scans the rest of the input: the tokens in order, ending with one end marker,
    /// or the first lexical error.
    pub fn tokenize(&mut self) -> (r: Result<Vec<Token>, LexerError>)
        requires
            old(self).wf(),
        ensures
            result_view(r) == lex(
                old(self).source(),
                old(self).pos(),
                old(self).cur_line(),
                old(self).cur_column(),
            ),
    {
        let ghost s = self.input@;
        let ghost goal = lex(s, self.position as int, self.line as int, self.column as int);
        let mut tokens: Vec<Token> = Vec::new();
        while self.position < self.input.len()
            invariant
                self.wf(),
                self.input@ == s,
                s == old(self).input@,
                goal == lex(s, old(self).position as int, old(self).line as int, old(self).column as int),
                goal == prepend(
                    tokens_view(tokens@),
                    lex(s, self.position as int, self.line as int, self.column as int),
                ),
            decreases s.len() - self.position,
        {
            let ghost before = tokens_view(tokens@);
            match self.scan_one() {
                Ok(Some(t)) => {
                    tokens.push(t);
                    assert(tokens_view(tokens@) =~= before + seq![t@]);
                    proof {
                        match lex(s, self.position as int, self.line as int, self.column as int) {
                            Ok(rest) => {
                                assert(before + (seq![t@] + rest) =~= (before + seq![t@]) + rest);
                            },
                            Err(_) => {},
                        }
                    }
                },
                Ok(None) => {},
                Err(e) => {
                    return Err(e);
                },
            }
        }
        let eof = Token { token_type: TokenType::EOF, line: self.line, column: self.column };
        let ghost before = tokens_view(tokens@);
        tokens.push(eof);
        assert(tokens_view(tokens@) =~= before + seq![eof@]);
        Ok(tokens)
    }
}

} // verus!

verus! {

proof fn lemma_digits_end_within(s: Seq<char>, p: int, q: int, i: int)
    requires
        0 <= p <= i <= digits_end(s, i) <= q <= s.len(),
    ensures
        digits_end(s.subrange(p, q), i - p) == digits_end(s, i) - p,
    decreases s.len() - i,
{
    let t = s.subrange(p, q);
    if i < s.len() && is_digit(s[i]) {
        lemma_digits_end(s, i + 1);
        lemma_digits_end_within(s, p, q, i + 1);
        assert(t[i - p] == s[i]);
    } else if i < q {
        assert(t[i - p] == s[i]);
    }
}

proof fn lemma_word_end_within(s: Seq<char>, p: int, q: int, i: int)
    requires
        0 <= p <= i <= word_end(s, i) <= q <= s.len(),
    ensures
        word_end(s.subrange(p, q), i - p) == word_end(s, i) - p,
    decreases s.len() - i,
{
    let t = s.subrange(p, q);
    if i < s.len() && is_word_char(s[i]) {
        lemma_word_end(s, i + 1);
        lemma_word_end_within(s, p, q, i + 1);
        assert(t[i - p] == s[i]);
    } else if i < q {
        assert(t[i - p] == s[i]);
    }
}

proof fn lemma_string_stop_within(s: Seq<char>, p: int, q: int, i: int)
    requires
        0 <= p <= i <= string_stop(s, i) < q <= s.len(),
    ensures
        string_stop(s.subrange(p, q), i - p) == string_stop(s, i) - p,
    decreases s.len() - i,
{
    let t = s.subrange(p, q);
    lemma_string_stop(s, i);
    if i < s.len() && s[i] != '"' && s[i] != '\n' {
        assert(t[i - p] == s[i]);
        if s[i] == '\\' && i + 1 < s.len() {
            lemma_string_stop(s, i + 2);
            lemma_string_stop_within(s, p, q, i + 2);
        } else {
            lemma_string_stop(s, i + 1);
            lemma_string_stop_within(s, p, q, i + 1);
        }
    } else {
        assert(t[i - p] == s[i]);
    }
}

/// The token that `scan_move` emits at `p`, rescanned alone.
pub open spec fn rescanned(s: Seq<char>, p: int, line: int, col: int) -> bool {
    let t = scan_move(s, p, line, col)->Emit_0;
    let q = scan_move(s, p, line, col)->Emit_1;
    scan_move(s.subrange(p, q), 0, 1, 1) == Move::Emit(
        Tok { kind: t.kind, line: 1, column: 1 },
        q - p,
        1,
        1 + (q - p),
    )
}

#[verifier::rlimit(40)]
proof fn lemma_rescan_number(s: Seq<char>, p: int, line: int, col: int)
    requires
        0 <= p < s.len(),
        is_digit(s[p]),
        scan_move(s, p, line, col) is Emit,
    ensures
        rescanned(s, p, line, col),
{
    let q = scan_move(s, p, line, col)->Emit_1;
    lemma_move_progress(s, p, line, col);
    let t = s.subrange(p, q);
    let e = digits_end(s, p);
    lemma_digits_end(s, p);
    assert(t[0] == s[p]);
    if e < s.len() && s[e] == '.' {
        lemma_digits_end(s, e + 1);
        lemma_digits_end_within(s, p, q, p);
        lemma_digits_end_within(s, p, q, e + 1);
        assert(t[e - p] == s[e]);
        assert(t.subrange(0, q - p) =~= s.subrange(p, q));
        assert(number_end(t, 0) == (q - p, true));
    } else {
        lemma_digits_end_within(s, p, q, p);
        assert(t.subrange(0, q - p) =~= s.subrange(p, q));
        assert(number_end(t, 0) == (q - p, false));
    }
}

#[verifier::rlimit(40)]
proof fn lemma_rescan_word(s: Seq<char>, p: int, line: int, col: int)
    requires
        0 <= p < s.len(),
        is_word_start(s[p]),
    ensures
        rescanned(s, p, line, col),
{
    let q = word_end(s, p + 1);
    lemma_word_end(s, p + 1);
    lemma_word_end_within(s, p, q, p + 1);
    let t = s.subrange(p, q);
    assert(t[0] == s[p]);
    assert(t.subrange(0, q - p) =~= s.subrange(p, q));
}

#[verifier::rlimit(40)]
proof fn lemma_rescan_string(s: Seq<char>, p: int, line: int, col: int)
    requires
        0 <= p < s.len(),
        s[p] == '"',
        scan_move(s, p, line, col) is Emit,
    ensures
        rescanned(s, p, line, col),
{
    let e = string_stop(s, p + 1);
    let q = e + 1;
    lemma_string_stop(s, p + 1);
    let t = s.subrange(p, q);
    lemma_string_stop_within(s, p, q, p + 1);
    assert(t[0] == s[p]);
    assert(t[e - p] == s[e]);
    assert(t.subrange(1, e - p) =~= s.subrange(p + 1, e));
}

#[verifier::rlimit(40)]
proof fn lemma_rescan_symbol(s: Seq<char>, p: int, line: int, col: int)
    requires
        0 <= p < s.len(),
        !is_digit(s[p]),
        !is_word_start(s[p]),
        s[p] != '"',
        scan_move(s, p, line, col) is Emit,
    ensures
        rescanned(s, p, line, col),
{
    let q = scan_move(s, p, line, col)->Emit_1;
    lemma_move_progress(s, p, line, col);
    let t = s.subrange(p, q);
    assert(t[0] == s[p]);
    if q - p > 1 {
        assert(t[1] == s[p + 1]);
    }
}

/// Re-scanning: the text of any token, scanned alone, gives that token again
/// (the same kind and payload: the same integer, the same float text, the same
/// string body with its escapes as written), followed by the end marker.
pub proof fn lemma_rescan_token(s: Seq<char>, p: int, line: int, col: int)
    requires
        0 <= p < s.len(),
        scan_move(s, p, line, col) is Emit,
    ensures
        ({
            let t = scan_move(s, p, line, col)->Emit_0;
            let q = scan_move(s, p, line, col)->Emit_1;
            lex(s.subrange(p, q), 0, 1, 1) == Ok::<Seq<Tok>, LexErr>(
                seq![
                    Tok { kind: t.kind, line: 1, column: 1 },
                    Tok { kind: TokKind::EOF, line: 1, column: 1 + (q - p) },
                ],
            )
        }),
{
    let q = scan_move(s, p, line, col)->Emit_1;
    lemma_move_progress(s, p, line, col);
    let c = s[p];
    if is_digit(c) {
        lemma_rescan_number(s, p, line, col);
    } else if is_word_start(c) {
        lemma_rescan_word(s, p, line, col);
    } else if c == '"' {
        lemma_rescan_string(s, p, line, col);
    } else {
        lemma_rescan_symbol(s, p, line, col);
    }
    let t = s.subrange(p, q);
    let tok = scan_move(s, p, line, col)->Emit_0;
    let eof = Tok { kind: TokKind::EOF, line: 1, column: 1 + (q - p) };
    assert(lex(t, q - p, 1, 1 + (q - p)) == Ok::<Seq<Tok>, LexErr>(seq![eof]));
    assert(seq![Tok { kind: tok.kind, line: 1, column: 1 }] + seq![eof] =~= seq![
        Tok { kind: tok.kind, line: 1, column: 1 },
        eof,
    ]);
}

} // verus!
