//! The scanner: characters to tokens with source locations.

use vstd::prelude::*;
use vstd::std_specs::iter::IteratorSpec;
use vstd::string::*;

verus! {

/// The kinds of token. `Eof` marks the synthetic token that stands for the end
/// of the text; `Unknown` is a character that starts no token.
#[derive(Clone, Copy, PartialEq, Eq, Hash, Debug, Structural)]
pub enum TokenType {
    Chip,
    In,
    Out,
    Parts,
    For,
    To,
    Generate,
    Identifier,
    Number,
    LeftCurly,
    RightCurly,
    LeftParen,
    RightParen,
    LeftBracket,
    RightBracket,
    LeftAngle,
    RightAngle,
    Comma,
    Semicolon,
    Colon,
    Equal,
    Plus,
    Minus,
    Dot,
    Eof,
    Unknown,
}

/// A token: its text, where it was found, and its kind.
#[derive(Debug, PartialEq, Eq)]
pub struct Token {
    pub lexeme: String,
    pub path: String,
    pub line: u32,
    pub start: u32,
    pub token_type: TokenType,
}

/// The mathematical value of a [`Token`].
pub struct TokenView {
    pub lexeme: Seq<char>,
    pub path: Seq<char>,
    pub line: u32,
    pub start: u32,
    pub token_type: TokenType,
}

impl View for Token {
    type V = TokenView;

    open spec fn view(&self) -> TokenView {
        TokenView {
            lexeme: self.lexeme@,
            path: self.path@,
            line: self.line,
            start: self.start,
            token_type: self.token_type,
        }
    }
}

impl Clone for Token {
    fn clone(&self) -> (t: Token)
        ensures
            t@ == self@,
    {
        Token {
            lexeme: self.lexeme.clone(),
            path: self.path.clone(),
            line: self.line,
            start: self.start,
            token_type: self.token_type,
        }
    }
}


/// A blank: space, tab, carriage return or line feed.
pub open spec fn is_space(c: char) -> bool {
    c == ' ' || c == '\t' || c == '\r' || c == '\n'
}

/// A decimal digit.
pub open spec fn is_digit(c: char) -> bool {
    '0' <= c && c <= '9'
}

/// A character that may start an identifier: an ASCII letter or `_`.
pub open spec fn is_letter(c: char) -> bool {
    ('a' <= c && c <= 'z') || ('A' <= c && c <= 'Z') || c == '_'
}

/// A character that may continue a run: of digits only, or of letters and digits.
pub open spec fn in_run(c: char, digits_only: bool) -> bool {
    if digits_only {
        is_digit(c)
    } else {
        is_letter(c) || is_digit(c)
    }
}

/// What the scanner is skipping: nothing, a `//` comment, or a `/* */` comment.
#[derive(Clone, Copy, PartialEq, Eq, Debug, Structural)]
pub enum Trivia {
    Code,
    LineComment,
    BlockComment,
}

/// Where blanks and comments end: the first position at or after `pos` at
/// which, read in `mode`, a token starts; the length of `s` if none does.
/// An unterminated block comment runs to the end of the text.
pub open spec fn trivia_end(s: Seq<char>, pos: int, mode: Trivia) -> int
    decreases s.len() - pos,
{
    if pos < 0 || pos >= s.len() {
        s.len() as int
    } else {
        match mode {
            Trivia::Code => if is_space(s[pos]) {
                trivia_end(s, pos + 1, Trivia::Code)
            } else if s[pos] == '/' && pos + 1 < s.len() && s[pos + 1] == '/' {
                trivia_end(s, pos + 2, Trivia::LineComment)
            } else if s[pos] == '/' && pos + 1 < s.len() && s[pos + 1] == '*' {
                trivia_end(s, pos + 2, Trivia::BlockComment)
            } else {
                pos
            },
            Trivia::LineComment => if s[pos] == '\n' {
                trivia_end(s, pos + 1, Trivia::Code)
            } else {
                trivia_end(s, pos + 1, Trivia::LineComment)
            },
            Trivia::BlockComment => if s[pos] == '*' && pos + 1 < s.len() && s[pos + 1] == '/' {
                trivia_end(s, pos + 2, Trivia::Code)
            } else {
                trivia_end(s, pos + 1, Trivia::BlockComment)
            },
        }
    }
}

/// The end of the run of digits (or of letters and digits) that starts at `pos`.
pub open spec fn run_end(s: Seq<char>, pos: int, digits_only: bool) -> int
    decreases s.len() - pos,
{
    if 0 <= pos < s.len() && in_run(s[pos], digits_only) {
        run_end(s, pos + 1, digits_only)
    } else {
        pos
    }
}

/// The line of position `pos`, counted from 1: one more than the number of
/// line feeds before it.
pub open spec fn line_at(s: Seq<char>, pos: int) -> nat
    decreases pos,
{
    if pos <= 0 || pos > s.len() {
        1
    } else if s[pos - 1] == '\n' {
        line_at(s, pos - 1) + 1
    } else {
        line_at(s, pos - 1)
    }
}

/// The column of position `pos`, counted from 1: one more than the number of
/// characters between the last line feed before it and it.
pub open spec fn col_at(s: Seq<char>, pos: int) -> nat
    decreases pos,
{
    if pos <= 0 || pos > s.len() {
        1
    } else if s[pos - 1] == '\n' {
        1
    } else {
        col_at(s, pos - 1) + 1
    }
}

/// A count as a token carries it: held at `u32::MAX` where it would not fit.
pub open spec fn clip(x: nat) -> u32 {
    if x >= u32::MAX {
        u32::MAX
    } else {
        x as u32
    }
}

/// The kind of a word: one of the seven keywords, else an identifier.
pub open spec fn word_kind(w: Seq<char>) -> TokenType {
    if w == "CHIP"@ {
        TokenType::Chip
    } else if w == "IN"@ {
        TokenType::In
    } else if w == "OUT"@ {
        TokenType::Out
    } else if w == "PARTS"@ {
        TokenType::Parts
    } else if w == "FOR"@ {
        TokenType::For
    } else if w == "TO"@ {
        TokenType::To
    } else if w == "GENERATE"@ {
        TokenType::Generate
    } else {
        TokenType::Identifier
    }
}

/// The kind of a one-character token.
pub open spec fn punct_kind(c: char) -> TokenType {
    if c == '{' {
        TokenType::LeftCurly
    } else if c == '}' {
        TokenType::RightCurly
    } else if c == '(' {
        TokenType::LeftParen
    } else if c == ')' {
        TokenType::RightParen
    } else if c == '[' {
        TokenType::LeftBracket
    } else if c == ']' {
        TokenType::RightBracket
    } else if c == '<' {
        TokenType::LeftAngle
    } else if c == '>' {
        TokenType::RightAngle
    } else if c == ',' {
        TokenType::Comma
    } else if c == ';' {
        TokenType::Semicolon
    } else if c == ':' {
        TokenType::Colon
    } else if c == '=' {
        TokenType::Equal
    } else if c == '+' {
        TokenType::Plus
    } else if c == '-' {
        TokenType::Minus
    } else if c == '.' {
        TokenType::Dot
    } else {
        TokenType::Unknown
    }
}

/// Where the token that starts at `st` ends.
pub open spec fn token_end(s: Seq<char>, st: int) -> int {
    if is_letter(s[st]) {
        run_end(s, st + 1, false)
    } else if is_digit(s[st]) {
        run_end(s, st + 1, true)
    } else {
        st + 1
    }
}

/// The token that starts at `st`, a position that holds no blank.
pub open spec fn token_at(s: Seq<char>, path: Seq<char>, st: int) -> TokenView {
    let end = token_end(s, st);
    TokenView {
        lexeme: s.subrange(st, end),
        path,
        line: clip(line_at(s, st)),
        start: clip(col_at(s, st)),
        token_type: if is_letter(s[st]) {
            word_kind(s.subrange(st, end))
        } else if is_digit(s[st]) {
            TokenType::Number
        } else {
            punct_kind(s[st])
        },
    }
}

/// The synthetic token that stands for the end of the text `s`.
pub open spec fn eof_token(s: Seq<char>, path: Seq<char>) -> TokenView {
    TokenView {
        lexeme: Seq::empty(),
        path,
        line: clip(line_at(s, s.len() as int)),
        start: clip(col_at(s, s.len() as int)),
        token_type: TokenType::Eof,
    }
}

/// The tokens of `s` from position `pos` on, in order.
pub open spec fn tokens_from(s: Seq<char>, path: Seq<char>, pos: int) -> Seq<TokenView>
    decreases s.len() - pos,
    via tokens_from_decreases
{
    let st = trivia_end(s, pos, Trivia::Code);
    if 0 <= pos && st < s.len() {
        seq![token_at(s, path, st)] + tokens_from(s, path, token_end(s, st))
    } else {
        Seq::empty()
    }
}

#[via_fn]
proof fn tokens_from_decreases(s: Seq<char>, path: Seq<char>, pos: int) {
    let st = trivia_end(s, pos, Trivia::Code);
    if 0 <= pos && st < s.len() {
        lemma_trivia_end_bounds(s, pos, Trivia::Code);
        lemma_run_end_bounds(s, st + 1, false);
        lemma_run_end_bounds(s, st + 1, true);
    }
}

/// Skipping never moves backwards nor past the end.
pub proof fn lemma_trivia_end_bounds(s: Seq<char>, pos: int, mode: Trivia)
    requires
        0 <= pos,
    ensures
        pos <= trivia_end(s, pos, mode) || s.len() < pos,
        trivia_end(s, pos, mode) <= s.len() || trivia_end(s, pos, mode) == pos,
        trivia_end(s, pos, mode) < s.len() ==> !is_space(s[trivia_end(s, pos, mode)]),
    decreases s.len() - pos,
{
    if pos < s.len() {
        match mode {
            Trivia::Code => {
                if is_space(s[pos]) {
                    lemma_trivia_end_bounds(s, pos + 1, Trivia::Code);
                } else if s[pos] == '/' && pos + 1 < s.len() && s[pos + 1] == '/' {
                    lemma_trivia_end_bounds(s, pos + 2, Trivia::LineComment);
                } else if s[pos] == '/' && pos + 1 < s.len() && s[pos + 1] == '*' {
                    lemma_trivia_end_bounds(s, pos + 2, Trivia::BlockComment);
                }
            },
            Trivia::LineComment => {
                if s[pos] == '\n' {
                    lemma_trivia_end_bounds(s, pos + 1, Trivia::Code);
                } else {
                    lemma_trivia_end_bounds(s, pos + 1, Trivia::LineComment);
                }
            },
            Trivia::BlockComment => {
                if s[pos] == '*' && pos + 1 < s.len() && s[pos + 1] == '/' {
                    lemma_trivia_end_bounds(s, pos + 2, Trivia::Code);
                } else {
                    lemma_trivia_end_bounds(s, pos + 1, Trivia::BlockComment);
                }
            },
        }
    }
}

/// A run ends at or after its start and within the text.
pub proof fn lemma_run_end_bounds(s: Seq<char>, pos: int, digits_only: bool)
    requires
        0 <= pos <= s.len(),
    ensures
        pos <= run_end(s, pos, digits_only) <= s.len(),
    decreases s.len() - pos,
{
    if pos < s.len() && in_run(s[pos], digits_only) {
        lemma_run_end_bounds(s, pos + 1, digits_only);
    }
}

fn is_space_char(c: char) -> (b: bool)
    ensures
        b == is_space(c),
{
    c == ' ' || c == '\t' || c == '\r' || c == '\n'
}

fn is_digit_char(c: char) -> (b: bool)
    ensures
        b == is_digit(c),
{
    '0' <= c && c <= '9'
}

fn is_letter_char(c: char) -> (b: bool)
    ensures
        b == is_letter(c),
{
    ('a' <= c && c <= 'z') || ('A' <= c && c <= 'Z') || c == '_'
}

fn word_kind_of(w: &String) -> (k: TokenType)
    ensures
        k == word_kind(w@),
{
    if *w == String::from_str("CHIP") {
        TokenType::Chip
    } else if *w == String::from_str("IN") {
        TokenType::In
    } else if *w == String::from_str("OUT") {
        TokenType::Out
    } else if *w == String::from_str("PARTS") {
        TokenType::Parts
    } else if *w == String::from_str("FOR") {
        TokenType::For
    } else if *w == String::from_str("TO") {
        TokenType::To
    } else if *w == String::from_str("GENERATE") {
        TokenType::Generate
    } else {
        TokenType::Identifier
    }
}

fn punct_kind_of(c: char) -> (k: TokenType)
    ensures
        k == punct_kind(c),
{
    if c == '{' {
        TokenType::LeftCurly
    } else if c == '}' {
        TokenType::RightCurly
    } else if c == '(' {
        TokenType::LeftParen
    } else if c == ')' {
        TokenType::RightParen
    } else if c == '[' {
        TokenType::LeftBracket
    } else if c == ']' {
        TokenType::RightBracket
    } else if c == '<' {
        TokenType::LeftAngle
    } else if c == '>' {
        TokenType::RightAngle
    } else if c == ',' {
        TokenType::Comma
    } else if c == ';' {
        TokenType::Semicolon
    } else if c == ':' {
        TokenType::Colon
    } else if c == '=' {
        TokenType::Equal
    } else if c == '+' {
        TokenType::Plus
    } else if c == '-' {
        TokenType::Minus
    } else if c == '.' {
        TokenType::Dot
    } else {
        TokenType::Unknown
    }
}

/// The characters of `text`, in order.
pub fn chars_of(text: &str) -> (v: Vec<char>)
    ensures
        v@ == text@,
{
    broadcast use vstd::string::group_string_axioms;

    let mut v: Vec<char> = Vec::new();
    let mut it = text.chars();
    loop
        invariant
            v@ + it.remaining() == text@,
            it.decrease() is Some,
        ensures
            v@ == text@,
        decreases it.decrease()->0,
    {
        let ghost before = it.remaining();
        match it.next() {
            Some(c) => {
                v.push(c);
                assert(v@ + it.remaining() =~= text@);
            },
            None => {
                assert(v@ + it.remaining() =~= v@);
                break ;
            },
        }
    }
    v
}

/// A place in a text: a position with its line and column.
#[derive(Clone, Copy)]
pub struct Cursor {
    pub pos: usize,
    pub line: u32,
    pub col: u32,
}

impl Cursor {
    /// The cursor stands within `s`, and its line and column are those of its
    /// position.
    pub open spec fn fits(self, s: Seq<char>) -> bool {
        &&& self.pos <= s.len() <= usize::MAX
        &&& self.line == clip(line_at(s, self.pos as int))
        &&& self.col == clip(col_at(s, self.pos as int))
    }

    /// The cursor one character further on, `c` being the character passed.
    fn step(self, c: char, Ghost(s): Ghost<Seq<char>>) -> (r: Cursor)
        requires
            self.fits(s),
            self.pos < s.len(),
            s[self.pos as int] == c,
        ensures
            r.fits(s),
            r.pos == self.pos + 1,
            c != '\n' ==> line_at(s, r.pos as int) == line_at(s, self.pos as int),
    {
        if c == '\n' {
            Cursor {
                pos: self.pos + 1,
                line: if self.line < u32::MAX {
                    self.line + 1
                } else {
                    self.line
                },
                col: 1,
            }
        } else {
            Cursor {
                pos: self.pos + 1,
                line: self.line,
                col: if self.col < u32::MAX {
                    self.col + 1
                } else {
                    self.col
                },
            }
        }
    }
}

/// Turns a text into tokens, one at a time.
pub struct Scanner {
    path: String,
    chars: Vec<char>,
    at: Cursor,
}

impl Scanner {
    /// The scanner's data is consistent.
    #[verifier::type_invariant]
    pub closed spec fn wf(&self) -> bool {
        self.at.fits(self.chars@)
    }

    /// The text that is scanned.
    pub closed spec fn text(&self) -> Seq<char> {
        self.chars@
    }

    /// The name of the file that the text came from.
    pub closed spec fn path_view(&self) -> Seq<char> {
        self.path@
    }

    /// The position up to which the text has been read.
    pub closed spec fn offset(&self) -> int {
        self.at.pos as int
    }

    /// The tokens not yet handed out, in order.
    pub open spec fn remaining(&self) -> Seq<TokenView> {
        tokens_from(self.text(), self.path_view(), self.offset())
    }

    /// The synthetic token that stands for the end of this text.
    pub open spec fn eof_view(&self) -> TokenView {
        eof_token(self.text(), self.path_view())
    }

    /// A scanner at the start of `source`, which was read from `path`.
    pub fn new(source: &str, path: &str) -> (s: Scanner)
        ensures
            s.text() == source@,
            s.path_view() == path@,
            s.offset() == 0,
    {
        let chars = chars_of(source);
        let _n = chars.len();
        Scanner { path: String::from_str(path), chars, at: Cursor { pos: 0, line: 1, col: 1 } }
    }

    /// The file name that tokens carry.
    pub fn path(&self) -> (p: String)
        ensures
            p@ == self.path_view(),
    {
        self.path.clone()
    }

    fn skip_trivia(&self) -> (r: Cursor)
        requires
            self.wf(),
        ensures
            r.fits(self.chars@),
            r.pos == trivia_end(self.chars@, self.at.pos as int, Trivia::Code),
            self.at.pos <= r.pos,
    {
        let n = self.chars.len();
        let mut cur = self.at;
        let mut mode = Trivia::Code;
        loop
            invariant
                n == self.chars.len(),
                cur.fits(self.chars@),
                self.at.pos <= cur.pos,
                trivia_end(self.chars@, cur.pos as int, mode) == trivia_end(
                    self.chars@,
                    self.at.pos as int,
                    Trivia::Code,
                ),
            ensures
                cur.pos == trivia_end(self.chars@, self.at.pos as int, Trivia::Code),
            decreases n - cur.pos,
        {
            if cur.pos >= n {
                break ;
            }
            let c = self.chars[cur.pos];
            let two = cur.pos + 1 < n;
            match mode {
                Trivia::Code => {
                    if is_space_char(c) {
                        cur = cur.step(c, Ghost(self.chars@));
                    } else if c == '/' && two && self.chars[cur.pos + 1] == '/' {
                        cur = cur.step(c, Ghost(self.chars@));
                        cur = cur.step('/', Ghost(self.chars@));
                        mode = Trivia::LineComment;
                    } else if c == '/' && two && self.chars[cur.pos + 1] == '*' {
                        cur = cur.step(c, Ghost(self.chars@));
                        cur = cur.step('*', Ghost(self.chars@));
                        mode = Trivia::BlockComment;
                    } else {
                        break ;
                    }
                },
                Trivia::LineComment => {
                    cur = cur.step(c, Ghost(self.chars@));
                    if c == '\n' {
                        mode = Trivia::Code;
                    }
                },
                Trivia::BlockComment => {
                    if c == '*' && two && self.chars[cur.pos + 1] == '/' {
                        cur = cur.step(c, Ghost(self.chars@));
                        cur = cur.step('/', Ghost(self.chars@));
                        mode = Trivia::Code;
                    } else {
                        cur = cur.step(c, Ghost(self.chars@));
                    }
                },
            }
        }
        cur
    }

    fn scan_run(&self, from: Cursor, digits_only: bool) -> (r: Cursor)
        requires
            self.wf(),
            from.fits(self.chars@),
        ensures
            r.fits(self.chars@),
            r.pos == run_end(self.chars@, from.pos as int, digits_only),
            r.line == from.line,
            from.pos <= r.pos,
    {
        let n = self.chars.len();
        let mut cur = from;
        loop
            invariant
                n == self.chars.len(),
                cur.fits(self.chars@),
                from.pos <= cur.pos,
                cur.line == from.line,
                run_end(self.chars@, cur.pos as int, digits_only) == run_end(
                    self.chars@,
                    from.pos as int,
                    digits_only,
                ),
            ensures
                cur.pos == run_end(self.chars@, from.pos as int, digits_only),
            decreases n - cur.pos,
        {
            if cur.pos >= n {
                break ;
            }
            let c = self.chars[cur.pos];
            let inside = if digits_only {
                is_digit_char(c)
            } else {
                is_letter_char(c) || is_digit_char(c)
            };
            if !inside {
                break ;
            }
            cur = cur.step(c, Ghost(self.chars@));
        }
        cur
    }

    /// The next token and the cursor behind it, or `None` and the cursor at
    /// the end of the text where no token is left.
    fn scan(&self) -> (r: (Option<Token>, Cursor))
        requires
            self.wf(),
        ensures
            r.1.fits(self.chars@),
            self.at.pos <= r.1.pos,
            match r.0 {
                Some(t) => {
                    &&& self.remaining().len() > 0
                    &&& t@ == self.remaining()[0]
                    &&& tokens_from(self.chars@, self.path@, r.1.pos as int)
                        == self.remaining().drop_first()
                },
                None => {
                    &&& self.remaining().len() == 0
                    &&& tokens_from(self.chars@, self.path@, r.1.pos as int).len() == 0
                },
            },
    {
        let n = self.chars.len();
        let st = self.skip_trivia();
        proof {
            lemma_trivia_end_bounds(self.chars@, self.at.pos as int, Trivia::Code);
        }
        if st.pos >= n {
            proof {
                lemma_trivia_end_bounds(self.chars@, n as int, Trivia::Code);
            }
            return (None, st);
        }
        let c = self.chars[st.pos];
        let after = st.step(c, Ghost(self.chars@));
        let end = if is_letter_char(c) {
            self.scan_run(after, false)
        } else if is_digit_char(c) {
            self.scan_run(after, true)
        } else {
            after
        };
        proof {
            lemma_run_end_bounds(self.chars@, st.pos + 1, false);
            lemma_run_end_bounds(self.chars@, st.pos + 1, true);
        }
        let lexeme = crate::text::string_of(&self.chars, st.pos, end.pos);
        let token_type = if is_letter_char(c) {
            word_kind_of(&lexeme)
        } else if is_digit_char(c) {
            TokenType::Number
        } else {
            punct_kind_of(c)
        };
        let token = Token {
            lexeme,
            path: self.path.clone(),
            line: st.line,
            start: st.col,
            token_type,
        };
        proof {
            let rest = tokens_from(self.chars@, self.path@, end.pos as int);
            assert(self.remaining() == seq![token@] + rest);
            assert((seq![token@] + rest).drop_first() =~= rest);
        }
        (Some(token), end)
    }

    /// Hands out the next token, or `None` when the text holds no more.
    pub fn next(&mut self) -> (r: Option<Token>)
        ensures
            final(self).text() == old(self).text(),
            final(self).path_view() == old(self).path_view(),
            old(self).offset() <= final(self).offset(),
            match r {
                Some(t) => {
                    &&& old(self).remaining().len() > 0
                    &&& t@ == old(self).remaining()[0]
                    &&& final(self).remaining() == old(self).remaining().drop_first()
                },
                None => old(self).remaining().len() == 0 && final(self).remaining().len() == 0,
            },
    {
        proof {
            use_type_invariant(&*self);
        }
        let (token, cursor) = self.scan();
        self.at = cursor;
        token
    }

    /// The next token, which stays in place.
    pub fn peek(&self) -> (r: Option<Token>)
        ensures
            match r {
                Some(t) => self.remaining().len() > 0 && t@ == self.remaining()[0],
                None => self.remaining().len() == 0,
            },
    {
        proof {
            use_type_invariant(self);
        }
        let (token, _cursor) = self.scan();
        token
    }

    /// The synthetic token that stands for the end of the text.
    pub fn eof(&self) -> (t: Token)
        ensures
            t@ == self.eof_view(),
    {
        proof {
            use_type_invariant(self);
        }
        let n = self.chars.len();
        let mut cur = self.at;
        while cur.pos < n
            invariant
                n == self.chars.len(),
                cur.fits(self.chars@),
            decreases n - cur.pos,
        {
            let c = self.chars[cur.pos];
            cur = cur.step(c, Ghost(self.chars@));
        }
        Token {
            lexeme: String::new(),
            path: self.path.clone(),
            line: cur.line,
            start: cur.col,
            token_type: TokenType::Eof,
        }
    }
}


/// A character of a word of a test script: anything but a blank, a comma
/// and a semicolon.
pub open spec fn is_word_char(c: char) -> bool {
    !is_space(c) && c != ',' && c != ';'
}

/// The end of the run of word characters that starts at `pos`.
pub open spec fn word_end(s: Seq<char>, pos: int) -> int
    decreases s.len() - pos,
{
    if 0 <= pos < s.len() && is_word_char(s[pos]) {
        word_end(s, pos + 1)
    } else {
        pos
    }
}

/// A word ends at or after its start and within the text.
pub proof fn lemma_word_end_bounds(s: Seq<char>, pos: int)
    requires
        0 <= pos <= s.len(),
    ensures
        pos <= word_end(s, pos) <= s.len(),
    decreases s.len() - pos,
{
    if pos < s.len() && is_word_char(s[pos]) {
        lemma_word_end_bounds(s, pos + 1);
    }
}

/// Where the token of a test script that starts at `st` ends: a comma or a
/// semicolon is a token, and so is a word.
pub open spec fn script_token_end(s: Seq<char>, st: int) -> int {
    if s[st] == ',' || s[st] == ';' {
        st + 1
    } else {
        word_end(s, st + 1)
    }
}

/// The token of a test script that starts at `st`, a position that holds no
/// blank. A word is of the kind `Identifier`.
pub open spec fn script_token_at(s: Seq<char>, path: Seq<char>, st: int) -> TokenView {
    TokenView {
        lexeme: s.subrange(st, script_token_end(s, st)),
        path,
        line: clip(line_at(s, st)),
        start: clip(col_at(s, st)),
        token_type: if s[st] == ',' {
            TokenType::Comma
        } else if s[st] == ';' {
            TokenType::Semicolon
        } else {
            TokenType::Identifier
        },
    }
}

/// The tokens of a test script from position `pos` on, in order. Blanks and
/// comments are skipped as in HDL.
pub open spec fn script_tokens(s: Seq<char>, path: Seq<char>, pos: int) -> Seq<TokenView>
    decreases s.len() - pos,
    via script_tokens_decreases
{
    let st = trivia_end(s, pos, Trivia::Code);
    if 0 <= pos && st < s.len() {
        seq![script_token_at(s, path, st)] + script_tokens(s, path, script_token_end(s, st))
    } else {
        Seq::empty()
    }
}

#[via_fn]
proof fn script_tokens_decreases(s: Seq<char>, path: Seq<char>, pos: int) {
    let st = trivia_end(s, pos, Trivia::Code);
    if 0 <= pos && st < s.len() {
        lemma_trivia_end_bounds(s, pos, Trivia::Code);
        lemma_word_end_bounds(s, st + 1);
    }
}

impl Scanner {
    /// The tokens of a test script not yet handed out, in order.
    pub open spec fn remaining_words(&self) -> Seq<TokenView> {
        script_tokens(self.text(), self.path_view(), self.offset())
    }

    fn scan_word(&self) -> (r: (Option<Token>, Cursor))
        requires
            self.wf(),
        ensures
            r.1.fits(self.chars@),
            self.at.pos <= r.1.pos,
            match r.0 {
                Some(t) => {
                    &&& self.remaining_words().len() > 0
                    &&& t@ == self.remaining_words()[0]
                    &&& script_tokens(self.chars@, self.path@, r.1.pos as int)
                        == self.remaining_words().drop_first()
                },
                None => {
                    &&& self.remaining_words().len() == 0
                    &&& script_tokens(self.chars@, self.path@, r.1.pos as int).len() == 0
                },
            },
    {
        let n = self.chars.len();
        let st = self.skip_trivia();
        proof {
            lemma_trivia_end_bounds(self.chars@, self.at.pos as int, Trivia::Code);
        }
        if st.pos >= n {
            proof {
                lemma_trivia_end_bounds(self.chars@, n as int, Trivia::Code);
            }
            return (None, st);
        }
        let c = self.chars[st.pos];
        let mut cur = st.step(c, Ghost(self.chars@));
        let token_type = if c == ',' {
            TokenType::Comma
        } else if c == ';' {
            TokenType::Semicolon
        } else {
            loop
                invariant
                    n == self.chars.len(),
                    cur.fits(self.chars@),
                    st.pos < cur.pos,
                    cur.line == st.line,
                    word_end(self.chars@, cur.pos as int) == word_end(self.chars@, st.pos + 1),
                ensures
                    cur.pos == word_end(self.chars@, st.pos + 1),
                decreases n - cur.pos,
            {
                if cur.pos >= n {
                    break ;
                }
                let d = self.chars[cur.pos];
                if d == ' ' || d == '\t' || d == '\r' || d == '\n' || d == ',' || d == ';' {
                    break ;
                }
                cur = cur.step(d, Ghost(self.chars@));
            }
            TokenType::Identifier
        };
        let lexeme = crate::text::string_of(&self.chars, st.pos, cur.pos);
        let token = Token {
            lexeme,
            path: self.path.clone(),
            line: st.line,
            start: st.col,
            token_type,
        };
        proof {
            let rest = script_tokens(self.chars@, self.path@, cur.pos as int);
            assert(self.remaining_words() == seq![token@] + rest);
            assert((seq![token@] + rest).drop_first() =~= rest);
        }
        (Some(token), cur)
    }

    /// Hands out the next token of a test script, or `None` when the text
    /// holds no more.
    pub fn next_word(&mut self) -> (r: Option<Token>)
        ensures
            final(self).text() == old(self).text(),
            final(self).path_view() == old(self).path_view(),
            old(self).offset() <= final(self).offset(),
            match r {
                Some(t) => {
                    &&& old(self).remaining_words().len() > 0
                    &&& t@ == old(self).remaining_words()[0]
                    &&& final(self).remaining_words() == old(self).remaining_words().drop_first()
                },
                None => {
                    &&& old(self).remaining_words().len() == 0
                    &&& final(self).remaining_words().len() == 0
                },
            },
    {
        proof {
            use_type_invariant(&*self);
        }
        let (token, cursor) = self.scan_word();
        self.at = cursor;
        token
    }
}

} // verus!
