use vstd::prelude::*;
use vstd::utf8::encode_utf8;
use crate::chars::{digit, is_digit, is_letter, is_word_char, letter, word_char};
use crate::text::{
    char_width, chars_of, lemma_encode_subrange, lemma_offset_monotonic, lemma_offset_step, offset,
    slice, width,
};
use crate::token::{keyword, views, Kind, Token, TokenType, TokenView};

verus! {

/// What the scanner reports. Scanning goes on after each of them.
#[derive(Debug, Clone, Copy, PartialEq, Eq)]
pub enum ScannerError {
    /// A character that starts no token: its byte offset and its line.
    InvalidCharacter(usize, usize),
    /// A string whose closing quote is missing: the line on which the text ends.
    UnterminatedString(usize),
    /// A block comment that is not closed: the line on which the text ends.
    UnterminatedComment(usize),
}

/// Number of line feeds in `s`.
pub open spec fn newlines(s: Seq<char>) -> nat
    decreases s.len(),
{
    if s.len() == 0 {
        0
    } else {
        newlines(s.drop_last()) + if s.last() == '\n' {
            1nat
        } else {
            0nat
        }
    }
}

/// The line on which position `pos` of `src` lies; lines count from one.
pub open spec fn line_at(src: Seq<char>, pos: int) -> nat {
    1 + newlines(src.take(pos))
}

/// Length of the longest run of decimal digits that starts at `pos`.
pub open spec fn digits(src: Seq<char>, pos: int) -> nat
    decreases src.len() - pos,
{
    if 0 <= pos < src.len() && digit(src[pos]) {
        1 + digits(src, pos + 1)
    } else {
        0
    }
}

/// Length of the longest run of word characters that starts at `pos`.
pub open spec fn word_chars(src: Seq<char>, pos: int) -> nat
    decreases src.len() - pos,
{
    if 0 <= pos < src.len() && word_char(src[pos]) {
        1 + word_chars(src, pos + 1)
    } else {
        0
    }
}

/// Number of characters from `pos` up to the first `c`, or up to the end of
/// `src` where there is none.
pub open spec fn until(src: Seq<char>, pos: int, c: char) -> nat
    decreases src.len() - pos,
{
    if 0 <= pos < src.len() && src[pos] != c {
        1 + until(src, pos + 1, c)
    } else {
        0
    }
}

/// Whether a star and a slash stand at `pos`.
pub open spec fn closes_comment(src: Seq<char>, pos: int) -> bool {
    0 <= pos && pos + 1 < src.len() && src[pos] == '*' && src[pos + 1] == '/'
}

/// Number of characters from `pos` up to the first star followed by a slash,
/// or up to the end of `src` where there is none.
pub open spec fn until_close(src: Seq<char>, pos: int) -> nat
    decreases src.len() - pos,
{
    if 0 <= pos < src.len() && !closes_comment(src, pos) {
        1 + until_close(src, pos + 1)
    } else {
        0
    }
}

/// The kind of a character that is a token by itself.
pub open spec fn single(c: char) -> Option<Kind> {
    if c == '(' {
        Some(Kind::LeftParen)
    } else if c == ')' {
        Some(Kind::RightParen)
    } else if c == '{' {
        Some(Kind::LeftBrace)
    } else if c == '}' {
        Some(Kind::RightBrace)
    } else if c == ',' {
        Some(Kind::Comma)
    } else if c == '.' {
        Some(Kind::Dot)
    } else if c == ';' {
        Some(Kind::SemiColon)
    } else if c == '-' {
        Some(Kind::Minus)
    } else if c == '+' {
        Some(Kind::Plus)
    } else if c == '*' {
        Some(Kind::Star)
    } else if c == '?' {
        Some(Kind::Question)
    } else if c == ':' {
        Some(Kind::Colon)
    } else {
        None
    }
}

/// For a character that an equals sign may follow: its kind alone, and its
/// kind together with the equals sign.
pub open spec fn paired(c: char) -> Option<(Kind, Kind)> {
    if c == '!' {
        Some((Kind::Not, Kind::NotEqual))
    } else if c == '=' {
        Some((Kind::Equal, Kind::EqualEqual))
    } else if c == '>' {
        Some((Kind::Greater, Kind::GreaterEqual))
    } else if c == '<' {
        Some((Kind::Less, Kind::LessEqual))
    } else {
        None
    }
}

/// Whether `c` is skipped between tokens: a space, a tab, a carriage return
/// or a line feed. A line feed moves the line on and gives no token.
pub open spec fn blank(c: char) -> bool {
    c == ' ' || c == '\t' || c == '\r' || c == '\n'
}

/// Whether the character `c` stands at position `pos` of `src`.
pub open spec fn has(src: Seq<char>, pos: int, c: char) -> bool {
    0 <= pos < src.len() && src[pos] == c
}

/// What the scanner makes of the text at one position: how many characters
/// it takes, and the token or the error that they give, if any.
pub struct Piece {
    pub len: nat,
    pub kind: Option<Kind>,
    pub error: Option<ScannerError>,
}

/// A piece of `len` characters that is the token `kind`.
pub open spec fn token_piece(len: nat, kind: Kind) -> Piece {
    Piece { len, kind: Some(kind), error: None }
}

/// A piece of `len` characters that is skipped.
pub open spec fn skipped_piece(len: nat) -> Piece {
    Piece { len, kind: None, error: None }
}

/// A piece of `len` characters that is reported as `error`.
pub open spec fn error_piece(len: nat, error: ScannerError) -> Piece {
    Piece { len, kind: None, error: Some(error) }
}

/// Length of the number that starts at `pos`: a run of digits, then
/// optionally a dot and a further run of digits.
pub open spec fn number_len(src: Seq<char>, pos: int) -> nat {
    let whole = digits(src, pos);
    if has(src, pos + whole, '.') {
        whole + 1 + digits(src, pos + whole + 1)
    } else {
        whole
    }
}

/// The piece that a second slash opens at `pos + 1`: a comment through the
/// end of the line, or through the end of `src` where no line feed follows.
pub open spec fn line_comment_piece(src: Seq<char>, pos: int) -> Piece {
    let line_end = pos + 1 + until(src, pos + 1, '\n');
    if line_end < src.len() {
        skipped_piece((line_end + 1 - pos) as nat)
    } else {
        skipped_piece((src.len() - pos) as nat)
    }
}

/// The piece that a slash and a star open at `pos`: a comment through the
/// first star and slash behind them. Where there is none, the rest of `src`
/// is taken and reported with the last line.
pub open spec fn block_comment_piece(src: Seq<char>, pos: int) -> Piece {
    let close = pos + 2 + until_close(src, pos + 2);
    if close < src.len() {
        skipped_piece((close + 2 - pos) as nat)
    } else {
        error_piece(
            (src.len() - pos) as nat,
            ScannerError::UnterminatedComment(line_at(src, src.len() as int) as usize),
        )
    }
}

/// The piece that a quote opens at `pos`: a string through the next quote,
/// which carries the text between the two. Where there is none, the rest of
/// `src` is taken and reported with the last line.
pub open spec fn string_piece(src: Seq<char>, pos: int) -> Piece {
    let quote = pos + 1 + until(src, pos + 1, '"');
    if quote < src.len() {
        token_piece((quote + 1 - pos) as nat, Kind::String(src.subrange(pos + 1, quote)))
    } else {
        error_piece(
            (src.len() - pos) as nat,
            ScannerError::UnterminatedString(line_at(src, src.len() as int) as usize),
        )
    }
}

/// The piece that a digit opens at `pos`: a number, which carries its text.
pub open spec fn number_piece(src: Seq<char>, pos: int) -> Piece {
    let len = number_len(src, pos);
    token_piece(len, Kind::Number(src.subrange(pos, pos + len)))
}

/// The piece that a letter or an underscore opens at `pos`: that character
/// and the word characters behind it, as a keyword where they spell one and
/// as an identifier where they do not.
pub open spec fn word_piece(src: Seq<char>, pos: int) -> Piece {
    let len = 1 + word_chars(src, pos + 1);
    let word = keyword(src.subrange(pos, pos + len));
    token_piece(
        len,
        if word is Some {
            word->0
        } else {
            Kind::Identifier
        },
    )
}

/// The piece that starts at position `pos` of `src`, for `0 <= pos < src.len()`.
pub open spec fn piece(src: Seq<char>, pos: int) -> Piece {
    let c = src[pos];
    if single(c) is Some {
        token_piece(1, single(c)->0)
    } else if paired(c) is Some {
        let (alone, with_equal) = paired(c)->0;
        if has(src, pos + 1, '=') {
            token_piece(2, with_equal)
        } else {
            token_piece(1, alone)
        }
    } else if c == '/' {
        if has(src, pos + 1, '/') {
            line_comment_piece(src, pos)
        } else if has(src, pos + 1, '*') {
            block_comment_piece(src, pos)
        } else {
            token_piece(1, Kind::Slash)
        }
    } else if c == '"' {
        string_piece(src, pos)
    } else if blank(c) {
        skipped_piece(1)
    } else if digit(c) {
        number_piece(src, pos)
    } else if letter(c) || c == '_' {
        word_piece(src, pos)
    } else {
        error_piece(
            1,
            ScannerError::InvalidCharacter(offset(src, pos) as usize, line_at(src, pos) as usize),
        )
    }
}

/// The token that the piece `p` at `pos` gives, if it gives one. Its lexeme
/// is the text of the piece, and its line the one on which the piece ends.
pub open spec fn tokens_of(src: Seq<char>, pos: int, p: Piece) -> Seq<TokenView> {
    if p.kind is Some {
        seq![
            TokenView {
                kind: p.kind->0,
                lexeme: src.subrange(pos, pos + p.len),
                line: line_at(src, pos + p.len),
            },
        ]
    } else {
        seq![]
    }
}

/// The error that the piece `p` gives, if it gives one.
pub open spec fn errors_of(p: Piece) -> Seq<ScannerError> {
    if p.error is Some {
        seq![p.error->0]
    } else {
        seq![]
    }
}

/// Whether a comment starts at `pos`: a slash with a second slash or a star
/// behind it.
pub open spec fn starts_comment(src: Seq<char>, pos: int) -> bool {
    src[pos] == '/' && (has(src, pos + 1, '/') || has(src, pos + 1, '*'))
}

/// The line of the comment that the piece at `pos` is, if it is one.
pub open spec fn comments_of(src: Seq<char>, pos: int) -> Seq<usize> {
    if starts_comment(src, pos) {
        seq![line_at(src, pos) as usize]
    } else {
        seq![]
    }
}

/// The end of input as a token: no text, on the last line.
pub open spec fn eof(src: Seq<char>) -> TokenView {
    TokenView { kind: Kind::Eof, lexeme: seq![], line: line_at(src, src.len() as int) }
}

/// Number of characters of `src` from position `pos` on.
pub open spec fn remaining(src: Seq<char>, pos: int) -> nat {
    if pos < src.len() {
        (src.len() - pos) as nat
    } else {
        0
    }
}

/// The tokens of `src` from position `pos` on, with the closing `Eof`.
pub open spec fn tokens_from(src: Seq<char>, pos: int) -> Seq<TokenView>
    decreases remaining(src, pos),
    via tokens_from_decreases
{
    if 0 <= pos < src.len() {
        tokens_of(src, pos, piece(src, pos)) + tokens_from(src, pos + piece(src, pos).len)
    } else {
        seq![eof(src)]
    }
}

/// The scan goes on behind the piece at `pos`, which is not empty.
#[via_fn]
proof fn tokens_from_decreases(src: Seq<char>, pos: int) {
    if 0 <= pos < src.len() {
        lemma_piece_len(src, pos);
    }
}

/// The scan goes on behind the piece at `pos`, which is not empty.
#[via_fn]
proof fn errors_from_decreases(src: Seq<char>, pos: int) {
    if 0 <= pos < src.len() {
        lemma_piece_len(src, pos);
    }
}

/// The scan goes on behind the piece at `pos`, which is not empty.
#[via_fn]
proof fn comments_from_decreases(src: Seq<char>, pos: int) {
    if 0 <= pos < src.len() {
        lemma_piece_len(src, pos);
    }
}

/// The lines on which the comments of `src` from position `pos` on start.
pub open spec fn comments_from(src: Seq<char>, pos: int) -> Seq<usize>
    decreases remaining(src, pos),
    via comments_from_decreases
{
    if 0 <= pos < src.len() {
        comments_of(src, pos) + comments_from(src, pos + piece(src, pos).len)
    } else {
        seq![]
    }
}

/// The errors of `src` from position `pos` on.
pub open spec fn errors_from(src: Seq<char>, pos: int) -> Seq<ScannerError>
    decreases remaining(src, pos),
    via errors_from_decreases
{
    if 0 <= pos < src.len() {
        errors_of(piece(src, pos)) + errors_from(src, pos + piece(src, pos).len)
    } else {
        seq![]
    }
}

/// Moving one character on moves the line on by one exactly at a line feed,
/// and no position lies on a later line than it has characters before it.
pub proof fn lemma_line_step(src: Seq<char>, pos: int)
    requires
        0 <= pos < src.len(),
    ensures
        line_at(src, 0) == 1,
        line_at(src, pos + 1) == line_at(src, pos) + if src[pos] == '\n' {
            1nat
        } else {
            0nat
        },
        line_at(src, pos) <= pos + 1,
    decreases pos,
{
    assert(src.take(0) =~= Seq::<char>::empty());
    assert(src.take(pos + 1).drop_last() =~= src.take(pos));
    if pos > 0 {
        lemma_line_step(src, pos - 1);
    }
}

/// The views of a token sequence with one more token.
pub proof fn lemma_views_push(tokens: Seq<Token>, token: Token)
    ensures
        views(tokens.push(token)) == views(tokens).push(token@),
{
    assert(views(tokens.push(token)) =~= views(tokens).push(token@));
}

/// The kind that is recorded for a token of kind `kind` whose lexeme is
/// `text`: a string carries the text between its quotes, a number its text.
pub open spec fn filled(kind: Kind, text: Seq<char>) -> Kind {
    match kind {
        Kind::String(_) => Kind::String(text.subrange(1, text.len() - 1)),
        Kind::Number(_) => Kind::Number(text),
        other => other,
    }
}

/// Turns source text into tokens, in one pass from left to right.
#[derive(Debug)]
pub struct Scanner<'a> {
    /// The text that is scanned.
    pub source_code: &'a str,
    /// The characters of `source_code`.
    pub code: Vec<char>,
    /// The tokens found so far.
    pub tokens: Vec<Token<'a>>,
    /// The errors found so far.
    pub errors: Vec<ScannerError>,
    /// The lines on which the comments skipped so far start.
    pub comments: Vec<usize>,
    /// Byte offset at which the current lexeme starts.
    pub start: usize,
    /// Byte offset of the first character not read yet.
    pub current: usize,
    /// Index of the character at which the current lexeme starts.
    pub start_index: usize,
    /// Index of the first character not read yet.
    pub index: usize,
    /// Line of the first character not read yet.
    pub line: usize,
    /// Whether an error was found.
    pub has_error: bool,
}

impl<'a> Scanner<'a> {
    /// The cursor is consistent with the source text: `start` and `current`
    /// are the byte offsets of the characters `start_index` and `index`,
    /// `line` is the line of the character `index`, and the error flag is
    /// set exactly when an error was recorded.
    pub open spec fn wf(&self) -> bool {
        let src = self.source_code@;
        &&& self.code@ == src
        &&& src.len() < usize::MAX
        &&& encode_utf8(src).len() <= usize::MAX
        &&& self.start_index <= self.index <= src.len()
        &&& self.start == offset(src, self.start_index as int)
        &&& self.current == offset(src, self.index as int)
        &&& self.line == line_at(src, self.index as int)
        &&& self.has_error == (self.errors@.len() > 0)
    }

    /// The position of the first character that was not read yet.
    pub open spec fn cursor(&self) -> int {
        self.index as int
    }

    /// `post` is `self` moved on to the character `index`, with the same
    /// tokens, errors and comments.
    spec fn moved(&self, post: &Scanner<'a>, index: int) -> bool {
        &&& post.wf()
        &&& post.source_code == self.source_code
        &&& post.tokens == self.tokens
        &&& post.errors == self.errors
        &&& post.comments == self.comments
        &&& post.start_index == self.start_index
        &&& post.index == index
    }

    /// `post` is `self` after the piece `p`, which starts where the current
    /// lexeme starts, was taken.
    spec fn took(&self, post: &Scanner<'a>, p: Piece) -> bool {
        let src = self.source_code@;
        let pos = self.start_index as int;
        &&& post.wf()
        &&& post.source_code == self.source_code
        &&& post.index == pos + p.len
        &&& views(post.tokens@) == views(self.tokens@) + tokens_of(src, pos, p)
        &&& post.errors@ == self.errors@ + errors_of(p)
        &&& post.comments == self.comments
    }

    /// `post` is `self` after the piece that starts where the current lexeme
    /// starts was taken: its token or its error is recorded, and its line
    /// where it is a comment.
    spec fn scanned(&self, post: &Scanner<'a>) -> bool {
        let src = self.source_code@;
        let pos = self.start_index as int;
        let p = piece(src, pos);
        &&& post.wf()
        &&& post.source_code == self.source_code
        &&& post.index == pos + p.len
        &&& views(post.tokens@) == views(self.tokens@) + tokens_of(src, pos, p)
        &&& post.errors@ == self.errors@ + errors_of(p)
        &&& post.comments@ == self.comments@ + comments_of(src, pos)
    }

    /// The first character of a piece was read, and nothing behind it.
    spec fn opened(&self) -> bool {
        &&& self.wf()
        &&& self.index == self.start_index + 1
    }

    /// A scanner at the start of `source_code`, with no tokens and no errors.
    /// The text has to take fewer than `usize::MAX` bytes, so that every
    /// offset and every line number can be held.
    pub fn new(source_code: &'a str) -> (scanner: Self)
        requires
            encode_utf8(source_code@).len() < usize::MAX,
        ensures
            scanner.wf(),
            scanner.source_code == source_code,
            scanner.cursor() == 0,
            scanner.tokens@.len() == 0,
            scanner.errors@.len() == 0,
            scanner.comments@.len() == 0,
    {
        let code = chars_of(source_code);
        proof {
            let src = source_code@;
            assert(src.take(0) =~= Seq::<char>::empty());
            assert(src.take(src.len() as int) =~= src);
            lemma_offset_monotonic(src, 0, src.len() as int);
        }
        Scanner {
            source_code,
            code,
            tokens: Vec::new(),
            errors: Vec::new(),
            comments: Vec::new(),
            start: 0,
            current: 0,
            start_index: 0,
            index: 0,
            line: 1,
            has_error: false,
        }
    }

    /// Scans the rest of the source text: appends its tokens and the closing
    /// `Eof` to `tokens`, its errors to `errors` and the lines of its comments
    /// to `comments`. Errors do not stop the scan; the result is the first
    /// error recorded, if there is one.
    pub fn scan_tokens(&mut self) -> (result: Result<(), ScannerError>)
        requires
            old(self).wf(),
        ensures
            final(self).wf(),
            final(self).source_code == old(self).source_code,
            final(self).cursor() == old(self).source_code@.len(),
            views(final(self).tokens@) == views(old(self).tokens@) + tokens_from(
                old(self).source_code@,
                old(self).cursor(),
            ),
            final(self).errors@ == old(self).errors@ + errors_from(
                old(self).source_code@,
                old(self).cursor(),
            ),
            final(self).comments@ == old(self).comments@ + comments_from(
                old(self).source_code@,
                old(self).cursor(),
            ),
            result is Ok <==> final(self).errors@.len() == 0,
            result matches Err(error) ==> error == final(self).errors@[0],
    {
        let ghost src = self.source_code@;
        let ghost all_tokens = views(self.tokens@) + tokens_from(src, self.index as int);
        let ghost all_errors = self.errors@ + errors_from(src, self.index as int);
        let ghost all_comments = self.comments@ + comments_from(src, self.index as int);
        while self.index < self.code.len()
            invariant
                self.wf(),
                self.source_code@ == src,
                self.source_code == old(self).source_code,
                views(self.tokens@) + tokens_from(src, self.index as int) == all_tokens,
                self.errors@ + errors_from(src, self.index as int) == all_errors,
                self.comments@ + comments_from(src, self.index as int) == all_comments,
            decreases src.len() - self.index,
        {
            let c = self.code[self.index];
            self.start = self.current;
            self.start_index = self.index;
            let ghost before = *self;
            self.advance();
            self.scan_token(c);
            proof {
                let pos = before.index as int;
                let p = piece(src, pos);
                lemma_piece_len(src, pos);
                assert(views(self.tokens@) + tokens_from(src, self.index as int) =~= views(
                    before.tokens@,
                ) + tokens_from(src, pos));
                assert(self.errors@ + errors_from(src, self.index as int) =~= before.errors@
                    + errors_from(src, pos));
                assert(self.comments@ + comments_from(src, self.index as int)
                    =~= before.comments@ + comments_from(src, pos));
            }
        }
        self.start = self.current;
        self.start_index = self.index;
        let eof_token = Token { token_type: TokenType::Eof, lexeme: "", line: self.line };
        proof {
            reveal_strlit("");
            assert(eof_token.lexeme@ =~= Seq::<char>::empty());
            lemma_views_push(self.tokens@, eof_token);
            assert(views(self.tokens@).push(eof_token@) =~= all_tokens);
            assert(self.errors@ =~= all_errors);
            assert(self.comments@ =~= all_comments);
        }
        self.tokens.push(eof_token);
        if self.has_error {
            Err(self.errors[0])
        } else {
            Ok(())
        }
    }

    /// Takes the piece whose first character `c` was just read.
    fn scan_token(&mut self, c: char)
        requires
            old(self).opened(),
            c == old(self).source_code@[old(self).start_index as int],
        ensures
            old(self).scanned(final(self)),
    {
        let ghost src = self.source_code@;
        let ghost pos = self.start_index as int;
        proof {
            lemma_line_step(src, pos);
        }
        match c {
            ')' => self.add_token(TokenType::RightParen),
            '(' => self.add_token(TokenType::LeftParen),
            '{' => self.add_token(TokenType::LeftBrace),
            '}' => self.add_token(TokenType::RightBrace),
            ';' => self.add_token(TokenType::SemiColon),
            '.' => self.add_token(TokenType::Dot),
            '*' => self.add_token(TokenType::Star),
            '+' => self.add_token(TokenType::Plus),
            '-' => self.add_token(TokenType::Minus),
            ',' => self.add_token(TokenType::Comma),
            '?' => self.add_token(TokenType::Question),
            ':' => self.add_token(TokenType::Colon),
            '!' => {
                if self.next_is('=') {
                    self.advance();
                    self.add_token(TokenType::NotEqual)
                } else {
                    self.add_token(TokenType::Not)
                }
            },
            '=' => {
                if self.next_is('=') {
                    self.advance();
                    self.add_token(TokenType::EqualEqual)
                } else {
                    self.add_token(TokenType::Equal)
                }
            },
            '>' => {
                if self.next_is('=') {
                    self.advance();
                    self.add_token(TokenType::GreaterEqual)
                } else {
                    self.add_token(TokenType::Greater)
                }
            },
            '<' => {
                if self.next_is('=') {
                    self.advance();
                    self.add_token(TokenType::LessEqual)
                } else {
                    self.add_token(TokenType::Less)
                }
            },
            '/' => {
                if self.next_is('/') {
                    self.comments.push(self.line);
                    self.skip_line_comment()
                } else if self.next_is('*') {
                    self.comments.push(self.line);
                    self.skip_block_comment()
                } else {
                    self.add_token(TokenType::Slash)
                }
            },
            '"' => self.tokenize_string(),
            ' ' | '\r' | '\t' | '\n' => {},
            _ => {
                if is_digit(c) {
                    self.tokenize_number()
                } else if is_letter(c) || c == '_' {
                    self.tokenize_identifier()
                } else {
                    self.report(ScannerError::InvalidCharacter(self.start, self.line));
                }
            },
        }
        proof {
            let p = piece(src, pos);
            assert(views(self.tokens@) =~= views(old(self).tokens@) + tokens_of(src, pos, p));
            assert(self.errors@ =~= old(self).errors@ + errors_of(p));
            assert(self.comments@ =~= old(self).comments@ + comments_of(src, pos));
        }
    }

    /// Whether the next character is `c`.
    fn next_is(&self, c: char) -> (b: bool)
        requires
            self.wf(),
        ensures
            b == has(self.source_code@, self.index as int, c),
    {
        self.index < self.code.len() && self.code[self.index] == c
    }

    /// Records `error`.
    fn report(&mut self, error: ScannerError)
        requires
            old(self).wf(),
        ensures
            final(self).wf(),
            final(self).source_code == old(self).source_code,
            final(self).tokens == old(self).tokens,
            final(self).start_index == old(self).start_index,
            final(self).index == old(self).index,
            final(self).comments == old(self).comments,
            final(self).errors@ == old(self).errors@.push(error),
    {
        self.has_error = true;
        self.errors.push(error);
    }

    /// Appends the token of kind `token_type` whose lexeme is the text from
    /// the start of the current lexeme to the cursor. A string receives the
    /// text between its quotes, a number its text.
    fn add_token(&mut self, token_type: TokenType<'a>)
        requires
            old(self).wf(),
            token_type is String ==> {
                &&& old(self).start_index + 2 <= old(self).index
                &&& old(self).source_code@[old(self).start_index as int] == '"'
                &&& old(self).source_code@[old(self).index - 1] == '"'
            },
        ensures
            final(self).wf(),
            final(self).source_code == old(self).source_code,
            final(self).errors == old(self).errors,
            final(self).comments == old(self).comments,
            final(self).start_index == old(self).start_index,
            final(self).index == old(self).index,
            views(final(self).tokens@) == views(old(self).tokens@).push(
                TokenView {
                    kind: filled(
                        token_type@,
                        old(self).source_code@.subrange(
                            old(self).start_index as int,
                            old(self).index as int,
                        ),
                    ),
                    lexeme: old(self).source_code@.subrange(
                        old(self).start_index as int,
                        old(self).index as int,
                    ),
                    line: line_at(old(self).source_code@, old(self).index as int),
                },
            ),
    {
        let ghost src = self.source_code@;
        let ghost from = self.start_index as int;
        let ghost to = self.index as int;
        let lexeme = slice(self.source_code, self.start, self.current, Ghost(from), Ghost(to));
        let token_type = match token_type {
            TokenType::String(_) => {
                proof {
                    lemma_offset_step(src, from);
                    lemma_offset_step(src, to - 1);
                    lemma_offset_monotonic(src, from + 1, to - 1);
                    assert(width('"') == 1);
                }
                let inner = slice(
                    self.source_code,
                    self.start + 1,
                    self.current - 1,
                    Ghost(from + 1),
                    Ghost(to - 1),
                );
                proof {
                    assert(inner@ =~= lexeme@.subrange(1, lexeme@.len() - 1));
                }
                TokenType::String(inner)
            },
            TokenType::Number(_) => TokenType::Number(lexeme),
            other => other,
        };
        let token = Token { token_type, lexeme, line: self.line };
        proof {
            lemma_views_push(self.tokens@, token);
        }
        self.tokens.push(token);
    }

    /// Takes the string whose opening quote was just read.
    fn tokenize_string(&mut self)
        requires
            old(self).opened(),
            old(self).source_code@[old(self).start_index as int] == '"',
        ensures
            old(self).took(
                final(self),
                string_piece(old(self).source_code@, old(self).start_index as int),
            ),
    {
        let ghost src = self.source_code@;
        let ghost pos = self.start_index as int;
        let ghost quote = pos + 1 + until(src, pos + 1, '"');
        while self.index < self.code.len()
            invariant
                old(self).moved(self, self.index as int),
                src == old(self).source_code@,
                pos == old(self).start_index,
                pos < self.index,
                src[pos] == '"',
                quote == pos + 1 + until(src, pos + 1, '"'),
                self.index + until(src, self.index as int, '"') == quote,
            decreases src.len() - self.index,
        {
            let c = self.code[self.index];
            let ghost at = self.index as int;
            self.advance();
            if c == '"' {
                self.add_token(TokenType::String(""));
                proof {
                    let p = string_piece(src, pos);
                    assert(quote == at);
                    assert(src.subrange(pos, at + 1).subrange(1, at + 1 - pos - 1) =~= src.subrange(
                        pos + 1,
                        at,
                    ));

                    assert(views(self.tokens@) =~= views(old(self).tokens@) + tokens_of(
                        src,
                        pos,
                        p,
                    ));
                    assert(self.errors@ =~= old(self).errors@ + errors_of(p));
                }
                return ;
            }
        }
        let ghost before = *self;
        self.report(ScannerError::UnterminatedString(self.line));
        proof {
            let p = string_piece(src, pos);
            assert(self.errors@ =~= before.errors@ + errors_of(p));
            assert(views(self.tokens@) + tokens_of(src, pos, p) =~= views(self.tokens@));
        }
    }

    /// Takes the number whose first digit was just read.
    fn tokenize_number(&mut self)
        requires
            old(self).opened(),
            digit(old(self).source_code@[old(self).start_index as int]),
        ensures
            old(self).took(
                final(self),
                number_piece(old(self).source_code@, old(self).start_index as int),
            ),
    {
        let ghost src = self.source_code@;
        let ghost pos = self.start_index as int;
        let ghost whole = pos + digits(src, pos);
        while self.index < self.code.len() && is_digit(self.code[self.index])
            invariant
                old(self).moved(self, self.index as int),
                src == old(self).source_code@,
                pos == old(self).start_index,
                pos < self.index,
                self.index + digits(src, self.index as int) == whole,
            decreases src.len() - self.index,
        {
            self.advance()
        }
        if self.next_is('.') {
            self.advance()
        }
        let ghost end = pos + number_len(src, pos);
        while self.index < self.code.len() && is_digit(self.code[self.index])
            invariant
                old(self).moved(self, self.index as int),
                src == old(self).source_code@,
                pos == old(self).start_index,
                pos < self.index,
                self.index + digits(src, self.index as int) == end,
            decreases src.len() - self.index,
        {
            self.advance()
        }
        self.add_token(TokenType::Number(""));
        proof {
            let p = number_piece(src, pos);
            assert(views(self.tokens@) =~= views(old(self).tokens@) + tokens_of(src, pos, p));
            assert(self.errors@ =~= old(self).errors@ + errors_of(p));
        }
    }

    /// Takes the word whose first character was just read.
    fn tokenize_identifier(&mut self)
        requires
            old(self).opened(),
        ensures
            old(self).took(
                final(self),
                word_piece(old(self).source_code@, old(self).start_index as int),
            ),
    {
        let ghost src = self.source_code@;
        let ghost pos = self.start_index as int;
        let ghost end = pos + 1 + word_chars(src, pos + 1);
        while self.index < self.code.len() && is_word_char(self.code[self.index])
            invariant
                old(self).moved(self, self.index as int),
                src == old(self).source_code@,
                pos == old(self).start_index,
                pos < self.index,
                self.index + word_chars(src, self.index as int) == end,
            decreases src.len() - self.index,
        {
            self.advance()
        }
        let token_type = match self.reserved() {
            Some(word) => word,
            None => TokenType::Identifier,
        };
        self.add_token(token_type);
        proof {
            let p = word_piece(src, pos);
            assert(views(self.tokens@) =~= views(old(self).tokens@) + tokens_of(src, pos, p));
            assert(self.errors@ =~= old(self).errors@ + errors_of(p));
        }
    }

    /// Whether the current lexeme is `word`.
    fn lexeme_is(&self, word: &str) -> (b: bool)
        requires
            self.wf(),
        ensures
            b == (self.source_code@.subrange(self.start_index as int, self.index as int)
                == word@),
    {
        let ghost text = self.source_code@.subrange(self.start_index as int, self.index as int);
        let n = word.unicode_len();
        if n != self.index - self.start_index {
            return false;
        }
        let mut i: usize = 0;
        while i < n
            invariant
                self.wf(),
                n == word@.len(),
                n == self.index - self.start_index,
                i <= n,
                text == self.source_code@.subrange(self.start_index as int, self.index as int),
                forall|k: int| 0 <= k < i ==> text[k] == word@[k],
            decreases n - i,
        {
            if self.code[self.start_index + i] != word.get_char(i) {
                assert(text[i as int] != word@[i as int]);
                return false;
            }
            i += 1;
        }
        assert(text =~= word@);
        true
    }

    /// The keyword that the current lexeme spells, if it spells one.
    fn reserved(&self) -> (word: Option<TokenType<'a>>)
        requires
            self.wf(),
        ensures
            word is Some <==> keyword(
                self.source_code@.subrange(self.start_index as int, self.index as int),
            ) is Some,
            word matches Some(kind) ==> Some(kind@) == keyword(
                self.source_code@.subrange(self.start_index as int, self.index as int),
            ),
    {
        if self.lexeme_is("and") {
            Some(TokenType::And)
        } else if self.lexeme_is("or") {
            Some(TokenType::Or)
        } else if self.lexeme_is("for") {
            Some(TokenType::For)
        } else if self.lexeme_is("if") {
            Some(TokenType::If)
        } else if self.lexeme_is("else") {
            Some(TokenType::Else)
        } else if self.lexeme_is("while") {
            Some(TokenType::While)
        } else if self.lexeme_is("nil") {
            Some(TokenType::Nil)
        } else if self.lexeme_is("class") {
            Some(TokenType::Class)
        } else if self.lexeme_is("return") {
            Some(TokenType::Return)
        } else if self.lexeme_is("super") {
            Some(TokenType::Super)
        } else if self.lexeme_is("var") {
            Some(TokenType::Var)
        } else if self.lexeme_is("print") {
            Some(TokenType::Print)
        } else if self.lexeme_is("this") {
            Some(TokenType::This)
        } else if self.lexeme_is("true") {
            Some(TokenType::True)
        } else if self.lexeme_is("false") {
            Some(TokenType::False)
        } else {
            None
        }
    }

    /// Skips the comment that the slash just read and the slash behind it
    /// open, through the end of its line.
    fn skip_line_comment(&mut self)
        requires
            old(self).opened(),
        ensures
            old(self).took(
                final(self),
                line_comment_piece(old(self).source_code@, old(self).start_index as int),
            ),
    {
        let ghost src = self.source_code@;
        let ghost pos = self.start_index as int;
        let ghost line_end = pos + 1 + until(src, pos + 1, '\n');
        while self.index < self.code.len()
            invariant_except_break
                self.index + until(src, self.index as int, '\n') == line_end,
            invariant
                old(self).moved(self, self.index as int),
                src == old(self).source_code@,
                pos == old(self).start_index,
                pos < self.index,
                line_end == pos + 1 + until(src, pos + 1, '\n'),
            ensures
                self.index == pos + line_comment_piece(src, pos).len,
            decreases src.len() - self.index,
        {
            let c = self.code[self.index];
            self.advance();
            if c == '\n' {
                break ;
            }
        }
        proof {
            let p = line_comment_piece(src, pos);
            assert(views(self.tokens@) + tokens_of(src, pos, p) =~= views(self.tokens@));
            assert(self.errors@ + errors_of(p) =~= self.errors@);
        }
    }

    /// Skips the comment that the slash just read and the star behind it
    /// open, through the star and slash that close it.
    fn skip_block_comment(&mut self)
        requires
            old(self).opened(),
            has(old(self).source_code@, old(self).index as int, '*'),
        ensures
            old(self).took(
                final(self),
                block_comment_piece(old(self).source_code@, old(self).start_index as int),
            ),
    {
        let ghost src = self.source_code@;
        let ghost pos = self.start_index as int;
        let ghost close = pos + 2 + until_close(src, pos + 2);
        self.advance();
        while self.index < self.code.len()
            invariant
                old(self).moved(self, self.index as int),
                src == old(self).source_code@,
                pos == old(self).start_index,
                pos + 2 <= self.index,
                close == pos + 2 + until_close(src, pos + 2),
                self.index + until_close(src, self.index as int) == close,
            decreases src.len() - self.index,
        {
            let c = self.code[self.index];
            let ghost at = self.index as int;
            self.advance();
            if c == '*' && self.next_is('/') {
                self.advance();
                proof {
                    let p = block_comment_piece(src, pos);
                    assert(closes_comment(src, at));
                    assert(close == at);
                    assert(views(self.tokens@) =~= views(old(self).tokens@) + tokens_of(
                        src,
                        pos,
                        p,
                    ));
                    assert(self.errors@ =~= old(self).errors@ + errors_of(p));
                }
                return ;
            }
        }
        let ghost before = *self;
        self.report(ScannerError::UnterminatedComment(self.line));
        proof {
            let p = block_comment_piece(src, pos);
            assert(self.errors@ =~= before.errors@ + errors_of(p));
            assert(views(self.tokens@) + tokens_of(src, pos, p) =~= views(self.tokens@));
        }
    }

    /// Reads one character.
    fn advance(&mut self)
        requires
            old(self).wf(),
            old(self).index < old(self).source_code@.len(),
        ensures
            old(self).moved(final(self), old(self).index + 1),
    {
        let ghost src = self.source_code@;
        let c = self.code[self.index];
        proof {
            lemma_offset_step(src, self.index as int);
            lemma_line_step(src, self.index as int);
            lemma_encode_subrange(src, self.index as int + 1, src.len() as int);
            assert(src.take(src.len() as int) =~= src);
        }
        self.current += char_width(c);
        self.index += 1;
        if c == '\n' {
            self.line += 1;
        }
    }
}

/// Every piece takes at least one character and ends within the text.
pub proof fn lemma_piece_len(src: Seq<char>, pos: int)
    requires
        0 <= pos < src.len(),
    ensures
        1 <= piece(src, pos).len <= src.len() - pos,
{
    lemma_until_bound(src, pos + 1, '\n');
    lemma_until_bound(src, pos + 1, '"');
    lemma_until_close_bound(src, pos + 2);
    lemma_digits_bound(src, pos);
    lemma_digits_bound(src, pos + digits(src, pos) + 1);
    lemma_word_chars_bound(src, pos + 1);
    assert(1 <= line_comment_piece(src, pos).len <= src.len() - pos);
    assert(1 <= block_comment_piece(src, pos).len <= src.len() - pos);
    assert(1 <= string_piece(src, pos).len <= src.len() - pos);
    assert(digit(src[pos]) ==> 1 <= number_piece(src, pos).len <= src.len() - pos);
    assert(1 <= word_piece(src, pos).len <= src.len() - pos);
}

/// A run of digits ends within the text.
pub proof fn lemma_digits_bound(src: Seq<char>, pos: int)
    requires
        0 <= pos,
    ensures
        pos < src.len() ==> pos + digits(src, pos) <= src.len(),
        pos >= src.len() ==> digits(src, pos) == 0,
    decreases src.len() - pos,
{
    if pos < src.len() && digit(src[pos]) {
        lemma_digits_bound(src, pos + 1);
    }
}

/// A run of word characters ends within the text.
pub proof fn lemma_word_chars_bound(src: Seq<char>, pos: int)
    requires
        0 <= pos,
    ensures
        pos < src.len() ==> pos + word_chars(src, pos) <= src.len(),
        pos >= src.len() ==> word_chars(src, pos) == 0,
    decreases src.len() - pos,
{
    if pos < src.len() && word_char(src[pos]) {
        lemma_word_chars_bound(src, pos + 1);
    }
}

/// The search for a character ends within the text.
pub proof fn lemma_until_bound(src: Seq<char>, pos: int, c: char)
    requires
        0 <= pos,
    ensures
        pos < src.len() ==> pos + until(src, pos, c) <= src.len(),
        pos >= src.len() ==> until(src, pos, c) == 0,
        pos + until(src, pos, c) < src.len() ==> src[pos + until(src, pos, c)] == c,
    decreases src.len() - pos,
{
    if pos < src.len() && src[pos] != c {
        lemma_until_bound(src, pos + 1, c);
    }
}

/// The search for the end of a block comment ends within the text.
pub proof fn lemma_until_close_bound(src: Seq<char>, pos: int)
    requires
        0 <= pos,
    ensures
        pos < src.len() ==> pos + until_close(src, pos) <= src.len(),
        pos >= src.len() ==> until_close(src, pos) == 0,
        pos + until_close(src, pos) < src.len() ==> closes_comment(
            src,
            pos + until_close(src, pos),
        ),
    decreases src.len() - pos,
{
    if pos < src.len() && !closes_comment(src, pos) {
        lemma_until_close_bound(src, pos + 1);
    }
}

/// The tokens and the errors of `source`: each piece of the text gives its
/// token or its error, in order, and `Eof` closes the tokens. The text has
/// to take fewer than `usize::MAX` bytes.
pub fn scan<'a>(source: &'a str) -> (result: (Vec<Token<'a>>, Vec<ScannerError>))
    requires
        encode_utf8(source@).len() < usize::MAX,
    ensures
        views(result.0@) == tokens_from(source@, 0),
        result.1@ == errors_from(source@, 0),
{
    let mut scanner = Scanner::new(source);
    let _ = scanner.scan_tokens();
    proof {
        assert(views(scanner.tokens@) =~= tokens_from(source@, 0));
        assert(scanner.errors@ =~= errors_from(source@, 0));
    }
    (scanner.tokens, scanner.errors)
}

/// The lexemes of `tokens`, one behind the other.
pub open spec fn joined(tokens: Seq<TokenView>) -> Seq<char>
    decreases tokens.len(),
{
    if tokens.len() == 0 {
        seq![]
    } else {
        tokens[0].lexeme + joined(tokens.drop_first())
    }
}

/// Whether what starts at `pos` is left out between tokens: a blank
/// character or a comment.
pub open spec fn left_out(src: Seq<char>, pos: int) -> bool {
    blank(src[pos]) || starts_comment(src, pos)
}

/// The text of `src` from `pos` on without its blank characters and its
/// comments.
pub open spec fn content(src: Seq<char>, pos: int) -> Seq<char>
    decreases remaining(src, pos),
    via content_decreases
{
    if 0 <= pos < src.len() {
        let end = pos + piece(src, pos).len;
        if left_out(src, pos) {
            content(src, end)
        } else {
            src.subrange(pos, end) + content(src, end)
        }
    } else {
        seq![]
    }
}

/// The text goes on behind the piece at `pos`, which is not empty.
#[via_fn]
proof fn content_decreases(src: Seq<char>, pos: int) {
    if 0 <= pos < src.len() {
        lemma_piece_len(src, pos);
    }
}

/// The tokens of a text end with `Eof`, and `Eof` stands nowhere else among
/// them.
pub proof fn lemma_ends_with_eof(src: Seq<char>, pos: int)
    ensures
        tokens_from(src, pos).len() > 0,
        tokens_from(src, pos).last() == eof(src),
        forall|i: int|
            0 <= i < tokens_from(src, pos).len() - 1 ==> tokens_from(src, pos)[i].kind != Kind::Eof,
    decreases remaining(src, pos),
{
    if 0 <= pos < src.len() {
        let p = piece(src, pos);
        lemma_piece_len(src, pos);
        lemma_ends_with_eof(src, pos + p.len);
        if p.kind is Some {
            assert(keyword(src.subrange(pos, pos + word_piece(src, pos).len)) != Some(Kind::Eof));
        }
    }
}

/// In a text that scans without an error, the lexemes of the tokens, one
/// behind the other, are the text without its blank characters and its
/// comments.
pub proof fn lemma_lexemes_give_content(src: Seq<char>, pos: int)
    requires
        errors_from(src, pos).len() == 0,
    ensures
        joined(tokens_from(src, pos)) == content(src, pos),
    decreases remaining(src, pos),
{
    let tokens = tokens_from(src, pos);
    if 0 <= pos < src.len() {
        let p = piece(src, pos);
        lemma_piece_len(src, pos);
        let end = pos + p.len;
        let rest = tokens_from(src, end);
        assert(errors_from(src, end).len() == 0);
        assert(p.error is None);
        lemma_lexemes_give_content(src, end);
        if p.kind is Some {
            assert(tokens.drop_first() =~= rest);
            assert(!left_out(src, pos));
        } else {
            assert(tokens =~= rest);
            assert(left_out(src, pos));
        }
    } else {
        assert(tokens.drop_first() =~= Seq::<TokenView>::empty());
        assert(joined(tokens.drop_first()) =~= Seq::<char>::empty());
        assert(joined(tokens) =~= Seq::<char>::empty());
    }
}

} // verus!
