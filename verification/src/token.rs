use vstd::prelude::*;
use vstd::string::StrSliceExecFns;

verus! {

/// Mathematical view of a [`FilePosition`]: the file label as a character
/// sequence, and the line/column coordinates as unbounded naturals.
#[verifier::ext_equal]
pub struct FilePositionV {
    pub file: Seq<char>,
    pub line: nat,
    pub offset: nat,
}

/// A location in a source file: the file label, a zero-based line number,
/// and a zero-based column offset within that line.
///
/// The label is carried unchanged from construction; it names the origin
/// file for diagnostics and is never dereferenced here.
#[derive(Debug, Clone, PartialEq, Eq)]
pub struct FilePosition {
    pub file_path: String,
    pub line: u32,
    pub offset: u32,
}

impl View for FilePosition {
    type V = FilePositionV;

    open spec fn view(&self) -> FilePositionV {
        FilePositionV { file: self.file_path@, line: self.line as nat, offset: self.offset as nat }
    }
}

impl FilePosition {
    /// Builds the position `(line, offset)` in the file named `file_path`.
    pub fn new(file_path: String, line: u32, offset: u32) -> (r: Self)
        ensures
            r.file_path == file_path,
            r.line == line,
            r.offset == offset,
    {
        Self { file_path, line, offset }
    }

    /// Seeks to the start of the next line: the line number grows by one and
    /// the column offset resets to zero.
    pub fn move_to_newline(&mut self)
        requires
            old(self).line < u32::MAX,
        ensures
            final(self).file_path == old(self).file_path,
            final(self).line == old(self).line + 1,
            final(self).offset == 0,
    {
        self.line = self.line + 1;
        self.offset = 0;
    }
}

/// Mathematical view of a [`TokenType`].
#[verifier::ext_equal]
pub enum TokenTypeV {
    Ident(Seq<char>),
    NaturalNumber(nat),
    Assign,
    LeftBracket,
    RightBracket,
    LeftParen,
    RightParen,
    EOF,
}

/// The closed set of token kinds.  No variant carries a position; the
/// position lives on the enclosing [`Token`].
#[derive(Debug, PartialEq, Eq)]
pub enum TokenType {
    Ident(String),
    NaturalNumber(u32),
    Assign,
    LeftBracket,
    RightBracket,
    LeftParen,
    RightParen,
    EOF,
}

impl View for TokenType {
    type V = TokenTypeV;

    open spec fn view(&self) -> TokenTypeV {
        match self {
            TokenType::Ident(s) => TokenTypeV::Ident(s@),
            TokenType::NaturalNumber(n) => TokenTypeV::NaturalNumber(*n as nat),
            TokenType::Assign => TokenTypeV::Assign,
            TokenType::LeftBracket => TokenTypeV::LeftBracket,
            TokenType::RightBracket => TokenTypeV::RightBracket,
            TokenType::LeftParen => TokenTypeV::LeftParen,
            TokenType::RightParen => TokenTypeV::RightParen,
            TokenType::EOF => TokenTypeV::EOF,
        }
    }
}

/// Mathematical view of a [`Token`].
#[verifier::ext_equal]
pub struct TokenV {
    pub position: FilePositionV,
    pub token_type: TokenTypeV,
}

/// One lexical unit, anchored at the position of its first character.
#[derive(Debug, PartialEq, Eq)]
pub struct Token {
    pub position: FilePosition,
    pub token_type: TokenType,
}

impl View for Token {
    type V = TokenV;

    open spec fn view(&self) -> TokenV {
        TokenV { position: self.position@, token_type: self.token_type@ }
    }
}

/// The number of decimal digits of `n` (one digit for zero).
pub open spec fn spec_digit_count(n: nat) -> nat
    decreases n,
{
    if n < 10 {
        1
    } else {
        1 + spec_digit_count(n / 10)
    }
}

/// The derived length of a token: an identifier counts its characters, a
/// number counts the decimal digits of its value, `Assign` is two characters,
/// each bracket or parenthesis one, and `EOF` zero.
pub open spec fn spec_token_len(t: TokenTypeV) -> nat {
    match t {
        TokenTypeV::Ident(s) => s.len(),
        TokenTypeV::NaturalNumber(n) => spec_digit_count(n),
        TokenTypeV::Assign => 2,
        TokenTypeV::LeftBracket => 1,
        TokenTypeV::RightBracket => 1,
        TokenTypeV::LeftParen => 1,
        TokenTypeV::RightParen => 1,
        TokenTypeV::EOF => 0,
    }
}

fn u32_digit_count(num: u32) -> (r: usize)
    ensures
        r == spec_digit_count(num as nat),
{
    proof {
        reveal_with_fuel(spec_digit_count, 11);
    }
    if num < 10 {
        1
    } else if num < 100 {
        2
    } else if num < 1000 {
        3
    } else if num < 10000 {
        4
    } else if num < 100000 {
        5
    } else if num < 1000000 {
        6
    } else if num < 10000000 {
        7
    } else if num < 100000000 {
        8
    } else if num < 1000000000 {
        9
    } else {
        10
    }
}

impl Token {
    /// Builds the token `token_type` anchored at `position`.
    pub fn new(position: FilePosition, token_type: TokenType) -> (r: Self)
        ensures
            r.position == position,
            r.token_type == token_type,
    {
        Token { position, token_type }
    }

    /// The length of the token, as [`spec_token_len`] describes it.
    pub fn len(&self) -> (r: usize)
        ensures
            r == spec_token_len(self@.token_type),
    {
        match &self.token_type {
            TokenType::Ident(ident) => ident.as_str().unicode_len(),
            TokenType::NaturalNumber(num) => u32_digit_count(*num),
            TokenType::Assign => 2,
            TokenType::LeftBracket => 1,
            TokenType::RightBracket => 1,
            TokenType::LeftParen => 1,
            TokenType::RightParen => 1,
            TokenType::EOF => 0,
        }
    }
}

/// The ways a scan can fail.
#[derive(Debug, Clone, Copy, PartialEq, Eq)]
pub enum LexErrorKind {
    /// A `:` was seen but not immediately followed by `=`.
    MalformedAssignment,
    /// A character matched no rule: not whitespace, not a digit, not
    /// alphabetic, and none of the recognised punctuation.
    UnrecognizedCharacter,
    /// A maximal run of digits does not fit in an unsigned 32-bit value.
    NumericOverflow,
}

/// Mathematical view of a [`LexError`].
#[verifier::ext_equal]
pub struct LexErrorV {
    pub position: FilePositionV,
    pub kind: LexErrorKind,
}

/// A fatal scan error: the kind of failure and the position that
/// triggered it.
#[derive(Debug, PartialEq, Eq)]
pub struct LexError {
    pub position: FilePosition,
    pub kind: LexErrorKind,
}

impl View for LexError {
    type V = LexErrorV;

    open spec fn view(&self) -> LexErrorV {
        LexErrorV { position: self.position@, kind: self.kind }
    }
}

} // verus!
