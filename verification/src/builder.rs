use vstd::pervasive::unreached;
use vstd::prelude::*;
use vstd::string::StrSliceExecFns;

use crate::chars::check_ascii_digit;
use crate::chars::digit_char_value;
use crate::chars::is_ascii_digit_char;
use crate::chars::is_unicode_alphabetic;
use crate::chars::is_unicode_alphanumeric;
use crate::scan::col_at;
use crate::scan::in_class;
use crate::scan::lemma_greedy_maximal_munch;
use crate::scan::lemma_digits_val_prefix_le;
use crate::scan::lemma_line_col_le;
use crate::scan::lemma_run_end_is;
use crate::scan::lemma_spec_next_props;
use crate::scan::line_at;
use crate::scan::pos_at;
use crate::scan::run_end;
use crate::scan::scan_prepend;
use crate::scan::spec_next;
use crate::scan::spec_scan_from;
use crate::scan::token_views;
use crate::scan::CharClass;
use crate::scan::NextV;
use crate::scan::digits_val;
use crate::token::FilePosition;
use crate::token::LexError;
use crate::token::LexErrorKind;
use crate::token::LexErrorV;
use crate::token::Token;
use crate::token::TokenType;
use crate::token::TokenTypeV;
use crate::token::TokenV;

verus! {

/// A position-tracked character cursor: a lazy, finite, forward-only
/// sequence of `(FilePosition, char)` pairs drawn from the input text.  It
/// supports one character of lookahead through [`CharStream::peek`].
pub struct CharStream<'l> {
    text: &'l str,
    length: usize,
    idx: usize,
    position: FilePosition,
}

impl<'l> CharStream<'l> {
    /// The whole input text, as a character sequence.
    pub closed spec fn src(&self) -> Seq<char> {
        self.text@
    }

    /// The file label attached to every emitted position.
    pub closed spec fn file(&self) -> Seq<char> {
        self.position.file_path@
    }

    /// How many characters have been consumed so far.
    pub closed spec fn cursor(&self) -> int {
        self.idx as int
    }

    /// The cursor is inside the text and its line/column counters agree
    /// with the number of newlines consumed so far.
    pub closed spec fn wf(&self) -> bool {
        &&& self.text@.len() <= u32::MAX
        &&& self.length == self.text@.len()
        &&& self.idx <= self.length
        &&& self.position.line as int == line_at(self.text@, self.idx as int)
        &&& self.position.offset as int == col_at(self.text@, self.idx as int)
    }

    /// Creates a cursor at line 0, column 0 of `text`, labelled `file_path`.
    ///
    /// The input must have at most `u32::MAX` characters, so that the `u32`
    /// line and column counters cannot overflow.
    pub fn new(file_path: String, text: &'l str) -> (r: Self)
        requires
            text@.len() <= u32::MAX,
        ensures
            r.wf(),
            r.src() == text@,
            r.file() == file_path@,
            r.cursor() == 0,
    {
        let length = text.unicode_len();
        CharStream { text, length, idx: 0, position: FilePosition::new(file_path, 0, 0) }
    }

    /// The next character, without consuming it.
    pub fn peek(&self) -> (r: Option<char>)
        requires
            self.wf(),
        ensures
            self.cursor() < self.src().len() ==> r == Some(self.src()[self.cursor()]),
            self.cursor() >= self.src().len() ==> r is None,
    {
        if self.idx < self.length {
            Some(self.text.get_char(self.idx))
        } else {
            None
        }
    }

    /// How many characters have been consumed so far.
    pub fn cursor_index(&self) -> (r: usize)
        ensures
            r as int == self.cursor(),
    {
        self.idx
    }

    /// The position the cursor stands at: the position the next character
    /// would carry.
    pub fn current_position(&self) -> (r: FilePosition)
        requires
            self.wf(),
        ensures
            r@ == pos_at(self.file(), self.src(), self.cursor()),
    {
        let r = FilePosition::new(
            self.position.file_path.clone(),
            self.position.line,
            self.position.offset,
        );
        proof {
            assert(r@ =~= pos_at(self.file(), self.src(), self.cursor()));
        }
        r
    }

    /// Consumes and returns the next character together with its position,
    /// or `None` at exhaustion.  A newline pair carries the newline's own
    /// position; the counters then move to the start of the next line.
    pub fn advance(&mut self) -> (r: Option<(FilePosition, char)>)
        requires
            old(self).wf(),
        ensures
            final(self).wf(),
            final(self).src() == old(self).src(),
            final(self).file() == old(self).file(),
            match r {
                Some(pc) => {
                    &&& old(self).cursor() < old(self).src().len()
                    &&& pc.0@ == pos_at(old(self).file(), old(self).src(), old(self).cursor())
                    &&& pc.1 == old(self).src()[old(self).cursor()]
                    &&& final(self).cursor() == old(self).cursor() + 1
                },
                None => {
                    &&& old(self).cursor() == old(self).src().len()
                    &&& final(self).cursor() == old(self).cursor()
                },
            },
    {
        if self.idx < self.length {
            let c = self.text.get_char(self.idx);
            let here = FilePosition::new(
                self.position.file_path.clone(),
                self.position.line,
                self.position.offset,
            );
            proof {
                lemma_line_col_le(self.text@, self.idx as int);
                assert(here@ =~= pos_at(self.file(), self.src(), self.cursor()));
            }
            self.idx = self.idx + 1;
            if c == '\n' {
                self.position.move_to_newline();
            } else {
                self.position.offset = self.position.offset + 1;
            }
            Some((here, c))
        } else {
            None
        }
    }

    /// The characters between the two cursor indices, copied into an owned
    /// string.
    pub fn slice(&self, from: usize, to: usize) -> (r: String)
        requires
            self.wf(),
            from <= to,
            to as int <= self.src().len(),
        ensures
            r@ == self.src().subrange(from as int, to as int),
    {
        self.text.substring_char(from, to).to_owned()
    }
}

/// Turns a labelled input text into the sequence of tokens it spells, by
/// dispatching on one character of lookahead.
pub struct TokenBuilder<'l> {
    stream: CharStream<'l>,
}

impl<'l> TokenBuilder<'l> {
    /// The whole input text, as a character sequence.
    pub closed spec fn src(&self) -> Seq<char> {
        self.stream.src()
    }

    /// The file label attached to every emitted position.
    pub closed spec fn file(&self) -> Seq<char> {
        self.stream.file()
    }

    /// How many characters have been consumed so far.
    pub closed spec fn cursor(&self) -> int {
        self.stream.cursor()
    }

    /// The builder's cursor is well formed.
    pub closed spec fn wf(&self) -> bool {
        self.stream.wf()
    }

    /// Creates a builder over `text`, labelled `file_path`.
    ///
    /// The input must have at most `u32::MAX` characters, so that the `u32`
    /// line and column counters cannot overflow.
    pub fn new(file_path: String, text: &'l str) -> (r: Self)
        requires
            text@.len() <= u32::MAX,
        ensures
            r.wf(),
            r.src() == text@,
            r.file() == file_path@,
            r.cursor() == 0,
    {
        TokenBuilder { stream: CharStream::new(file_path, text) }
    }

    /// Scans a natural-number token: consumes the maximal run of ASCII
    /// digits and parses it as an unsigned 32-bit value, or reports an
    /// overflow anchored at the first digit.
    fn read_numeric(&mut self) -> (r: Result<Token, LexError>)
        requires
            old(self).wf(),
            old(self).cursor() < old(self).src().len(),
            is_ascii_digit_char(old(self).src()[old(self).cursor()]),
        ensures
            final(self).wf(),
            final(self).src() == old(self).src(),
            final(self).file() == old(self).file(),
            ({
                let i = old(self).cursor();
                let text = old(self).src();
                let file = old(self).file();
                let j = run_end(text, i + 1, CharClass::Digit);
                let v = digits_val(text.subrange(i, j));
                match r {
                    Ok(tok) => {
                        &&& v <= u32::MAX
                        &&& tok@ == (TokenV {
                            position: pos_at(file, text, i),
                            token_type: TokenTypeV::NaturalNumber(v as nat),
                        })
                        &&& final(self).cursor() == j
                    },
                    Err(e) => {
                        &&& v > u32::MAX
                        &&& e@ == (LexErrorV {
                            position: pos_at(file, text, i),
                            kind: LexErrorKind::NumericOverflow,
                        })
                    },
                }
            }),
    {
        let ghost text = self.stream.src();
        let ghost file = self.stream.file();
        let ghost i0 = self.stream.cursor();

        let (first_pos, c0) = match self.stream.advance() {
            Some(pc) => pc,
            None => unreached(),
        };
        let mut val: u64 = (c0 as u32 - 48) as u64;
        proof {
            assert(text.subrange(i0, i0 + 1).drop_last() =~= Seq::<char>::empty());
            assert(text.subrange(i0, i0 + 1).last() == text[i0]);
            assert(digits_val(Seq::<char>::empty()) == 0);
            assert(digits_val(text.subrange(i0, i0 + 1)) == digit_char_value(text[i0]));
        }
        loop
            invariant
                self.wf(),
                self.src() == text,
                self.file() == file,
                text == old(self).src(),
                file == old(self).file(),
                i0 == old(self).cursor(),
                i0 + 1 <= self.cursor() <= text.len(),
                forall|k: int| i0 <= k < self.cursor() ==> is_ascii_digit_char(#[trigger] text[k]),
                val == digits_val(text.subrange(i0, self.cursor())),
                val <= u32::MAX,
                first_pos@ == pos_at(file, text, i0),
            ensures
                self.wf(),
                self.src() == text,
                self.file() == file,
                i0 + 1 <= self.cursor() <= text.len(),
                forall|k: int| i0 <= k < self.cursor() ==> is_ascii_digit_char(#[trigger] text[k]),
                val == digits_val(text.subrange(i0, self.cursor())),
                val <= u32::MAX,
                first_pos@ == pos_at(file, text, i0),
                self.cursor() == text.len() || !is_ascii_digit_char(text[self.cursor()]),
            decreases text.len() - self.cursor(),
        {
            let next = self.stream.peek();
            match next {
                Some(c) => {
                    if check_ascii_digit(c) {
                        let ghost k = self.cursor();
                        let _consumed = self.stream.advance();
                        let d = (c as u32 - 48) as u64;
                        let nv = val * 10 + d;
                        proof {
                            assert(text.subrange(i0, k + 1).drop_last() =~= text.subrange(i0, k));
                            assert(text.subrange(i0, k + 1).last() == text[k]);
                            assert(digits_val(text.subrange(i0, k + 1)) == digits_val(
                                text.subrange(i0, k),
                            ) * 10 + digit_char_value(text[k]));
                        }
                        if nv > u32::MAX as u64 {
                            proof {
                                lemma_greedy_maximal_munch(text, i0 + 1, CharClass::Digit);
                                let j = run_end(text, i0 + 1, CharClass::Digit);
                                assert(j >= k + 1) by {
                                    if j < k + 1 {
                                        assert(is_ascii_digit_char(text[j]));
                                        assert(!in_class(CharClass::Digit, text[j]));
                                    }
                                };
                                assert forall|kk: int|
                                    0 <= kk < text.subrange(i0, j).len() implies is_ascii_digit_char(
                                    #[trigger] text.subrange(i0, j)[kk],
                                ) by {
                                    assert(text.subrange(i0, j)[kk] == text[i0 + kk]);
                                    if i0 + kk >= k + 1 {
                                        assert(in_class(CharClass::Digit, text[i0 + kk]));
                                    }
                                };
                                lemma_digits_val_prefix_le(text.subrange(i0, j), k + 1 - i0);
                                assert(text.subrange(i0, j).subrange(0, k + 1 - i0) =~= text.subrange(
                                    i0,
                                    k + 1,
                                ));
                            }
                            return Err(
                                LexError {
                                    position: first_pos,
                                    kind: LexErrorKind::NumericOverflow,
                                },
                            );
                        }
                        val = nv;
                    } else {
                        break;
                    }
                },
                None => {
                    break;
                },
            }
        }
        proof {
            lemma_run_end_is(text, i0 + 1, self.cursor(), CharClass::Digit);
        }
        let tok = Token::new(first_pos, TokenType::NaturalNumber(val as u32));
        proof {
            let j = run_end(text, i0 + 1, CharClass::Digit);
            assert(tok@ =~= (TokenV {
                position: pos_at(file, text, i0),
                token_type: TokenTypeV::NaturalNumber(digits_val(text.subrange(i0, j)) as nat),
            }));
        }
        Ok(tok)
    }

    /// Scans an identifier token: consumes the maximal run of alphanumeric
    /// characters following the opening alphabetic one; the accumulated text
    /// becomes the identifier verbatim.
    fn read_ident(&mut self) -> (r: Result<Token, LexError>)
        requires
            old(self).wf(),
            old(self).cursor() < old(self).src().len(),
            is_unicode_alphabetic(old(self).src()[old(self).cursor()]),
        ensures
            final(self).wf(),
            final(self).src() == old(self).src(),
            final(self).file() == old(self).file(),
            ({
                let i = old(self).cursor();
                let text = old(self).src();
                let file = old(self).file();
                let j = run_end(text, i + 1, CharClass::Alphanumeric);
                match r {
                    Ok(tok) => {
                        &&& tok@ == (TokenV {
                            position: pos_at(file, text, i),
                            token_type: TokenTypeV::Ident(text.subrange(i, j)),
                        })
                        &&& final(self).cursor() == j
                    },
                    Err(_) => false,
                }
            }),
    {
        let ghost text = self.stream.src();
        let ghost file = self.stream.file();
        let ghost i0 = self.stream.cursor();

        let start = self.stream.cursor_index();
        let (first_pos, _c0) = match self.stream.advance() {
            Some(pc) => pc,
            None => unreached(),
        };
        loop
            invariant
                self.wf(),
                self.src() == text,
                self.file() == file,
                text == old(self).src(),
                file == old(self).file(),
                i0 == old(self).cursor(),
                i0 + 1 <= self.cursor() <= text.len(),
                start as int == i0,
                forall|k: int|
                    i0 + 1 <= k < self.cursor() ==> is_unicode_alphanumeric(#[trigger] text[k]),
                first_pos@ == pos_at(file, text, i0),
            ensures
                self.wf(),
                self.src() == text,
                self.file() == file,
                i0 + 1 <= self.cursor() <= text.len(),
                start as int == i0,
                forall|k: int|
                    i0 + 1 <= k < self.cursor() ==> is_unicode_alphanumeric(#[trigger] text[k]),
                first_pos@ == pos_at(file, text, i0),
                self.cursor() == text.len() || !is_unicode_alphanumeric(text[self.cursor()]),
            decreases text.len() - self.cursor(),
        {
            let next = self.stream.peek();
            match next {
                Some(c) => {
                    if c.is_alphanumeric() {
                        let _consumed = self.stream.advance();
                    } else {
                        break;
                    }
                },
                None => {
                    break;
                },
            }
        }
        proof {
            lemma_run_end_is(text, i0 + 1, self.cursor(), CharClass::Alphanumeric);
        }
        let end = self.stream.cursor_index();
        let ident = self.stream.slice(start, end);
        let tok = Token::new(first_pos, TokenType::Ident(ident));
        proof {
            let j = run_end(text, i0 + 1, CharClass::Alphanumeric);
            assert(tok@ =~= (TokenV {
                position: pos_at(file, text, i0),
                token_type: TokenTypeV::Ident(text.subrange(i0, j)),
            }));
        }
        Ok(tok)
    }

    /// Reads the next token: skips whitespace, then applies the scanning
    /// rule that the first remaining character selects, exactly as
    /// [`spec_next`] describes.  At exhaustion it yields an `EOF` token
    /// anchored at the cursor's final position.
    fn read_next_token(&mut self) -> (r: Result<Token, LexError>)
        requires
            old(self).wf(),
        ensures
            final(self).wf(),
            final(self).src() == old(self).src(),
            final(self).file() == old(self).file(),
            match (r, spec_next(old(self).file(), old(self).src(), old(self).cursor())) {
                (Ok(t), NextV::End) => {
                    &&& t@.token_type is EOF
                    &&& t@.position == pos_at(
                        old(self).file(),
                        old(self).src(),
                        old(self).src().len() as int,
                    )
                    &&& final(self).cursor() == old(self).src().len()
                },
                (Ok(t), NextV::Tok(tv, j)) => t@ == tv && final(self).cursor() == j,
                (Err(e), NextV::Fail(ev)) => e@ == ev,
                _ => false,
            },
    {
        let ghost text = self.stream.src();
        let ghost file = self.stream.file();
        let ghost i_start = self.stream.cursor();
        loop
            invariant
                self.wf(),
                self.src() == text,
                self.file() == file,
                text == old(self).src(),
                file == old(self).file(),
                i_start == old(self).cursor(),
                0 <= self.cursor() <= text.len(),
                spec_next(file, text, i_start) == spec_next(file, text, self.cursor()),
            decreases text.len() - self.cursor(),
        {
            let next = self.stream.peek();
            match next {
                None => {
                    return Ok(Token::new(self.stream.current_position(), TokenType::EOF));
                },
                Some(c) => {
                    if c == ':' {
                        let (pos, _c1) = match self.stream.advance() {
                            Some(pc) => pc,
                            None => unreached(),
                        };
                        match self.stream.advance() {
                            Some(pc2) => {
                                if pc2.1 == '=' {
                                    return Ok(Token::new(pos, TokenType::Assign));
                                } else {
                                    return Err(
                                        LexError {
                                            position: pos,
                                            kind: LexErrorKind::MalformedAssignment,
                                        },
                                    );
                                }
                            },
                            None => {
                                return Err(
                                    LexError {
                                        position: pos,
                                        kind: LexErrorKind::MalformedAssignment,
                                    },
                                );
                            },
                        }
                    } else if c == '[' {
                        let (pos, _c1) = match self.stream.advance() {
                            Some(pc) => pc,
                            None => unreached(),
                        };
                        return Ok(Token::new(pos, TokenType::LeftBracket));
                    } else if c == ']' {
                        let (pos, _c1) = match self.stream.advance() {
                            Some(pc) => pc,
                            None => unreached(),
                        };
                        return Ok(Token::new(pos, TokenType::RightBracket));
                    } else if c == '(' {
                        let (pos, _c1) = match self.stream.advance() {
                            Some(pc) => pc,
                            None => unreached(),
                        };
                        return Ok(Token::new(pos, TokenType::LeftParen));
                    } else if c == ')' {
                        let (pos, _c1) = match self.stream.advance() {
                            Some(pc) => pc,
                            None => unreached(),
                        };
                        return Ok(Token::new(pos, TokenType::RightParen));
                    } else if c.is_whitespace() {
                        let _ws = self.stream.advance();
                    } else if check_ascii_digit(c) {
                        return self.read_numeric();
                    } else if c.is_alphabetic() {
                        return self.read_ident();
                    } else {
                        let (pos, _c1) = match self.stream.advance() {
                            Some(pc) => pc,
                            None => unreached(),
                        };
                        return Err(
                            LexError { position: pos, kind: LexErrorKind::UnrecognizedCharacter },
                        );
                    }
                },
            }
        }
    }

    /// Scans the whole input: every token in source order, excluding the
    /// terminal end-of-input marker, or the first error.  The result is
    /// exactly what [`spec_scan_from`] gives for the input.
    pub fn get_token_stream(&mut self) -> (r: Result<Vec<Token>, LexError>)
        requires
            old(self).wf(),
        ensures
            final(self).wf(),
            match r {
                Ok(tokens) => spec_scan_from(old(self).file(), old(self).src(), old(self).cursor())
                    == Ok::<Seq<TokenV>, LexErrorV>(token_views(tokens@)),
                Err(e) => spec_scan_from(old(self).file(), old(self).src(), old(self).cursor())
                    == Err::<Seq<TokenV>, LexErrorV>(e@),
            },
    {
        let ghost text = self.stream.src();
        let ghost file = self.stream.file();
        let ghost i_start = self.stream.cursor();
        let mut tokens: Vec<Token> = Vec::new();
        loop
            invariant
                self.wf(),
                self.src() == text,
                self.file() == file,
                text == old(self).src(),
                file == old(self).file(),
                i_start == old(self).cursor(),
                0 <= self.cursor() <= text.len(),
                spec_scan_from(file, text, i_start) == scan_prepend(
                    token_views(tokens@),
                    spec_scan_from(file, text, self.cursor()),
                ),
            decreases text.len() - self.cursor(),
        {
            let ghost cur = self.cursor();
            let ghost toks0 = tokens@;
            let t = match self.read_next_token() {
                Ok(t) => t,
                Err(e) => {
                    return Err(e);
                },
            };
            let is_eof = match &t.token_type {
                TokenType::EOF => true,
                _ => false,
            };
            if is_eof {
                proof {
                    lemma_spec_next_props(file, text, cur);
                    assert(spec_next(file, text, cur) is End);
                    assert(token_views(toks0) + Seq::<TokenV>::empty() =~= token_views(toks0));
                }
                return Ok(tokens);
            }
            proof {
                lemma_spec_next_props(file, text, cur);
            }
            tokens.push(t);
            proof {
                assert(token_views(toks0.push(t)) =~= token_views(toks0).push(t@));
                match spec_next(file, text, cur) {
                    NextV::Tok(tv, j) => {
                        match spec_scan_from(file, text, j) {
                            Ok(rest) => {
                                assert(token_views(toks0) + (seq![tv] + rest) =~= token_views(
                                    toks0,
                                ).push(t@) + rest);
                            },
                            Err(_) => {},
                        }
                    },
                    _ => {
                        assert(false);
                    },
                }
            }
        }
    }
}

} // verus!
