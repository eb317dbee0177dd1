use vstd::prelude::*;

use crate::chars::digit_char_value;
use crate::chars::is_ascii_digit_char;
use crate::chars::is_unicode_alphabetic;
use crate::chars::is_unicode_alphanumeric;
use crate::chars::is_unicode_whitespace;
use crate::token::FilePositionV;
use crate::token::LexErrorKind;
use crate::token::LexErrorV;
use crate::token::Token;
use crate::token::TokenTypeV;
use crate::token::TokenV;

verus! {

/// Number of newline characters among the first `i` characters of `text`:
/// the zero-based line number of the character at index `i`.
pub open spec fn line_at(text: Seq<char>, i: int) -> nat
    decreases i,
{
    if i <= 0 {
        0
    } else if text[i - 1] == '\n' {
        line_at(text, i - 1) + 1
    } else {
        line_at(text, i - 1)
    }
}

/// Number of characters between the last newline before index `i` (or the
/// start of `text`) and index `i`: the zero-based column of the character at
/// index `i`.
pub open spec fn col_at(text: Seq<char>, i: int) -> nat
    decreases i,
{
    if i <= 0 {
        0
    } else if text[i - 1] == '\n' {
        0
    } else {
        col_at(text, i - 1) + 1
    }
}

/// The file position of the character at index `i` of `text`.
pub open spec fn pos_at(file: Seq<char>, text: Seq<char>, i: int) -> FilePositionV {
    FilePositionV { file, line: line_at(text, i), offset: col_at(text, i) }
}

/// The two character classes that are scanned greedily.
pub enum CharClass {
    Digit,
    Alphanumeric,
}

/// Whether `c` belongs to the class `cls`.
pub open spec fn in_class(cls: CharClass, c: char) -> bool {
    match cls {
        CharClass::Digit => is_ascii_digit_char(c),
        CharClass::Alphanumeric => is_unicode_alphanumeric(c),
    }
}

/// The first index at or after `i` whose character is not in `cls` (or the
/// end of `text`): where a greedy scan of the class stops.
pub open spec fn run_end(text: Seq<char>, i: int, cls: CharClass) -> int
    decreases text.len() - i,
{
    if 0 <= i < text.len() && in_class(cls, text[i]) {
        run_end(text, i + 1, cls)
    } else {
        i
    }
}

/// The numeric value of a sequence of decimal digit characters read in the
/// usual most-significant-first order.
pub open spec fn digits_val(digits: Seq<char>) -> int
    decreases digits.len(),
{
    if digits.len() == 0 {
        0
    } else {
        digits_val(digits.drop_last()) * 10 + digit_char_value(digits.last())
    }
}

/// What one step of the scanner produces: a token and the index at which
/// scanning resumes, the end of the input, or an error.
pub enum NextV {
    Tok(TokenV, int),
    End,
    Fail(LexErrorV),
}

/// The dispatch rule of the token builder, applied at index `i` of `text`:
/// skip whitespace, then classify by the first character.  Every token is
/// anchored at the position of its first character.
pub open spec fn spec_next(file: Seq<char>, text: Seq<char>, i: int) -> NextV
    decreases text.len() - i,
{
    if !(0 <= i < text.len()) {
        NextV::End
    } else {
        let c = text[i];
        if c == ':' {
            if i + 1 < text.len() && text[i + 1] == '=' {
                NextV::Tok(
                    TokenV { position: pos_at(file, text, i), token_type: TokenTypeV::Assign },
                    i + 2,
                )
            } else {
                NextV::Fail(
                    LexErrorV {
                        position: pos_at(file, text, i),
                        kind: LexErrorKind::MalformedAssignment,
                    },
                )
            }
        } else if c == '[' {
            NextV::Tok(
                TokenV { position: pos_at(file, text, i), token_type: TokenTypeV::LeftBracket },
                i + 1,
            )
        } else if c == ']' {
            NextV::Tok(
                TokenV { position: pos_at(file, text, i), token_type: TokenTypeV::RightBracket },
                i + 1,
            )
        } else if c == '(' {
            NextV::Tok(
                TokenV { position: pos_at(file, text, i), token_type: TokenTypeV::LeftParen },
                i + 1,
            )
        } else if c == ')' {
            NextV::Tok(
                TokenV { position: pos_at(file, text, i), token_type: TokenTypeV::RightParen },
                i + 1,
            )
        } else if is_unicode_whitespace(c) {
            spec_next(file, text, i + 1)
        } else if is_ascii_digit_char(c) {
            let j = run_end(text, i + 1, CharClass::Digit);
            let v = digits_val(text.subrange(i, j));
            if v <= u32::MAX {
                NextV::Tok(
                    TokenV {
                        position: pos_at(file, text, i),
                        token_type: TokenTypeV::NaturalNumber(v as nat),
                    },
                    j,
                )
            } else {
                NextV::Fail(
                    LexErrorV {
                        position: pos_at(file, text, i),
                        kind: LexErrorKind::NumericOverflow,
                    },
                )
            }
        } else if is_unicode_alphabetic(c) {
            let j = run_end(text, i + 1, CharClass::Alphanumeric);
            NextV::Tok(
                TokenV {
                    position: pos_at(file, text, i),
                    token_type: TokenTypeV::Ident(text.subrange(i, j)),
                },
                j,
            )
        } else {
            NextV::Fail(
                LexErrorV {
                    position: pos_at(file, text, i),
                    kind: LexErrorKind::UnrecognizedCharacter,
                },
            )
        }
    }
}

/// The token sequence that scanning `text` from index `i` produces, or the
/// first error.  The terminal end-of-input marker is never part of the
/// sequence.
pub open spec fn spec_scan_from(file: Seq<char>, text: Seq<char>, i: int) -> Result<
    Seq<TokenV>,
    LexErrorV,
>
    decreases text.len() - i,
{
    match spec_next(file, text, i) {
        NextV::End => Ok(Seq::empty()),
        NextV::Fail(e) => Err(e),
        NextV::Tok(t, j) => {
            // a successful step always advances and stays inside the text
            // (lemma_spec_next_props); the guard keeps the recursion well
            // founded without appealing to that lemma here
            if i < j <= text.len() {
                match spec_scan_from(file, text, j) {
                    Ok(rest) => Ok(seq![t] + rest),
                    Err(e) => Err(e),
                }
            } else {
                Ok(Seq::empty())
            }
        },
    }
}

/// `rest` with the already-scanned tokens `ts` in front, unless `rest` is an
/// error, which is surfaced unchanged.
pub open spec fn scan_prepend(ts: Seq<TokenV>, rest: Result<Seq<TokenV>, LexErrorV>) -> Result<
    Seq<TokenV>,
    LexErrorV,
> {
    match rest {
        Ok(more) => Ok(ts + more),
        Err(e) => Err(e),
    }
}

/// The views of a sequence of tokens.
pub open spec fn token_views(tokens: Seq<Token>) -> Seq<TokenV> {
    tokens.map_values(|t: Token| t@)
}

/// Line and column numbers never exceed the index they are taken at.
pub proof fn lemma_line_col_le(text: Seq<char>, i: int)
    requires
        0 <= i,
    ensures
        line_at(text, i) <= i,
        col_at(text, i) <= i,
    decreases i,
{
    if i > 0 {
        lemma_line_col_le(text, i - 1);
    }
}

/// Greedy maximal munch: the run of class `cls` starting at `i` covers every
/// consecutive character of the class and stops exactly at the first
/// character that fails it, which it does not cover.
pub proof fn lemma_greedy_maximal_munch(text: Seq<char>, i: int, cls: CharClass)
    requires
        0 <= i <= text.len(),
    ensures
        i <= run_end(text, i, cls) <= text.len(),
        forall|k: int| i <= k < run_end(text, i, cls) ==> in_class(cls, text[k]),
        run_end(text, i, cls) < text.len() ==> !in_class(cls, text[run_end(text, i, cls)]),
    decreases text.len() - i,
{
    if i < text.len() && in_class(cls, text[i]) {
        lemma_greedy_maximal_munch(text, i + 1, cls);
    }
}

/// A greedy run stops at `j`, and nowhere else, exactly when all characters
/// before `j` are in the class and the character at `j` (if any) is not.
pub proof fn lemma_run_end_is(text: Seq<char>, i: int, j: int, cls: CharClass)
    requires
        0 <= i <= j <= text.len(),
        forall|k: int| i <= k < j ==> in_class(cls, text[k]),
        j == text.len() || !in_class(cls, text[j]),
    ensures
        run_end(text, i, cls) == j,
    decreases j - i,
{
    if i < j {
        lemma_run_end_is(text, i + 1, j, cls);
    }
}

/// The value of a digit run is never negative.
pub proof fn lemma_digits_val_nonneg(digits: Seq<char>)
    requires
        forall|k: int| 0 <= k < digits.len() ==> is_ascii_digit_char(#[trigger] digits[k]),
    ensures
        digits_val(digits) >= 0,
    decreases digits.len(),
{
    if digits.len() > 0 {
        assert(forall|k: int|
            0 <= k < digits.drop_last().len() ==> is_ascii_digit_char(
                #[trigger] digits.drop_last()[k],
            ));
        lemma_digits_val_nonneg(digits.drop_last());
    }
}

/// Extending a digit run never shrinks its value: the value of a prefix is
/// at most the value of the whole run.
pub proof fn lemma_digits_val_prefix_le(digits: Seq<char>, m: int)
    requires
        0 <= m <= digits.len(),
        forall|k: int| 0 <= k < digits.len() ==> is_ascii_digit_char(#[trigger] digits[k]),
    ensures
        digits_val(digits.subrange(0, m)) <= digits_val(digits),
    decreases digits.len(),
{
    if m == digits.len() {
        assert(digits.subrange(0, m) =~= digits);
    } else {
        let dl = digits.drop_last();
        assert(forall|k: int|
            0 <= k < dl.len() ==> is_ascii_digit_char(#[trigger] dl[k]));
        lemma_digits_val_nonneg(dl);
        lemma_digits_val_prefix_le(dl, m);
        assert(digits.subrange(0, m) =~= dl.subrange(0, m));
    }
}

/// A successful step always consumes at least one character, never runs past
/// the end of the input, never yields the end-of-input marker as a token,
/// and anchors its token at the position of a character it consumed.
pub proof fn lemma_spec_next_props(file: Seq<char>, text: Seq<char>, i: int)
    requires
        0 <= i <= text.len(),
    ensures
        match spec_next(file, text, i) {
            NextV::Tok(t, j) => {
                &&& i < j <= text.len()
                &&& !(t.token_type is EOF)
                &&& exists|idx: int|
                    i <= idx < j && t.position == pos_at(file, text, idx)
            },
            _ => true,
        },
    decreases text.len() - i,
{
    if 0 <= i < text.len() {
        let c = text[i];
        if c == ':' || c == '[' || c == ']' || c == '(' || c == ')' {
            match spec_next(file, text, i) {
                NextV::Tok(t, j) => {
                    assert(i <= i < j && t.position == pos_at(file, text, i));
                },
                _ => {},
            }
        } else if is_unicode_whitespace(c) {
            lemma_spec_next_props(file, text, i + 1);
            match spec_next(file, text, i) {
                NextV::Tok(t, j) => {
                    let idx = choose|idx: int|
                        i + 1 <= idx < j && t.position == pos_at(file, text, idx);
                    assert(i <= idx < j && t.position == pos_at(file, text, idx));
                },
                _ => {},
            }
        } else if is_ascii_digit_char(c) {
            lemma_greedy_maximal_munch(text, i + 1, CharClass::Digit);
            match spec_next(file, text, i) {
                NextV::Tok(t, j) => {
                    assert(i <= i < j && t.position == pos_at(file, text, i));
                },
                _ => {},
            }
        } else if is_unicode_alphabetic(c) {
            lemma_greedy_maximal_munch(text, i + 1, CharClass::Alphanumeric);
            match spec_next(file, text, i) {
                NextV::Tok(t, j) => {
                    assert(i <= i < j && t.position == pos_at(file, text, i));
                },
                _ => {},
            }
        }
    }
}

/// Strict lexicographic order on file positions: earlier line, or same line
/// and earlier column.
pub open spec fn pos_lt(a: FilePositionV, b: FilePositionV) -> bool {
    a.line < b.line || (a.line == b.line && a.offset < b.offset)
}

/// `p` is the position of an input character whose index lies in
/// `[lo, hi)`.
pub open spec fn pos_between(
    file: Seq<char>,
    text: Seq<char>,
    p: FilePositionV,
    lo: int,
    hi: int,
) -> bool {
    exists|idx: int| lo <= idx < hi && p == pos_at(file, text, idx)
}

/// Walking forward through the text strictly increases the position, in
/// lexicographic `(line, offset)` order.
pub proof fn lemma_pos_at_lt(file: Seq<char>, text: Seq<char>, i: int, j: int)
    requires
        0 <= i < j <= text.len(),
    ensures
        pos_lt(pos_at(file, text, i), pos_at(file, text, j)),
    decreases j - i,
{
    if j == i + 1 {
        if text[i] == '\n' {
            assert(line_at(text, j) == line_at(text, i) + 1);
        } else {
            assert(line_at(text, j) == line_at(text, i));
            assert(col_at(text, j) == col_at(text, i) + 1);
        }
    } else {
        lemma_pos_at_lt(file, text, i, j - 1);
        lemma_pos_at_lt(file, text, j - 1, j);
    }
}

/// Order preservation: on success, every emitted token is anchored at the
/// position of an input character (so every position lies within the bounds
/// of the input), and positions strictly increase in lexicographic
/// `(line, offset)` order along the token sequence.
pub proof fn lemma_token_positions_ordered(file: Seq<char>, text: Seq<char>, i: int)
    requires
        0 <= i <= text.len(),
    ensures
        match spec_scan_from(file, text, i) {
            Ok(toks) => {
                &&& forall|k: int|
                    0 <= k < toks.len() ==> #[trigger] pos_between(
                        file,
                        text,
                        toks[k].position,
                        i,
                        text.len() as int,
                    )
                &&& forall|k1: int, k2: int|
                    0 <= k1 < k2 < toks.len() ==> pos_lt(toks[k1].position, toks[k2].position)
            },
            Err(_) => true,
        },
    decreases text.len() - i,
{
    lemma_spec_next_props(file, text, i);
    match spec_next(file, text, i) {
        NextV::Tok(t, j) => {
            lemma_token_positions_ordered(file, text, j);
            match spec_scan_from(file, text, j) {
                Ok(rest) => {
                    let toks = seq![t] + rest;
                    assert(spec_scan_from(file, text, i) == Ok::<Seq<TokenV>, LexErrorV>(toks));
                    let ti = choose|idx: int| i <= idx < j && t.position == pos_at(file, text, idx);
                    assert(i <= ti < j && t.position == pos_at(file, text, ti));
                    assert forall|k: int|
                        0 <= k < toks.len() implies #[trigger] pos_between(
                        file,
                        text,
                        toks[k].position,
                        i,
                        text.len() as int,
                    ) by {
                        if k == 0 {
                            assert(toks[0] == t);
                            assert(i <= ti < text.len() as int && toks[0].position == pos_at(
                                file,
                                text,
                                ti,
                            ));
                        } else {
                            assert(toks[k] == rest[k - 1]);
                            assert(pos_between(
                                file,
                                text,
                                rest[k - 1].position,
                                j,
                                text.len() as int,
                            ));
                            let idx = choose|idx: int|
                                j <= idx < text.len() as int && rest[k - 1].position == pos_at(
                                    file,
                                    text,
                                    idx,
                                );
                            assert(i <= idx < text.len() as int && toks[k].position == pos_at(
                                file,
                                text,
                                idx,
                            ));
                        }
                    };
                    assert forall|k1: int, k2: int|
                        0 <= k1 < k2 < toks.len() implies pos_lt(
                        toks[k1].position,
                        toks[k2].position,
                    ) by {
                        if k1 == 0 {
                            assert(toks[0] == t);
                            assert(toks[k2] == rest[k2 - 1]);
                            assert(pos_between(
                                file,
                                text,
                                rest[k2 - 1].position,
                                j,
                                text.len() as int,
                            ));
                            let idx2 = choose|idx: int|
                                j <= idx < text.len() as int && rest[k2 - 1].position == pos_at(
                                    file,
                                    text,
                                    idx,
                                );
                            lemma_pos_at_lt(file, text, ti, idx2);
                        } else {
                            assert(toks[k1] == rest[k1 - 1]);
                            assert(toks[k2] == rest[k2 - 1]);
                        }
                    };
                },
                Err(_) => {},
            }
        },
        _ => {},
    }
}

/// The number of newline characters in `text`.
pub open spec fn newline_count(text: Seq<char>) -> nat {
    text.filter(|c: char| c == '\n').len()
}

/// Newline accounting: the line number at index `i` equals the number of
/// newline characters among the characters before `i`, and the column at
/// index `i` counts exactly the characters since the last newline (or since
/// the start of the input).
pub proof fn lemma_newline_accounting(text: Seq<char>, i: int)
    requires
        0 <= i <= text.len(),
    ensures
        line_at(text, i) == newline_count(text.subrange(0, i)),
        col_at(text, i) <= i,
        forall|k: int| i - col_at(text, i) <= k < i ==> text[k] != '\n',
        i == col_at(text, i) || text[i - col_at(text, i) - 1] == '\n',
    decreases i,
{
    reveal_with_fuel(Seq::<char>::filter, 2);
    if i == 0 {
        assert(text.subrange(0, 0) =~= Seq::<char>::empty());
    } else {
        lemma_newline_accounting(text, i - 1);
        let s = text.subrange(0, i);
        assert(s.drop_last() =~= text.subrange(0, i - 1));
        assert(s.last() == text[i - 1]);
    }
}

/// Idempotent re-scan: the outcome of a scan is a function of the file
/// label and the text alone, so scanning the same pair twice yields
/// identical token sequences (or the identical error).
pub proof fn lemma_scan_deterministic(
    file: Seq<char>,
    text: Seq<char>,
    r1: Result<Seq<TokenV>, LexErrorV>,
    r2: Result<Seq<TokenV>, LexErrorV>,
)
    requires
        r1 == spec_scan_from(file, text, 0),
        r2 == spec_scan_from(file, text, 0),
    ensures
        r1 == r2,
{
}

/// Newline accounting for emitted tokens: every token of a successful scan
/// is anchored at an input index `idx`; its line number is exactly the
/// number of newline characters before `idx`, and its offset counts exactly
/// the characters since the last newline before `idx` (or since the start
/// of the input).
pub proof fn lemma_token_newline_accounting(file: Seq<char>, text: Seq<char>, i: int, k: int)
    requires
        0 <= i <= text.len(),
        spec_scan_from(file, text, i) is Ok,
        0 <= k < spec_scan_from(file, text, i)->Ok_0.len(),
    ensures
        ({
            let t = spec_scan_from(file, text, i)->Ok_0[k];
            exists|idx: int|
                {
                    &&& 0 <= idx < text.len()
                    &&& t.position == pos_at(file, text, idx)
                    &&& t.position.line == newline_count(text.subrange(0, idx))
                    &&& (forall|m: int| idx - t.position.offset <= m < idx ==> text[m] != '\n')
                    &&& (idx == t.position.offset || text[idx - t.position.offset - 1] == '\n')
                }
        }),
{
    lemma_token_positions_ordered(file, text, i);
    let t = spec_scan_from(file, text, i)->Ok_0[k];
    assert(pos_between(file, text, t.position, i, text.len() as int));
    let idx = choose|idx: int| i <= idx < text.len() as int && t.position == pos_at(file, text, idx);
    lemma_newline_accounting(text, idx);
    assert({
        &&& 0 <= idx < text.len()
        &&& t.position == pos_at(file, text, idx)
        &&& t.position.line == newline_count(text.subrange(0, idx))
        &&& (forall|m: int| idx - t.position.offset <= m < idx ==> text[m] != '\n')
        &&& (idx == t.position.offset || text[idx - t.position.offset - 1] == '\n')
    });
}

} // verus!
