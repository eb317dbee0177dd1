//! Lexical analysis for a small bracket-and-keyword language.
//!
//! Raw source text is turned into an ordered sequence of typed tokens, each
//! annotated with the file position of its first character.  The crate has
//! two layers: a position-tracked character cursor ([`CharStream`]) and a
//! token builder ([`TokenBuilder`]) that dispatches on one character of
//! lookahead.  The intended meaning of a scan is stated once, by the
//! specification functions around [`spec_scan_from`], and every executable
//! function is verified against it; the `lemma_` proof functions state the
//! general laws of the scanner.

mod builder;
mod chars;
mod scan;
mod token;

pub use builder::CharStream;
pub use builder::TokenBuilder;
pub use chars::check_ascii_digit;
pub use chars::digit_char_value;
pub use chars::is_ascii_digit_char;
pub use chars::is_unicode_alphabetic;
pub use chars::is_unicode_alphanumeric;
pub use chars::is_unicode_whitespace;
pub use scan::col_at;
pub use scan::digits_val;
pub use scan::in_class;
pub use scan::lemma_digits_val_nonneg;
pub use scan::lemma_digits_val_prefix_le;
pub use scan::lemma_greedy_maximal_munch;
pub use scan::lemma_line_col_le;
pub use scan::lemma_newline_accounting;
pub use scan::lemma_pos_at_lt;
pub use scan::lemma_run_end_is;
pub use scan::lemma_scan_deterministic;
pub use scan::lemma_spec_next_props;
pub use scan::lemma_token_newline_accounting;
pub use scan::lemma_token_positions_ordered;
pub use scan::line_at;
pub use scan::newline_count;
pub use scan::pos_at;
pub use scan::pos_between;
pub use scan::pos_lt;
pub use scan::run_end;
pub use scan::scan_prepend;
pub use scan::spec_next;
pub use scan::spec_scan_from;
pub use scan::token_views;
pub use scan::CharClass;
pub use scan::NextV;
pub use token::spec_digit_count;
pub use token::spec_token_len;
pub use token::FilePosition;
pub use token::FilePositionV;
pub use token::LexError;
pub use token::LexErrorKind;
pub use token::LexErrorV;
pub use token::Token;
pub use token::TokenType;
pub use token::TokenTypeV;
pub use token::TokenV;
