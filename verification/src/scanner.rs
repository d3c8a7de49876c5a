use vstd::prelude::*;

use crate::errors::{LoxError, SpecError};
use crate::text::text_equals;
use crate::token::{SpecToken, SpecTokenType, Token, TokenType};

verus! {

// ---------------------------------------------------------------------------
// Character classes
// ---------------------------------------------------------------------------

/// Whether `char::is_alphabetic` holds of `c` (the Unicode `Alphabetic` property).
pub uninterp spec fn spec_is_alphabetic(c: char) -> bool;

/// Whether `char::is_alphanumeric` holds of `c` (`Alphabetic` or `Numeric`).
pub uninterp spec fn spec_is_alphanumeric(c: char) -> bool;

/// Calls `char::is_alphabetic`. Its result is named `spec_is_alphabetic`;
/// for ASCII characters it holds exactly of the letters `a`-`z` and `A`-`Z`.
#[verifier::external_body]
fn is_alphabetic(c: char) -> (r: bool)
    ensures
        r == spec_is_alphabetic(c),
        (c as u32) < 128 ==> (r <==> (('a' <= c && c <= 'z') || ('A' <= c && c <= 'Z'))),
{
    c.is_alphabetic()
}

/// Calls `char::is_alphanumeric`. Its result is named `spec_is_alphanumeric`;
/// for ASCII characters it holds exactly of the letters and the digits.
#[verifier::external_body]
fn is_alphanumeric(c: char) -> (r: bool)
    ensures
        r == spec_is_alphanumeric(c),
        (c as u32) < 128 ==> (r <==> (('a' <= c && c <= 'z') || ('A' <= c && c <= 'Z') || ('0'
            <= c && c <= '9'))),
{
    c.is_alphanumeric()
}

/// A letter: for an ASCII character one of `a`-`z` and `A`-`Z`, otherwise
/// what `char::is_alphabetic` says.
pub open spec fn is_letter(c: char) -> bool {
    if (c as u32) < 128 {
        ('a' <= c && c <= 'z') || ('A' <= c && c <= 'Z')
    } else {
        spec_is_alphabetic(c)
    }
}

/// A letter or a numeral: for an ASCII character a letter or one of
/// `0`-`9`, otherwise what `char::is_alphanumeric` says.
pub open spec fn is_letter_or_numeral(c: char) -> bool {
    if (c as u32) < 128 {
        ('a' <= c && c <= 'z') || ('A' <= c && c <= 'Z') || ('0' <= c && c <= '9')
    } else {
        spec_is_alphanumeric(c)
    }
}

/// An ASCII decimal digit.
pub open spec fn is_digit(c: char) -> bool {
    '0' <= c && c <= '9'
}

/// A character that may continue an identifier.
pub open spec fn is_identifier_char(c: char) -> bool {
    is_letter_or_numeral(c) || c == '_'
}

fn is_ascii_digit(c: char) -> (r: bool)
    ensures
        r == is_digit(c),
{
    '0' <= c && c <= '9'
}

// ---------------------------------------------------------------------------
// The lexical grammar, over the source `s` and a position `i` in it
// ---------------------------------------------------------------------------

/// The end of the run of digits that starts at `i`.
pub open spec fn digits_end(s: Seq<char>, i: int) -> int
    decreases s.len() - i,
{
    if 0 <= i < s.len() && is_digit(s[i]) {
        digits_end(s, i + 1)
    } else {
        i
    }
}

/// The end of the run of identifier characters that starts at `i`.
pub open spec fn identifier_end(s: Seq<char>, i: int) -> int
    decreases s.len() - i,
{
    if 0 <= i < s.len() && is_identifier_char(s[i]) {
        identifier_end(s, i + 1)
    } else {
        i
    }
}

/// The position just after the first newline at or after `i`, or the end of `s`.
pub open spec fn comment_end(s: Seq<char>, i: int) -> int
    decreases s.len() - i,
{
    if i < 0 || i >= s.len() {
        s.len() as int
    } else if s[i] == '\n' {
        i + 1
    } else {
        comment_end(s, i + 1)
    }
}

/// The position of the first `"` at or after `i`, or the end of `s` if there is none.
pub open spec fn quote_at_or_after(s: Seq<char>, i: int) -> int
    decreases s.len() - i,
{
    if i < 0 || i >= s.len() {
        s.len() as int
    } else if s[i] == '"' {
        i
    } else {
        quote_at_or_after(s, i + 1)
    }
}

/// The number of newlines in `s[i..j]`.
pub open spec fn newlines(s: Seq<char>, i: int, j: int) -> nat
    decreases j - i,
{
    if j <= i {
        0
    } else {
        newlines(s, i, j - 1) + if s[j - 1] == '\n' {
            1nat
        } else {
            0nat
        }
    }
}

/// The kind of token that a keyword stands for, if `word` is one.
pub open spec fn keyword_kind(word: Seq<char>) -> Option<SpecTokenType> {
    if word == "and"@ {
        Some(SpecTokenType::And)
    } else if word == "class"@ {
        Some(SpecTokenType::Class)
    } else if word == "else"@ {
        Some(SpecTokenType::Else)
    } else if word == "false"@ {
        Some(SpecTokenType::False)
    } else if word == "for"@ {
        Some(SpecTokenType::For)
    } else if word == "fun"@ {
        Some(SpecTokenType::Fun)
    } else if word == "if"@ {
        Some(SpecTokenType::If)
    } else if word == "nil"@ {
        Some(SpecTokenType::Nil)
    } else if word == "or"@ {
        Some(SpecTokenType::Or)
    } else if word == "print"@ {
        Some(SpecTokenType::Print)
    } else if word == "return"@ {
        Some(SpecTokenType::Return)
    } else if word == "super"@ {
        Some(SpecTokenType::Super)
    } else if word == "this"@ {
        Some(SpecTokenType::This)
    } else if word == "true"@ {
        Some(SpecTokenType::True)
    } else if word == "var"@ {
        Some(SpecTokenType::Var)
    } else if word == "while"@ {
        Some(SpecTokenType::While)
    } else {
        None
    }
}

/// What the characters from one position on stand for.
pub enum Lexeme {
    /// White space or a comment.
    Skip,
    Token(SpecTokenType),
    Error { character: char, message: Seq<char> },
}

/// The kind of token of one or two characters that starts with `c`, where
/// `next` is the character after it (`None` at the end of the source).
pub open spec fn operator_kind(c: char, next: Option<char>) -> Option<(SpecTokenType, int)> {
    let eq = next == Some('=');
    match c {
        '(' => Some((SpecTokenType::LeftParen, 1)),
        ')' => Some((SpecTokenType::RightParen, 1)),
        '{' => Some((SpecTokenType::LeftBrace, 1)),
        '}' => Some((SpecTokenType::RightBrace, 1)),
        ',' => Some((SpecTokenType::Comma, 1)),
        '.' => Some((SpecTokenType::Dot, 1)),
        '-' => Some((SpecTokenType::Minus, 1)),
        '+' => Some((SpecTokenType::Plus, 1)),
        ';' => Some((SpecTokenType::Semicolon, 1)),
        '*' => Some((SpecTokenType::Star, 1)),
        '!' => if eq {
            Some((SpecTokenType::BangEqual, 2))
        } else {
            Some((SpecTokenType::Bang, 1))
        },
        '=' => if eq {
            Some((SpecTokenType::EqualEqual, 2))
        } else {
            Some((SpecTokenType::Equal, 1))
        },
        '<' => if eq {
            Some((SpecTokenType::LessEqual, 2))
        } else {
            Some((SpecTokenType::Less, 1))
        },
        '>' => if eq {
            Some((SpecTokenType::GreaterEqual, 2))
        } else {
            Some((SpecTokenType::Greater, 1))
        },
        _ => None,
    }
}

/// The character at `i`, if there is one.
pub open spec fn char_at(s: Seq<char>, i: int) -> Option<char> {
    if 0 <= i < s.len() {
        Some(s[i])
    } else {
        None
    }
}

/// The number literal whose first character `c` was read just before
/// position `j`, and the position after it. A fraction needs a digit after
/// the dot; a dot with no digit after it is consumed and dropped.
pub open spec fn number_lexeme(c: char, s: Seq<char>, j: int) -> (SpecTokenType, int) {
    let d1 = digits_end(s, j);
    if char_at(s, d1) == Some('.') {
        if d1 + 1 < s.len() && is_digit(s[d1 + 1]) {
            let d2 = digits_end(s, d1 + 1);
            (SpecTokenType::Number(seq![c] + s.subrange(j, d2)), d2)
        } else {
            (SpecTokenType::Number(seq![c] + s.subrange(j, d1)), d1 + 1)
        }
    } else {
        (SpecTokenType::Number(seq![c] + s.subrange(j, d1)), d1)
    }
}

/// The identifier or keyword whose first character `c` was read just
/// before position `j`, and the position after it.
pub open spec fn word_lexeme(c: char, s: Seq<char>, j: int) -> (SpecTokenType, int) {
    let e = identifier_end(s, j);
    let word = seq![c] + s.subrange(j, e);
    match keyword_kind(word) {
        Some(k) => (k, e),
        None => (SpecTokenType::Identifier(word), e),
    }
}

/// What the character `c`, read just before position `j`, and the
/// characters from `j` on stand for, where the scanner is at line `line`:
/// the lexeme, the position after it, and the line after it. A `//` comment
/// runs to the end of its line; the newline that ends it does not advance
/// the line count.
pub open spec fn lex_first(c: char, s: Seq<char>, j: int, line: nat) -> (Lexeme, int, nat) {
    let next = char_at(s, j);
    if let Some((kind, n)) = operator_kind(c, next) {
        (Lexeme::Token(kind), j - 1 + n, line)
    } else if c == '/' {
        if next == Some('/') {
            (Lexeme::Skip, comment_end(s, j + 1), line)
        } else {
            (Lexeme::Token(SpecTokenType::Slash), j, line)
        }
    } else if c == ' ' || c == '\r' || c == '\t' {
        (Lexeme::Skip, j, line)
    } else if c == '\n' {
        (Lexeme::Skip, j, line + 1)
    } else if c == '"' {
        let close = quote_at_or_after(s, j);
        if close < s.len() {
            (
                Lexeme::Token(SpecTokenType::String(s.subrange(j, close))),
                close + 1,
                line + newlines(s, j, close),
            )
        } else {
            (
                Lexeme::Error { character: '"', message: "Unterminated string"@ },
                s.len() as int,
                line + newlines(s, j, s.len() as int),
            )
        }
    } else if is_digit(c) {
        let (kind, end) = number_lexeme(c, s, j);
        (Lexeme::Token(kind), end, line)
    } else if is_letter(c) || c == '_' {
        let (kind, end) = word_lexeme(c, s, j);
        (Lexeme::Token(kind), end, line)
    } else {
        (Lexeme::Error { character: c, message: "Bad input token"@ }, j, line)
    }
}

/// What the characters from `i` on stand for, where the scanner is at line
/// `line`: the lexeme, the position after it, and the line after it.
pub open spec fn lex_at(s: Seq<char>, i: int, line: nat) -> (Lexeme, int, nat)
    recommends
        0 <= i < s.len(),
{
    lex_first(s[i], s, i + 1, line)
}

/// The text of the source from `i`, starting with the character there.
proof fn lemma_text_from(s: Seq<char>, i: int, k: int)
    requires
        0 <= i < k <= s.len(),
    ensures
        seq![s[i]] + s.subrange(i + 1, k) == s.subrange(i, k),
{
    assert(seq![s[i]] + s.subrange(i + 1, k) =~= s.subrange(i, k));
}

proof fn lemma_digits_end(s: Seq<char>, i: int)
    requires
        0 <= i <= s.len(),
    ensures
        i <= digits_end(s, i) <= s.len(),
    decreases s.len() - i,
{
    if i < s.len() && is_digit(s[i]) {
        lemma_digits_end(s, i + 1);
    }
}

proof fn lemma_identifier_end(s: Seq<char>, i: int)
    requires
        0 <= i <= s.len(),
    ensures
        i <= identifier_end(s, i) <= s.len(),
    decreases s.len() - i,
{
    if i < s.len() && is_identifier_char(s[i]) {
        lemma_identifier_end(s, i + 1);
    }
}

proof fn lemma_comment_end(s: Seq<char>, i: int)
    requires
        0 <= i,
    ensures
        i <= comment_end(s, i) <= s.len() || (i > s.len() && comment_end(s, i) == s.len()),
    decreases s.len() - i,
{
    if i < s.len() && s[i] != '\n' {
        lemma_comment_end(s, i + 1);
    }
}

proof fn lemma_quote(s: Seq<char>, i: int)
    requires
        0 <= i <= s.len(),
    ensures
        i <= quote_at_or_after(s, i) <= s.len(),
    decreases s.len() - i,
{
    if i < s.len() && s[i] != '"' {
        lemma_quote(s, i + 1);
    }
}

/// A stretch has no more newlines than characters.
proof fn lemma_newlines_bound(s: Seq<char>, a: int, b: int)
    requires
        a <= b,
    ensures
        newlines(s, a, b) <= b - a,
    decreases b - a,
{
    if a < b {
        lemma_newlines_bound(s, a, b - 1);
    }
}

/// A lexeme read after its first character ends at or after `j` and within
/// the source, and moves the line on by at most one more than the
/// characters it reads after the first.
proof fn lemma_lex_first_progress(c: char, s: Seq<char>, j: int, line: nat)
    requires
        0 <= j <= s.len(),
    ensures
        j <= lex_first(c, s, j, line).1 <= s.len(),
        line <= lex_first(c, s, j, line).2 <= line + (lex_first(c, s, j, line).1 - j) + 1,
{
    lemma_digits_end(s, j);
    lemma_identifier_end(s, j);
    lemma_comment_end(s, j + 1);
    lemma_quote(s, j);
    lemma_newlines_bound(s, j, quote_at_or_after(s, j));
    lemma_newlines_bound(s, j, s.len() as int);
    let d1 = digits_end(s, j);
    if 0 <= d1 + 1 <= s.len() {
        lemma_digits_end(s, d1 + 1);
    }
}

/// Every lexeme is at least one character long and ends within the source.
pub proof fn lemma_lex_progress(s: Seq<char>, i: int, line: nat)
    requires
        0 <= i < s.len(),
    ensures
        i < lex_at(s, i, line).1 <= s.len(),
        lex_at(s, i, line).2 >= line,
{
    lemma_digits_end(s, i + 1);
    lemma_identifier_end(s, i + 1);
    lemma_comment_end(s, i + 2);
    lemma_quote(s, i + 1);
    let d1 = digits_end(s, i + 1);
    if 0 <= d1 + 1 <= s.len() {
        lemma_digits_end(s, d1 + 1);
    }
}

/// The next token from position `i` on, with the position and line after it:
/// white space and comments are skipped, `None` stands for the end of the
/// source. A token's lexeme is the text it was read from; its line is the
/// line the scanner is at after it.
pub open spec fn spec_next_token(s: Seq<char>, i: int, line: nat) -> (
    Option<Result<SpecToken, SpecError>>,
    int,
    nat,
)
    decreases s.len() - i,
{
    if i < 0 || i >= s.len() {
        (None, i, line)
    } else {
        let (lexeme, end, line2) = lex_at(s, i, line);
        match lexeme {
            Lexeme::Skip => {
                proof {
                    lemma_lex_progress(s, i, line);
                }
                spec_next_token(s, end, line2)
            },
            Lexeme::Token(kind) => (
                Some(Ok(SpecToken { kind, lexeme: s.subrange(i, end), line: line2 })),
                end,
                line2,
            ),
            Lexeme::Error { character, message } => (
                Some(Err(SpecError::ScannerError { line: line2, character, message })),
                end,
                line2,
            ),
        }
    }
}

pub proof fn lemma_next_token_progress(s: Seq<char>, i: int, line: nat)
    requires
        0 <= i <= s.len(),
    ensures
        spec_next_token(s, i, line).0 is Some ==> i < spec_next_token(s, i, line).1 <= s.len(),
        spec_next_token(s, i, line).2 >= line,
    decreases s.len() - i,
{
    if i < s.len() {
        lemma_lex_progress(s, i, line);
        let (lexeme, end, line2) = lex_at(s, i, line);
        if lexeme is Skip {
            lemma_next_token_progress(s, end, line2);
        }
    }
}

/// Where no token is left, the scanner has reached the end of the source.
proof fn lemma_end_of_tokens(s: Seq<char>, i: int, line: nat)
    requires
        0 <= i <= s.len(),
    ensures
        spec_next_token(s, i, line).0 is None ==> spec_next_token(s, i, line).1 == s.len(),
    decreases s.len() - i,
{
    if i < s.len() {
        lemma_lex_progress(s, i, line);
        let (lexeme, end, line2) = lex_at(s, i, line);
        if lexeme is Skip {
            lemma_end_of_tokens(s, end, line2);
        }
    }
}

/// All tokens from position `i` on, or the first error.
pub open spec fn spec_scan(s: Seq<char>, i: int, line: nat) -> Result<Seq<SpecToken>, SpecError>
    decreases s.len() - i,
{
    if i < 0 || i > s.len() {
        Ok(seq![])
    } else {
        let (next, end, line2) = spec_next_token(s, i, line);
        match next {
            None => Ok(seq![]),
            Some(Err(e)) => Err(e),
            Some(Ok(t)) => {
                proof {
                    lemma_next_token_progress(s, i, line);
                }
                match spec_scan(s, end, line2) {
                    Ok(rest) => Ok(seq![t] + rest),
                    Err(e) => Err(e),
                }
            },
        }
    }
}


/// The shape of every token the scanner makes: its lexeme is not empty; an
/// identifier is named by its lexeme, which is no keyword; a string's lexeme
/// is its text between double quotes.
pub open spec fn well_formed_token(t: SpecToken) -> bool {
    &&& t.lexeme.len() > 0
    &&& (t.kind matches SpecTokenType::Identifier(w) ==> w == t.lexeme && keyword_kind(w) is None)
    &&& (t.kind matches SpecTokenType::String(v) ==> t.lexeme == seq!['"'] + v + seq!['"'])
}

proof fn lemma_quote_found(s: Seq<char>, i: int)
    requires
        0 <= i <= s.len(),
    ensures
        quote_at_or_after(s, i) < s.len() ==> s[quote_at_or_after(s, i)] == '"',
    decreases s.len() - i,
{
    if i < s.len() && s[i] != '"' {
        lemma_quote_found(s, i + 1);
    }
}

proof fn lemma_lex_token_shape(s: Seq<char>, i: int, line: nat)
    requires
        0 <= i < s.len(),
    ensures
        lex_at(s, i, line).0 matches Lexeme::Token(kind) ==> well_formed_token(
            SpecToken { kind, lexeme: s.subrange(i, lex_at(s, i, line).1), line: lex_at(s, i, line).2 },
        ),
{
    lemma_lex_progress(s, i, line);
    lemma_quote(s, i + 1);
    lemma_quote_found(s, i + 1);
    lemma_identifier_end(s, i + 1);
    let c = s[i];
    let next = char_at(s, i + 1);
    if operator_kind(c, next) is None && c != '/' && c != ' ' && c != '\r' && c != '\t' && c
        != '\n' && c == '"' {
        let close = quote_at_or_after(s, i + 1);
        if close < s.len() {
            assert(s.subrange(i, close + 1) =~= seq!['"'] + s.subrange(i + 1, close) + seq!['"']);
        }
    }
    if i + 1 < identifier_end(s, i + 1) || identifier_end(s, i + 1) == i + 1 {
        lemma_text_from(s, i, identifier_end(s, i + 1));
    }
}

proof fn lemma_next_token_shape(s: Seq<char>, i: int, line: nat)
    requires
        0 <= i <= s.len(),
    ensures
        spec_next_token(s, i, line).0 matches Some(Ok(t)) ==> well_formed_token(t) && t.line
            == spec_next_token(s, i, line).2 && t.line >= line,
    decreases s.len() - i,
{
    if i < s.len() {
        lemma_lex_progress(s, i, line);
        lemma_lex_token_shape(s, i, line);
        let (lexeme, end, line2) = lex_at(s, i, line);
        if lexeme is Skip {
            lemma_next_token_shape(s, end, line2);
        }
    }
}

/// Every token scanned from position `i` on, at line `line`, is well
/// formed, and the tokens' lines never decrease and start at `line` or
/// later.
pub proof fn law_scanned_tokens(s: Seq<char>, i: int, line: nat)
    requires
        0 <= i <= s.len(),
    ensures
        spec_scan(s, i, line) matches Ok(ts) ==> {
            &&& forall|k: int| 0 <= k < ts.len() ==> well_formed_token(#[trigger] ts[k])
            &&& forall|k: int| 0 <= k < ts.len() ==> (#[trigger] ts[k]).line >= line
            &&& forall|a: int, b: int| 0 <= a < b < ts.len() ==> (#[trigger] ts[a]).line <= (
            #[trigger] ts[b]).line
        },
    decreases s.len() - i,
{
    lemma_next_token_progress(s, i, line);
    lemma_next_token_shape(s, i, line);
    let (next, end, line2) = spec_next_token(s, i, line);
    if let Some(Ok(t)) = next {
        law_scanned_tokens(s, end, line2);
        if let Ok(rest) = spec_scan(s, end, line2) {
            let ts = seq![t] + rest;
            assert forall|k: int| 0 <= k < ts.len() implies well_formed_token(#[trigger] ts[k])
                && ts[k].line >= line by {
                if k > 0 {
                    assert(ts[k] == rest[k - 1]);
                }
            }
            assert forall|a: int, b: int| 0 <= a < b < ts.len() implies (#[trigger] ts[a]).line
                <= (#[trigger] ts[b]).line by {
                assert(ts[b] == rest[b - 1]);
                if a > 0 {
                    assert(ts[a] == rest[a - 1]);
                }
            }
        }
    }
}

/// Whether a `//` comment starts at `i`.
pub open spec fn comment_at(s: Seq<char>, i: int) -> bool {
    0 <= i < s.len() && s[i] == '/' && char_at(s, i + 1) == Some('/')
}

/// Whether no lexeme that the scanner reads from `i` on, at line `line`, up
/// to the end of the source or the first error, is a `//` comment.
pub open spec fn comment_free(s: Seq<char>, i: int, line: nat) -> bool
    decreases s.len() - i,
{
    if i < 0 || i >= s.len() {
        true
    } else {
        let (lexeme, end, line2) = lex_at(s, i, line);
        proof {
            lemma_lex_progress(s, i, line);
        }
        !comment_at(s, i) && (lexeme is Error || comment_free(s, end, line2))
    }
}

/// The position just after each token that scanning from `i` reads.
pub open spec fn scan_ends(s: Seq<char>, i: int, line: nat) -> Seq<int>
    decreases s.len() - i,
{
    if i < 0 || i > s.len() {
        seq![]
    } else {
        let (next, end, line2) = spec_next_token(s, i, line);
        match next {
            Some(Ok(t)) => {
                proof {
                    lemma_next_token_progress(s, i, line);
                }
                seq![end] + scan_ends(s, end, line2)
            },
            _ => seq![],
        }
    }
}

/// The newlines of a stretch are those of its two parts.
proof fn lemma_newlines_split(s: Seq<char>, a: int, b: int, c: int)
    requires
        a <= b <= c,
    ensures
        newlines(s, a, c) == newlines(s, a, b) + newlines(s, b, c),
    decreases c - b,
{
    if b < c {
        lemma_newlines_split(s, a, b, c - 1);
    }
}

proof fn lemma_digits_no_newline(s: Seq<char>, i: int)
    requires
        0 <= i <= s.len(),
    ensures
        newlines(s, i, digits_end(s, i)) == 0,
    decreases s.len() - i,
{
    lemma_digits_end(s, i);
    if i < s.len() && is_digit(s[i]) {
        lemma_digits_no_newline(s, i + 1);
        lemma_digits_end(s, i + 1);
        assert(newlines(s, i, i) == 0);
        assert(newlines(s, i, i + 1) == 0);
        lemma_newlines_split(s, i, i + 1, digits_end(s, i));
    }
}

proof fn lemma_identifier_no_newline(s: Seq<char>, i: int)
    requires
        0 <= i <= s.len(),
    ensures
        newlines(s, i, identifier_end(s, i)) == 0,
    decreases s.len() - i,
{
    lemma_identifier_end(s, i);
    if i < s.len() && is_identifier_char(s[i]) {
        lemma_identifier_no_newline(s, i + 1);
        lemma_identifier_end(s, i + 1);
        assert(newlines(s, i, i) == 0);
        assert(newlines(s, i, i + 1) == 0);
        lemma_newlines_split(s, i, i + 1, identifier_end(s, i));
    }
}

/// A lexeme that is no comment moves the line on by the newlines it spans.
proof fn lemma_lex_lines(s: Seq<char>, i: int, line: nat)
    requires
        0 <= i < s.len(),
        !comment_at(s, i),
    ensures
        lex_at(s, i, line).2 == line + newlines(s, i, lex_at(s, i, line).1),
{
    lemma_lex_progress(s, i, line);
    lemma_digits_end(s, i + 1);
    lemma_identifier_end(s, i + 1);
    lemma_quote(s, i + 1);
    lemma_digits_no_newline(s, i + 1);
    lemma_identifier_no_newline(s, i + 1);
    let c = s[i];
    let next = char_at(s, i + 1);
    let end = lex_at(s, i, line).1;
    lemma_newlines_split(s, i, i + 1, end);
    assert(newlines(s, i, i) == 0);
    assert(newlines(s, i, i + 1) == if c == '\n' { 1nat } else { 0nat });
    if operator_kind(c, next) is None && c != '/' && c != ' ' && c != '\r' && c != '\t' && c
        != '\n' {
        if c == '"' {
            let close = quote_at_or_after(s, i + 1);
            if close < s.len() {
                lemma_quote_found(s, i + 1);
                lemma_newlines_split(s, i + 1, close, close + 1);
            }
        } else if is_digit(c) {
            let d1 = digits_end(s, i + 1);
            if char_at(s, d1) == Some('.') {
                if d1 + 1 < s.len() && is_digit(s[d1 + 1]) {
                    lemma_digits_no_newline(s, d1 + 1);
                    lemma_digits_end(s, d1 + 1);
                }
                lemma_newlines_split(s, i + 1, d1, end);
                lemma_newlines_split(s, d1, d1 + 1, end);
                assert(newlines(s, d1, d1) == 0);
                assert(newlines(s, d1, d1 + 1) == 0);
            }
        }
    }
}

/// Reading the next token, where no comment stands in the way, moves the
/// line on by the newlines read; the token's lexeme is the text just before
/// the position it leaves.
proof fn lemma_next_token_lines(s: Seq<char>, i: int, line: nat)
    requires
        0 <= i <= s.len(),
        comment_free(s, i, line),
    ensures
        ({
            let (next, end, line2) = spec_next_token(s, i, line);
            &&& i <= end <= s.len()
            &&& line2 == line + newlines(s, i, end)
            &&& (next matches Some(Ok(t)) ==> comment_free(s, end, line2) && t.lexeme.len()
                <= end && t.lexeme == s.subrange(end - t.lexeme.len(), end))
        }),
    decreases s.len() - i,
{
    if i < s.len() {
        lemma_lex_progress(s, i, line);
        lemma_lex_lines(s, i, line);
        let (lexeme, end, line2) = lex_at(s, i, line);
        if lexeme is Skip {
            lemma_next_token_lines(s, end, line2);
            let end2 = spec_next_token(s, end, line2).1;
            lemma_newlines_split(s, i, end, end2);
        }
    }
}

/// Where no `//` comment is read, each token scanned from `i` at line
/// `line` is the text just before the position after it, and its line is
/// `line` plus the newlines from `i` up to that position, that is up to and
/// with its last character.
pub proof fn law_token_lines(s: Seq<char>, i: int, line: nat)
    requires
        0 <= i <= s.len(),
        comment_free(s, i, line),
    ensures
        spec_scan(s, i, line) matches Ok(ts) ==> {
            let ends = scan_ends(s, i, line);
            &&& ends.len() == ts.len()
            &&& forall|k: int|
                0 <= k < ts.len() ==> i < #[trigger] ends[k] <= s.len() && ts[k].lexeme.len()
                    <= ends[k] && ts[k].lexeme == s.subrange(ends[k] - ts[k].lexeme.len(), ends[k])
                    && ts[k].line == line + newlines(s, i, ends[k])
        },
    decreases s.len() - i,
{
    lemma_next_token_progress(s, i, line);
    lemma_next_token_lines(s, i, line);
    let (next, end, line2) = spec_next_token(s, i, line);
    if let Some(Ok(t)) = next {
        lemma_next_token_shape(s, i, line);
        law_token_lines(s, end, line2);
        if let Ok(rest) = spec_scan(s, end, line2) {
            let ts = seq![t] + rest;
            let ends = seq![end] + scan_ends(s, end, line2);
            assert forall|k: int| 0 <= k < ts.len() implies i < #[trigger] ends[k] <= s.len()
                && ts[k].lexeme.len() <= ends[k] && ts[k].lexeme == s.subrange(
                ends[k] - ts[k].lexeme.len(),
                ends[k],
            ) && ts[k].line == line + newlines(s, i, ends[k]) by {
                if k > 0 {
                    assert(ts[k] == rest[k - 1]);
                    assert(ends[k] == scan_ends(s, end, line2)[k - 1]);
                    lemma_newlines_split(s, i, end, ends[k]);
                }
            }
        }
    }
}

/// Scanning from `i` reads at most one token per character left.
pub proof fn law_scan_length(s: Seq<char>, i: int, line: nat)
    requires
        0 <= i <= s.len(),
    ensures
        spec_scan(s, i, line) matches Ok(ts) ==> ts.len() <= s.len() - i,
    decreases s.len() - i,
{
    lemma_next_token_progress(s, i, line);
    let (next, end, line2) = spec_next_token(s, i, line);
    if let Some(Ok(t)) = next {
        law_scan_length(s, end, line2);
    }
}

/// A character that can start an identifier: `_`, an ASCII letter, or
/// beyond ASCII a character that `char::is_alphabetic` accepts.
pub open spec fn starts_identifier(c: char) -> bool {
    ||| c == '_'
    ||| ('a' <= c && c <= 'z')
    ||| ('A' <= c && c <= 'Z')
    ||| ((c as u32) >= 128 && spec_is_alphabetic(c))
}

/// A character that continues an identifier: `_`, an ASCII letter or digit,
/// or beyond ASCII a character that `char::is_alphanumeric` accepts.
pub open spec fn continues_identifier(c: char) -> bool {
    ||| c == '_'
    ||| ('a' <= c && c <= 'z')
    ||| ('A' <= c && c <= 'Z')
    ||| ('0' <= c && c <= '9')
    ||| ((c as u32) >= 128 && spec_is_alphanumeric(c))
}

proof fn lemma_identifier_run(s: Seq<char>, j: int)
    requires
        0 <= j <= s.len(),
    ensures
        j <= identifier_end(s, j) <= s.len(),
        forall|k: int| j <= k < identifier_end(s, j) ==> continues_identifier(#[trigger] s[k]),
        identifier_end(s, j) < s.len() ==> !continues_identifier(s[identifier_end(s, j)]),
    decreases s.len() - j,
{
    if j < s.len() && is_identifier_char(s[j]) {
        lemma_identifier_run(s, j + 1);
    }
}

/// A word that starts with a letter or `_` runs over every letter, digit and
/// `_` that follow it, and no further: it is one token, a keyword where the
/// whole word is one and otherwise an identifier named by the whole word.
pub proof fn law_identifier_is_a_maximal_run(s: Seq<char>, i: int, line: nat)
    requires
        0 <= i < s.len(),
        starts_identifier(s[i]),
    ensures
        ({
            let (lexeme, end, line2) = lex_at(s, i, line);
            let word = s.subrange(i, end);
            &&& i < end <= s.len()
            &&& line2 == line
            &&& forall|k: int| i < k < end ==> continues_identifier(#[trigger] s[k])
            &&& end < s.len() ==> !continues_identifier(s[end])
            &&& lexeme == Lexeme::Token(
                match keyword_kind(word) {
                    Some(k) => k,
                    None => SpecTokenType::Identifier(word),
                },
            )
        }),
{
    lemma_identifier_run(s, i + 1);
    let e = identifier_end(s, i + 1);
    lemma_text_from(s, i, e);
}

/// Whether the result of reading a lexeme matches its model; an error is
/// reported at the line the scanner is at after it.
pub open spec fn lexed(r: Result<Option<TokenType>, LoxError>, lexeme: Lexeme, line: nat) -> bool {
    match lexeme {
        Lexeme::Skip => r matches Ok(None),
        Lexeme::Token(kind) => r matches Ok(Some(t)) && t@ == kind,
        Lexeme::Error { character, message } => r matches Err(e) && e@ == SpecError::ScannerError {
            line,
            character,
            message,
        },
    }
}

/// The model of what `Scanner::next_token` returns.
pub open spec fn next_view(r: Option<Result<Token, LoxError>>) -> Option<Result<SpecToken, SpecError>> {
    match r {
        None => None,
        Some(Ok(t)) => Some(Ok(t@)),
        Some(Err(e)) => Some(Err(e@)),
    }
}

/// The model of what `Scanner::scan_tokens` returns.
pub open spec fn scan_view(r: Result<Vec<Token>, LoxError>) -> Result<Seq<SpecToken>, SpecError> {
    match r {
        Ok(ts) => Ok(token_views(ts@)),
        Err(e) => Err(e@),
    }
}

/// `ts` followed by the tokens of `r`, or the error of `r`.
pub open spec fn prefixed(ts: Seq<SpecToken>, r: Result<Seq<SpecToken>, SpecError>) -> Result<
    Seq<SpecToken>,
    SpecError,
> {
    match r {
        Ok(rest) => Ok(ts + rest),
        Err(e) => Err(e),
    }
}

/// The models of a sequence of tokens.
pub open spec fn token_views(ts: Seq<Token>) -> Seq<SpecToken> {
    ts.map_values(|t: Token| t@)
}

// ---------------------------------------------------------------------------
// The scanner
// ---------------------------------------------------------------------------

/// Reads the tokens of a source text one by one.
pub struct Scanner {
    chars: Vec<char>,
    current: usize,
    line: usize,
}

impl Scanner {
    /// The source text.
    pub closed spec fn source(&self) -> Seq<char> {
        self.chars@
    }

    /// The position of the next character to read.
    pub closed spec fn position(&self) -> int {
        self.current as int
    }

    /// The line the scanner is at.
    pub closed spec fn line_number(&self) -> nat {
        self.line as nat
    }

    /// The scanner's invariant.
    pub closed spec fn wf(&self) -> bool {
        &&& self.current <= self.chars.len() < usize::MAX
        &&& 1 <= self.line <= self.current + 1
    }

    /// A well-formed scanner's position lies within its source.
    pub proof fn lemma_position_in_source(&self)
        requires
            self.wf(),
        ensures
            0 <= self.position() <= self.source().len(),
            self.line_number() >= 1,
    {
    }

    /// A scanner at the start of `source`, on line 1.
    pub fn new(source: &str) -> (r: Scanner)
        requires
            source@.len() < usize::MAX,
        ensures
            r.wf(),
            r.source() == source@,
            r.position() == 0,
            r.line_number() == 1,
    {
        let mut chars: Vec<char> = Vec::new();
        for c in it: source.chars()
            invariant
                it.seq() == source@,
                chars@ == it.seq().take(it.index() as int),
        {
            chars.push(c);
        }
        proof {
            assert(chars@ =~= source@);
        }
        Scanner { chars, current: 0, line: 1 }
    }

    fn peek(&self) -> (r: Option<char>)
        ensures
            r == char_at(self.chars@, self.current as int),
    {
        if self.current < self.chars.len() {
            Some(self.chars[self.current])
        } else {
            None
        }
    }

    fn advance(&mut self) -> (r: Option<char>)
        requires
            old(self).current <= old(self).chars.len(),
        ensures
            final(self).current <= final(self).chars.len(),
            r == char_at(old(self).chars@, old(self).current as int),
            final(self).chars == old(self).chars,
            final(self).line == old(self).line,
            final(self).current == if old(self).current < old(self).chars.len() {
                old(self).current + 1
            } else {
                old(self).current as int
            },
    {
        if self.current < self.chars.len() {
            let c = self.chars[self.current];
            self.current = self.current + 1;
            Some(c)
        } else {
            None
        }
    }

    /// The text of the source from `start` to `end`.
    fn text(&self, start: usize, end: usize) -> (r: String)
        requires
            start <= end <= self.chars.len(),
        ensures
            r@ == self.chars@.subrange(start as int, end as int),
    {
        let mut r = String::new();
        let mut k = start;
        while k < end
            invariant
                start <= k <= end <= self.chars.len(),
                r@ == self.chars@.subrange(start as int, k as int),
            decreases end - k,
        {
            r.push(self.chars[k]);
            k = k + 1;
            proof {
                assert(r@ =~= self.chars@.subrange(start as int, k as int));
            }
        }
        r
    }

    fn peek_is(&self, c: char) -> (r: bool)
        ensures
            r == (char_at(self.chars@, self.current as int) == Some(c)),
    {
        self.current < self.chars.len() && self.chars[self.current] == c
    }

    /// Reads the kind of token whose first character, `first_char`, was just
    /// read before the current position.
    fn get_next_token_type(&mut self, first_char: char) -> (r: Result<Option<TokenType>, LoxError>)
        requires
            old(self).current <= old(self).chars.len(),
            old(self).line + (old(self).chars.len() - old(self).current) < usize::MAX,
        ensures
            final(self).chars == old(self).chars,
            final(self).current <= final(self).chars.len(),
            ({
                let (lexeme, end, line) = lex_first(
                    first_char,
                    old(self).chars@,
                    old(self).current as int,
                    old(self).line as nat,
                );
                &&& final(self).current == end
                &&& final(self).line == line
                &&& lexed(r, lexeme, line)
            }),
    {
        proof {
            lemma_lex_first_progress(first_char, self.chars@, self.current as int, self.line as nat);
        }
        match first_char {
            '(' => Ok(Some(TokenType::LeftParen)),
            ')' => Ok(Some(TokenType::RightParen)),
            '{' => Ok(Some(TokenType::LeftBrace)),
            '}' => Ok(Some(TokenType::RightBrace)),
            ',' => Ok(Some(TokenType::Comma)),
            '.' => Ok(Some(TokenType::Dot)),
            '-' => Ok(Some(TokenType::Minus)),
            '+' => Ok(Some(TokenType::Plus)),
            ';' => Ok(Some(TokenType::Semicolon)),
            '*' => Ok(Some(TokenType::Star)),
            '!' => {
                if self.peek_is('=') {
                    self.advance();
                    Ok(Some(TokenType::BangEqual))
                } else {
                    Ok(Some(TokenType::Bang))
                }
            },
            '=' => {
                if self.peek_is('=') {
                    self.advance();
                    Ok(Some(TokenType::EqualEqual))
                } else {
                    Ok(Some(TokenType::Equal))
                }
            },
            '<' => {
                if self.peek_is('=') {
                    self.advance();
                    Ok(Some(TokenType::LessEqual))
                } else {
                    Ok(Some(TokenType::Less))
                }
            },
            '>' => {
                if self.peek_is('=') {
                    self.advance();
                    Ok(Some(TokenType::GreaterEqual))
                } else {
                    Ok(Some(TokenType::Greater))
                }
            },
            '/' => {
                if self.peek_is('/') {
                    let ghost target = comment_end(self.chars@, self.current as int);
                    loop
                        invariant_except_break
                            comment_end(self.chars@, self.current as int) == target,
                        invariant
                            self.chars == old(self).chars,
                            self.line == old(self).line,
                            old(self).current <= self.current <= self.chars.len(),
                        ensures
                            self.current <= self.chars.len(),
                            self.chars == old(self).chars,
                            self.line == old(self).line,
                            self.current == target,
                        decreases self.chars.len() - self.current,
                    {
                        let c = self.advance();
                        match c {
                            None => {
                                break ;
                            },
                            Some(ch) => {
                                if ch == '\n' {
                                    break ;
                                }
                            },
                        }
                    }
                    Ok(None)
                } else {
                    Ok(Some(TokenType::Slash))
                }
            },
            ' ' => Ok(None),
            '\r' => Ok(None),
            '\t' => Ok(None),
            '\n' => {
                self.line = self.line + 1;
                Ok(None)
            },
            '"' => match self.string() {
                Ok(t) => Ok(Some(t)),
                Err(e) => Err(e),
            },
            c => {
                if is_ascii_digit(c) {
                    Ok(Some(self.number(c)))
                } else if is_alphabetic(c) || c == '_' {
                    Ok(Some(self.identifier(c)))
                } else {
                    Err(
                        LoxError::ScannerError {
                            line: self.line,
                            character: c,
                            message: String::from_str("Bad input token"),
                        },
                    )
                }
            },
        }
    }

    /// Reads the rest of a string literal whose opening quote was just read.
    fn string(&mut self) -> (r: Result<TokenType, LoxError>)
        requires
            old(self).current <= old(self).chars.len(),
            old(self).line + (old(self).chars.len() - old(self).current) < usize::MAX,
        ensures
            final(self).current <= final(self).chars.len(),
            final(self).chars == old(self).chars,
            ({
                let s = old(self).chars@;
                let start = old(self).current as int;
                let close = quote_at_or_after(s, start);
                if close < s.len() {
                    &&& final(self).current == close + 1
                    &&& final(self).line == old(self).line + newlines(s, start, close)
                    &&& r matches Ok(t) && t@ == SpecTokenType::String(s.subrange(start, close))
                } else {
                    &&& final(self).current == s.len()
                    &&& final(self).line == old(self).line + newlines(s, start, s.len() as int)
                    &&& r matches Err(e) && e@ == SpecError::ScannerError {
                        line: final(self).line as nat,
                        character: '"',
                        message: "Unterminated string"@,
                    }
                }
            }),
    {
        let ghost s = self.chars@;
        let ghost start = self.current as int;
        proof {
            lemma_quote(s, start);
        }
        let mut accumulator = String::new();
        loop
            invariant
                self.chars == old(self).chars,
                s == self.chars@,
                start == old(self).current,
                start <= self.current <= s.len(),
                old(self).line + (s.len() - start) < usize::MAX,
                self.line == old(self).line + newlines(s, start, self.current as int),
                quote_at_or_after(s, self.current as int) == quote_at_or_after(s, start),
                accumulator@ == s.subrange(start, self.current as int),
            ensures
                self.chars == old(self).chars,
                start <= self.current < s.len(),
                s[self.current as int] == '"',
                self.line == old(self).line + newlines(s, start, self.current as int),
                quote_at_or_after(s, start) == self.current,
                accumulator@ == s.subrange(start, self.current as int),
            decreases s.len() - self.current,
        {
            if self.peek_is('"') {
                break ;
            }
            if self.current >= self.chars.len() {
                return Err(
                    LoxError::ScannerError {
                        line: self.line,
                        character: '"',
                        message: String::from_str("Unterminated string"),
                    },
                );
            }
            if self.peek_is('\n') {
                proof {
                    lemma_newlines_bound(s, start, self.current as int);
                }
                self.line = self.line + 1;
            }
            let c = self.advance();
            match c {
                Some(ch) => {
                    accumulator.push(ch);
                },
                None => {},
            }
            proof {
                assert(accumulator@ =~= s.subrange(start, self.current as int));
            }
        }
        self.advance();
        Ok(TokenType::String(accumulator))
    }

    /// Reads the run of digits at the current position.
    fn loop_through_digits(&mut self) -> (r: String)
        requires
            old(self).current <= old(self).chars.len(),
        ensures
            final(self).current <= final(self).chars.len(),
            final(self).chars == old(self).chars,
            final(self).line == old(self).line,
            final(self).current == digits_end(old(self).chars@, old(self).current as int),
            r@ == old(self).chars@.subrange(old(self).current as int, final(self).current as int),
    {
        let ghost s = self.chars@;
        let mut accum = String::new();
        loop
            invariant
                self.chars == old(self).chars,
                self.line == old(self).line,
                s == self.chars@,
                old(self).current <= self.current <= s.len(),
                digits_end(s, self.current as int) == digits_end(s, old(self).current as int),
                accum@ == s.subrange(old(self).current as int, self.current as int),
            ensures
                self.current == digits_end(s, old(self).current as int),
            decreases s.len() - self.current,
        {
            match self.peek() {
                None => {
                    break ;
                },
                Some(c) => {
                    if !is_ascii_digit(c) {
                        break ;
                    }
                    self.advance();
                    accum.push(c);
                    proof {
                        assert(accum@ =~= s.subrange(
                            old(self).current as int,
                            self.current as int,
                        ));
                    }
                },
            }
        }
        accum
    }

    /// Reads the rest of a number literal whose first digit, `first_char`,
    /// was just read before the current position.
    fn number(&mut self, first_char: char) -> (r: TokenType)
        requires
            old(self).current <= old(self).chars.len(),
            is_digit(first_char),
        ensures
            final(self).current <= final(self).chars.len(),
            final(self).chars == old(self).chars,
            final(self).line == old(self).line,
            ({
                let (kind, end) = number_lexeme(
                    first_char,
                    old(self).chars@,
                    old(self).current as int,
                );
                &&& final(self).current == end
                &&& r@ == kind
            }),
    {
        let ghost s = self.chars@;
        let ghost j = self.current as int;
        proof {
            lemma_digits_end(s, j);
        }
        let mut before_dot = String::new();
        before_dot.push(first_char);
        let digits = self.loop_through_digits();
        before_dot.append(digits.as_str());
        proof {
            assert(before_dot@ =~= seq![first_char] + s.subrange(j, self.current as int));
        }
        let ghost d1 = self.current as int;
        let after_dot = if self.peek_is('.') {
            self.advance();
            match self.peek() {
                Some(c) => {
                    if is_ascii_digit(c) {
                        Some(self.loop_through_digits())
                    } else {
                        None
                    }
                },
                None => None,
            }
        } else {
            None
        };
        let literal_string = match after_dot {
            None => before_dot,
            Some(value) => {
                let mut text = before_dot;
                text.push('.');
                text.append(value.as_str());
                proof {
                    lemma_digits_end(s, d1 + 1);
                    assert(j <= d1 < self.current <= s.len());
                    assert(text@ =~= seq![first_char] + s.subrange(j, self.current as int));
                }
                text
            },
        };
        TokenType::Number(literal_string)
    }

    /// Reads the rest of an identifier or keyword whose first character,
    /// `first_char`, was just read before the current position.
    fn identifier(&mut self, first_char: char) -> (r: TokenType)
        requires
            old(self).current <= old(self).chars.len(),
        ensures
            final(self).current <= final(self).chars.len(),
            final(self).chars == old(self).chars,
            final(self).line == old(self).line,
            ({
                let (kind, end) = word_lexeme(first_char, old(self).chars@, old(self).current as int);
                &&& final(self).current == end
                &&& r@ == kind
            }),
    {
        let ghost s = self.chars@;
        let ghost j = self.current as int;
        let mut accumulator = String::new();
        accumulator.push(first_char);
        proof {
            assert(accumulator@ =~= seq![first_char] + s.subrange(j, j));
        }
        loop
            invariant
                self.chars == old(self).chars,
                self.line == old(self).line,
                s == self.chars@,
                j == old(self).current,
                j <= self.current <= s.len(),
                identifier_end(s, self.current as int) == identifier_end(s, j),
                accumulator@ == seq![first_char] + s.subrange(j, self.current as int),
            ensures
                self.current <= s.len(),
                self.chars == old(self).chars,
                self.line == old(self).line,
                self.current == identifier_end(s, j),
                accumulator@ == seq![first_char] + s.subrange(j, self.current as int),
            decreases s.len() - self.current,
        {
            match self.peek() {
                Some(c) => {
                    if is_alphanumeric(c) || c == '_' {
                        self.advance();
                        accumulator.push(c);
                        proof {
                            assert(accumulator@ =~= seq![first_char] + s.subrange(
                                j,
                                self.current as int,
                            ));
                        }
                    } else {
                        break ;
                    }
                },
                None => {
                    break ;
                },
            }
        }
        let keyword_type = self.match_keyword(accumulator.as_str());
        match keyword_type {
            Some(t) => t,
            None => TokenType::Identifier(accumulator),
        }
    }

    /// The kind of token that `keyword` stands for, if it is a keyword.
    fn match_keyword(&self, keyword: &str) -> (r: Option<TokenType>)
        ensures
            match r {
                Some(t) => keyword_kind(keyword@) == Some(t@),
                None => keyword_kind(keyword@) is None,
            },
    {
        if text_equals(keyword, "and") {
            Some(TokenType::And)
        } else if text_equals(keyword, "class") {
            Some(TokenType::Class)
        } else if text_equals(keyword, "else") {
            Some(TokenType::Else)
        } else if text_equals(keyword, "false") {
            Some(TokenType::False)
        } else if text_equals(keyword, "for") {
            Some(TokenType::For)
        } else if text_equals(keyword, "fun") {
            Some(TokenType::Fun)
        } else if text_equals(keyword, "if") {
            Some(TokenType::If)
        } else if text_equals(keyword, "nil") {
            Some(TokenType::Nil)
        } else if text_equals(keyword, "or") {
            Some(TokenType::Or)
        } else if text_equals(keyword, "print") {
            Some(TokenType::Print)
        } else if text_equals(keyword, "return") {
            Some(TokenType::Return)
        } else if text_equals(keyword, "super") {
            Some(TokenType::Super)
        } else if text_equals(keyword, "this") {
            Some(TokenType::This)
        } else if text_equals(keyword, "true") {
            Some(TokenType::True)
        } else if text_equals(keyword, "var") {
            Some(TokenType::Var)
        } else if text_equals(keyword, "while") {
            Some(TokenType::While)
        } else {
            None
        }
    }

    /// The next token, skipping white space and comments; `None` at the end
    /// of the source.
    pub fn next_token(&mut self) -> (r: Option<Result<Token, LoxError>>)
        requires
            old(self).wf(),
        ensures
            final(self).wf(),
            final(self).source() == old(self).source(),
            ({
                let (next, end, line) = spec_next_token(
                    old(self).source(),
                    old(self).position(),
                    old(self).line_number(),
                );
                &&& next_view(r) == next
                &&& final(self).position() == end
                &&& final(self).line_number() == line
            }),
            r is Some ==> old(self).position() < final(self).position(),
            r is None ==> final(self).position() == old(self).source().len(),
            old(self).position() == old(self).source().len() ==> r is None,
    {
        let ghost s = self.chars@;
        loop
            invariant
                self.wf(),
                self.chars == old(self).chars,
                s == self.chars@,
                old(self).current <= s.len(),
                spec_next_token(s, self.current as int, self.line as nat) == spec_next_token(
                    s,
                    old(self).current as int,
                    old(self).line as nat,
                ),
            decreases s.len() - self.current,
        {
            proof {
                lemma_next_token_progress(s, old(self).current as int, old(self).line as nat);
                lemma_end_of_tokens(s, old(self).current as int, old(self).line as nat);
            }
            let start = self.current;
            let first_char = match self.advance() {
                Some(c) => c,
                None => {
                    return None;
                },
            };
            proof {
                lemma_lex_progress(s, start as int, self.line as nat);
                lemma_lex_first_progress(first_char, s, self.current as int, self.line as nat);
            }
            let next_token_type = self.get_next_token_type(first_char);
            match next_token_type {
                Ok(Some(token_type)) => {
                    let lexeme = self.text(start, self.current);
                    return Some(Ok(Token { token_type, lexeme, line: self.line }));
                },
                Ok(None) => {},
                Err(e) => {
                    return Some(Err(e));
                },
            }
        }
    }

    /// All remaining tokens, or the first error.
    pub fn scan_tokens(&mut self) -> (r: Result<Vec<Token>, LoxError>)
        requires
            old(self).wf(),
        ensures
            final(self).wf(),
            final(self).source() == old(self).source(),
            scan_view(r) == spec_scan(
                old(self).source(),
                old(self).position(),
                old(self).line_number(),
            ),
            r is Ok ==> final(self).position() == old(self).source().len(),
    {
        let ghost s = self.chars@;
        let mut tokens: Vec<Token> = Vec::new();
        loop
            invariant
                self.wf(),
                s == self.chars@,
                s == old(self).chars@,
                spec_scan(s, old(self).current as int, old(self).line as nat) == prefixed(
                    token_views(tokens@),
                    spec_scan(s, self.current as int, self.line as nat),
                ),
            decreases s.len() - self.current,
        {
            let ghost before = self.current as int;
            let ghost line_before = self.line as nat;
            proof {
                lemma_next_token_progress(s, before, line_before);
            }
            match self.next_token() {
                None => {
                    proof {
                        lemma_end_of_tokens(s, before, line_before);
                    }
                    return Ok(tokens);
                },
                Some(Err(e)) => {
                    return Err(e);
                },
                Some(Ok(t)) => {
                    let ghost prev = tokens@;
                    let ghost tv = t@;
                    tokens.push(t);
                    proof {
                        assert(token_views(tokens@) =~= token_views(prev) + seq![tv]);
                        match spec_scan(s, self.current as int, self.line as nat) {
                            Ok(rest) => {
                                assert(token_views(prev) + (seq![tv] + rest) =~= token_views(
                                    tokens@,
                                ) + rest);
                            },
                            Err(e) => {},
                        }
                    }
                },
            }
        }
    }

}

} // verus!
