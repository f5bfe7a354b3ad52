//! Lexer for filter expressions: turns a filter string into tokens.

use vstd::prelude::*;
use vstd::utf8::{encode_scalar, encode_utf8};
use crate::loader::{decimal, lemma_decimal};

verus! {

/// Token types for filter expressions.
#[derive(Debug, Clone, PartialEq)]
pub enum Token {
    /// Field names such as `MESSAGE_TYPE`, `payload`, `true`.
    Ident(String),
    /// Quoted strings: `"value"` or `'value'`.
    String(String),
    /// Numbers: `123`.
    Number(u64),
    /// Regex patterns: `r"pattern"` or `/pattern/`.
    Regex(String),
    /// `AND`, `&&`
    And,
    /// `OR`, `||`
    Or,
    /// `NOT`, `!`
    Not,
    /// `in`
    In,
    /// `contains`
    Contains,
    /// `icontains`
    IContains,
    /// `starts_with`
    StartsWith,
    /// `ends_with`
    EndsWith,
    /// `matches`
    Matches,
    /// `is_empty`, `empty`
    IsEmpty,
    /// `not_empty`
    NotEmpty,
    /// `header`
    Header,
    /// `iequals`, `ieq`
    IEquals,
    /// `rand`
    Rand,
    /// `==` or `=`
    Eq,
    /// `!=`
    Ne,
    /// `.`
    Dot,
    /// `(`
    LParen,
    /// `)`
    RParen,
    /// `{`
    LBrace,
    /// `}`
    RBrace,
    /// `,`
    Comma,
    /// End of input.
    Eof,
}

/// A token with its text taken as a character sequence.
pub enum TokenV {
    Ident(Seq<char>),
    Str(Seq<char>),
    Number(u64),
    Regex(Seq<char>),
    And,
    Or,
    Not,
    In,
    Contains,
    IContains,
    StartsWith,
    EndsWith,
    Matches,
    IsEmpty,
    NotEmpty,
    Header,
    IEquals,
    Rand,
    Eq,
    Ne,
    Dot,
    LParen,
    RParen,
    LBrace,
    RBrace,
    Comma,
    Eof,
}

impl View for Token {
    type V = TokenV;

    open spec fn view(&self) -> TokenV {
        match self {
            Token::Ident(s) => TokenV::Ident(s@),
            Token::String(s) => TokenV::Str(s@),
            Token::Number(n) => TokenV::Number(*n),
            Token::Regex(s) => TokenV::Regex(s@),
            Token::And => TokenV::And,
            Token::Or => TokenV::Or,
            Token::Not => TokenV::Not,
            Token::In => TokenV::In,
            Token::Contains => TokenV::Contains,
            Token::IContains => TokenV::IContains,
            Token::StartsWith => TokenV::StartsWith,
            Token::EndsWith => TokenV::EndsWith,
            Token::Matches => TokenV::Matches,
            Token::IsEmpty => TokenV::IsEmpty,
            Token::NotEmpty => TokenV::NotEmpty,
            Token::Header => TokenV::Header,
            Token::IEquals => TokenV::IEquals,
            Token::Rand => TokenV::Rand,
            Token::Eq => TokenV::Eq,
            Token::Ne => TokenV::Ne,
            Token::Dot => TokenV::Dot,
            Token::LParen => TokenV::LParen,
            Token::RParen => TokenV::RParen,
            Token::LBrace => TokenV::LBrace,
            Token::RBrace => TokenV::RBrace,
            Token::Comma => TokenV::Comma,
            Token::Eof => TokenV::Eof,
        }
    }
}

impl Token {
    /// A copy of this token.
    pub fn duplicate(&self) -> (t: Token)
        ensures
            t@ == self@,
    {
        match self {
            Token::Ident(s) => Token::Ident(s.clone()),
            Token::String(s) => Token::String(s.clone()),
            Token::Number(n) => Token::Number(*n),
            Token::Regex(s) => Token::Regex(s.clone()),
            Token::And => Token::And,
            Token::Or => Token::Or,
            Token::Not => Token::Not,
            Token::In => Token::In,
            Token::Contains => Token::Contains,
            Token::IContains => Token::IContains,
            Token::StartsWith => Token::StartsWith,
            Token::EndsWith => Token::EndsWith,
            Token::Matches => Token::Matches,
            Token::IsEmpty => Token::IsEmpty,
            Token::NotEmpty => Token::NotEmpty,
            Token::Header => Token::Header,
            Token::IEquals => Token::IEquals,
            Token::Rand => Token::Rand,
            Token::Eq => Token::Eq,
            Token::Ne => Token::Ne,
            Token::Dot => Token::Dot,
            Token::LParen => Token::LParen,
            Token::RParen => Token::RParen,
            Token::LBrace => Token::LBrace,
            Token::RBrace => Token::RBrace,
            Token::Comma => Token::Comma,
            Token::Eof => Token::Eof,
        }
    }
}

/// Lexer error types.
#[derive(Debug, Clone, Copy, PartialEq, Eq, Structural)]
pub enum LexError {
    /// Unexpected character at a byte position.
    UnexpectedChar(char, usize),
    /// Unterminated string starting at a byte position.
    UnterminatedString(usize),
    /// Unterminated regex starting at a byte position.
    UnterminatedRegex(usize),
    /// Invalid escape sequence at a byte position.
    InvalidEscape(usize),
    /// Invalid number at a byte position.
    InvalidNumber(usize),
}


/// Unicode `White_Space`, the characters `char::is_whitespace` accepts.
pub open spec fn is_ws(c: char) -> bool {
    let u = c as u32;
    ||| 0x09 <= u <= 0x0D
    ||| u == 0x20
    ||| u == 0x85
    ||| u == 0xA0
    ||| u == 0x1680
    ||| 0x2000 <= u <= 0x200A
    ||| u == 0x2028
    ||| u == 0x2029
    ||| u == 0x202F
    ||| u == 0x205F
    ||| u == 0x3000
}

/// An ASCII decimal digit.
pub open spec fn is_digit(c: char) -> bool {
    '0' <= c <= '9'
}

/// An ASCII letter.
pub open spec fn is_alpha(c: char) -> bool {
    ('a' <= c <= 'z') || ('A' <= c <= 'Z')
}

/// A character that may continue an identifier.
pub open spec fn is_ident_char(c: char) -> bool {
    is_alpha(c) || is_digit(c) || c == '_'
}

/// ASCII lower case of a character.
pub open spec fn lower_char(c: char) -> char {
    if 'A' <= c <= 'Z' {
        ((c as u32) + 32) as char
    } else {
        c
    }
}

/// Byte offset in the UTF-8 text of the character at index `i`.
pub open spec fn byte_pos(s: Seq<char>, i: int) -> int {
    encode_utf8(s.take(i)).len() as int
}

/// Index after skipping whitespace and `#` comments (a comment runs to the
/// end of its line, the newline included) from `i`; `in_comment` when
/// inside a comment.
pub open spec fn skip_from(s: Seq<char>, i: int, in_comment: bool) -> int
    decreases s.len() - i,
{
    if i < 0 || i >= s.len() {
        i
    } else if in_comment {
        skip_from(s, i + 1, s[i] != '\n')
    } else if is_ws(s[i]) {
        skip_from(s, i + 1, false)
    } else if s[i] == '#' {
        skip_from(s, i + 1, true)
    } else {
        i
    }
}

/// The character that an escape `\e` in a string quoted with `quote` stands for.
pub open spec fn escape_char(e: char, quote: char) -> Option<char> {
    if e == 'n' {
        Some('\n')
    } else if e == 'r' {
        Some('\r')
    } else if e == 't' {
        Some('\t')
    } else if e == '\\' {
        Some('\\')
    } else if e == quote || e == '"' || e == '\'' {
        Some(e)
    } else {
        None
    }
}

/// Prepends `p` to the text of a successful scan.
pub open spec fn prepend(p: Seq<char>, r: (Result<Seq<char>, LexError>, int)) -> (
    Result<Seq<char>, LexError>,
    int,
) {
    match r.0 {
        Ok(v) => (Ok(p + v), r.1),
        Err(e) => (Err(e), r.1),
    }
}

/// The text of a string literal from `j` (after the opening quote) to the
/// closing `quote`, and the index after it; `start` is the byte offset of
/// the opening quote.
pub open spec fn scan_string(s: Seq<char>, j: int, quote: char, start: usize) -> (
    Result<Seq<char>, LexError>,
    int,
)
    decreases s.len() - j,
{
    if j < 0 || j >= s.len() {
        (Err(LexError::UnterminatedString(start)), s.len() as int)
    } else if s[j] == quote {
        (Ok(Seq::empty()), j + 1)
    } else if s[j] == '\\' {
        if j + 1 >= s.len() {
            (Err(LexError::InvalidEscape(byte_pos(s, j) as usize)), s.len() as int)
        } else {
            match escape_char(s[j + 1], quote) {
                Some(c) => prepend(seq![c], scan_string(s, j + 2, quote, start)),
                None => (Err(LexError::InvalidEscape(byte_pos(s, j) as usize)), j + 2),
            }
        }
    } else {
        prepend(seq![s[j]], scan_string(s, j + 1, quote, start))
    }
}

/// Index of the first character at or after `k` that is not an ASCII letter.
pub open spec fn alpha_end(s: Seq<char>, k: int) -> int
    decreases s.len() - k,
{
    if 0 <= k < s.len() && is_alpha(s[k]) {
        alpha_end(s, k + 1)
    } else {
        k
    }
}

/// The pattern of a regex literal from `j` to the closing `close`, kept as
/// written (a backslash keeps the character after it), and the index after
/// it; trailing letters after a closing `/` are flags and are skipped.
pub open spec fn scan_regex(s: Seq<char>, j: int, close: char, start: usize) -> (
    Result<Seq<char>, LexError>,
    int,
)
    decreases s.len() - j,
{
    if j < 0 || j >= s.len() {
        (Err(LexError::UnterminatedRegex(start)), s.len() as int)
    } else if s[j] == close {
        (Ok(Seq::empty()), if close == '/' {
            alpha_end(s, j + 1)
        } else {
            j + 1
        })
    } else if s[j] == '\\' {
        if j + 1 < s.len() {
            prepend(seq!['\\', s[j + 1]], scan_regex(s, j + 2, close, start))
        } else {
            prepend(seq!['\\'], scan_regex(s, j + 1, close, start))
        }
    } else {
        prepend(seq![s[j]], scan_regex(s, j + 1, close, start))
    }
}

/// Index of the first character at or after `k` that is not a digit.
pub open spec fn digits_end(s: Seq<char>, k: int) -> int
    decreases s.len() - k,
{
    if 0 <= k < s.len() && is_digit(s[k]) {
        digits_end(s, k + 1)
    } else {
        k
    }
}

/// The value of a run of decimal digits.
pub open spec fn digits_value(d: Seq<char>) -> nat
    decreases d.len(),
{
    if d.len() == 0 {
        0
    } else {
        digits_value(d.drop_last()) * 10 + ((d.last() as u32) - ('0' as u32)) as nat
    }
}

/// Index of the first character at or after `k` that cannot continue an
/// identifier.
pub open spec fn ident_end(s: Seq<char>, k: int) -> int
    decreases s.len() - k,
{
    if 0 <= k < s.len() && is_ident_char(s[k]) {
        ident_end(s, k + 1)
    } else {
        k
    }
}

/// ASCII lower case of a word.
pub open spec fn lower_word(w: Seq<char>) -> Seq<char> {
    w.map_values(|c: char| lower_char(c))
}

/// The token a word stands for: keywords are matched in any ASCII case,
/// `true` and `false` become lower-case identifiers.
pub open spec fn word_token(w: Seq<char>) -> TokenV {
    let l = lower_word(w);
    if l == seq!['a', 'n', 'd'] {
        TokenV::And
    } else if l == seq!['o', 'r'] {
        TokenV::Or
    } else if l == seq!['n', 'o', 't'] {
        TokenV::Not
    } else if l == seq!['i', 'n'] {
        TokenV::In
    } else if l == seq!['c', 'o', 'n', 't', 'a', 'i', 'n', 's'] {
        TokenV::Contains
    } else if l == seq!['i', 'c', 'o', 'n', 't', 'a', 'i', 'n', 's'] {
        TokenV::IContains
    } else if l == seq!['s', 't', 'a', 'r', 't', 's', '_', 'w', 'i', 't', 'h'] || l == seq![
        's',
        't',
        'a',
        'r',
        't',
        's',
        'w',
        'i',
        't',
        'h',
    ] {
        TokenV::StartsWith
    } else if l == seq!['e', 'n', 'd', 's', '_', 'w', 'i', 't', 'h'] || l == seq![
        'e',
        'n',
        'd',
        's',
        'w',
        'i',
        't',
        'h',
    ] {
        TokenV::EndsWith
    } else if l == seq!['m', 'a', 't', 'c', 'h', 'e', 's'] {
        TokenV::Matches
    } else if l == seq!['i', 's', '_', 'e', 'm', 'p', 't', 'y'] || l == seq![
        'i',
        's',
        'e',
        'm',
        'p',
        't',
        'y',
    ] || l == seq!['e', 'm', 'p', 't', 'y'] {
        TokenV::IsEmpty
    } else if l == seq!['n', 'o', 't', '_', 'e', 'm', 'p', 't', 'y'] || l == seq![
        'n',
        'o',
        't',
        'e',
        'm',
        'p',
        't',
        'y',
    ] {
        TokenV::NotEmpty
    } else if l == seq!['h', 'e', 'a', 'd', 'e', 'r'] {
        TokenV::Header
    } else if l == seq!['i', 'e', 'q', 'u', 'a', 'l', 's'] || l == seq!['i', 'e', 'q'] {
        TokenV::IEquals
    } else if l == seq!['r', 'a', 'n', 'd'] || l == seq!['r', 'a', 'n', 'd', 'o', 'm'] {
        TokenV::Rand
    } else if l == seq!['t', 'r', 'u', 'e'] || l == seq!['f', 'a', 'l', 's', 'e'] {
        TokenV::Ident(l)
    } else {
        TokenV::Ident(w)
    }
}

/// Maps a scanned text to a token.
pub open spec fn text_token(r: (Result<Seq<char>, LexError>, int), regex: bool) -> (
    Result<TokenV, LexError>,
    int,
) {
    match r.0 {
        Ok(v) => (Ok(if regex {
            TokenV::Regex(v)
        } else {
            TokenV::Str(v)
        }), r.1),
        Err(e) => (Err(e), r.1),
    }
}

/// The token that starts at index `i` (no whitespace before it), and the
/// index after it. Error positions are byte offsets in the UTF-8 text.
pub open spec fn scan_token(s: Seq<char>, i: int) -> (Result<TokenV, LexError>, int) {
    if i < 0 || i >= s.len() {
        (Ok(TokenV::Eof), i)
    } else {
        let c = s[i];
        let next_is = |x: char| i + 1 < s.len() && s[i + 1] == x;
        let start = byte_pos(s, i) as usize;
        if c == '(' {
            (Ok(TokenV::LParen), i + 1)
        } else if c == ')' {
            (Ok(TokenV::RParen), i + 1)
        } else if c == '{' {
            (Ok(TokenV::LBrace), i + 1)
        } else if c == '}' {
            (Ok(TokenV::RBrace), i + 1)
        } else if c == ',' {
            (Ok(TokenV::Comma), i + 1)
        } else if c == '.' {
            (Ok(TokenV::Dot), i + 1)
        } else if c == '=' {
            (Ok(TokenV::Eq), if next_is('=') {
                i + 2
            } else {
                i + 1
            })
        } else if c == '!' {
            if next_is('=') {
                (Ok(TokenV::Ne), i + 2)
            } else {
                (Ok(TokenV::Not), i + 1)
            }
        } else if c == '&' {
            (Ok(TokenV::And), if next_is('&') {
                i + 2
            } else {
                i + 1
            })
        } else if c == '|' {
            (Ok(TokenV::Or), if next_is('|') {
                i + 2
            } else {
                i + 1
            })
        } else if c == '"' || c == '\'' {
            text_token(scan_string(s, i + 1, c, start), false)
        } else if c == 'r' && next_is('"') {
            text_token(scan_regex(s, i + 2, '"', start), true)
        } else if c == '/' {
            text_token(scan_regex(s, i + 1, '/', start), true)
        } else if is_digit(c) {
            let e = digits_end(s, i);
            let v = digits_value(s.subrange(i, e));
            if v <= u64::MAX {
                (Ok(TokenV::Number(v as u64)), e)
            } else {
                (Err(LexError::InvalidNumber(start)), e)
            }
        } else if is_alpha(c) || c == '_' {
            let e = ident_end(s, i);
            (Ok(word_token(s.subrange(i, e))), e)
        } else {
            (Err(LexError::UnexpectedChar(c, start)), i)
        }
    }
}

/// The next token after position `i`: whitespace and comments skipped,
/// then one token scanned.
pub open spec fn next_token_spec(s: Seq<char>, i: int) -> (Result<TokenV, LexError>, int) {
    scan_token(s, skip_from(s, i, false))
}

/// Skipping stays within the text and never goes back.
pub proof fn lemma_skip_range(s: Seq<char>, i: int, in_comment: bool)
    requires
        0 <= i <= s.len(),
    ensures
        i <= skip_from(s, i, in_comment) <= s.len(),
    decreases s.len() - i,
{
    if i < s.len() {
        lemma_skip_range(s, i + 1, s[i] != '\n');
        lemma_skip_range(s, i + 1, false);
        lemma_skip_range(s, i + 1, true);
    }
}

proof fn lemma_scan_string_range(s: Seq<char>, j: int, quote: char, start: usize)
    requires
        0 <= j <= s.len(),
    ensures
        j <= scan_string(s, j, quote, start).1 <= s.len(),
        scan_string(s, j, quote, start).0 is Ok ==> j < scan_string(s, j, quote, start).1,
    decreases s.len() - j,
{
    if j < s.len() && s[j] != quote {
        if s[j] == '\\' {
            if j + 1 < s.len() {
                lemma_scan_string_range(s, j + 2, quote, start);
            }
        } else {
            lemma_scan_string_range(s, j + 1, quote, start);
        }
    }
}

proof fn lemma_alpha_end(s: Seq<char>, k: int)
    requires
        0 <= k <= s.len(),
    ensures
        k <= alpha_end(s, k) <= s.len(),
    decreases s.len() - k,
{
    if k < s.len() && is_alpha(s[k]) {
        lemma_alpha_end(s, k + 1);
    }
}

proof fn lemma_scan_regex_range(s: Seq<char>, j: int, close: char, start: usize)
    requires
        0 <= j <= s.len(),
    ensures
        j <= scan_regex(s, j, close, start).1 <= s.len(),
        scan_regex(s, j, close, start).0 is Ok ==> j < scan_regex(s, j, close, start).1,
    decreases s.len() - j,
{
    if j < s.len() {
        if s[j] == close {
            lemma_alpha_end(s, j + 1);
        } else if s[j] == '\\' {
            if j + 1 < s.len() {
                lemma_scan_regex_range(s, j + 2, close, start);
            } else {
                lemma_scan_regex_range(s, j + 1, close, start);
            }
        } else {
            lemma_scan_regex_range(s, j + 1, close, start);
        }
    }
}

proof fn lemma_digits_end(s: Seq<char>, k: int)
    requires
        0 <= k <= s.len(),
    ensures
        k <= digits_end(s, k) <= s.len(),
        forall|m: int| k <= m < digits_end(s, k) ==> is_digit(#[trigger] s[m]),
        digits_end(s, k) < s.len() ==> !is_digit(s[digits_end(s, k)]),
    decreases s.len() - k,
{
    if k < s.len() && is_digit(s[k]) {
        lemma_digits_end(s, k + 1);
    }
}

proof fn lemma_ident_end(s: Seq<char>, k: int)
    requires
        0 <= k <= s.len(),
    ensures
        k <= ident_end(s, k) <= s.len(),
        forall|m: int| k <= m < ident_end(s, k) ==> is_ident_char(#[trigger] s[m]),
        ident_end(s, k) < s.len() ==> !is_ident_char(s[ident_end(s, k)]),
    decreases s.len() - k,
{
    if k < s.len() && is_ident_char(s[k]) {
        lemma_ident_end(s, k + 1);
    }
}

/// A token scanned at `i` ends within the text; any token but the end of
/// input takes at least one character.
pub proof fn lemma_scan_token_range(s: Seq<char>, i: int)
    requires
        0 <= i <= s.len(),
    ensures
        i <= scan_token(s, i).1 <= s.len(),
        scan_token(s, i).0 matches Ok(t) && t != TokenV::Eof ==> i < scan_token(s, i).1,
{
    if i < s.len() {
        let c = s[i];
        if c == '"' || c == '\'' {
            lemma_scan_string_range(s, i + 1, c, byte_pos(s, i) as usize);
        } else if c == 'r' && i + 1 < s.len() && s[i + 1] == '"' {
            lemma_scan_regex_range(s, i + 2, '"', byte_pos(s, i) as usize);
        } else if c == '/' {
            lemma_scan_regex_range(s, i + 1, '/', byte_pos(s, i) as usize);
        }
        lemma_digits_end(s, i);
        lemma_ident_end(s, i);
    }
}

/// The tokens from index `i` to the end of the input (the end-of-input
/// token not included), and the index where scanning stopped; the first
/// lexer error ends it.
pub open spec fn tokenize_from(s: Seq<char>, i: int) -> (Result<Seq<TokenV>, LexError>, int)
    decreases s.len() - i,
{
    if i < 0 || i > s.len() {
        (Ok(Seq::empty()), i)
    } else {
        let j = skip_from(s, i, false);
        let (r, n) = scan_token(s, j);
        match r {
            Err(e) => (Err(e), n),
            Ok(t) => if t == TokenV::Eof {
                (Ok(Seq::empty()), n)
            } else {
                proof {
                    lemma_skip_range(s, i, false);
                    lemma_scan_token_range(s, j);
                }
                match tokenize_from(s, n) {
                    (Ok(ts), m) => (Ok(seq![t] + ts), m),
                    (Err(e), m) => (Err(e), m),
                }
            },
        }
    }
}

/// The results of `n` successive `next_token` calls from position `i`.
pub open spec fn token_calls(s: Seq<char>, i: int, n: nat) -> Seq<Result<TokenV, LexError>>
    decreases n,
{
    if n == 0 {
        Seq::empty()
    } else {
        let (r, j) = next_token_spec(s, i);
        seq![r] + token_calls(s, j, (n - 1) as nat)
    }
}

/// `n` calls give `n` results.
proof fn lemma_token_calls_len(s: Seq<char>, i: int, n: nat)
    ensures
        token_calls(s, i, n).len() == n,
    decreases n,
{
    if n > 0 {
        lemma_token_calls_len(s, next_token_spec(s, i).1, (n - 1) as nat);
    }
}

/// Tokenizing is calling `next_token` repeatedly: when it succeeds with
/// tokens `v`, successive calls give the tokens of `v` (none of them `Eof`)
/// and then `Eof`; when it fails with `e`, successive calls give tokens other
/// than `Eof` and then the error `e`.
pub proof fn lemma_tokenize_is_repeated_next_token(s: Seq<char>, i: int)
    requires
        0 <= i <= s.len(),
    ensures
        match tokenize_from(s, i).0 {
            Ok(v) => (forall|k: int| 0 <= k < v.len() ==> v[k] != TokenV::Eof) && token_calls(
                s,
                i,
                v.len() + 1,
            ) == v.map_values(|t: TokenV| Ok::<TokenV, LexError>(t)).push(Ok(TokenV::Eof)),
            Err(e) => exists|n: nat|
                #![trigger token_calls(s, i, n + 1)]
                token_calls(s, i, n + 1)[n as int] == Err::<TokenV, LexError>(e) && forall|k: int|
                    0 <= k < n ==> (#[trigger] token_calls(s, i, n + 1)[k] matches Ok(t) && t != TokenV::Eof),
        },
    decreases s.len() - i,
{
    let j = skip_from(s, i, false);
    lemma_skip_range(s, i, false);
    lemma_scan_token_range(s, j);
    let (r, n1) = scan_token(s, j);
    assert(token_calls(s, n1, 0) == Seq::<Result<TokenV, LexError>>::empty());
    assert(token_calls(s, i, 1) =~= seq![r]);
    match r {
        Err(e) => {
            assert(token_calls(s, i, 0 + 1)[0] == Err::<TokenV, LexError>(e));
        },
        Ok(t) => {
            if t == TokenV::Eof {
                assert(Seq::<TokenV>::empty().map_values(|t: TokenV| Ok::<TokenV, LexError>(t)).push(
                    Ok(TokenV::Eof),
                ) =~= seq![r]);
            } else {
                lemma_tokenize_is_repeated_next_token(s, n1);
                match tokenize_from(s, n1).0 {
                    Ok(ts) => {
                        let v = seq![t] + ts;
                        assert(tokenize_from(s, i).0 == Ok::<Seq<TokenV>, LexError>(v));
                        let tail = token_calls(s, n1, ts.len() + 1);
                        lemma_token_calls_len(s, n1, ts.len() + 1);
                        assert(token_calls(s, i, v.len() + 1) == seq![r] + tail);
                        assert(v.map_values(|t: TokenV| Ok::<TokenV, LexError>(t)).push(Ok(TokenV::Eof))
                            =~= seq![r] + ts.map_values(|t: TokenV| Ok::<TokenV, LexError>(t)).push(
                            Ok(TokenV::Eof),
                        ));
                        assert forall|k: int| 0 <= k < v.len() implies v[k] != TokenV::Eof by {
                            if k > 0 {
                                assert(v[k] == ts[k - 1]);
                            }
                        }
                    },
                    Err(e) => {
                        let m = choose|m: nat|
                            #![trigger token_calls(s, n1, m + 1)]
                            token_calls(s, n1, m + 1)[m as int] == Err::<TokenV, LexError>(e) && forall|k: int|
                                0 <= k < m ==> (#[trigger] token_calls(s, n1, m + 1)[k] matches Ok(t) && t
                                    != TokenV::Eof);
                        let tail = token_calls(s, n1, m + 1);
                        let all = token_calls(s, i, (m + 1) + 1);
                        lemma_token_calls_len(s, n1, m + 1);
                        assert(all == seq![r] + tail);
                        assert(all[(m + 1) as int] == tail[m as int]);
                        assert forall|k: int| 0 <= k < m + 1 implies (#[trigger] all[k] matches Ok(t)
                            && t != TokenV::Eof) by {
                            if k > 0 {
                                assert(all[k] == tail[k - 1]);
                            }
                        }
                    },
                }
            }
        },
    }
}

/// Text that holds no quote and no backslash.
pub open spec fn plain_text(x: Seq<char>) -> bool {
    forall|k: int| 0 <= k < x.len() ==> x[k] != '"' && x[k] != '\'' && x[k] != '\\'
}

/// A string literal quoted with `"` that holds `x`, the escape `\e`, then `y`.
pub open spec fn escaped_literal(x: Seq<char>, e: char, y: Seq<char>) -> Seq<char> {
    seq!['"'] + x + seq!['\\', e] + y + seq!['"']
}

/// Plain characters of a string literal stand for themselves.
proof fn lemma_scan_plain(s: Seq<char>, j: int, m: int, quote: char, start: usize)
    requires
        0 <= j <= m <= s.len(),
        forall|k: int| j <= k < m ==> s[k] != quote && s[k] != '\\',
    ensures
        scan_string(s, j, quote, start) == prepend(s.subrange(j, m), scan_string(s, m, quote, start)),
    decreases m - j,
{
    if j < m {
        lemma_scan_plain(s, j + 1, m, quote, start);
        let r = scan_string(s, m, quote, start);
        match r.0 {
            Ok(v) => {
                assert(seq![s[j]] + (s.subrange(j + 1, m) + v) =~= s.subrange(j, m) + v);
            },
            Err(_) => {},
        }
    } else {
        let r = scan_string(s, m, quote, start);
        match r.0 {
            Ok(v) => {
                assert(s.subrange(j, m) + v =~= v);
            },
            Err(_) => {},
        }
    }
}

/// A string literal with one escape `\e` between plain texts `x` and `y`
/// is the single token whose text is `x`, the character `c`, then `y`,
/// given that the escape stands for `c` in a `"`-quoted string.
proof fn lemma_escaped_literal(x: Seq<char>, e: char, c: char, y: Seq<char>)
    requires
        plain_text(x),
        plain_text(y),
        escape_char(e, '"') == Some(c),
    ensures
        next_token_spec(escaped_literal(x, e, y), 0) == (
            Ok::<TokenV, LexError>(TokenV::Str(x + seq![c] + y)),
            escaped_literal(x, e, y).len() as int,
        ),
        tokenize_from(escaped_literal(x, e, y), 0).0 == Ok::<Seq<TokenV>, LexError>(
            seq![TokenV::Str(x + seq![c] + y)],
        ),
{
    let s = escaped_literal(x, e, y);
    let m: int = 1 + x.len() as int;
    let m2: int = m + 2 + y.len();
    assert(s.len() == m2 + 1);
    assert(s[0] == '"');
    assert(skip_from(s, 0, false) == 0);
    let start = byte_pos(s, 0) as usize;
    assert forall|k: int| 1 <= k < m implies s[k] != '"' && s[k] != '\\' by {
        assert(s[k] == x[k - 1]);
    }
    assert forall|k: int| m + 2 <= k < m2 implies s[k] != '"' && s[k] != '\\' by {
        assert(s[k] == y[k - m - 2]);
    }
    assert(s.subrange(1, m) =~= x);
    assert(s.subrange(m + 2, m2) =~= y);
    assert(s[m] == '\\' && s[m + 1] == e && s[m2] == '"');
    lemma_scan_plain(s, 1, m, '"', start);
    lemma_scan_plain(s, m + 2, m2, '"', start);
    assert(scan_string(s, m2, '"', start) == (Ok::<Seq<char>, LexError>(Seq::empty()), m2 + 1));
    assert(y + Seq::<char>::empty() =~= y);
    assert(scan_string(s, m, '"', start) == (Ok::<Seq<char>, LexError>(seq![c] + y), m2 + 1));
    assert(x + (seq![c] + y) =~= x + seq![c] + y);
    assert(scan_string(s, 1, '"', start) == (Ok::<Seq<char>, LexError>(x + seq![c] + y), m2 + 1));
    assert(next_token_spec(s, 0) == (
        Ok::<TokenV, LexError>(TokenV::Str(x + seq![c] + y)),
        s.len() as int,
    ));
    assert(tokenize_from(s, s.len() as int).0 == Ok::<Seq<TokenV>, LexError>(Seq::empty()));
    assert(seq![TokenV::Str(x + seq![c] + y)] + Seq::<TokenV>::empty() =~= seq![TokenV::Str(x + seq![c] + y)]);
}

/// String escapes stand for their characters: for all texts `x` and `y`
/// without quotes or backslashes, the literal `"x\ty"` is the one string
/// token `x`, TAB, `y`; likewise `\n` gives a line feed, `\r` a carriage
/// return, `\\` a backslash, and `\"` and `\'` the quote.
pub proof fn lemma_string_escapes(x: Seq<char>, y: Seq<char>)
    requires
        plain_text(x),
        plain_text(y),
    ensures
        tokenize_from(escaped_literal(x, 't', y), 0).0 == Ok::<Seq<TokenV>, LexError>(
            seq![TokenV::Str(x + seq!['\t'] + y)],
        ),
        tokenize_from(escaped_literal(x, 'n', y), 0).0 == Ok::<Seq<TokenV>, LexError>(
            seq![TokenV::Str(x + seq!['\n'] + y)],
        ),
        tokenize_from(escaped_literal(x, 'r', y), 0).0 == Ok::<Seq<TokenV>, LexError>(
            seq![TokenV::Str(x + seq!['\r'] + y)],
        ),
        tokenize_from(escaped_literal(x, '\\', y), 0).0 == Ok::<Seq<TokenV>, LexError>(
            seq![TokenV::Str(x + seq!['\\'] + y)],
        ),
        tokenize_from(escaped_literal(x, '"', y), 0).0 == Ok::<Seq<TokenV>, LexError>(
            seq![TokenV::Str(x + seq!['"'] + y)],
        ),
        tokenize_from(escaped_literal(x, '\'', y), 0).0 == Ok::<Seq<TokenV>, LexError>(
            seq![TokenV::Str(x + seq!['\''] + y)],
        ),
{
    lemma_escaped_literal(x, 't', '\t', y);
    lemma_escaped_literal(x, 'n', '\n', y);
    lemma_escaped_literal(x, 'r', '\r', y);
    lemma_escaped_literal(x, '\\', '\\', y);
    lemma_escaped_literal(x, '"', '"', y);
    lemma_escaped_literal(x, '\'', '\'', y);
}

/// Upper-case ASCII letters become the same letters in lower case; every
/// other character is unchanged.
pub proof fn lemma_lower_char_meaning(c: char)
    ensures
        'A' <= c <= 'Z' ==> 'a' <= lower_char(c) <= 'z' && (lower_char(c) as u32) == (c as u32) + 32,
        !('A' <= c <= 'Z') ==> lower_char(c) == c,
{
}

/// A word: a letter, then letters, digits and underscores.
pub open spec fn is_word(w: Seq<char>) -> bool {
    w.len() > 0 && is_alpha(w[0]) && forall|k: int| 0 <= k < w.len() ==> is_ident_char(#[trigger] w[k])
}

/// An identifier runs to the first character that cannot continue it.
proof fn lemma_ident_end_all(w: Seq<char>, k: int)
    requires
        0 <= k <= w.len(),
        forall|j: int| 0 <= j < w.len() ==> is_ident_char(#[trigger] w[j]),
    ensures
        ident_end(w, k) == w.len(),
    decreases w.len() - k,
{
    if k < w.len() {
        lemma_ident_end_all(w, k + 1);
    }
}

/// A word is one token, read whole.
pub proof fn lemma_word_is_one_token(w: Seq<char>)
    requires
        is_word(w),
    ensures
        next_token_spec(w, 0) == (Ok::<TokenV, LexError>(word_token(w)), w.len() as int),
{
    lemma_ident_end_all(w, 0);
    assert(w.subrange(0, w.len() as int) =~= w);
    assert(skip_from(w, 0, false) == 0);
    if w.len() > 1 {
        assert(is_ident_char(w[1]));
    }
}

/// Keywords are read as keywords in any ASCII case: a word whose lower-case
/// form is `and`, `or`, `not`, `in`, `contains`, `icontains`, `starts_with`,
/// `ends_with`, `matches`, `is_empty`, `not_empty`, `header`, `iequals` or
/// `rand` is the token of that keyword.
pub proof fn lemma_keyword_tokens(w: Seq<char>)
    requires
        is_word(w),
    ensures
        ({
            let l = lower_word(w);
            let t = next_token_spec(w, 0).0;
            &&& l == seq!['a', 'n', 'd'] ==> t == Ok::<TokenV, LexError>(TokenV::And)
            &&& l == seq!['o', 'r'] ==> t == Ok::<TokenV, LexError>(TokenV::Or)
            &&& l == seq!['n', 'o', 't'] ==> t == Ok::<TokenV, LexError>(TokenV::Not)
            &&& l == seq!['i', 'n'] ==> t == Ok::<TokenV, LexError>(TokenV::In)
            &&& l == seq!['c', 'o', 'n', 't', 'a', 'i', 'n', 's'] ==> t == Ok::<TokenV, LexError>(TokenV::Contains)
            &&& l == seq!['i', 'c', 'o', 'n', 't', 'a', 'i', 'n', 's'] ==> t == Ok::<TokenV, LexError>(
                TokenV::IContains,
            )
            &&& l == seq!['s', 't', 'a', 'r', 't', 's', '_', 'w', 'i', 't', 'h'] ==> t == Ok::<TokenV, LexError>(
                TokenV::StartsWith,
            )
            &&& l == seq!['e', 'n', 'd', 's', '_', 'w', 'i', 't', 'h'] ==> t == Ok::<TokenV, LexError>(
                TokenV::EndsWith,
            )
            &&& l == seq!['m', 'a', 't', 'c', 'h', 'e', 's'] ==> t == Ok::<TokenV, LexError>(TokenV::Matches)
            &&& l == seq!['i', 's', '_', 'e', 'm', 'p', 't', 'y'] ==> t == Ok::<TokenV, LexError>(TokenV::IsEmpty)
            &&& l == seq!['n', 'o', 't', '_', 'e', 'm', 'p', 't', 'y'] ==> t == Ok::<TokenV, LexError>(
                TokenV::NotEmpty,
            )
            &&& l == seq!['h', 'e', 'a', 'd', 'e', 'r'] ==> t == Ok::<TokenV, LexError>(TokenV::Header)
            &&& l == seq!['i', 'e', 'q', 'u', 'a', 'l', 's'] ==> t == Ok::<TokenV, LexError>(TokenV::IEquals)
            &&& l == seq!['r', 'a', 'n', 'd'] ==> t == Ok::<TokenV, LexError>(TokenV::Rand)
        }),
{
    lemma_word_is_one_token(w);
    let l = lower_word(w);
    if l == seq!['a', 'n', 'd'] {
        assert(word_token(w) == TokenV::And);
    }
    if l == seq!['o', 'r'] {
        assert(word_token(w) == TokenV::Or);
    }
    if l == seq!['n', 'o', 't'] {
        assert(word_token(w) == TokenV::Not);
    }
    if l == seq!['i', 'n'] {
        assert(word_token(w) == TokenV::In);
    }
    if l == seq!['c', 'o', 'n', 't', 'a', 'i', 'n', 's'] {
        assert(word_token(w) == TokenV::Contains);
    }
    if l == seq!['i', 'c', 'o', 'n', 't', 'a', 'i', 'n', 's'] {
        assert(word_token(w) == TokenV::IContains);
    }
    if l == seq!['s', 't', 'a', 'r', 't', 's', '_', 'w', 'i', 't', 'h'] {
        assert(word_token(w) == TokenV::StartsWith);
    }
    if l == seq!['e', 'n', 'd', 's', '_', 'w', 'i', 't', 'h'] {
        assert(word_token(w) == TokenV::EndsWith);
    }
    if l == seq!['m', 'a', 't', 'c', 'h', 'e', 's'] {
        assert(word_token(w) == TokenV::Matches);
    }
    if l == seq!['i', 's', '_', 'e', 'm', 'p', 't', 'y'] {
        assert(word_token(w) == TokenV::IsEmpty);
    }
    if l == seq!['n', 'o', 't', '_', 'e', 'm', 'p', 't', 'y'] {
        assert(l[0] == 'n');
        assert(l != seq!['e', 'n', 'd', 's', '_', 'w', 'i', 't', 'h']) by {
            assert(seq!['e', 'n', 'd', 's', '_', 'w', 'i', 't', 'h'][0] == 'e');
        }
        assert(l != seq!['i', 'c', 'o', 'n', 't', 'a', 'i', 'n', 's']) by {
            assert(seq!['i', 'c', 'o', 'n', 't', 'a', 'i', 'n', 's'][0] == 'i');
        }
        assert(l != seq!['a', 'n', 'd']) by { assert(seq!['a', 'n', 'd'].len() != 9 || seq!['a', 'n', 'd'][0] != 'n'); }
        assert(l != seq!['o', 'r']) by { assert(seq!['o', 'r'].len() != 9 || seq!['o', 'r'][0] != 'n'); }
        assert(l != seq!['n', 'o', 't']) by { assert(seq!['n', 'o', 't'].len() != 9 || seq!['n', 'o', 't'][0] != 'n'); }
        assert(l != seq!['i', 'n']) by { assert(seq!['i', 'n'].len() != 9 || seq!['i', 'n'][0] != 'n'); }
        assert(l != seq!['c', 'o', 'n', 't', 'a', 'i', 'n', 's']) by { assert(seq!['c', 'o', 'n', 't', 'a', 'i', 'n', 's'].len() != 9 || seq!['c', 'o', 'n', 't', 'a', 'i', 'n', 's'][0] != 'n'); }
        assert(l != seq!['i', 'c', 'o', 'n', 't', 'a', 'i', 'n', 's']) by { assert(seq!['i', 'c', 'o', 'n', 't', 'a', 'i', 'n', 's'].len() != 9 || seq!['i', 'c', 'o', 'n', 't', 'a', 'i', 'n', 's'][0] != 'n'); }
        assert(l != seq!['s', 't', 'a', 'r', 't', 's', '_', 'w', 'i', 't', 'h']) by { assert(seq!['s', 't', 'a', 'r', 't', 's', '_', 'w', 'i', 't', 'h'].len() != 9 || seq!['s', 't', 'a', 'r', 't', 's', '_', 'w', 'i', 't', 'h'][0] != 'n'); }
        assert(l != seq!['s', 't', 'a', 'r', 't', 's', 'w', 'i', 't', 'h']) by { assert(seq!['s', 't', 'a', 'r', 't', 's', 'w', 'i', 't', 'h'].len() != 9 || seq!['s', 't', 'a', 'r', 't', 's', 'w', 'i', 't', 'h'][0] != 'n'); }
        assert(l != seq!['e', 'n', 'd', 's', '_', 'w', 'i', 't', 'h']) by { assert(seq!['e', 'n', 'd', 's', '_', 'w', 'i', 't', 'h'].len() != 9 || seq!['e', 'n', 'd', 's', '_', 'w', 'i', 't', 'h'][0] != 'n'); }
        assert(l != seq!['e', 'n', 'd', 's', 'w', 'i', 't', 'h']) by { assert(seq!['e', 'n', 'd', 's', 'w', 'i', 't', 'h'].len() != 9 || seq!['e', 'n', 'd', 's', 'w', 'i', 't', 'h'][0] != 'n'); }
        assert(l != seq!['m', 'a', 't', 'c', 'h', 'e', 's']) by { assert(seq!['m', 'a', 't', 'c', 'h', 'e', 's'].len() != 9 || seq!['m', 'a', 't', 'c', 'h', 'e', 's'][0] != 'n'); }
        assert(l != seq!['i', 's', '_', 'e', 'm', 'p', 't', 'y']) by { assert(seq!['i', 's', '_', 'e', 'm', 'p', 't', 'y'].len() != 9 || seq!['i', 's', '_', 'e', 'm', 'p', 't', 'y'][0] != 'n'); }
        assert(l != seq!['i', 's', 'e', 'm', 'p', 't', 'y']) by { assert(seq!['i', 's', 'e', 'm', 'p', 't', 'y'].len() != 9 || seq!['i', 's', 'e', 'm', 'p', 't', 'y'][0] != 'n'); }
        assert(l != seq!['e', 'm', 'p', 't', 'y']) by { assert(seq!['e', 'm', 'p', 't', 'y'].len() != 9 || seq!['e', 'm', 'p', 't', 'y'][0] != 'n'); }
        assert(word_token(w) == TokenV::NotEmpty);
    }
    if l == seq!['h', 'e', 'a', 'd', 'e', 'r'] {
        assert(word_token(w) == TokenV::Header);
    }
    if l == seq!['i', 'e', 'q', 'u', 'a', 'l', 's'] {
        assert(word_token(w) == TokenV::IEquals);
    }
    if l == seq!['r', 'a', 'n', 'd'] {
        assert(word_token(w) == TokenV::Rand);
    }
}

/// A number is read with its value: the decimal text of every `n` up to
/// `u64::MAX` is the one token `Number(n)`.
pub proof fn lemma_number_token(n: u64)
    ensures
        next_token_spec(decimal(n as nat), 0) == (Ok::<TokenV, LexError>(TokenV::Number(n)), decimal(
            n as nat,
        ).len() as int),
{
    let d = decimal(n as nat);
    lemma_decimal(n as nat);
    assert(is_digit(d[0]));
    assert(skip_from(d, 0, false) == 0);
    lemma_digits_end_all(d, 0);
    assert(d.subrange(0, d.len() as int) =~= d);
}

/// A run of digits runs to the end.
proof fn lemma_digits_end_all(d: Seq<char>, k: int)
    requires
        0 <= k <= d.len(),
        forall|j: int| 0 <= j < d.len() ==> is_digit(#[trigger] d[j]),
    ensures
        digits_end(d, k) == d.len(),
    decreases d.len() - k,
{
    if k < d.len() {
        lemma_digits_end_all(d, k + 1);
    }
}

/// Appends `c` to `s` (`String::push`). Trusted: the text grows by `c`.
#[verifier::external_body]
fn push_char(s: &mut String, c: char)
    ensures
        final(s)@ == old(s)@.push(c),
{
    s.push(c);
}

/// The text of `chars[from..to]`.
pub(crate) fn string_of(chars: &Vec<char>, from: usize, to: usize) -> (r: String)
    requires
        from <= to <= chars@.len(),
    ensures
        r@ == chars@.subrange(from as int, to as int),
{
    let mut out = String::new();
    let mut j = from;
    while j < to
        invariant
            from <= j <= to <= chars@.len(),
            out@ == chars@.subrange(from as int, j as int),
        decreases to - j,
    {
        push_char(&mut out, chars[j]);
        j += 1;
        proof {
            assert(out@ =~= chars@.subrange(from as int, j as int));
        }
    }
    out
}

/// Whether two character sequences are equal.
pub(crate) fn chars_eq(a: &[char], b: &[char]) -> (r: bool)
    ensures
        r == (a@ == b@),
{
    if a.len() != b.len() {
        return false;
    }
    let mut i: usize = 0;
    while i < a.len()
        invariant
            a@.len() == b@.len(),
            i <= a@.len(),
            forall|j: int| 0 <= j < i ==> a@[j] == b@[j],
        decreases a@.len() - i,
    {
        if a[i] != b[i] {
            return false;
        }
        i += 1;
    }
    assert(a@ =~= b@);
    true
}

/// Whether `c` is Unicode whitespace (`char::is_whitespace`).
pub fn is_whitespace(c: char) -> (r: bool)
    ensures
        r == is_ws(c),
{
    let u = c as u32;
    (0x09 <= u && u <= 0x0D) || u == 0x20 || u == 0x85 || u == 0xA0 || u == 0x1680 || (0x2000 <= u
        && u <= 0x200A) || u == 0x2028 || u == 0x2029 || u == 0x202F || u == 0x205F || u == 0x3000
}

/// Number of UTF-8 bytes of `c`.
fn utf8_width(c: char) -> (n: usize)
    ensures
        n == encode_scalar(c as u32).len(),
{
    proof {
        vstd::utf8::char_is_scalar(c);
    }
    let u = c as u32;
    if u <= 0x7F {
        1
    } else if u <= 0x7FF {
        2
    } else if u <= 0xFFFF {
        3
    } else {
        4
    }
}

/// Encoding a concatenation concatenates the encodings.
pub proof fn lemma_encode_concat(a: Seq<char>, b: Seq<char>)
    ensures
        encode_utf8(a + b) == encode_utf8(a) + encode_utf8(b),
    decreases a.len(),
{
    if a.len() > 0 {
        assert((a + b).drop_first() =~= a.drop_first() + b);
        lemma_encode_concat(a.drop_first(), b);
        assert(encode_utf8(a + b) =~= encode_utf8(a) + encode_utf8(b));
    } else {
        assert(a + b =~= b);
        assert(encode_utf8(a) + encode_utf8(b) =~= encode_utf8(b));
    }
}

/// The byte offset of the next character is this one's plus its width.
proof fn lemma_byte_pos_step(s: Seq<char>, i: int)
    requires
        0 <= i < s.len(),
    ensures
        byte_pos(s, i + 1) == byte_pos(s, i) + encode_scalar(s[i] as u32).len(),
        byte_pos(s, i) <= byte_pos(s, s.len() as int),
{
    assert(s.take(i + 1) =~= s.take(i) + seq![s[i]]);
    lemma_encode_concat(s.take(i), seq![s[i]]);
    assert(seq![s[i]].drop_first() =~= Seq::<char>::empty());
    assert(encode_utf8(Seq::<char>::empty()) =~= Seq::<u8>::empty());
    assert(encode_utf8(seq![s[i]]) =~= encode_scalar(s[i] as u32));
    assert(s =~= s.take(i) + s.skip(i));
    assert(s.take(s.len() as int) =~= s);
    lemma_encode_concat(s.take(i), s.skip(i));
}

/// Byte offsets of every character of `chars`, and of its end.
fn char_offsets(chars: &Vec<char>, total: usize) -> (offsets: Vec<usize>)
    requires
        total == encode_utf8(chars@).len(),
    ensures
        offsets@.len() == chars@.len() + 1,
        forall|i: int| 0 <= i <= chars@.len() ==> #[trigger] offsets@[i] == byte_pos(chars@, i),
{
    let mut offsets: Vec<usize> = Vec::new();
    let mut acc: usize = 0;
    let mut i: usize = 0;
    proof {
        assert(chars@.take(0) =~= Seq::<char>::empty());
        assert(chars@.take(chars@.len() as int) =~= chars@);
    }
    while i < chars.len()
        invariant
            total == encode_utf8(chars@).len(),
            total == byte_pos(chars@, chars@.len() as int),
            i <= chars@.len(),
            offsets@.len() == i,
            acc == byte_pos(chars@, i as int),
            forall|j: int| 0 <= j < i ==> #[trigger] offsets@[j] == byte_pos(chars@, j),
        decreases chars@.len() - i,
    {
        offsets.push(acc);
        proof {
            lemma_byte_pos_step(chars@, i as int);
            if i + 1 < chars@.len() {
                lemma_byte_pos_step(chars@, i + 1);
            }
        }
        let w = utf8_width(chars[i]);
        acc = acc + w;
        i += 1;
    }
    offsets.push(acc);
    offsets
}

/// Skips whitespace and `#` comments from `i`.
fn skip_ws(chars: &Vec<char>, i: usize) -> (j: usize)
    requires
        i <= chars@.len(),
    ensures
        j == skip_from(chars@, i as int, false),
{
    let mut j = i;
    let mut in_comment = false;
    while j < chars.len()
        invariant
            i <= j <= chars@.len(),
            skip_from(chars@, i as int, false) == skip_from(chars@, j as int, in_comment),
        decreases chars@.len() - j,
    {
        let c = chars[j];
        if in_comment {
            in_comment = c != '\n';
        } else if is_whitespace(c) {
        } else if c == '#' {
            in_comment = true;
        } else {
            return j;
        }
        j += 1;
    }
    j
}

/// A scan result with the text built so far put in front of it.
proof fn lemma_prepend_prepend(a: Seq<char>, b: Seq<char>, x: (Result<Seq<char>, LexError>, int))
    ensures
        prepend(a, prepend(b, x)) == prepend(a + b, x),
{
    match x.0 {
        Ok(v) => {
            assert(a + (b + v) =~= a + b + v);
        },
        Err(_) => {},
    }
}

/// Reads a string literal from `j`, after its opening `quote`.
fn read_string(chars: &Vec<char>, offsets: &Vec<usize>, j: usize, quote: char, start: usize) -> (r: (
    Result<String, LexError>,
    usize,
))
    requires
        j <= chars@.len(),
        offsets@.len() == chars@.len() + 1,
        forall|i: int| 0 <= i <= chars@.len() ==> #[trigger] offsets@[i] == byte_pos(chars@, i),
    ensures
        ({
            let (t, n) = scan_string(chars@, j as int, quote, start);
            r.1 == n && match t {
                Ok(v) => r.0 matches Ok(x) && x@ == v,
                Err(e) => r.0 matches Err(x) && x == e,
            }
        }),
{
    let ghost s = chars@;
    let mut out = String::new();
    let mut k = j;
    proof {
        assert(prepend(Seq::empty(), scan_string(s, j as int, quote, start)) == scan_string(s, j as int, quote, start)) by {
            match scan_string(s, j as int, quote, start).0 {
                Ok(v) => assert(Seq::<char>::empty() + v =~= v),
                Err(_) => {},
            }
        }
    }
    loop
        invariant
            s == chars@,
            j <= k <= s.len(),
            offsets@.len() == s.len() + 1,
            forall|i: int| 0 <= i <= s.len() ==> #[trigger] offsets@[i] == byte_pos(s, i),
            scan_string(s, j as int, quote, start) == prepend(out@, scan_string(s, k as int, quote, start)),
        decreases s.len() - k,
    {
        if k >= chars.len() {
            return (Err(LexError::UnterminatedString(start)), chars.len());
        }
        let c = chars[k];
        if c == quote {
            proof {
                assert(out@ + Seq::<char>::empty() =~= out@);
            }
            return (Ok(out), k + 1);
        }
        if c == '\\' {
            if k + 1 >= chars.len() {
                return (Err(LexError::InvalidEscape(offsets[k])), chars.len());
            }
            let e = chars[k + 1];
            let mapped = if e == 'n' {
                '\n'
            } else if e == 'r' {
                '\r'
            } else if e == 't' {
                '\t'
            } else if e == '\\' {
                '\\'
            } else if e == quote || e == '"' || e == '\'' {
                e
            } else {
                return (Err(LexError::InvalidEscape(offsets[k])), k + 2);
            };
            proof {
                lemma_prepend_prepend(out@, seq![mapped], scan_string(s, k + 2, quote, start));
                assert(out@ + seq![mapped] =~= out@.push(mapped));
            }
            push_char(&mut out, mapped);
            k = k + 2;
        } else {
            proof {
                lemma_prepend_prepend(out@, seq![c], scan_string(s, k + 1, quote, start));
                assert(out@ + seq![c] =~= out@.push(c));
            }
            push_char(&mut out, c);
            k = k + 1;
        }
    }
}

/// Reads a regex literal from `j` up to the closing `close`.
fn read_regex(chars: &Vec<char>, j: usize, close: char, start: usize) -> (r: (
    Result<String, LexError>,
    usize,
))
    requires
        j <= chars@.len(),
    ensures
        ({
            let (t, n) = scan_regex(chars@, j as int, close, start);
            r.1 == n && match t {
                Ok(v) => r.0 matches Ok(x) && x@ == v,
                Err(e) => r.0 matches Err(x) && x == e,
            }
        }),
{
    let ghost s = chars@;
    let mut out = String::new();
    let mut k = j;
    proof {
        assert(prepend(Seq::empty(), scan_regex(s, j as int, close, start)) == scan_regex(s, j as int, close, start)) by {
            match scan_regex(s, j as int, close, start).0 {
                Ok(v) => assert(Seq::<char>::empty() + v =~= v),
                Err(_) => {},
            }
        }
    }
    loop
        invariant
            s == chars@,
            j <= k <= s.len(),
            scan_regex(s, j as int, close, start) == prepend(out@, scan_regex(s, k as int, close, start)),
        decreases s.len() - k,
    {
        if k >= chars.len() {
            return (Err(LexError::UnterminatedRegex(start)), chars.len());
        }
        let c = chars[k];
        if c == close {
            proof {
                assert(out@ + Seq::<char>::empty() =~= out@);
            }
            let mut end = k + 1;
            if close == '/' {
                // trailing flags, such as `i`, are skipped
                while end < chars.len() && is_ascii_alpha(chars[end])
                    invariant
                        k < end <= s.len(),
                        s == chars@,
                        alpha_end(s, k + 1) == alpha_end(s, end as int),
                    decreases s.len() - end,
                {
                    end += 1;
                }
            }
            return (Ok(out), end);
        }
        if c == '\\' {
            if k + 1 < chars.len() {
                let e = chars[k + 1];
                proof {
                    lemma_prepend_prepend(out@, seq!['\\', e], scan_regex(s, k + 2, close, start));
                    assert(out@ + seq!['\\', e] =~= out@.push('\\').push(e));
                }
                push_char(&mut out, '\\');
                push_char(&mut out, e);
                k = k + 2;
            } else {
                proof {
                    lemma_prepend_prepend(out@, seq!['\\'], scan_regex(s, k + 1, close, start));
                    assert(out@ + seq!['\\'] =~= out@.push('\\'));
                }
                push_char(&mut out, '\\');
                k = k + 1;
            }
        } else {
            proof {
                lemma_prepend_prepend(out@, seq![c], scan_regex(s, k + 1, close, start));
                assert(out@ + seq![c] =~= out@.push(c));
            }
            push_char(&mut out, c);
            k = k + 1;
        }
    }
}

/// Whether `c` is an ASCII letter.
fn is_ascii_alpha(c: char) -> (r: bool)
    ensures
        r == is_alpha(c),
{
    ('a' <= c && c <= 'z') || ('A' <= c && c <= 'Z')
}

/// Whether `c` is an ASCII digit.
pub(crate) fn is_ascii_digit(c: char) -> (r: bool)
    ensures
        r == is_digit(c),
{
    '0' <= c && c <= '9'
}

/// The value of the digits from `i`, or an error if it exceeds `u64`.
fn read_number(chars: &Vec<char>, i: usize, start: usize) -> (r: (Result<u64, LexError>, usize))
    requires
        i <= chars@.len(),
    ensures
        ({
            let e = digits_end(chars@, i as int);
            let v = digits_value(chars@.subrange(i as int, e));
            &&& r.1 == e
            &&& v <= u64::MAX ==> r.0 == Ok::<u64, LexError>(v as u64)
            &&& v > u64::MAX ==> r.0 == Err::<u64, LexError>(LexError::InvalidNumber(start))
        }),
{
    let ghost s = chars@;
    let mut value: u64 = 0;
    let mut overflow = false;
    let mut j = i;
    proof {
        assert(s.subrange(i as int, i as int) =~= Seq::<char>::empty());
    }
    while j < chars.len() && is_ascii_digit(chars[j])
        invariant
            s == chars@,
            i <= j <= s.len(),
            digits_end(s, i as int) == digits_end(s, j as int),
            !overflow ==> value == digits_value(s.subrange(i as int, j as int)),
            overflow ==> digits_value(s.subrange(i as int, j as int)) > u64::MAX,
        decreases s.len() - j,
    {
        let d = (chars[j] as u32 - '0' as u32) as u64;
        proof {
            assert(s.subrange(i as int, j + 1).drop_last() =~= s.subrange(i as int, j as int));
        }
        if !overflow {
            if value > (u64::MAX - d) / 10 {
                overflow = true;
                assert(value * 10 + d > u64::MAX) by (nonlinear_arith)
                    requires
                        value > (u64::MAX - d) / 10,
                        d <= 9,
                ;
            } else {
                assert(value * 10 + d <= u64::MAX) by (nonlinear_arith)
                    requires
                        value <= (u64::MAX - d) / 10,
                        d <= 9,
                ;
                value = value * 10 + d;
            }
        } else {
            assert(digits_value(s.subrange(i as int, j as int)) * 10 + d > u64::MAX) by (nonlinear_arith)
                requires
                    digits_value(s.subrange(i as int, j as int)) > u64::MAX,
            ;
        }
        j += 1;
    }
    if overflow {
        (Err(LexError::InvalidNumber(start)), j)
    } else {
        (Ok(value), j)
    }
}

/// ASCII lower case of `c`.
fn to_lower_char(c: char) -> (r: char)
    ensures
        r == lower_char(c),
{
    if 'A' <= c && c <= 'Z' {
        ((c as u8) + 32) as char
    } else {
        c
    }
}

/// Reads an identifier or keyword from `i`.
fn read_word(chars: &Vec<char>, i: usize) -> (r: (Token, usize))
    requires
        i <= chars@.len(),
    ensures
        r.1 == ident_end(chars@, i as int),
        r.0@ == word_token(chars@.subrange(i as int, r.1 as int)),
{
    let ghost s = chars@;
    let mut end = i;
    while end < chars.len() && (is_ascii_alpha(chars[end]) || is_ascii_digit(chars[end]) || chars[end] == '_')
        invariant
            s == chars@,
            i <= end <= s.len(),
            ident_end(s, i as int) == ident_end(s, end as int),
        decreases s.len() - end,
    {
        end += 1;
    }
    let ghost w = s.subrange(i as int, end as int);
    let mut lower: Vec<char> = Vec::new();
    let mut j = i;
    while j < end
        invariant
            s == chars@,
            i <= j <= end <= s.len(),
            w == s.subrange(i as int, end as int),
            lower@ == lower_word(w.take(j - i)),
        decreases end - j,
    {
        lower.push(to_lower_char(chars[j]));
        j += 1;
        proof {
            assert(lower@ =~= lower_word(w.take(j - i)));
        }
    }
    proof {
        assert(w.take(end - i) =~= w);
        assert(lower@.subrange(0, lower@.len() as int) =~= lower@);
    }
    let tok = if chars_eq(&lower, &vec!['a', 'n', 'd']) {
            Token::And
        } else if chars_eq(&lower, &vec!['o', 'r']) {
            Token::Or
        } else if chars_eq(&lower, &vec!['n', 'o', 't']) {
            Token::Not
        } else if chars_eq(&lower, &vec!['i', 'n']) {
            Token::In
        } else if chars_eq(&lower, &vec!['c', 'o', 'n', 't', 'a', 'i', 'n', 's']) {
            Token::Contains
        } else if chars_eq(&lower, &vec!['i', 'c', 'o', 'n', 't', 'a', 'i', 'n', 's']) {
            Token::IContains
        } else if chars_eq(&lower, &vec!['s', 't', 'a', 'r', 't', 's', '_', 'w', 'i', 't', 'h']) || chars_eq(&lower, &vec!['s', 't', 'a', 'r', 't', 's', 'w', 'i', 't', 'h']) {
            Token::StartsWith
        } else if chars_eq(&lower, &vec!['e', 'n', 'd', 's', '_', 'w', 'i', 't', 'h']) || chars_eq(&lower, &vec!['e', 'n', 'd', 's', 'w', 'i', 't', 'h']) {
            Token::EndsWith
        } else if chars_eq(&lower, &vec!['m', 'a', 't', 'c', 'h', 'e', 's']) {
            Token::Matches
        } else if chars_eq(&lower, &vec!['i', 's', '_', 'e', 'm', 'p', 't', 'y']) || chars_eq(&lower, &vec!['i', 's', 'e', 'm', 'p', 't', 'y']) || chars_eq(&lower, &vec!['e', 'm', 'p', 't', 'y']) {
            Token::IsEmpty
        } else if chars_eq(&lower, &vec!['n', 'o', 't', '_', 'e', 'm', 'p', 't', 'y']) || chars_eq(&lower, &vec!['n', 'o', 't', 'e', 'm', 'p', 't', 'y']) {
            Token::NotEmpty
        } else if chars_eq(&lower, &vec!['h', 'e', 'a', 'd', 'e', 'r']) {
            Token::Header
        } else if chars_eq(&lower, &vec!['i', 'e', 'q', 'u', 'a', 'l', 's']) || chars_eq(&lower, &vec!['i', 'e', 'q']) {
            Token::IEquals
        } else if chars_eq(&lower, &vec!['r', 'a', 'n', 'd']) || chars_eq(&lower, &vec!['r', 'a', 'n', 'd', 'o', 'm']) {
            Token::Rand
        } else if chars_eq(&lower, &vec!['t', 'r', 'u', 'e']) || chars_eq(&lower, &vec!['f', 'a', 'l', 's', 'e']) {
            Token::Ident(string_of(&lower, 0, lower.len()))
        } else {
            Token::Ident(string_of(chars, i, end))
        };
    (tok, end)
}

/// The characters of `s`, in order.
pub(crate) fn chars_of(s: &str) -> (v: Vec<char>)
    ensures
        v@ == s@,
{
    broadcast use vstd::string::axiom_spec_iter;

    let mut v: Vec<char> = Vec::new();
    for c in it: s.chars()
        invariant
            v@ == it.seq().take(it.index() as int),
            it.seq() == s@,
    {
        v.push(c);
    }
    v
}

/// The views of a list of tokens.
pub open spec fn tokens_view(v: Seq<Token>) -> Seq<TokenV> {
    v.map_values(|t: Token| t@)
}

/// Tokens already read, put in front of the rest of a scan.
pub open spec fn prepend_tokens(p: Seq<TokenV>, r: (Result<Seq<TokenV>, LexError>, int)) -> (
    Result<Seq<TokenV>, LexError>,
    int,
) {
    match r.0 {
        Ok(v) => (Ok(p + v), r.1),
        Err(e) => (Err(e), r.1),
    }
}

/// Lexer for filter expressions.
///
/// Holds the characters of the input with the byte offset of each, and
/// the index of the next character to read.
pub struct Lexer {
    chars: Vec<char>,
    offsets: Vec<usize>,
    pos: usize,
}

impl Lexer {
    #[verifier::type_invariant]
    closed spec fn inv(self) -> bool {
        &&& self.offsets@.len() == self.chars@.len() + 1
        &&& forall|i: int| 0 <= i <= self.chars@.len() ==> #[trigger] self.offsets@[i] == byte_pos(self.chars@, i)
        &&& self.pos <= self.chars@.len()
    }

    /// The characters of the input.
    pub closed spec fn input(self) -> Seq<char> {
        self.chars@
    }

    /// The index of the next character to read.
    pub closed spec fn cursor(self) -> int {
        self.pos as int
    }

    /// Create a new lexer for the given input.
    pub fn new(input: &str) -> (l: Self)
        ensures
            l.input() == input@,
            l.cursor() == 0,
    {
        let chars = chars_of(input);
        let bytes = input.as_bytes();
        let offsets = char_offsets(&chars, bytes.len());
        Lexer { chars, offsets, pos: 0 }
    }

    /// The token that starts at `i`, and the index after it.
    fn scan_at(&self, i: usize) -> (r: (Result<Token, LexError>, usize))
        requires
            i <= self.chars@.len(),
        ensures
            ({
                let (t, n) = scan_token(self.chars@, i as int);
                r.1 == n && match t {
                    Ok(v) => r.0 matches Ok(tok) && tok@ == v,
                    Err(e) => r.0 matches Err(x) && x == e,
                }
            }),
    {
        proof {
            use_type_invariant(self);
        }
        let chars = &self.chars;
        let len = chars.len();
        if i >= len {
            return (Ok(Token::Eof), i);
        }
        let c = chars[i];
        let start = self.offsets[i];
        let next_is_eq = i + 1 < len && chars[i + 1] == '=';
        if c == '(' {
            (Ok(Token::LParen), i + 1)
        } else if c == ')' {
            (Ok(Token::RParen), i + 1)
        } else if c == '{' {
            (Ok(Token::LBrace), i + 1)
        } else if c == '}' {
            (Ok(Token::RBrace), i + 1)
        } else if c == ',' {
            (Ok(Token::Comma), i + 1)
        } else if c == '.' {
            (Ok(Token::Dot), i + 1)
        } else if c == '=' {
            // a single `=` also means `==`
            (Ok(Token::Eq), if next_is_eq {
                i + 2
            } else {
                i + 1
            })
        } else if c == '!' {
            if next_is_eq {
                (Ok(Token::Ne), i + 2)
            } else {
                (Ok(Token::Not), i + 1)
            }
        } else if c == '&' {
            (Ok(Token::And), if i + 1 < len && chars[i + 1] == '&' {
                i + 2
            } else {
                i + 1
            })
        } else if c == '|' {
            (Ok(Token::Or), if i + 1 < len && chars[i + 1] == '|' {
                i + 2
            } else {
                i + 1
            })
        } else if c == '"' || c == '\'' {
            let (r, n) = read_string(chars, &self.offsets, i + 1, c, start);
            match r {
                Ok(v) => (Ok(Token::String(v)), n),
                Err(e) => (Err(e), n),
            }
        } else if c == 'r' && i + 1 < len && chars[i + 1] == '"' {
            let (r, n) = read_regex(chars, i + 2, '"', start);
            match r {
                Ok(v) => (Ok(Token::Regex(v)), n),
                Err(e) => (Err(e), n),
            }
        } else if c == '/' {
            let (r, n) = read_regex(chars, i + 1, '/', start);
            match r {
                Ok(v) => (Ok(Token::Regex(v)), n),
                Err(e) => (Err(e), n),
            }
        } else if is_ascii_digit(c) {
            let (r, n) = read_number(chars, i, start);
            match r {
                Ok(v) => (Ok(Token::Number(v)), n),
                Err(e) => (Err(e), n),
            }
        } else if is_ascii_alpha(c) || c == '_' {
            let (t, n) = read_word(chars, i);
            (Ok(t), n)
        } else {
            (Err(LexError::UnexpectedChar(c, start)), i)
        }
    }

    /// Get the next token.
    ///
    /// Skips whitespace and `#` comments, then reads one token; at the end
    /// of the input the token is `Eof`.
    pub fn next_token(&mut self) -> (r: Result<Token, LexError>)
        ensures
            final(self).input() == old(self).input(),
            ({
                let (t, n) = next_token_spec(old(self).input(), old(self).cursor());
                final(self).cursor() == n && match t {
                    Ok(v) => r matches Ok(tok) && tok@ == v,
                    Err(e) => r matches Err(x) && x == e,
                }
            }),
    {
        proof {
            use_type_invariant(&*self);
        }
        let i = skip_ws(&self.chars, self.pos);
        proof {
            lemma_skip_range(self.chars@, self.pos as int, false);
            lemma_scan_token_range(self.chars@, i as int);
        }
        let (r, n) = self.scan_at(i);
        self.pos = n;
        r
    }

    /// Tokenize the rest of the input (the end-of-input token not included).
    pub fn tokenize(&mut self) -> (r: Result<Vec<Token>, LexError>)
        ensures
            final(self).input() == old(self).input(),
            ({
                let (t, n) = tokenize_from(old(self).input(), old(self).cursor());
                final(self).cursor() == n && match t {
                    Ok(v) => r matches Ok(toks) && tokens_view(toks@) == v,
                    Err(e) => r matches Err(x) && x == e,
                }
            }),
    {
        proof {
            use_type_invariant(&*self);
        }
        let ghost s = self.input();
        let ghost c0 = self.cursor();
        let mut tokens: Vec<Token> = Vec::new();
        proof {
            assert(prepend_tokens(Seq::empty(), tokenize_from(s, c0)) == tokenize_from(s, c0)) by {
                match tokenize_from(s, c0).0 {
                    Ok(v) => assert(Seq::<TokenV>::empty() + v =~= v),
                    Err(_) => {},
                }
            }
            assert(tokens_view(tokens@) =~= Seq::<TokenV>::empty());
        }
        loop
            invariant
                s == self.input(),
                s == old(self).input(),
                c0 == old(self).cursor(),
                0 <= self.cursor() <= s.len(),
                tokenize_from(s, c0) == prepend_tokens(tokens_view(tokens@), tokenize_from(s, self.cursor())),
            decreases s.len() - self.cursor(),
        {
            proof {
                use_type_invariant(&*self);
                let j = skip_from(s, self.cursor(), false);
                lemma_skip_range(s, self.cursor(), false);
                lemma_scan_token_range(s, j);
            }
            let ghost before = self.cursor();
            let t = self.next_token();
            match t {
                Err(e) => {
                    return Err(e);
                },
                Ok(tok) => {
                    if let Token::Eof = tok {
                        proof {
                            assert(tokens_view(tokens@) + Seq::<TokenV>::empty() =~= tokens_view(tokens@));
                        }
                        return Ok(tokens);
                    }
                    let ghost tv = tok@;
                    let ghost pv = tokens_view(tokens@);
                    tokens.push(tok);
                    proof {
                        let rest = tokenize_from(s, self.cursor());
                        assert(tokenize_from(s, before) == prepend_tokens(seq![tv], rest));
                        assert(tokens_view(tokens@) =~= pv.push(tv));
                        match rest.0 {
                            Ok(v) => {
                                assert(pv + (seq![tv] + v) =~= tokens_view(tokens@) + v);
                            },
                            Err(_) => {},
                        }
                    }
                },
            }
        }
    }
}

/// Whether the ASCII lower case of `w` is `target`.
pub(crate) fn lower_is(w: &str, target: &[char]) -> (r: bool)
    ensures
        r == (lower_word(w@) == target@),
{
    let chars = chars_of(w);
    let mut lower: Vec<char> = Vec::new();
    let mut j: usize = 0;
    while j < chars.len()
        invariant
            chars@ == w@,
            j <= chars@.len(),
            lower@ == lower_word(chars@.take(j as int)),
        decreases chars@.len() - j,
    {
        lower.push(to_lower_char(chars[j]));
        j += 1;
        proof {
            assert(lower@ =~= lower_word(chars@.take(j as int)));
        }
    }
    proof {
        assert(chars@.take(j as int) =~= chars@);
    }
    chars_eq(lower.as_slice(), target)
}

/// Whether `w` is exactly `target`.
pub(crate) fn text_is(w: &str, target: &[char]) -> (r: bool)
    ensures
        r == (w@ == target@),
{
    let chars = chars_of(w);
    chars_eq(chars.as_slice(), target)
}

/// Lower-casing twice is lower-casing once.
proof fn lemma_lower_word_idempotent(w: Seq<char>)
    ensures
        lower_word(lower_word(w)) == lower_word(w),
{
    assert forall|i: int| 0 <= i < w.len() implies lower_char(lower_char(w[i])) == lower_char(w[i]) by {
        let c = w[i];
        if 'A' <= c <= 'Z' {
            assert(('a' as u32) <= ((c as u32) + 32) <= ('z' as u32));
            vstd::utf8::char_u32_cast(lower_char(c), ((c as u32) + 32) as u32);
        }
    }
    assert(lower_word(lower_word(w)) =~= lower_word(w));
}

/// Keywords, `true` and `false` are recognized in any ASCII case: a word
/// and its lower-case form give the same token, except that an ordinary
/// identifier keeps the case it was written in.
pub proof fn lemma_keywords_ignore_case(w: Seq<char>)
    ensures
        word_token(lower_word(w)) == if word_token(w) == TokenV::Ident(w) {
            TokenV::Ident(lower_word(w))
        } else {
            word_token(w)
        },
{
    lemma_lower_word_idempotent(w);
}

} // verus!
