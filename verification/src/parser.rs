//! Parser for filter expressions: turns tokens into an expression tree.

use vstd::prelude::*;

use crate::lexer::{lower_is, lower_word, text_is, tokenize_from, tokens_view, LexError, Lexer, Token, TokenV};

verus! {

/// Expression tree of a filter.
#[derive(Debug, PartialEq)]
pub enum Expr {
    /// Boolean literal: `true` or `false`.
    Bool(bool),
    /// Random sampling: `rand(N)` is true once every N evaluations.
    Rand(u16),
    /// `payload contains "string"`
    Contains(String),
    /// `payload starts_with "string"`
    StartsWith(String),
    /// `payload ends_with "string"`
    EndsWith(String),
    /// `payload == "string"`
    Equals(String),
    /// `payload matches "pattern"`
    Matches(String),
    /// `FIELD contains "string"`
    PartContains { part: String, value: String },
    /// `FIELD icontains "string"`
    PartIContains { part: String, value: String },
    /// `FIELD starts_with "string"`
    PartStartsWith { part: String, value: String },
    /// `FIELD ends_with "string"`
    PartEndsWith { part: String, value: String },
    /// `FIELD == "string"`
    PartEquals { part: String, value: String },
    /// `FIELD iequals "string"`
    PartIEquals { part: String, value: String },
    /// `FIELD != "string"`
    PartNotEquals { part: String, value: String },
    /// `FIELD matches "pattern"`
    PartMatches { part: String, pattern: String },
    /// `FIELD in {"a", "b", "c"}`
    PartInSet { part: String, values: Vec<String> },
    /// `FIELD is_empty`
    PartIsEmpty { part: String },
    /// `FIELD not_empty`
    PartNotEmpty { part: String },
    /// `FIELD.header("name") == "value"`
    HeaderEquals { part: String, header: String, value: String },
    /// `FIELD.header("name") iequals "value"`
    HeaderIEquals { part: String, header: String, value: String },
    /// `FIELD.header("name") contains "value"`
    HeaderContains { part: String, header: String, value: String },
    /// `FIELD.header("name") exists`
    HeaderExists { part: String, header: String },
    /// Logical AND.
    And(Box<Expr>, Box<Expr>),
    /// Logical OR.
    Or(Box<Expr>, Box<Expr>),
    /// Logical NOT.
    Not(Box<Expr>),
}

/// An expression tree with its texts taken as character sequences.
pub enum ExprV {
    Bool(bool),
    Rand(u16),
    Contains(Seq<char>),
    StartsWith(Seq<char>),
    EndsWith(Seq<char>),
    Equals(Seq<char>),
    Matches(Seq<char>),
    PartContains(Seq<char>, Seq<char>),
    PartIContains(Seq<char>, Seq<char>),
    PartStartsWith(Seq<char>, Seq<char>),
    PartEndsWith(Seq<char>, Seq<char>),
    PartEquals(Seq<char>, Seq<char>),
    PartIEquals(Seq<char>, Seq<char>),
    PartNotEquals(Seq<char>, Seq<char>),
    PartMatches(Seq<char>, Seq<char>),
    PartInSet(Seq<char>, Seq<Seq<char>>),
    PartIsEmpty(Seq<char>),
    PartNotEmpty(Seq<char>),
    HeaderEquals(Seq<char>, Seq<char>, Seq<char>),
    HeaderIEquals(Seq<char>, Seq<char>, Seq<char>),
    HeaderContains(Seq<char>, Seq<char>, Seq<char>),
    HeaderExists(Seq<char>, Seq<char>),
    And(Box<ExprV>, Box<ExprV>),
    Or(Box<ExprV>, Box<ExprV>),
    Not(Box<ExprV>),
}

/// The texts of a list of strings.
pub open spec fn strings_view(v: Seq<String>) -> Seq<Seq<char>> {
    v.map_values(|s: String| s@)
}

impl View for Expr {
    type V = ExprV;

    open spec fn view(&self) -> ExprV
        decreases self,
    {
        match self {
            Expr::Bool(b) => ExprV::Bool(*b),
            Expr::Rand(n) => ExprV::Rand(*n),
            Expr::Contains(s) => ExprV::Contains(s@),
            Expr::StartsWith(s) => ExprV::StartsWith(s@),
            Expr::EndsWith(s) => ExprV::EndsWith(s@),
            Expr::Equals(s) => ExprV::Equals(s@),
            Expr::Matches(s) => ExprV::Matches(s@),
            Expr::PartContains { part, value } => ExprV::PartContains(part@, value@),
            Expr::PartIContains { part, value } => ExprV::PartIContains(part@, value@),
            Expr::PartStartsWith { part, value } => ExprV::PartStartsWith(part@, value@),
            Expr::PartEndsWith { part, value } => ExprV::PartEndsWith(part@, value@),
            Expr::PartEquals { part, value } => ExprV::PartEquals(part@, value@),
            Expr::PartIEquals { part, value } => ExprV::PartIEquals(part@, value@),
            Expr::PartNotEquals { part, value } => ExprV::PartNotEquals(part@, value@),
            Expr::PartMatches { part, pattern } => ExprV::PartMatches(part@, pattern@),
            Expr::PartInSet { part, values } => ExprV::PartInSet(part@, strings_view(values@)),
            Expr::PartIsEmpty { part } => ExprV::PartIsEmpty(part@),
            Expr::PartNotEmpty { part } => ExprV::PartNotEmpty(part@),
            Expr::HeaderEquals { part, header, value } => ExprV::HeaderEquals(
                part@,
                header@,
                value@,
            ),
            Expr::HeaderIEquals { part, header, value } => ExprV::HeaderIEquals(
                part@,
                header@,
                value@,
            ),
            Expr::HeaderContains { part, header, value } => ExprV::HeaderContains(
                part@,
                header@,
                value@,
            ),
            Expr::HeaderExists { part, header } => ExprV::HeaderExists(part@, header@),
            Expr::And(l, r) => ExprV::And(Box::new((**l).view()), Box::new((**r).view())),
            Expr::Or(l, r) => ExprV::Or(Box::new((**l).view()), Box::new((**r).view())),
            Expr::Not(e) => ExprV::Not(Box::new((**e).view())),
        }
    }
}

/// Parser error types.
#[derive(Debug, Clone, PartialEq)]
pub enum ParseError {
    /// The lexer failed.
    Lex(LexError),
    /// A token other than the one expected.
    UnexpectedToken { expected: String, got: Token },
    /// Input ended where something was expected.
    UnexpectedEof(String),
    /// A field name that the configuration does not know.
    UnknownField(String, String),
    /// `rand()` needs an argument between 1 and 65535.
    InvalidRandArg,
    /// A string literal was expected.
    ExpectedString,
    /// A number was expected.
    ExpectedNumber,
    /// A regex pattern that does not compile.
    InvalidRegex(String),
}

/// A parse error with its texts taken as character sequences.
pub enum ParseErrorV {
    Lex(LexError),
    UnexpectedToken(Seq<char>, TokenV),
    UnexpectedEof(Seq<char>),
    UnknownField(Seq<char>, Seq<char>),
    InvalidRandArg,
    ExpectedString,
    ExpectedNumber,
    InvalidRegex(Seq<char>),
}

impl View for ParseError {
    type V = ParseErrorV;

    open spec fn view(&self) -> ParseErrorV {
        match self {
            ParseError::Lex(e) => ParseErrorV::Lex(*e),
            ParseError::UnexpectedToken { expected, got } => ParseErrorV::UnexpectedToken(
                expected@,
                got@,
            ),
            ParseError::UnexpectedEof(s) => ParseErrorV::UnexpectedEof(s@),
            ParseError::UnknownField(a, b) => ParseErrorV::UnknownField(a@, b@),
            ParseError::InvalidRandArg => ParseErrorV::InvalidRandArg,
            ParseError::ExpectedString => ParseErrorV::ExpectedString,
            ParseError::ExpectedNumber => ParseErrorV::ExpectedNumber,
            ParseError::InvalidRegex(s) => ParseErrorV::InvalidRegex(s@),
        }
    }
}

/// Parser configuration: field names mapped to positional indices, and the
/// delimiter that splits records into fields.
///
/// Each name appears at most once when the map is built with `add_field`;
/// a lookup takes the first entry with the name.
#[derive(Debug, Clone)]
pub struct ParserConfig {
    /// Field names and the part index each maps to.
    pub fields: Vec<(String, u8)>,
    /// The delimiter used to split records into fields.
    pub delimiter: Vec<u8>,
}

/// A configuration with its names taken as character sequences.
pub struct ConfigV {
    pub fields: Seq<(Seq<char>, u8)>,
    pub delimiter: Seq<u8>,
}

/// The part index of the first entry named `name`, if any.
pub open spec fn lookup_name(fields: Seq<(Seq<char>, u8)>, name: Seq<char>) -> Option<u8>
    decreases fields.len(),
{
    if fields.len() == 0 {
        None
    } else if fields[0].0 == name {
        Some(fields[0].1)
    } else {
        lookup_name(fields.drop_first(), name)
    }
}

impl View for ParserConfig {
    type V = ConfigV;

    open spec fn view(&self) -> ConfigV {
        ConfigV {
            fields: self.fields@.map_values(|e: (String, u8)| (e.0@, e.1)),
            delimiter: self.delimiter@,
        }
    }
}

impl Default for ParserConfig {
    fn default() -> (c: Self)
        ensures
            c@.fields.len() == 0,
            c@.delimiter == seq![59u8, 59u8, 59u8],
    {
        let mut delimiter = Vec::new();
        delimiter.push(59u8);
        delimiter.push(59u8);
        delimiter.push(59u8);
        ParserConfig { fields: Vec::new(), delimiter }
    }
}

/// Looking up a name that no entry has finds nothing; otherwise the first
/// entry with the name answers.
proof fn lemma_lookup_absent(fields: Seq<(Seq<char>, u8)>, n: Seq<char>)
    requires
        forall|j: int| 0 <= j < fields.len() ==> fields[j].0 != n,
    ensures
        lookup_name(fields, n) is None,
    decreases fields.len(),
{
    if fields.len() > 0 {
        lemma_lookup_absent(fields.drop_first(), n);
    }
}

/// Replacing entry `i` changes no lookup of a name other than the old and
/// new names there; the new name, absent before `i`, is found at `i`.
proof fn lemma_lookup_update(
    fields: Seq<(Seq<char>, u8)>,
    i: int,
    e: (Seq<char>, u8),
    n: Seq<char>,
)
    requires
        0 <= i < fields.len(),
        forall|j: int| 0 <= j < i ==> fields[j].0 != e.0,
    ensures
        n == e.0 ==> lookup_name(fields.update(i, e), n) == Some(e.1),
        n != e.0 && n != fields[i].0 ==> lookup_name(fields.update(i, e), n) == lookup_name(
            fields,
            n,
        ),
    decreases fields.len(),
{
    if i > 0 {
        lemma_lookup_update(fields.drop_first(), i - 1, e, n);
        assert(fields.update(i, e).drop_first() =~= fields.drop_first().update(i - 1, e));
        assert(fields.update(i, e)[0] == fields[0]);
    } else {
        assert(fields.update(i, e).drop_first() =~= fields.drop_first());
    }
}

/// Appending an entry changes only the lookup of a name no earlier entry has.
proof fn lemma_lookup_push(fields: Seq<(Seq<char>, u8)>, e: (Seq<char>, u8), n: Seq<char>)
    ensures
        lookup_name(fields.push(e), n) == if lookup_name(fields, n) is Some {
            lookup_name(fields, n)
        } else if n == e.0 {
            Some(e.1)
        } else {
            None
        },
    decreases fields.len(),
{
    if fields.len() > 0 {
        lemma_lookup_push(fields.drop_first(), e, n);
        assert(fields.push(e).drop_first() =~= fields.drop_first().push(e));
        assert(fields.push(e)[0] == fields[0]);
    } else {
        assert(fields.push(e).drop_first() =~= fields);
    }
}

/// The fields with `name` mapped to `index`: the first entry with that
/// name takes the index, or else a new entry is added at the end.
pub open spec fn insert_field(fields: Seq<(Seq<char>, u8)>, name: Seq<char>, index: u8) -> Seq<
    (Seq<char>, u8),
>
    decreases fields.len(),
{
    if fields.len() == 0 {
        seq![(name, index)]
    } else if fields[0].0 == name {
        fields.update(0, (name, index))
    } else {
        seq![fields[0]] + insert_field(fields.drop_first(), name, index)
    }
}

/// Where the first entry named `name` sits, with no earlier one, inserting
/// replaces it; where none has the name, inserting appends.
proof fn lemma_insert_field(fields: Seq<(Seq<char>, u8)>, name: Seq<char>, index: u8, i: int)
    requires
        0 <= i <= fields.len(),
        forall|j: int| 0 <= j < i ==> fields[j].0 != name,
        i < fields.len() ==> fields[i].0 == name,
    ensures
        insert_field(fields, name, index) == if i < fields.len() {
            fields.update(i, (name, index))
        } else {
            fields.push((name, index))
        },
    decreases fields.len(),
{
    if fields.len() > 0 && i > 0 {
        lemma_insert_field(fields.drop_first(), name, index, i - 1);
        if i < fields.len() {
            assert(seq![fields[0]] + fields.drop_first().update(i - 1, (name, index)) =~= fields.update(
                i,
                (name, index),
            ));
        } else {
            assert(seq![fields[0]] + fields.drop_first().push((name, index)) =~= fields.push(
                (name, index),
            ));
        }
    } else if fields.len() == 0 {
        assert(seq![(name, index)] =~= fields.push((name, index)));
    }
}

impl ParserConfig {
    /// Add a field mapping, replacing any mapping of the same name.
    pub fn add_field(&mut self, name: &str, index: u8) -> (r: &mut Self)
        ensures
            forall|n: Seq<char>| #[trigger]
                lookup_name(r@.fields, n) == if n == name@ {
                    Some(index)
                } else {
                    lookup_name(old(self)@.fields, n)
                },
            r@.fields == insert_field(old(self)@.fields, name@, index),
            r@.delimiter == old(self)@.delimiter,
            *final(self) == *final(r),
    {
        let key = name.to_owned();
        let mut i: usize = 0;
        let ghost old_fields = self@.fields;
        while i < self.fields.len()
            invariant
                key@ == name@,
                i <= self.fields@.len(),
                self@.fields == old_fields,
                self@.delimiter == old(self)@.delimiter,
                old_fields == old(self)@.fields,
                forall|j: int| 0 <= j < i ==> old_fields[j].0 != name@,
            decreases self.fields@.len() - i,
        {
            if self.fields[i].0 == key {
                let ghost e = (name@, index);
                self.fields.set(i, (key, index));
                proof {
                    assert(self@.fields =~= old_fields.update(i as int, e));
                    assert forall|n: Seq<char>| #[trigger]
                        lookup_name(self@.fields, n) == if n == name@ {
                            Some(index)
                        } else {
                            lookup_name(old_fields, n)
                        } by {
                        lemma_lookup_update(old_fields, i as int, e, n);
                    }
                    lemma_insert_field(old_fields, name@, index, i as int);
                }
                return self;
            }
            i += 1;
        }
        let ghost e = (name@, index);
        self.fields.push((key, index));
        proof {
            assert(self@.fields =~= old_fields.push(e));
            lemma_lookup_absent(old_fields, name@);
            assert forall|n: Seq<char>| #[trigger]
                lookup_name(self@.fields, n) == if n == name@ {
                    Some(index)
                } else {
                    lookup_name(old_fields, n)
                } by {
                lemma_lookup_push(old_fields, e, n);
            }
            lemma_insert_field(old_fields, name@, index, old_fields.len() as int);
        }
        self
    }

    /// Set the delimiter.
    pub fn set_delimiter(&mut self, delimiter: &str) -> (r: &mut Self)
        ensures
            r@.fields == old(self)@.fields,
            r@.delimiter == vstd::utf8::encode_utf8(delimiter@),
            *final(self) == *final(r),
    {
        self.delimiter = vstd::slice::slice_to_vec(delimiter.as_bytes());
        self
    }
}

/// The token at position `i`; past the end, the end of input.
pub open spec fn tok_at(toks: Seq<TokenV>, i: int) -> TokenV {
    if 0 <= i < toks.len() {
        toks[i]
    } else {
        TokenV::Eof
    }
}

/// The position after `i`, which stays at the end once there.
pub open spec fn after(toks: Seq<TokenV>, i: int) -> int {
    if i < toks.len() {
        i + 1
    } else {
        toks.len() as int
    }
}

/// An unexpected-token error.
pub open spec fn unexpected(expected: Seq<char>, got: TokenV) -> ParseErrorV {
    ParseErrorV::UnexpectedToken(expected, got)
}

/// The position after token `t` expected at `i`.
pub open spec fn expect_at(toks: Seq<TokenV>, i: int, t: TokenV, name: Seq<char>) -> Result<
    int,
    ParseErrorV,
> {
    if tok_at(toks, i) == t {
        Ok(after(toks, i))
    } else {
        Err(unexpected(name, tok_at(toks, i)))
    }
}

/// A string literal expected at `i`.
pub open spec fn string_at(toks: Seq<TokenV>, i: int) -> Result<(Seq<char>, int), ParseErrorV> {
    match tok_at(toks, i) {
        TokenV::Str(s) => Ok((s, after(toks, i))),
        got => Err(unexpected("string"@, got)),
    }
}

/// A string or regex literal expected at `i`.
pub open spec fn pattern_at(toks: Seq<TokenV>, i: int) -> Result<(Seq<char>, int), ParseErrorV> {
    match tok_at(toks, i) {
        TokenV::Str(s) => Ok((s, after(toks, i))),
        TokenV::Regex(s) => Ok((s, after(toks, i))),
        got => Err(unexpected("string or regex"@, got)),
    }
}

/// The rest of a string set after its values so far, from `j`: more values
/// after commas (a trailing comma allowed), then `}`.
pub open spec fn set_rest(toks: Seq<TokenV>, vals: Seq<Seq<char>>, j: int) -> Result<
    (Seq<Seq<char>>, int),
    ParseErrorV,
>
    decreases toks.len() - j,
{
    if 0 <= j < toks.len() && toks[j] == TokenV::Comma {
        let k = j + 1;
        if tok_at(toks, k) == TokenV::RBrace {
            Ok((vals, after(toks, k)))
        } else {
            match string_at(toks, k) {
                Ok((v, m)) => if j < m {
                    set_rest(toks, vals.push(v), m)
                } else {
                    Ok((vals, m))
                },
                Err(e) => Err(e),
            }
        }
    } else {
        match expect_at(toks, j, TokenV::RBrace, "RBrace"@) {
            Ok(m) => Ok((vals, m)),
            Err(e) => Err(e),
        }
    }
}

/// A string set `{"a", "b"}` at `i`.
pub open spec fn string_set_at(toks: Seq<TokenV>, i: int) -> Result<(Seq<Seq<char>>, int), ParseErrorV> {
    match expect_at(toks, i, TokenV::LBrace, "LBrace"@) {
        Ok(j) => if tok_at(toks, j) == TokenV::RBrace {
            Ok((Seq::empty(), after(toks, j)))
        } else {
            match string_at(toks, j) {
                Ok((v, k)) => set_rest(toks, seq![v], k),
                Err(e) => Err(e),
            }
        },
        Err(e) => Err(e),
    }
}

/// `rand(N)` at `i` (`i` holds `rand`).
pub open spec fn rand_at(toks: Seq<TokenV>, i: int) -> Result<(ExprV, int), ParseErrorV> {
    match expect_at(toks, after(toks, i), TokenV::LParen, "LParen"@) {
        Ok(j) => match tok_at(toks, j) {
            TokenV::Number(n) => if n == 0 || n > 65535 {
                Err(ParseErrorV::InvalidRandArg)
            } else {
                match expect_at(toks, after(toks, j), TokenV::RParen, "RParen"@) {
                    Ok(k) => Ok((ExprV::Rand(n as u16), k)),
                    Err(e) => Err(e),
                }
            },
            got => Err(unexpected("number"@, got)),
        },
        Err(e) => Err(e),
    }
}

/// An operation on the whole payload at `i` (after `payload`).
pub open spec fn payload_op_at(toks: Seq<TokenV>, i: int) -> Result<(ExprV, int), ParseErrorV> {
    let j = after(toks, i);
    match tok_at(toks, i) {
        TokenV::Contains => match string_at(toks, j) {
            Ok((v, k)) => Ok((ExprV::Contains(v), k)),
            Err(e) => Err(e),
        },
        TokenV::StartsWith => match string_at(toks, j) {
            Ok((v, k)) => Ok((ExprV::StartsWith(v), k)),
            Err(e) => Err(e),
        },
        TokenV::EndsWith => match string_at(toks, j) {
            Ok((v, k)) => Ok((ExprV::EndsWith(v), k)),
            Err(e) => Err(e),
        },
        TokenV::Matches => match pattern_at(toks, j) {
            Ok((v, k)) => Ok((ExprV::Matches(v), k)),
            Err(e) => Err(e),
        },
        TokenV::Eq => match string_at(toks, j) {
            Ok((v, k)) => Ok((ExprV::Equals(v), k)),
            Err(e) => Err(e),
        },
        got => Err(unexpected("contains, starts_with, ends_with, matches, or =="@, got)),
    }
}

/// An operation on header `header` of field `part`, at `i`.
pub open spec fn header_op_at(toks: Seq<TokenV>, part: Seq<char>, header: Seq<char>, i: int) -> Result<
    (ExprV, int),
    ParseErrorV,
> {
    let j = after(toks, i);
    match tok_at(toks, i) {
        TokenV::Eq => match string_at(toks, j) {
            Ok((v, k)) => Ok((ExprV::HeaderEquals(part, header, v), k)),
            Err(e) => Err(e),
        },
        TokenV::IEquals => match string_at(toks, j) {
            Ok((v, k)) => Ok((ExprV::HeaderIEquals(part, header, v), k)),
            Err(e) => Err(e),
        },
        TokenV::Contains => match string_at(toks, j) {
            Ok((v, k)) => Ok((ExprV::HeaderContains(part, header, v), k)),
            Err(e) => Err(e),
        },
        TokenV::Ident(w) => if lower_word(w) == seq!['e', 'x', 'i', 's', 't', 's'] {
            Ok((ExprV::HeaderExists(part, header), j))
        } else {
            Err(unexpected("==, iequals, contains, or exists"@, TokenV::Ident(w)))
        },
        got => Err(unexpected("==, iequals, contains, or exists"@, got)),
    }
}

/// A field operation at `i`, after field name `part`: a header extraction
/// `.header("name") ...` or a test of the field.
pub open spec fn field_op_at(toks: Seq<TokenV>, part: Seq<char>, i: int) -> Result<
    (ExprV, int),
    ParseErrorV,
> {
    let j = after(toks, i);
    if tok_at(toks, i) == TokenV::Dot {
        if tok_at(toks, j) != TokenV::Header {
            Err(unexpected("header"@, tok_at(toks, j)))
        } else {
            match expect_at(toks, after(toks, j), TokenV::LParen, "LParen"@) {
                Ok(k) => match string_at(toks, k) {
                    Ok((h, m)) => match expect_at(toks, m, TokenV::RParen, "RParen"@) {
                        Ok(n) => header_op_at(toks, part, h, n),
                        Err(e) => Err(e),
                    },
                    Err(e) => Err(e),
                },
                Err(e) => Err(e),
            }
        }
    } else {
        match tok_at(toks, i) {
            TokenV::Contains => match string_at(toks, j) {
                Ok((v, k)) => Ok((ExprV::PartContains(part, v), k)),
                Err(e) => Err(e),
            },
            TokenV::IContains => match string_at(toks, j) {
                Ok((v, k)) => Ok((ExprV::PartIContains(part, v), k)),
                Err(e) => Err(e),
            },
            TokenV::StartsWith => match string_at(toks, j) {
                Ok((v, k)) => Ok((ExprV::PartStartsWith(part, v), k)),
                Err(e) => Err(e),
            },
            TokenV::EndsWith => match string_at(toks, j) {
                Ok((v, k)) => Ok((ExprV::PartEndsWith(part, v), k)),
                Err(e) => Err(e),
            },
            TokenV::Matches => match pattern_at(toks, j) {
                Ok((v, k)) => Ok((ExprV::PartMatches(part, v), k)),
                Err(e) => Err(e),
            },
            TokenV::Eq => match string_at(toks, j) {
                Ok((v, k)) => Ok((ExprV::PartEquals(part, v), k)),
                Err(e) => Err(e),
            },
            TokenV::Ne => match string_at(toks, j) {
                Ok((v, k)) => Ok((ExprV::PartNotEquals(part, v), k)),
                Err(e) => Err(e),
            },
            TokenV::IEquals => match string_at(toks, j) {
                Ok((v, k)) => Ok((ExprV::PartIEquals(part, v), k)),
                Err(e) => Err(e),
            },
            TokenV::In => match string_set_at(toks, j) {
                Ok((vs, k)) => Ok((ExprV::PartInSet(part, vs), k)),
                Err(e) => Err(e),
            },
            TokenV::IsEmpty => Ok((ExprV::PartIsEmpty(part), j)),
            TokenV::NotEmpty => Ok((ExprV::PartNotEmpty(part), j)),
            got => Err(
                unexpected(
                    "contains, starts_with, ends_with, matches, ==, !=, in, is_empty, or not_empty"@,
                    got,
                ),
            ),
        }
    }
}

/// A primary expression at `i`: `( expr )`, `rand(N)`, `true`, `false`,
/// a payload operation or a field operation.
pub open spec fn primary_at(toks: Seq<TokenV>, i: int) -> Result<(ExprV, int), ParseErrorV>
    decreases toks.len() - i, 0nat,
{
    let j = after(toks, i);
    match tok_at(toks, i) {
        TokenV::LParen => match or_at(toks, i + 1) {
            Ok((e, k)) => match expect_at(toks, k, TokenV::RParen, "RParen"@) {
                Ok(m) => Ok((e, m)),
                Err(x) => Err(x),
            },
            Err(x) => Err(x),
        },
        TokenV::Rand => rand_at(toks, i),
        TokenV::Ident(name) => if name == seq!['t', 'r', 'u', 'e'] {
            Ok((ExprV::Bool(true), j))
        } else if name == seq!['f', 'a', 'l', 's', 'e'] {
            Ok((ExprV::Bool(false), j))
        } else if lower_word(name) == seq!['p', 'a', 'y', 'l', 'o', 'a', 'd'] {
            payload_op_at(toks, j)
        } else {
            field_op_at(toks, name, j)
        },
        got => Err(unexpected("expression"@, got)),
    }
}

/// `NOT not_expr | primary` at `i`.
pub open spec fn not_at(toks: Seq<TokenV>, i: int) -> Result<(ExprV, int), ParseErrorV>
    decreases toks.len() - i, 1nat,
{
    if tok_at(toks, i) == TokenV::Not {
        match not_at(toks, i + 1) {
            Ok((e, j)) => Ok((ExprV::Not(Box::new(e)), j)),
            Err(x) => Err(x),
        }
    } else {
        primary_at(toks, i)
    }
}

/// `(AND not_expr)*` at `j`, after `left`; operands group to the left.
pub open spec fn and_rest(toks: Seq<TokenV>, left: ExprV, j: int) -> Result<(ExprV, int), ParseErrorV>
    decreases toks.len() - j, 2nat,
{
    if tok_at(toks, j) == TokenV::And {
        match not_at(toks, j + 1) {
            Ok((right, k)) => if j < k <= toks.len() {
                and_rest(toks, ExprV::And(Box::new(left), Box::new(right)), k)
            } else {
                Ok((ExprV::And(Box::new(left), Box::new(right)), k))
            },
            Err(x) => Err(x),
        }
    } else {
        Ok((left, j))
    }
}

/// `not_expr (AND not_expr)*` at `i`.
pub open spec fn and_at(toks: Seq<TokenV>, i: int) -> Result<(ExprV, int), ParseErrorV>
    decreases toks.len() - i, 3nat,
{
    match not_at(toks, i) {
        Ok((left, j)) => if i <= j <= toks.len() {
            and_rest(toks, left, j)
        } else {
            Ok((left, j))
        },
        Err(x) => Err(x),
    }
}

/// `(OR and_expr)*` at `j`, after `left`; operands group to the left.
pub open spec fn or_rest(toks: Seq<TokenV>, left: ExprV, j: int) -> Result<(ExprV, int), ParseErrorV>
    decreases toks.len() - j, 4nat,
{
    if tok_at(toks, j) == TokenV::Or {
        match and_at(toks, j + 1) {
            Ok((right, k)) => if j < k <= toks.len() {
                or_rest(toks, ExprV::Or(Box::new(left), Box::new(right)), k)
            } else {
                Ok((ExprV::Or(Box::new(left), Box::new(right)), k))
            },
            Err(x) => Err(x),
        }
    } else {
        Ok((left, j))
    }
}

/// `and_expr (OR and_expr)*` at `i`.
pub open spec fn or_at(toks: Seq<TokenV>, i: int) -> Result<(ExprV, int), ParseErrorV>
    decreases toks.len() - i, 5nat,
{
    match and_at(toks, i) {
        Ok((left, j)) => if i <= j <= toks.len() {
            or_rest(toks, left, j)
        } else {
            Ok((left, j))
        },
        Err(x) => Err(x),
    }
}

/// A whole expression at `i`, which must be followed by the end of input.
pub open spec fn parse_from(toks: Seq<TokenV>, i: int) -> Result<(ExprV, int), ParseErrorV> {
    match or_at(toks, i) {
        Ok((e, j)) => if tok_at(toks, j) != TokenV::Eof {
            Err(unexpected("end of input"@, tok_at(toks, j)))
        } else {
            Ok((e, j))
        },
        Err(x) => Err(x),
    }
}

/// What parsing the text `input` gives: its tokens, parsed as one
/// expression.
pub open spec fn parse_spec(input: Seq<char>) -> Result<ExprV, ParseErrorV> {
    match tokenize_from(input, 0).0 {
        Ok(toks) => match parse_from(toks, 0) {
            Ok((e, _)) => Ok(e),
            Err(x) => Err(x),
        },
        Err(e) => Err(ParseErrorV::Lex(e)),
    }
}

/// The tokens `F . header ( "h" )` followed by `tail`.
pub open spec fn header_tokens(f: Seq<char>, h: Seq<char>, tail: Seq<TokenV>) -> Seq<TokenV> {
    seq![TokenV::Ident(f), TokenV::Dot, TokenV::Header, TokenV::LParen, TokenV::Str(h), TokenV::RParen] + tail
}

/// A header extraction whose operation reaches the end of the tokens is the
/// whole parsed expression.
proof fn lemma_header_tokens_parse(f: Seq<char>, h: Seq<char>, tail: Seq<TokenV>, e: ExprV)
    requires
        f != seq!['t', 'r', 'u', 'e'],
        f != seq!['f', 'a', 'l', 's', 'e'],
        lower_word(f) != seq!['p', 'a', 'y', 'l', 'o', 'a', 'd'],
        header_op_at(header_tokens(f, h, tail), f, h, 6) == Ok::<(ExprV, int), ParseErrorV>(
            (e, header_tokens(f, h, tail).len() as int),
        ),
    ensures
        parse_from(header_tokens(f, h, tail), 0) == Ok::<(ExprV, int), ParseErrorV>(
            (e, header_tokens(f, h, tail).len() as int),
        ),
{
    let toks = header_tokens(f, h, tail);
    let n = toks.len() as int;
    assert(toks[0] == TokenV::Ident(f));
    assert(toks[1] == TokenV::Dot);
    assert(toks[2] == TokenV::Header);
    assert(toks[3] == TokenV::LParen);
    assert(toks[4] == TokenV::Str(h));
    assert(toks[5] == TokenV::RParen);
    assert(field_op_at(toks, f, 1) == header_op_at(toks, f, h, 6));
    assert(primary_at(toks, 0) == Ok::<(ExprV, int), ParseErrorV>((e, n)));
    assert(not_at(toks, 0) == Ok::<(ExprV, int), ParseErrorV>((e, n)));
    assert(and_rest(toks, e, n) == Ok::<(ExprV, int), ParseErrorV>((e, n)));
    assert(and_at(toks, 0) == Ok::<(ExprV, int), ParseErrorV>((e, n)));
    assert(or_rest(toks, e, n) == Ok::<(ExprV, int), ParseErrorV>((e, n)));
    assert(or_at(toks, 0) == Ok::<(ExprV, int), ParseErrorV>((e, n)));
}

/// Header tests parse as written: for every field name `F` other than the
/// literals `true`, `false` and the word `payload`, the tokens of
/// `F.header("h") == "v"` parse to `HeaderEquals(F, h, v)`.
pub proof fn lemma_header_equals_parses(f: Seq<char>, h: Seq<char>, v: Seq<char>)
    requires
        f != seq!['t', 'r', 'u', 'e'],
        f != seq!['f', 'a', 'l', 's', 'e'],
        lower_word(f) != seq!['p', 'a', 'y', 'l', 'o', 'a', 'd'],
    ensures
        parse_from(header_tokens(f, h, seq![TokenV::Eq, TokenV::Str(v)]), 0) == Ok::<(ExprV, int), ParseErrorV>(
            (ExprV::HeaderEquals(f, h, v), 8),
        ),
{
    let t = header_tokens(f, h, seq![TokenV::Eq, TokenV::Str(v)]);
    assert(t[6] == TokenV::Eq && t[7] == TokenV::Str(v) && t.len() == 8);
    lemma_header_tokens_parse(f, h, seq![TokenV::Eq, TokenV::Str(v)], ExprV::HeaderEquals(f, h, v));
}

/// Header tests parse as written: for every field name `F` other than the
/// literals `true`, `false` and the word `payload`, the tokens of
/// `F.header("h") iequals "v"` parse to `HeaderIEquals(F, h, v)`.
pub proof fn lemma_header_iequals_parses(f: Seq<char>, h: Seq<char>, v: Seq<char>)
    requires
        f != seq!['t', 'r', 'u', 'e'],
        f != seq!['f', 'a', 'l', 's', 'e'],
        lower_word(f) != seq!['p', 'a', 'y', 'l', 'o', 'a', 'd'],
    ensures
        parse_from(header_tokens(f, h, seq![TokenV::IEquals, TokenV::Str(v)]), 0) == Ok::<(ExprV, int), ParseErrorV>(
            (ExprV::HeaderIEquals(f, h, v), 8),
        ),
{
    let t = header_tokens(f, h, seq![TokenV::IEquals, TokenV::Str(v)]);
    assert(t[6] == TokenV::IEquals && t[7] == TokenV::Str(v) && t.len() == 8);
    lemma_header_tokens_parse(f, h, seq![TokenV::IEquals, TokenV::Str(v)], ExprV::HeaderIEquals(f, h, v));
}

/// Header tests parse as written: for every field name `F` other than the
/// literals `true`, `false` and the word `payload`, the tokens of
/// `F.header("h") contains "v"` parse to `HeaderContains(F, h, v)`.
pub proof fn lemma_header_contains_parses(f: Seq<char>, h: Seq<char>, v: Seq<char>)
    requires
        f != seq!['t', 'r', 'u', 'e'],
        f != seq!['f', 'a', 'l', 's', 'e'],
        lower_word(f) != seq!['p', 'a', 'y', 'l', 'o', 'a', 'd'],
    ensures
        parse_from(header_tokens(f, h, seq![TokenV::Contains, TokenV::Str(v)]), 0) == Ok::<(ExprV, int), ParseErrorV>(
            (ExprV::HeaderContains(f, h, v), 8),
        ),
{
    let t = header_tokens(f, h, seq![TokenV::Contains, TokenV::Str(v)]);
    assert(t[6] == TokenV::Contains && t[7] == TokenV::Str(v) && t.len() == 8);
    lemma_header_tokens_parse(f, h, seq![TokenV::Contains, TokenV::Str(v)], ExprV::HeaderContains(f, h, v));
}

/// Header tests parse as written: for every field name `F` other than the
/// literals `true`, `false` and the word `payload`, the tokens of
/// `F.header("h") exists` parse to `HeaderExists(F, h)`.
pub proof fn lemma_header_exists_parses(f: Seq<char>, h: Seq<char>)
    requires
        f != seq!['t', 'r', 'u', 'e'],
        f != seq!['f', 'a', 'l', 's', 'e'],
        lower_word(f) != seq!['p', 'a', 'y', 'l', 'o', 'a', 'd'],
    ensures
        parse_from(header_tokens(f, h, seq![TokenV::Ident(seq!['e', 'x', 'i', 's', 't', 's'])]), 0) == Ok::<
            (ExprV, int),
            ParseErrorV,
        >((ExprV::HeaderExists(f, h), 7)),
{
    let w = seq!['e', 'x', 'i', 's', 't', 's'];
    let t = header_tokens(f, h, seq![TokenV::Ident(w)]);
    assert(t[6] == TokenV::Ident(w) && t.len() == 7);
    assert(lower_word(w) =~= w);
    lemma_header_tokens_parse(f, h, seq![TokenV::Ident(w)], ExprV::HeaderExists(f, h));
}

/// A primary expression that takes all the tokens is the whole parse.
proof fn lemma_primary_is_whole(toks: Seq<TokenV>, e: ExprV)
    requires
        primary_at(toks, 0) == Ok::<(ExprV, int), ParseErrorV>((e, toks.len() as int)),
    ensures
        parse_from(toks, 0) == Ok::<(ExprV, int), ParseErrorV>((e, toks.len() as int)),
{
    let n = toks.len() as int;
    assert(tok_at(toks, 0) != TokenV::Not) by {
        if tok_at(toks, 0) == TokenV::Not {
            assert(primary_at(toks, 0) is Err);
        }
    }
    assert(not_at(toks, 0) == Ok::<(ExprV, int), ParseErrorV>((e, n)));
    assert(and_rest(toks, e, n) == Ok::<(ExprV, int), ParseErrorV>((e, n)));
    assert(and_at(toks, 0) == Ok::<(ExprV, int), ParseErrorV>((e, n)));
    assert(or_rest(toks, e, n) == Ok::<(ExprV, int), ParseErrorV>((e, n)));
    assert(or_at(toks, 0) == Ok::<(ExprV, int), ParseErrorV>((e, n)));
}

/// A field name: anything but the literals `true` and `false` and the word
/// `payload` in any case.
pub open spec fn field_name(f: Seq<char>) -> bool {
    f != seq!['t', 'r', 'u', 'e'] && f != seq!['f', 'a', 'l', 's', 'e'] && lower_word(f) != seq![
        'p',
        'a',
        'y',
        'l',
        'o',
        'a',
        'd',
    ]
}

/// Field tests parse as written: for every field name `F` and text `v`, the
/// tokens of `F contains "v"` parse to `PartContains(F, v)`.
pub proof fn lemma_field_contains_parses(f: Seq<char>, v: Seq<char>)
    requires
        field_name(f),
    ensures
        parse_from(seq![TokenV::Ident(f), TokenV::Contains, TokenV::Str(v)], 0) == Ok::<(ExprV, int), ParseErrorV>(
            (ExprV::PartContains(f, v), 3),
        ),
{
    let t = seq![TokenV::Ident(f), TokenV::Contains, TokenV::Str(v)];
    assert(t[0] == TokenV::Ident(f) && t[1] == TokenV::Contains && t[2] == TokenV::Str(v));
    assert(primary_at(t, 0) == Ok::<(ExprV, int), ParseErrorV>((ExprV::PartContains(f, v), 3)));
    lemma_primary_is_whole(t, ExprV::PartContains(f, v));
}

/// Field tests parse as written: for every field name `F` and text `v`, the
/// tokens of `F icontains "v"` parse to `PartIContains(F, v)`.
pub proof fn lemma_field_icontains_parses(f: Seq<char>, v: Seq<char>)
    requires
        field_name(f),
    ensures
        parse_from(seq![TokenV::Ident(f), TokenV::IContains, TokenV::Str(v)], 0) == Ok::<(ExprV, int), ParseErrorV>(
            (ExprV::PartIContains(f, v), 3),
        ),
{
    let t = seq![TokenV::Ident(f), TokenV::IContains, TokenV::Str(v)];
    assert(t[0] == TokenV::Ident(f) && t[1] == TokenV::IContains && t[2] == TokenV::Str(v));
    assert(primary_at(t, 0) == Ok::<(ExprV, int), ParseErrorV>((ExprV::PartIContains(f, v), 3)));
    lemma_primary_is_whole(t, ExprV::PartIContains(f, v));
}

/// Field tests parse as written: for every field name `F` and text `v`, the
/// tokens of `F starts_with "v"` parse to `PartStartsWith(F, v)`.
pub proof fn lemma_field_startswith_parses(f: Seq<char>, v: Seq<char>)
    requires
        field_name(f),
    ensures
        parse_from(seq![TokenV::Ident(f), TokenV::StartsWith, TokenV::Str(v)], 0) == Ok::<(ExprV, int), ParseErrorV>(
            (ExprV::PartStartsWith(f, v), 3),
        ),
{
    let t = seq![TokenV::Ident(f), TokenV::StartsWith, TokenV::Str(v)];
    assert(t[0] == TokenV::Ident(f) && t[1] == TokenV::StartsWith && t[2] == TokenV::Str(v));
    assert(primary_at(t, 0) == Ok::<(ExprV, int), ParseErrorV>((ExprV::PartStartsWith(f, v), 3)));
    lemma_primary_is_whole(t, ExprV::PartStartsWith(f, v));
}

/// Field tests parse as written: for every field name `F` and text `v`, the
/// tokens of `F ends_with "v"` parse to `PartEndsWith(F, v)`.
pub proof fn lemma_field_endswith_parses(f: Seq<char>, v: Seq<char>)
    requires
        field_name(f),
    ensures
        parse_from(seq![TokenV::Ident(f), TokenV::EndsWith, TokenV::Str(v)], 0) == Ok::<(ExprV, int), ParseErrorV>(
            (ExprV::PartEndsWith(f, v), 3),
        ),
{
    let t = seq![TokenV::Ident(f), TokenV::EndsWith, TokenV::Str(v)];
    assert(t[0] == TokenV::Ident(f) && t[1] == TokenV::EndsWith && t[2] == TokenV::Str(v));
    assert(primary_at(t, 0) == Ok::<(ExprV, int), ParseErrorV>((ExprV::PartEndsWith(f, v), 3)));
    lemma_primary_is_whole(t, ExprV::PartEndsWith(f, v));
}

/// Field tests parse as written: for every field name `F` and text `v`, the
/// tokens of `F == "v"` parse to `PartEquals(F, v)`.
pub proof fn lemma_field_equals_parses(f: Seq<char>, v: Seq<char>)
    requires
        field_name(f),
    ensures
        parse_from(seq![TokenV::Ident(f), TokenV::Eq, TokenV::Str(v)], 0) == Ok::<(ExprV, int), ParseErrorV>(
            (ExprV::PartEquals(f, v), 3),
        ),
{
    let t = seq![TokenV::Ident(f), TokenV::Eq, TokenV::Str(v)];
    assert(t[0] == TokenV::Ident(f) && t[1] == TokenV::Eq && t[2] == TokenV::Str(v));
    assert(primary_at(t, 0) == Ok::<(ExprV, int), ParseErrorV>((ExprV::PartEquals(f, v), 3)));
    lemma_primary_is_whole(t, ExprV::PartEquals(f, v));
}

/// Field tests parse as written: for every field name `F` and text `v`, the
/// tokens of `F != "v"` parse to `PartNotEquals(F, v)`.
pub proof fn lemma_field_notequals_parses(f: Seq<char>, v: Seq<char>)
    requires
        field_name(f),
    ensures
        parse_from(seq![TokenV::Ident(f), TokenV::Ne, TokenV::Str(v)], 0) == Ok::<(ExprV, int), ParseErrorV>(
            (ExprV::PartNotEquals(f, v), 3),
        ),
{
    let t = seq![TokenV::Ident(f), TokenV::Ne, TokenV::Str(v)];
    assert(t[0] == TokenV::Ident(f) && t[1] == TokenV::Ne && t[2] == TokenV::Str(v));
    assert(primary_at(t, 0) == Ok::<(ExprV, int), ParseErrorV>((ExprV::PartNotEquals(f, v), 3)));
    lemma_primary_is_whole(t, ExprV::PartNotEquals(f, v));
}

/// Field tests parse as written: for every field name `F` and text `v`, the
/// tokens of `F iequals "v"` parse to `PartIEquals(F, v)`.
pub proof fn lemma_field_iequals_parses(f: Seq<char>, v: Seq<char>)
    requires
        field_name(f),
    ensures
        parse_from(seq![TokenV::Ident(f), TokenV::IEquals, TokenV::Str(v)], 0) == Ok::<(ExprV, int), ParseErrorV>(
            (ExprV::PartIEquals(f, v), 3),
        ),
{
    let t = seq![TokenV::Ident(f), TokenV::IEquals, TokenV::Str(v)];
    assert(t[0] == TokenV::Ident(f) && t[1] == TokenV::IEquals && t[2] == TokenV::Str(v));
    assert(primary_at(t, 0) == Ok::<(ExprV, int), ParseErrorV>((ExprV::PartIEquals(f, v), 3)));
    lemma_primary_is_whole(t, ExprV::PartIEquals(f, v));
}

/// Field tests parse as written: for every field name `F` and text `v`, the
/// tokens of `F matches "v"` parse to `PartMatches(F, v)`.
pub proof fn lemma_field_matches_parses(f: Seq<char>, v: Seq<char>)
    requires
        field_name(f),
    ensures
        parse_from(seq![TokenV::Ident(f), TokenV::Matches, TokenV::Str(v)], 0) == Ok::<(ExprV, int), ParseErrorV>(
            (ExprV::PartMatches(f, v), 3),
        ),
{
    let t = seq![TokenV::Ident(f), TokenV::Matches, TokenV::Str(v)];
    assert(t[0] == TokenV::Ident(f) && t[1] == TokenV::Matches && t[2] == TokenV::Str(v));
    assert(primary_at(t, 0) == Ok::<(ExprV, int), ParseErrorV>((ExprV::PartMatches(f, v), 3)));
    lemma_primary_is_whole(t, ExprV::PartMatches(f, v));
}

/// Field tests parse as written: for every field name `F`, the tokens of
/// `F is_empty` parse to `PartIsEmpty(F)`.
pub proof fn lemma_field_isempty_parses(f: Seq<char>)
    requires
        field_name(f),
    ensures
        parse_from(seq![TokenV::Ident(f), TokenV::IsEmpty], 0) == Ok::<(ExprV, int), ParseErrorV>(
            (ExprV::PartIsEmpty(f), 2),
        ),
{
    let t = seq![TokenV::Ident(f), TokenV::IsEmpty];
    assert(t[0] == TokenV::Ident(f) && t[1] == TokenV::IsEmpty);
    assert(primary_at(t, 0) == Ok::<(ExprV, int), ParseErrorV>((ExprV::PartIsEmpty(f), 2)));
    lemma_primary_is_whole(t, ExprV::PartIsEmpty(f));
}

/// Field tests parse as written: for every field name `F`, the tokens of
/// `F not_empty` parse to `PartNotEmpty(F)`.
pub proof fn lemma_field_notempty_parses(f: Seq<char>)
    requires
        field_name(f),
    ensures
        parse_from(seq![TokenV::Ident(f), TokenV::NotEmpty], 0) == Ok::<(ExprV, int), ParseErrorV>(
            (ExprV::PartNotEmpty(f), 2),
        ),
{
    let t = seq![TokenV::Ident(f), TokenV::NotEmpty];
    assert(t[0] == TokenV::Ident(f) && t[1] == TokenV::NotEmpty);
    assert(primary_at(t, 0) == Ok::<(ExprV, int), ParseErrorV>((ExprV::PartNotEmpty(f), 2)));
    lemma_primary_is_whole(t, ExprV::PartNotEmpty(f));
}

/// Set membership parses as written: for every field name `F` and texts `a`
/// and `b`, the tokens of `F in {"a", "b"}` parse to `PartInSet(F, [a, b])`.
pub proof fn lemma_field_in_set_parses(f: Seq<char>, a: Seq<char>, b: Seq<char>)
    requires
        field_name(f),
    ensures
        parse_from(
            seq![TokenV::Ident(f), TokenV::In, TokenV::LBrace, TokenV::Str(a), TokenV::Comma, TokenV::Str(b), TokenV::RBrace],
            0,
        ) == Ok::<(ExprV, int), ParseErrorV>((ExprV::PartInSet(f, seq![a, b]), 7)),
{
    let t = seq![TokenV::Ident(f), TokenV::In, TokenV::LBrace, TokenV::Str(a), TokenV::Comma, TokenV::Str(b), TokenV::RBrace];
    assert(t[0] == TokenV::Ident(f) && t[1] == TokenV::In && t[2] == TokenV::LBrace && t[3] == TokenV::Str(a));
    assert(t[4] == TokenV::Comma && t[5] == TokenV::Str(b) && t[6] == TokenV::RBrace);
    assert(set_rest(t, seq![a, b], 6) == Ok::<(Seq<Seq<char>>, int), ParseErrorV>((seq![a, b], 7)));
    assert(seq![a].push(b) =~= seq![a, b]);
    assert(set_rest(t, seq![a], 4) == Ok::<(Seq<Seq<char>>, int), ParseErrorV>((seq![a, b], 7)));
    assert(string_set_at(t, 2) == Ok::<(Seq<Seq<char>>, int), ParseErrorV>((seq![a, b], 7)));
    assert(primary_at(t, 0) == Ok::<(ExprV, int), ParseErrorV>((ExprV::PartInSet(f, seq![a, b]), 7)));
    lemma_primary_is_whole(t, ExprV::PartInSet(f, seq![a, b]));
}

/// Payload tests parse as written: for the word `payload` in any case and
/// every text `v`, the tokens of `payload contains "v"` parse to `Contains(v)`.
pub proof fn lemma_payload_contains_parses(w: Seq<char>, v: Seq<char>)
    requires
        lower_word(w) == seq!['p', 'a', 'y', 'l', 'o', 'a', 'd'],
    ensures
        parse_from(seq![TokenV::Ident(w), TokenV::Contains, TokenV::Str(v)], 0) == Ok::<(ExprV, int), ParseErrorV>(
            (ExprV::Contains(v), 3),
        ),
{
    let t = seq![TokenV::Ident(w), TokenV::Contains, TokenV::Str(v)];
    assert(lower_word(w).len() == w.len());
    assert(w != seq!['t', 'r', 'u', 'e'] && w != seq!['f', 'a', 'l', 's', 'e']);
    assert(t[0] == TokenV::Ident(w) && t[1] == TokenV::Contains && t[2] == TokenV::Str(v));
    assert(primary_at(t, 0) == Ok::<(ExprV, int), ParseErrorV>((ExprV::Contains(v), 3)));
    lemma_primary_is_whole(t, ExprV::Contains(v));
}

/// Payload tests parse as written: for the word `payload` in any case and
/// every text `v`, the tokens of `payload starts_with "v"` parse to `StartsWith(v)`.
pub proof fn lemma_payload_startswith_parses(w: Seq<char>, v: Seq<char>)
    requires
        lower_word(w) == seq!['p', 'a', 'y', 'l', 'o', 'a', 'd'],
    ensures
        parse_from(seq![TokenV::Ident(w), TokenV::StartsWith, TokenV::Str(v)], 0) == Ok::<(ExprV, int), ParseErrorV>(
            (ExprV::StartsWith(v), 3),
        ),
{
    let t = seq![TokenV::Ident(w), TokenV::StartsWith, TokenV::Str(v)];
    assert(lower_word(w).len() == w.len());
    assert(w != seq!['t', 'r', 'u', 'e'] && w != seq!['f', 'a', 'l', 's', 'e']);
    assert(t[0] == TokenV::Ident(w) && t[1] == TokenV::StartsWith && t[2] == TokenV::Str(v));
    assert(primary_at(t, 0) == Ok::<(ExprV, int), ParseErrorV>((ExprV::StartsWith(v), 3)));
    lemma_primary_is_whole(t, ExprV::StartsWith(v));
}

/// Payload tests parse as written: for the word `payload` in any case and
/// every text `v`, the tokens of `payload ends_with "v"` parse to `EndsWith(v)`.
pub proof fn lemma_payload_endswith_parses(w: Seq<char>, v: Seq<char>)
    requires
        lower_word(w) == seq!['p', 'a', 'y', 'l', 'o', 'a', 'd'],
    ensures
        parse_from(seq![TokenV::Ident(w), TokenV::EndsWith, TokenV::Str(v)], 0) == Ok::<(ExprV, int), ParseErrorV>(
            (ExprV::EndsWith(v), 3),
        ),
{
    let t = seq![TokenV::Ident(w), TokenV::EndsWith, TokenV::Str(v)];
    assert(lower_word(w).len() == w.len());
    assert(w != seq!['t', 'r', 'u', 'e'] && w != seq!['f', 'a', 'l', 's', 'e']);
    assert(t[0] == TokenV::Ident(w) && t[1] == TokenV::EndsWith && t[2] == TokenV::Str(v));
    assert(primary_at(t, 0) == Ok::<(ExprV, int), ParseErrorV>((ExprV::EndsWith(v), 3)));
    lemma_primary_is_whole(t, ExprV::EndsWith(v));
}

/// Payload tests parse as written: for the word `payload` in any case and
/// every text `v`, the tokens of `payload == "v"` parse to `Equals(v)`.
pub proof fn lemma_payload_equals_parses(w: Seq<char>, v: Seq<char>)
    requires
        lower_word(w) == seq!['p', 'a', 'y', 'l', 'o', 'a', 'd'],
    ensures
        parse_from(seq![TokenV::Ident(w), TokenV::Eq, TokenV::Str(v)], 0) == Ok::<(ExprV, int), ParseErrorV>(
            (ExprV::Equals(v), 3),
        ),
{
    let t = seq![TokenV::Ident(w), TokenV::Eq, TokenV::Str(v)];
    assert(lower_word(w).len() == w.len());
    assert(w != seq!['t', 'r', 'u', 'e'] && w != seq!['f', 'a', 'l', 's', 'e']);
    assert(t[0] == TokenV::Ident(w) && t[1] == TokenV::Eq && t[2] == TokenV::Str(v));
    assert(primary_at(t, 0) == Ok::<(ExprV, int), ParseErrorV>((ExprV::Equals(v), 3)));
    lemma_primary_is_whole(t, ExprV::Equals(v));
}

/// Payload tests parse as written: for the word `payload` in any case and
/// every text `v`, the tokens of `payload matches "v"` parse to `Matches(v)`.
pub proof fn lemma_payload_matches_parses(w: Seq<char>, v: Seq<char>)
    requires
        lower_word(w) == seq!['p', 'a', 'y', 'l', 'o', 'a', 'd'],
    ensures
        parse_from(seq![TokenV::Ident(w), TokenV::Matches, TokenV::Str(v)], 0) == Ok::<(ExprV, int), ParseErrorV>(
            (ExprV::Matches(v), 3),
        ),
{
    let t = seq![TokenV::Ident(w), TokenV::Matches, TokenV::Str(v)];
    assert(lower_word(w).len() == w.len());
    assert(w != seq!['t', 'r', 'u', 'e'] && w != seq!['f', 'a', 'l', 's', 'e']);
    assert(t[0] == TokenV::Ident(w) && t[1] == TokenV::Matches && t[2] == TokenV::Str(v));
    assert(primary_at(t, 0) == Ok::<(ExprV, int), ParseErrorV>((ExprV::Matches(v), 3)));
    lemma_primary_is_whole(t, ExprV::Matches(v));
}

/// The token of the literal `b`.
pub open spec fn lit_token(b: bool) -> TokenV {
    if b {
        TokenV::Ident(seq!['t', 'r', 'u', 'e'])
    } else {
        TokenV::Ident(seq!['f', 'a', 'l', 's', 'e'])
    }
}

/// A literal token parses to its value.
proof fn lemma_lit_primary(toks: Seq<TokenV>, i: int, b: bool)
    requires
        0 <= i < toks.len(),
        toks[i] == lit_token(b),
    ensures
        primary_at(toks, i) == Ok::<(ExprV, int), ParseErrorV>((ExprV::Bool(b), i + 1)),
        not_at(toks, i) == Ok::<(ExprV, int), ParseErrorV>((ExprV::Bool(b), i + 1)),
{
}

/// `AND` binds tighter than `OR`: for all literals `a`, `b`, `c`, the tokens
/// of `a OR b AND c` parse to `a OR (b AND c)`, and those of `a AND b OR c`
/// to `(a AND b) OR c`.
pub proof fn lemma_and_binds_tighter_than_or(a: bool, b: bool, c: bool)
    ensures
        parse_from(seq![lit_token(a), TokenV::Or, lit_token(b), TokenV::And, lit_token(c)], 0) == Ok::<
            (ExprV, int),
            ParseErrorV,
        >(
            (
                ExprV::Or(
                    Box::new(ExprV::Bool(a)),
                    Box::new(ExprV::And(Box::new(ExprV::Bool(b)), Box::new(ExprV::Bool(c)))),
                ),
                5,
            ),
        ),
        parse_from(seq![lit_token(a), TokenV::And, lit_token(b), TokenV::Or, lit_token(c)], 0) == Ok::<
            (ExprV, int),
            ParseErrorV,
        >(
            (
                ExprV::Or(
                    Box::new(ExprV::And(Box::new(ExprV::Bool(a)), Box::new(ExprV::Bool(b)))),
                    Box::new(ExprV::Bool(c)),
                ),
                5,
            ),
        ),
{
    let ea = ExprV::Bool(a);
    let eb = ExprV::Bool(b);
    let ec = ExprV::Bool(c);
    let t = seq![lit_token(a), TokenV::Or, lit_token(b), TokenV::And, lit_token(c)];
    lemma_lit_primary(t, 0, a);
    lemma_lit_primary(t, 2, b);
    lemma_lit_primary(t, 4, c);
    let bc = ExprV::And(Box::new(eb), Box::new(ec));
    assert(and_rest(t, bc, 5) == Ok::<(ExprV, int), ParseErrorV>((bc, 5)));
    assert(and_rest(t, eb, 3) == Ok::<(ExprV, int), ParseErrorV>((bc, 5)));
    assert(and_at(t, 2) == Ok::<(ExprV, int), ParseErrorV>((bc, 5)));
    assert(and_rest(t, ea, 1) == Ok::<(ExprV, int), ParseErrorV>((ea, 1)));
    assert(and_at(t, 0) == Ok::<(ExprV, int), ParseErrorV>((ea, 1)));
    let r1 = ExprV::Or(Box::new(ea), Box::new(bc));
    assert(or_rest(t, r1, 5) == Ok::<(ExprV, int), ParseErrorV>((r1, 5)));
    assert(or_rest(t, ea, 1) == Ok::<(ExprV, int), ParseErrorV>((r1, 5)));
    assert(or_at(t, 0) == Ok::<(ExprV, int), ParseErrorV>((r1, 5)));

    let u = seq![lit_token(a), TokenV::And, lit_token(b), TokenV::Or, lit_token(c)];
    lemma_lit_primary(u, 0, a);
    lemma_lit_primary(u, 2, b);
    lemma_lit_primary(u, 4, c);
    let ab = ExprV::And(Box::new(ea), Box::new(eb));
    assert(and_rest(u, ab, 3) == Ok::<(ExprV, int), ParseErrorV>((ab, 3)));
    assert(and_rest(u, ea, 1) == Ok::<(ExprV, int), ParseErrorV>((ab, 3)));
    assert(and_at(u, 0) == Ok::<(ExprV, int), ParseErrorV>((ab, 3)));
    assert(and_rest(u, ec, 5) == Ok::<(ExprV, int), ParseErrorV>((ec, 5)));
    assert(and_at(u, 4) == Ok::<(ExprV, int), ParseErrorV>((ec, 5)));
    let r2 = ExprV::Or(Box::new(ab), Box::new(ec));
    assert(or_rest(u, r2, 5) == Ok::<(ExprV, int), ParseErrorV>((r2, 5)));
    assert(or_rest(u, ab, 3) == Ok::<(ExprV, int), ParseErrorV>((r2, 5)));
    assert(or_at(u, 0) == Ok::<(ExprV, int), ParseErrorV>((r2, 5)));
}

/// `NOT` applies to the operand right after it, and parentheses group: for
/// all literals, `NOT a AND b` parses to `(NOT a) AND b`, and
/// `(a OR b) AND c` to `(a OR b) AND c`.
pub proof fn lemma_not_and_parentheses(a: bool, b: bool, c: bool)
    ensures
        parse_from(seq![TokenV::Not, lit_token(a), TokenV::And, lit_token(b)], 0) == Ok::<
            (ExprV, int),
            ParseErrorV,
        >(
            (
                ExprV::And(Box::new(ExprV::Not(Box::new(ExprV::Bool(a)))), Box::new(ExprV::Bool(b))),
                4,
            ),
        ),
        parse_from(
            seq![TokenV::LParen, lit_token(a), TokenV::Or, lit_token(b), TokenV::RParen, TokenV::And, lit_token(c)],
            0,
        ) == Ok::<(ExprV, int), ParseErrorV>(
            (
                ExprV::And(
                    Box::new(ExprV::Or(Box::new(ExprV::Bool(a)), Box::new(ExprV::Bool(b)))),
                    Box::new(ExprV::Bool(c)),
                ),
                7,
            ),
        ),
{
    let ea = ExprV::Bool(a);
    let eb = ExprV::Bool(b);
    let ec = ExprV::Bool(c);
    let t = seq![TokenV::Not, lit_token(a), TokenV::And, lit_token(b)];
    lemma_lit_primary(t, 1, a);
    lemma_lit_primary(t, 3, b);
    let na = ExprV::Not(Box::new(ea));
    assert(not_at(t, 0) == Ok::<(ExprV, int), ParseErrorV>((na, 2)));
    let r1 = ExprV::And(Box::new(na), Box::new(eb));
    assert(and_rest(t, r1, 4) == Ok::<(ExprV, int), ParseErrorV>((r1, 4)));
    assert(and_rest(t, na, 2) == Ok::<(ExprV, int), ParseErrorV>((r1, 4)));
    assert(and_at(t, 0) == Ok::<(ExprV, int), ParseErrorV>((r1, 4)));
    assert(or_rest(t, r1, 4) == Ok::<(ExprV, int), ParseErrorV>((r1, 4)));
    assert(or_at(t, 0) == Ok::<(ExprV, int), ParseErrorV>((r1, 4)));

    let u = seq![TokenV::LParen, lit_token(a), TokenV::Or, lit_token(b), TokenV::RParen, TokenV::And, lit_token(c)];
    lemma_lit_primary(u, 1, a);
    lemma_lit_primary(u, 3, b);
    lemma_lit_primary(u, 6, c);
    assert(and_rest(u, ea, 2) == Ok::<(ExprV, int), ParseErrorV>((ea, 2)));
    assert(and_at(u, 1) == Ok::<(ExprV, int), ParseErrorV>((ea, 2)));
    assert(and_rest(u, eb, 4) == Ok::<(ExprV, int), ParseErrorV>((eb, 4)));
    assert(and_at(u, 3) == Ok::<(ExprV, int), ParseErrorV>((eb, 4)));
    let ab = ExprV::Or(Box::new(ea), Box::new(eb));
    assert(or_rest(u, ab, 4) == Ok::<(ExprV, int), ParseErrorV>((ab, 4)));
    assert(or_rest(u, ea, 2) == Ok::<(ExprV, int), ParseErrorV>((ab, 4)));
    assert(or_at(u, 1) == Ok::<(ExprV, int), ParseErrorV>((ab, 4)));
    assert(primary_at(u, 0) == Ok::<(ExprV, int), ParseErrorV>((ab, 5)));
    assert(not_at(u, 0) == Ok::<(ExprV, int), ParseErrorV>((ab, 5)));
    let r2 = ExprV::And(Box::new(ab), Box::new(ec));
    assert(and_rest(u, r2, 7) == Ok::<(ExprV, int), ParseErrorV>((r2, 7)));
    assert(and_rest(u, ab, 5) == Ok::<(ExprV, int), ParseErrorV>((r2, 7)));
    assert(and_at(u, 0) == Ok::<(ExprV, int), ParseErrorV>((r2, 7)));
    assert(or_rest(u, r2, 7) == Ok::<(ExprV, int), ParseErrorV>((r2, 7)));
    assert(or_at(u, 0) == Ok::<(ExprV, int), ParseErrorV>((r2, 7)));
}

/// `rand(N)` parses to a sampling test for every `N` from 1 to 65535, and
/// `rand(0)` is refused.
pub proof fn lemma_rand_parses(n: u64)
    ensures
        1 <= n <= 65535 ==> parse_from(seq![TokenV::Rand, TokenV::LParen, TokenV::Number(n), TokenV::RParen], 0)
            == Ok::<(ExprV, int), ParseErrorV>((ExprV::Rand(n as u16), 4)),
        parse_from(seq![TokenV::Rand, TokenV::LParen, TokenV::Number(0), TokenV::RParen], 0) == Err::<
            (ExprV, int),
            ParseErrorV,
        >(ParseErrorV::InvalidRandArg),
{
    let t = seq![TokenV::Rand, TokenV::LParen, TokenV::Number(n), TokenV::RParen];
    assert(t[0] == TokenV::Rand && t[1] == TokenV::LParen && t[2] == TokenV::Number(n) && t[3] == TokenV::RParen);
    if 1 <= n <= 65535 {
        assert(primary_at(t, 0) == Ok::<(ExprV, int), ParseErrorV>((ExprV::Rand(n as u16), 4)));
        lemma_primary_is_whole(t, ExprV::Rand(n as u16));
    }
    let z = seq![TokenV::Rand, TokenV::LParen, TokenV::Number(0), TokenV::RParen];
    assert(z[0] == TokenV::Rand && z[1] == TokenV::LParen && z[2] == TokenV::Number(0));
    assert(primary_at(z, 0) == Err::<(ExprV, int), ParseErrorV>(ParseErrorV::InvalidRandArg));
    assert(not_at(z, 0) == Err::<(ExprV, int), ParseErrorV>(ParseErrorV::InvalidRandArg));
    assert(and_at(z, 0) == Err::<(ExprV, int), ParseErrorV>(ParseErrorV::InvalidRandArg));
    assert(or_at(z, 0) == Err::<(ExprV, int), ParseErrorV>(ParseErrorV::InvalidRandArg));
}

/// Whether a parse at `i` that succeeds ends at a position between `i`
/// and the end.
pub open spec fn ends_in_range<T>(toks: Seq<TokenV>, i: int, r: Result<(T, int), ParseErrorV>) -> bool {
    r matches Ok((_, j)) ==> i <= j <= toks.len()
}

proof fn lemma_set_rest_range(toks: Seq<TokenV>, vals: Seq<Seq<char>>, j: int)
    requires
        0 <= j <= toks.len(),
    ensures
        ends_in_range(toks, j, set_rest(toks, vals, j)),
    decreases toks.len() - j,
{
    if 0 <= j < toks.len() && toks[j] == TokenV::Comma {
        if tok_at(toks, j + 1) != TokenV::RBrace {
            match string_at(toks, j + 1) {
                Ok((v, m)) => {
                    if j < m {
                        lemma_set_rest_range(toks, vals.push(v), m);
                    }
                },
                Err(_) => {},
            }
        }
    }
}

/// The non-recursive parts of the grammar end within range.
proof fn lemma_leaf_ranges(toks: Seq<TokenV>, i: int)
    requires
        0 <= i <= toks.len(),
    ensures
        ends_in_range(toks, i, string_at(toks, i)),
        ends_in_range(toks, i, pattern_at(toks, i)),
        ends_in_range(toks, i, string_set_at(toks, i)),
        ends_in_range(toks, i, rand_at(toks, i)),
        ends_in_range(toks, i, payload_op_at(toks, i)),
{
    let j = after(toks, i);
    match expect_at(toks, i, TokenV::LBrace, "LBrace"@) {
        Ok(k) => {
            if tok_at(toks, k) != TokenV::RBrace {
                match string_at(toks, k) {
                    Ok((v, m)) => lemma_set_rest_range(toks, seq![v], m),
                    Err(_) => {},
                }
            }
        },
        Err(_) => {},
    }
    match expect_at(toks, j, TokenV::LBrace, "LBrace"@) {
        Ok(k) => {
            if tok_at(toks, k) != TokenV::RBrace {
                match string_at(toks, k) {
                    Ok((v, m)) => lemma_set_rest_range(toks, seq![v], m),
                    Err(_) => {},
                }
            }
        },
        Err(_) => {},
    }
}

proof fn lemma_field_op_range(toks: Seq<TokenV>, part: Seq<char>, i: int)
    requires
        0 <= i <= toks.len(),
    ensures
        ends_in_range(toks, i, field_op_at(toks, part, i)),
{
    let j = after(toks, i);
    lemma_leaf_ranges(toks, j);
    if tok_at(toks, i) == TokenV::Dot && tok_at(toks, j) == TokenV::Header {
        match expect_at(toks, after(toks, j), TokenV::LParen, "LParen"@) {
            Ok(k) => {
                lemma_leaf_ranges(toks, k);
                match string_at(toks, k) {
                    Ok((h, m)) => {
                        match expect_at(toks, m, TokenV::RParen, "RParen"@) {
                            Ok(n) => {
                                lemma_leaf_ranges(toks, n);
                            },
                            Err(_) => {},
                        }
                    },
                    Err(_) => {},
                }
            },
            Err(_) => {},
        }
    }
}

proof fn lemma_primary_range(toks: Seq<TokenV>, i: int)
    requires
        0 <= i <= toks.len(),
    ensures
        ends_in_range(toks, i, primary_at(toks, i)),
    decreases toks.len() - i, 0nat,
{
    lemma_leaf_ranges(toks, i);
    if i < toks.len() {
        lemma_leaf_ranges(toks, i + 1);
        match toks[i] {
            TokenV::LParen => lemma_or_range(toks, i + 1),
            TokenV::Ident(name) => lemma_field_op_range(toks, name, i + 1),
            _ => {},
        }
    }
}

proof fn lemma_not_range(toks: Seq<TokenV>, i: int)
    requires
        0 <= i <= toks.len(),
    ensures
        ends_in_range(toks, i, not_at(toks, i)),
    decreases toks.len() - i, 1nat,
{
    if tok_at(toks, i) == TokenV::Not {
        lemma_not_range(toks, i + 1);
    } else {
        lemma_primary_range(toks, i);
    }
}

proof fn lemma_and_rest_range(toks: Seq<TokenV>, left: ExprV, j: int)
    requires
        0 <= j <= toks.len(),
    ensures
        ends_in_range(toks, j, and_rest(toks, left, j)),
    decreases toks.len() - j, 2nat,
{
    if tok_at(toks, j) == TokenV::And {
        lemma_not_range(toks, j + 1);
        match not_at(toks, j + 1) {
            Ok((right, k)) => {
                lemma_and_rest_range(toks, ExprV::And(Box::new(left), Box::new(right)), k);
            },
            Err(_) => {},
        }
    }
}

proof fn lemma_and_range(toks: Seq<TokenV>, i: int)
    requires
        0 <= i <= toks.len(),
    ensures
        ends_in_range(toks, i, and_at(toks, i)),
    decreases toks.len() - i, 3nat,
{
    lemma_not_range(toks, i);
    match not_at(toks, i) {
        Ok((left, j)) => {
            lemma_and_rest_range(toks, left, j);
        },
        Err(_) => {},
    }
}

proof fn lemma_or_rest_range(toks: Seq<TokenV>, left: ExprV, j: int)
    requires
        0 <= j <= toks.len(),
    ensures
        ends_in_range(toks, j, or_rest(toks, left, j)),
    decreases toks.len() - j, 4nat,
{
    if tok_at(toks, j) == TokenV::Or {
        lemma_and_range(toks, j + 1);
        match and_at(toks, j + 1) {
            Ok((right, k)) => {
                lemma_or_rest_range(toks, ExprV::Or(Box::new(left), Box::new(right)), k);
            },
            Err(_) => {},
        }
    }
}

/// A parse that succeeds ends at a position between its start and the end.
pub proof fn lemma_or_range(toks: Seq<TokenV>, i: int)
    requires
        0 <= i <= toks.len(),
    ensures
        ends_in_range(toks, i, or_at(toks, i)),
    decreases toks.len() - i, 5nat,
{
    lemma_and_range(toks, i);
    match and_at(toks, i) {
        Ok((left, j)) => {
            lemma_or_rest_range(toks, left, j);
        },
        Err(_) => {},
    }
}

/// `r` is the outcome `res` describes, and on success the parser stands
/// at `end`.
pub open spec fn parsed_expr(r: Result<Expr, ParseError>, res: Result<(ExprV, int), ParseErrorV>, end: int) -> bool {
    match res {
        Ok((e, j)) => r matches Ok(x) && x@ == e && end == j,
        Err(err) => r matches Err(x) && x@ == err,
    }
}

/// `r` is the outcome `res` describes, for a string.
pub open spec fn parsed_text(r: Result<String, ParseError>, res: Result<(Seq<char>, int), ParseErrorV>, end: int) -> bool {
    match res {
        Ok((v, j)) => r matches Ok(x) && x@ == v && end == j,
        Err(err) => r matches Err(x) && x@ == err,
    }
}

/// `r` is the outcome `res` describes, for a list of strings.
pub open spec fn parsed_texts(
    r: Result<Vec<String>, ParseError>,
    res: Result<(Seq<Seq<char>>, int), ParseErrorV>,
    end: int,
) -> bool {
    match res {
        Ok((v, j)) => r matches Ok(x) && strings_view(x@) == v && end == j,
        Err(err) => r matches Err(x) && x@ == err,
    }
}

/// An unexpected-token error.
fn unexpected_token(expected: &str, got: Token) -> (e: ParseError)
    ensures
        e@ == unexpected(expected@, got@),
{
    ParseError::UnexpectedToken { expected: expected.to_owned(), got }
}

/// Parser for filter expressions.
pub struct Parser<'a> {
    tokens: Vec<Token>,
    pos: usize,
    #[allow(dead_code)]
    config: &'a ParserConfig,
}

impl<'a> Parser<'a> {
    #[verifier::type_invariant]
    closed spec fn inv(self) -> bool {
        self.pos <= self.tokens@.len()
    }

    /// The tokens being parsed.
    pub closed spec fn tokens(self) -> Seq<TokenV> {
        tokens_view(self.tokens@)
    }

    /// The position of the next token.
    pub closed spec fn position(self) -> int {
        self.pos as int
    }

    /// Create a new parser from input string.
    ///
    /// Fails with the lexer's error when the input does not tokenize.
    pub fn new(input: &str, config: &'a ParserConfig) -> (r: Result<Self, ParseError>)
        ensures
            match tokenize_from(input@, 0).0 {
                Ok(toks) => r matches Ok(p) && p.tokens() == toks && p.position() == 0,
                Err(e) => r matches Err(x) && x@ == ParseErrorV::Lex(e),
            },
    {
        let mut lexer = Lexer::new(input);
        match lexer.tokenize() {
            Ok(tokens) => Ok(Parser { tokens, pos: 0, config }),
            Err(e) => Err(ParseError::Lex(e)),
        }
    }

    /// The next token (the end of input past the last one).
    fn peek(&self) -> (t: Token)
        ensures
            t@ == tok_at(self.tokens(), self.position()),
    {
        proof {
            use_type_invariant(self);
        }
        if self.pos < self.tokens.len() {
            self.tokens[self.pos].duplicate()
        } else {
            Token::Eof
        }
    }

    /// Take the next token and move past it.
    fn advance(&mut self) -> (t: Token)
        ensures
            final(self).tokens() == old(self).tokens(),
            t@ == tok_at(old(self).tokens(), old(self).position()),
            final(self).position() == after(old(self).tokens(), old(self).position()),
    {
        proof {
            use_type_invariant(&*self);
        }
        let t = self.peek();
        if self.pos < self.tokens.len() {
            self.pos = self.pos + 1;
        }
        t
    }

    /// Take the next token, which must be `(`, `)`, `{` or `}`.
    fn expect(&mut self, expected: Token) -> (r: Result<(), ParseError>)
        requires
            expected@ is LParen || expected@ is RParen || expected@ is LBrace || expected@ is RBrace,
        ensures
            final(self).tokens() == old(self).tokens(),
            ({
                let name = if expected@ is LParen {
                    "LParen"@
                } else if expected@ is RParen {
                    "RParen"@
                } else if expected@ is LBrace {
                    "LBrace"@
                } else {
                    "RBrace"@
                };
                match expect_at(old(self).tokens(), old(self).position(), expected@, name) {
                    Ok(j) => r is Ok && final(self).position() == j,
                    Err(e) => r matches Err(x) && x@ == e,
                }
            }),
    {
        let got = self.advance();
        let same = match expected {
            Token::LParen => matches!(got, Token::LParen),
            Token::RParen => matches!(got, Token::RParen),
            Token::LBrace => matches!(got, Token::LBrace),
            _ => matches!(got, Token::RBrace),
        };
        if same {
            Ok(())
        } else {
            let name = match expected {
                Token::LParen => "LParen",
                Token::RParen => "RParen",
                Token::LBrace => "LBrace",
                _ => "RBrace",
            };
            Err(unexpected_token(name, got))
        }
    }

    /// Take a string literal.
    fn expect_string(&mut self) -> (r: Result<String, ParseError>)
        ensures
            final(self).tokens() == old(self).tokens(),
            parsed_text(r, string_at(old(self).tokens(), old(self).position()), final(self).position()),
    {
        match self.advance() {
            Token::String(s) => Ok(s),
            got => Err(unexpected_token("string", got)),
        }
    }

    /// Take a string or regex literal.
    fn expect_regex_or_string(&mut self) -> (r: Result<String, ParseError>)
        ensures
            final(self).tokens() == old(self).tokens(),
            parsed_text(r, pattern_at(old(self).tokens(), old(self).position()), final(self).position()),
    {
        match self.advance() {
            Token::String(s) => Ok(s),
            Token::Regex(s) => Ok(s),
            got => Err(unexpected_token("string or regex", got)),
        }
    }
}

impl<'a> Parser<'a> {
    /// A string set `{"a", "b", "c"}`; a trailing comma is allowed.
    fn parse_string_set(&mut self) -> (r: Result<Vec<String>, ParseError>)
        ensures
            final(self).tokens() == old(self).tokens(),
            parsed_texts(r, string_set_at(old(self).tokens(), old(self).position()), final(self).position()),
    {
        let ghost toks = self.tokens();
        match self.expect(Token::LBrace) {
            Ok(()) => {},
            Err(e) => {
                return Err(e);
            },
        }
        let mut values: Vec<String> = Vec::new();
        // empty set
        if matches!(self.peek(), Token::RBrace) {
            self.advance();
            proof {
                assert(strings_view(values@) =~= Seq::<Seq<char>>::empty());
            }
            return Ok(values);
        }
        match self.expect_string() {
            Ok(v) => {
                values.push(v);
            },
            Err(e) => {
                return Err(e);
            },
        }
        proof {
            assert(strings_view(values@) =~= seq![values@[0]@]);
        }
        loop
            invariant
                toks == self.tokens(),
                toks == old(self).tokens(),
                string_set_at(toks, old(self).position()) == set_rest(toks, strings_view(values@), self.position()),
            decreases toks.len() - self.position(),
        {
            proof {
                use_type_invariant(&*self);
            }
            let ghost j = self.position();
            if !matches!(self.peek(), Token::Comma) {
                return match self.expect(Token::RBrace) {
                    Ok(()) => Ok(values),
                    Err(e) => Err(e),
                };
            }
            self.advance();
            // trailing comma
            if matches!(self.peek(), Token::RBrace) {
                return match self.expect(Token::RBrace) {
                    Ok(()) => Ok(values),
                    Err(e) => Err(e),
                };
            }
            let ghost before = strings_view(values@);
            match self.expect_string() {
                Ok(v) => {
                    values.push(v);
                    proof {
                        assert(strings_view(values@) =~= before.push(values@.last()@));
                    }
                },
                Err(e) => {
                    return Err(e);
                },
            }
        }
    }

    /// `rand(N)`, at the `rand` token.
    fn parse_rand(&mut self) -> (r: Result<Expr, ParseError>)
        ensures
            final(self).tokens() == old(self).tokens(),
            parsed_expr(r, rand_at(old(self).tokens(), old(self).position()), final(self).position()),
    {
        self.advance();
        match self.expect(Token::LParen) {
            Ok(()) => {},
            Err(e) => {
                return Err(e);
            },
        }
        let n = match self.advance() {
            Token::Number(n) => n,
            got => {
                return Err(unexpected_token("number", got));
            },
        };
        if n == 0 || n > 65535 {
            return Err(ParseError::InvalidRandArg);
        }
        match self.expect(Token::RParen) {
            Ok(()) => Ok(Expr::Rand(n as u16)),
            Err(e) => Err(e),
        }
    }

    /// An operation on the whole payload, after `payload`.
    fn parse_payload_op(&mut self) -> (r: Result<Expr, ParseError>)
        ensures
            final(self).tokens() == old(self).tokens(),
            parsed_expr(r, payload_op_at(old(self).tokens(), old(self).position()), final(self).position()),
    {
        let t = self.advance();
        match t {
            Token::Contains => match self.expect_string() {
                Ok(v) => Ok(Expr::Contains(v)),
                Err(e) => Err(e),
            },
            Token::StartsWith => match self.expect_string() {
                Ok(v) => Ok(Expr::StartsWith(v)),
                Err(e) => Err(e),
            },
            Token::EndsWith => match self.expect_string() {
                Ok(v) => Ok(Expr::EndsWith(v)),
                Err(e) => Err(e),
            },
            Token::Matches => match self.expect_regex_or_string() {
                Ok(v) => Ok(Expr::Matches(v)),
                Err(e) => Err(e),
            },
            Token::Eq => match self.expect_string() {
                Ok(v) => Ok(Expr::Equals(v)),
                Err(e) => Err(e),
            },
            got => Err(unexpected_token("contains, starts_with, ends_with, matches, or ==", got)),
        }
    }

    /// An operation on a header of field `part`.
    fn parse_header_op(&mut self, part: String, header: String) -> (r: Result<Expr, ParseError>)
        ensures
            final(self).tokens() == old(self).tokens(),
            parsed_expr(
                r,
                header_op_at(old(self).tokens(), part@, header@, old(self).position()),
                final(self).position(),
            ),
    {
        let t = self.advance();
        match t {
            Token::Eq => match self.expect_string() {
                Ok(value) => Ok(Expr::HeaderEquals { part, header, value }),
                Err(e) => Err(e),
            },
            Token::IEquals => match self.expect_string() {
                Ok(value) => Ok(Expr::HeaderIEquals { part, header, value }),
                Err(e) => Err(e),
            },
            Token::Contains => match self.expect_string() {
                Ok(value) => Ok(Expr::HeaderContains { part, header, value }),
                Err(e) => Err(e),
            },
            Token::Ident(w) => {
                // `exists` is an identifier
                if lower_is(w.as_str(), &['e', 'x', 'i', 's', 't', 's']) {
                    Ok(Expr::HeaderExists { part, header })
                } else {
                    Err(unexpected_token("==, iequals, contains, or exists", Token::Ident(w)))
                }
            },
            got => Err(unexpected_token("==, iequals, contains, or exists", got)),
        }
    }

    /// An operation on field `part`: a header extraction or a field test.
    fn parse_field_op(&mut self, part: String) -> (r: Result<Expr, ParseError>)
        ensures
            final(self).tokens() == old(self).tokens(),
            parsed_expr(r, field_op_at(old(self).tokens(), part@, old(self).position()), final(self).position()),
    {
        // header extraction: FIELD.header("name")
        if matches!(self.peek(), Token::Dot) {
            self.advance();
            if !matches!(self.peek(), Token::Header) {
                return Err(unexpected_token("header", self.peek()));
            }
            self.advance();
            match self.expect(Token::LParen) {
                Ok(()) => {},
                Err(e) => {
                    return Err(e);
                },
            }
            let header = match self.expect_string() {
                Ok(h) => h,
                Err(e) => {
                    return Err(e);
                },
            };
            match self.expect(Token::RParen) {
                Ok(()) => {},
                Err(e) => {
                    return Err(e);
                },
            }
            return self.parse_header_op(part, header);
        }
        let t = self.advance();
        match t {
            Token::Contains => match self.expect_string() {
                Ok(value) => Ok(Expr::PartContains { part, value }),
                Err(e) => Err(e),
            },
            Token::IContains => match self.expect_string() {
                Ok(value) => Ok(Expr::PartIContains { part, value }),
                Err(e) => Err(e),
            },
            Token::StartsWith => match self.expect_string() {
                Ok(value) => Ok(Expr::PartStartsWith { part, value }),
                Err(e) => Err(e),
            },
            Token::EndsWith => match self.expect_string() {
                Ok(value) => Ok(Expr::PartEndsWith { part, value }),
                Err(e) => Err(e),
            },
            Token::Matches => match self.expect_regex_or_string() {
                Ok(pattern) => Ok(Expr::PartMatches { part, pattern }),
                Err(e) => Err(e),
            },
            Token::Eq => match self.expect_string() {
                Ok(value) => Ok(Expr::PartEquals { part, value }),
                Err(e) => Err(e),
            },
            Token::Ne => match self.expect_string() {
                Ok(value) => Ok(Expr::PartNotEquals { part, value }),
                Err(e) => Err(e),
            },
            Token::IEquals => match self.expect_string() {
                Ok(value) => Ok(Expr::PartIEquals { part, value }),
                Err(e) => Err(e),
            },
            Token::In => match self.parse_string_set() {
                Ok(values) => Ok(Expr::PartInSet { part, values }),
                Err(e) => Err(e),
            },
            Token::IsEmpty => Ok(Expr::PartIsEmpty { part }),
            Token::NotEmpty => Ok(Expr::PartNotEmpty { part }),
            got => Err(
                unexpected_token(
                    "contains, starts_with, ends_with, matches, ==, !=, in, is_empty, or not_empty",
                    got,
                ),
            ),
        }
    }
}

impl<'a> Parser<'a> {
    /// `( expr )`, `rand(N)`, `true`, `false`, a payload operation or a
    /// field operation.
    fn parse_primary(&mut self) -> (r: Result<Expr, ParseError>)
        ensures
            final(self).tokens() == old(self).tokens(),
            parsed_expr(r, primary_at(old(self).tokens(), old(self).position()), final(self).position()),
        decreases old(self).tokens@.len() - old(self).pos, 0nat,
    {
        proof {
            use_type_invariant(&*self);
        }
        match self.peek() {
            Token::LParen => {
                self.advance();
                let expr = match self.parse_or() {
                    Ok(e) => e,
                    Err(e) => {
                        return Err(e);
                    },
                };
                match self.expect(Token::RParen) {
                    Ok(()) => Ok(expr),
                    Err(e) => Err(e),
                }
            },
            Token::Rand => self.parse_rand(),
            Token::Ident(name) => {
                self.advance();
                if text_is(name.as_str(), &['t', 'r', 'u', 'e']) {
                    return Ok(Expr::Bool(true));
                }
                if text_is(name.as_str(), &['f', 'a', 'l', 's', 'e']) {
                    return Ok(Expr::Bool(false));
                }
                // `payload`, in any case, names the whole record
                if lower_is(name.as_str(), &['p', 'a', 'y', 'l', 'o', 'a', 'd']) {
                    return self.parse_payload_op();
                }
                self.parse_field_op(name)
            },
            token => Err(unexpected_token("expression", token)),
        }
    }

    /// `NOT not_expr | primary`.
    fn parse_not(&mut self) -> (r: Result<Expr, ParseError>)
        ensures
            final(self).tokens() == old(self).tokens(),
            parsed_expr(r, not_at(old(self).tokens(), old(self).position()), final(self).position()),
        decreases old(self).tokens@.len() - old(self).pos, 1nat,
    {
        proof {
            use_type_invariant(&*self);
        }
        if matches!(self.peek(), Token::Not) {
            self.advance();
            match self.parse_not() {
                Ok(inner) => Ok(Expr::Not(Box::new(inner))),
                Err(e) => Err(e),
            }
        } else {
            self.parse_primary()
        }
    }

    /// `not_expr (AND not_expr)*`, grouping to the left.
    fn parse_and(&mut self) -> (r: Result<Expr, ParseError>)
        ensures
            final(self).tokens() == old(self).tokens(),
            parsed_expr(r, and_at(old(self).tokens(), old(self).position()), final(self).position()),
        decreases old(self).tokens@.len() - old(self).pos, 3nat,
    {
        proof {
            use_type_invariant(&*self);
        }
        let ghost toks = self.tokens();
        let ghost i = self.position();
        proof {
            lemma_not_range(toks, i);
        }
        let mut left = match self.parse_not() {
            Ok(e) => e,
            Err(e) => {
                return Err(e);
            },
        };
        while matches!(self.peek(), Token::And)
            invariant
                toks == self.tokens(),
                toks == old(self).tokens(),
                i == old(self).position(),
                toks.len() == old(self).tokens@.len(),
                i == old(self).pos,
                i <= self.position() <= toks.len(),
                and_at(toks, i) == and_rest(toks, left@, self.position()),
            decreases toks.len() - self.position(),
        {
            let ghost j = self.position();
            self.advance();
            proof {
                lemma_not_range(toks, j + 1);
            }
            let right = match self.parse_not() {
                Ok(e) => e,
                Err(e) => {
                    return Err(e);
                },
            };
            left = Expr::And(Box::new(left), Box::new(right));
        }
        Ok(left)
    }

    /// `and_expr (OR and_expr)*`, grouping to the left.
    fn parse_or(&mut self) -> (r: Result<Expr, ParseError>)
        ensures
            final(self).tokens() == old(self).tokens(),
            parsed_expr(r, or_at(old(self).tokens(), old(self).position()), final(self).position()),
        decreases old(self).tokens@.len() - old(self).pos, 5nat,
    {
        proof {
            use_type_invariant(&*self);
        }
        let ghost toks = self.tokens();
        let ghost i = self.position();
        proof {
            lemma_and_range(toks, i);
        }
        let mut left = match self.parse_and() {
            Ok(e) => e,
            Err(e) => {
                return Err(e);
            },
        };
        while matches!(self.peek(), Token::Or)
            invariant
                toks == self.tokens(),
                toks == old(self).tokens(),
                i == old(self).position(),
                toks.len() == old(self).tokens@.len(),
                i == old(self).pos,
                i <= self.position() <= toks.len(),
                or_at(toks, i) == or_rest(toks, left@, self.position()),
            decreases toks.len() - self.position(),
        {
            let ghost j = self.position();
            self.advance();
            proof {
                lemma_and_range(toks, j + 1);
            }
            let right = match self.parse_and() {
                Ok(e) => e,
                Err(e) => {
                    return Err(e);
                },
            };
            left = Expr::Or(Box::new(left), Box::new(right));
        }
        Ok(left)
    }

    /// Parse the expression, which must run to the end of input.
    pub fn parse(&mut self) -> (r: Result<Expr, ParseError>)
        ensures
            final(self).tokens() == old(self).tokens(),
            parsed_expr(r, parse_from(old(self).tokens(), old(self).position()), final(self).position()),
    {
        let expr = match self.parse_or() {
            Ok(e) => e,
            Err(e) => {
                return Err(e);
            },
        };
        let t = self.peek();
        if !matches!(t, Token::Eof) {
            return Err(unexpected_token("end of input", t));
        }
        Ok(expr)
    }
}

/// Parse a filter expression string.
///
/// `config` does not take part in parsing: field names are checked when the
/// expression is compiled.
pub fn parse(input: &str, config: &ParserConfig) -> (r: Result<Expr, ParseError>)
    ensures
        match parse_spec(input@) {
            Ok(e) => r matches Ok(x) && x@ == e,
            Err(err) => r matches Err(x) && x@ == err,
        },
{
    let mut parser = match Parser::new(input, config) {
        Ok(p) => p,
        Err(e) => {
            return Err(e);
        },
    };
    parser.parse()
}

} // verus!
