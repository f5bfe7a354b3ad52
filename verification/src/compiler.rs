//! Compiler: turns an expression tree into bytecode for the filter machine.
//!
//! Operands are little-endian `u16` indexes into three tables built while
//! compiling: byte strings, regex patterns and string sets. `AND` and `OR`
//! short-circuit with a forward jump over the right operand.

use vstd::prelude::*;
use vstd::string::StringExecFns;
use vstd::utf8::encode_utf8;

use crate::ascii::{bytes_eq, eq_ignore_case, icontains_spec};
use crate::opcode::Opcode;
use crate::parser::{lookup_name, parse, parse_spec, ConfigV, Expr, ExprV, ParseError, ParseErrorV, ParserConfig};
use crate::pattern::{regex_build_error, regex_is_match, CompiledRegex};
use crate::search::contains;
use crate::split::{field, header_value};
use crate::vm::{
    execute, i16_at, lemma_run_unfold, lemma_str_test_meaning, run, set_member, step, str_test, u16_at, CompiledFilter, Program,
    Step, STACK_SIZE,
};

verus! {

/// Compilation error types.
#[derive(Debug, Clone)]
pub enum CompileError {
    /// The source did not parse.
    Parse(ParseError),
    /// A field name the configuration does not know, with the known names.
    UnknownField(String, String),
    /// A regex pattern that does not compile, with the regex crate's message.
    InvalidRegex { pattern: String, error: String },
    /// More than 65536 distinct strings.
    TooManyStrings,
    /// More than 65536 distinct regex patterns.
    TooManyRegexes,
    /// More than 65536 string sets.
    TooManySets,
}

/// A compile error with its texts taken as character sequences.
pub enum CompileErrorV {
    Parse(ParseErrorV),
    UnknownField(Seq<char>, Seq<char>),
    InvalidRegex(Seq<char>, Seq<char>),
    TooManyStrings,
    TooManyRegexes,
    TooManySets,
}

impl View for CompileError {
    type V = CompileErrorV;

    open spec fn view(&self) -> CompileErrorV {
        match self {
            CompileError::Parse(e) => CompileErrorV::Parse(e@),
            CompileError::UnknownField(a, b) => CompileErrorV::UnknownField(a@, b@),
            CompileError::InvalidRegex { pattern, error } => CompileErrorV::InvalidRegex(
                pattern@,
                error@,
            ),
            CompileError::TooManyStrings => CompileErrorV::TooManyStrings,
            CompileError::TooManyRegexes => CompileErrorV::TooManyRegexes,
            CompileError::TooManySets => CompileErrorV::TooManySets,
        }
    }
}

/// The tables that instruction operands index.
pub struct Tables {
    pub strings: Seq<Seq<u8>>,
    pub patterns: Seq<Seq<char>>,
    pub sets: Seq<Seq<u16>>,
}

/// Tables with nothing in them.
pub open spec fn empty_tables() -> Tables {
    Tables { strings: Seq::empty(), patterns: Seq::empty(), sets: Seq::empty() }
}

/// The first index at or after `i` where `s` holds `x`.
pub open spec fn first_index_from<A>(s: Seq<A>, x: A, i: int) -> Option<int>
    decreases s.len() - i,
{
    if i < 0 || i >= s.len() {
        None
    } else if s[i] == x {
        Some(i)
    } else {
        first_index_from(s, x, i + 1)
    }
}

/// The index of byte string `s` in the string table, adding it if new.
pub open spec fn intern_str(t: Tables, s: Seq<u8>) -> Result<(Tables, u16), CompileErrorV> {
    match first_index_from(t.strings, s, 0) {
        Some(i) => Ok((t, i as u16)),
        None => if t.strings.len() > 65535 {
            Err(CompileErrorV::TooManyStrings)
        } else {
            Ok((Tables { strings: t.strings.push(s), ..t }, t.strings.len() as u16))
        },
    }
}

/// The index of regex pattern `p` in the pattern table, adding it if new;
/// a new pattern must build.
pub open spec fn intern_pat(t: Tables, p: Seq<char>) -> Result<(Tables, u16), CompileErrorV> {
    match first_index_from(t.patterns, p, 0) {
        Some(i) => Ok((t, i as u16)),
        None => pattern_admission(t, p, regex_build_error(p)),
    }
}

/// Interns each value in order; the string indexes of the values.
pub open spec fn intern_strs(t: Tables, vals: Seq<Seq<char>>) -> Result<
    (Tables, Seq<u16>),
    CompileErrorV,
>
    decreases vals.len(),
{
    if vals.len() == 0 {
        Ok((t, Seq::empty()))
    } else {
        match intern_strs(t, vals.drop_last()) {
            Ok((t1, ids)) => match intern_str(t1, encode_utf8(vals.last())) {
                Ok((t2, id)) => Ok((t2, ids.push(id))),
                Err(e) => Err(e),
            },
            Err(e) => Err(e),
        }
    }
}

/// Adds a string set of `vals`; its index in the set table.
pub open spec fn add_set(t: Tables, vals: Seq<Seq<char>>) -> Result<(Tables, u16), CompileErrorV> {
    match intern_strs(t, vals) {
        Ok((t1, ids)) => if t1.sets.len() > 65535 {
            Err(CompileErrorV::TooManySets)
        } else {
            Ok((Tables { sets: t1.sets.push(ids), ..t1 }, t1.sets.len() as u16))
        },
        Err(e) => Err(e),
    }
}

/// The configured field names, separated by `", "`.
pub open spec fn field_names(fields: Seq<(Seq<char>, u8)>) -> Seq<char>
    decreases fields.len(),
{
    if fields.len() == 0 {
        Seq::empty()
    } else if fields.len() == 1 {
        fields[0].0
    } else {
        field_names(fields.drop_last()) + seq![',', ' '] + fields.last().0
    }
}

/// The text that `str::to_uppercase` gives for `s` (Unicode upper case).
pub uninterp spec fn uppercase(s: Seq<char>) -> Seq<char>;

/// Upper-cases `s` (`str::to_uppercase`). Trusted: the result is the text
/// that `uppercase` names for `s`.
#[verifier::external_body]
fn to_upper(s: &str) -> (r: String)
    ensures
        r@ == uppercase(s@),
{
    s.to_uppercase()
}

/// The part index of field `name`: the upper-cased name is looked up
/// first, then the name as written.
pub open spec fn lookup_field(cfg: ConfigV, name: Seq<char>) -> Result<u8, CompileErrorV> {
    field_resolution(cfg, name, uppercase(name))
}

/// The part index of field `name` given its upper-cased form `upper`:
/// `upper` is looked up first, then `name` as written.
pub open spec fn field_resolution(cfg: ConfigV, name: Seq<char>, upper: Seq<char>) -> Result<u8, CompileErrorV> {
    match lookup_name(cfg.fields, upper) {
        Some(i) => Ok(i),
        None => match lookup_name(cfg.fields, name) {
            Some(i) => Ok(i),
            None => Err(CompileErrorV::UnknownField(name, field_names(cfg.fields))),
        },
    }
}

/// What adding a regex pattern `p` to tables `t` gives, once building it
/// reported `error` (`None` when it built).
pub open spec fn pattern_admission(t: Tables, p: Seq<char>, error: Option<Seq<char>>) -> Result<
    (Tables, u16),
    CompileErrorV,
> {
    match error {
        Some(msg) => Err(CompileErrorV::InvalidRegex(p, msg)),
        None => if t.patterns.len() > 65535 {
            Err(CompileErrorV::TooManyRegexes)
        } else {
            Ok((Tables { patterns: t.patterns.push(p), ..t }, t.patterns.len() as u16))
        },
    }
}

/// Little-endian bytes of the low 16 bits of `v`.
#[verifier::opaque]
pub open spec fn le16(v: int) -> Seq<u8> {
    seq![(v % 256) as u8, ((v / 256) % 256) as u8]
}

/// Code of an instruction on a field whose operand is a string index.
pub open spec fn part_str_code(op: u8, cfg: ConfigV, t: Tables, part: Seq<char>, s: Seq<char>) -> Result<
    (Seq<u8>, Tables),
    CompileErrorV,
> {
    match lookup_field(cfg, part) {
        Ok(pi) => match intern_str(t, encode_utf8(s)) {
            Ok((t2, i)) => Ok((seq![op, pi] + le16(i as int), t2)),
            Err(e) => Err(e),
        },
        Err(e) => Err(e),
    }
}

/// Code of a payload instruction whose operand is a string index.
pub open spec fn str_code(op: u8, t: Tables, s: Seq<char>) -> Result<(Seq<u8>, Tables), CompileErrorV> {
    match intern_str(t, encode_utf8(s)) {
        Ok((t2, i)) => Ok((seq![op] + le16(i as int), t2)),
        Err(e) => Err(e),
    }
}

/// Code of a header comparison: field, header name and value operands.
pub open spec fn header_code(
    op: u8,
    cfg: ConfigV,
    t: Tables,
    part: Seq<char>,
    h: Seq<char>,
    v: Seq<char>,
) -> Result<(Seq<u8>, Tables), CompileErrorV> {
    match lookup_field(cfg, part) {
        Ok(pi) => match intern_str(t, encode_utf8(h)) {
            Ok((t1, hi)) => match intern_str(t1, encode_utf8(v)) {
                Ok((t2, vi)) => Ok((seq![op, pi] + le16(hi as int) + le16(vi as int), t2)),
                Err(e) => Err(e),
            },
            Err(e) => Err(e),
        },
        Err(e) => Err(e),
    }
}

/// Code of a literal or payload-wide test.
#[verifier::opaque]
pub open spec fn payload_code(e: ExprV, t: Tables) -> Result<(Seq<u8>, Tables), CompileErrorV> {
    match e {
        ExprV::Bool(b) => Ok((seq![if b { 0x01u8 } else { 0x02u8 }], t)),
        ExprV::Rand(n) => Ok((seq![0x60u8] + le16(n as int), t)),
        ExprV::Contains(s) => str_code(0x10, t, s),
        ExprV::StartsWith(s) => str_code(0x11, t, s),
        ExprV::EndsWith(s) => str_code(0x12, t, s),
        ExprV::Equals(s) => str_code(0x13, t, s),
        ExprV::Matches(p) => match intern_pat(t, p) {
            Ok((t2, i)) => Ok((seq![0x20u8] + le16(i as int), t2)),
            Err(e) => Err(e),
        },
        _ => Ok((Seq::empty(), t)),
    }
}

/// Whether `e` is a literal or a payload-wide test.
pub open spec fn is_payload_expr(e: ExprV) -> bool {
    e is Bool || e is Rand || e is Contains || e is StartsWith || e is EndsWith || e is Equals
        || e is Matches
}

/// Whether `e` is a header test.
pub open spec fn is_header_expr(e: ExprV) -> bool {
    e is HeaderEquals || e is HeaderIEquals || e is HeaderContains || e is HeaderExists
}

/// Code of a field test.
#[verifier::opaque]
pub open spec fn field_code(e: ExprV, cfg: ConfigV, t: Tables) -> Result<(Seq<u8>, Tables), CompileErrorV> {
    match e {
        ExprV::PartContains(f, s) => part_str_code(0x40, cfg, t, f, s),
        ExprV::PartStartsWith(f, s) => part_str_code(0x41, cfg, t, f, s),
        ExprV::PartEndsWith(f, s) => part_str_code(0x42, cfg, t, f, s),
        ExprV::PartEquals(f, s) => part_str_code(0x43, cfg, t, f, s),
        ExprV::PartIEquals(f, s) => part_str_code(0x48, cfg, t, f, s),
        ExprV::PartIContains(f, s) => part_str_code(0x49, cfg, t, f, s),
        ExprV::PartNotEquals(f, s) => match part_str_code(0x43, cfg, t, f, s) {
            Ok((c, t2)) => Ok((c.push(0x32), t2)),
            Err(e) => Err(e),
        },
        ExprV::PartMatches(f, p) => match lookup_field(cfg, f) {
            Ok(pi) => match intern_pat(t, p) {
                Ok((t2, i)) => Ok((seq![0x44u8, pi] + le16(i as int), t2)),
                Err(e) => Err(e),
            },
            Err(e) => Err(e),
        },
        ExprV::PartInSet(f, vals) => match lookup_field(cfg, f) {
            Ok(pi) => match add_set(t, vals) {
                Ok((t2, i)) => Ok((seq![0x47u8, pi] + le16(i as int), t2)),
                Err(e) => Err(e),
            },
            Err(e) => Err(e),
        },
        ExprV::PartIsEmpty(f) => match lookup_field(cfg, f) {
            Ok(pi) => Ok((seq![0x45u8, pi], t)),
            Err(e) => Err(e),
        },
        ExprV::PartNotEmpty(f) => match lookup_field(cfg, f) {
            Ok(pi) => Ok((seq![0x46u8, pi], t)),
            Err(e) => Err(e),
        },
        _ => Ok((Seq::empty(), t)),
    }
}

/// Code of a header test.
#[verifier::opaque]
pub open spec fn header_test_code(e: ExprV, cfg: ConfigV, t: Tables) -> Result<(Seq<u8>, Tables), CompileErrorV> {
    match e {
        ExprV::HeaderEquals(f, h, v) => header_code(0x50, cfg, t, f, h, v),
        ExprV::HeaderIEquals(f, h, v) => header_code(0x51, cfg, t, f, h, v),
        ExprV::HeaderContains(f, h, v) => header_code(0x52, cfg, t, f, h, v),
        ExprV::HeaderExists(f, h) => match lookup_field(cfg, f) {
            Ok(pi) => match intern_str(t, encode_utf8(h)) {
                Ok((t2, hi)) => Ok((seq![0x53u8, pi] + le16(hi as int), t2)),
                Err(e) => Err(e),
            },
            Err(e) => Err(e),
        },
        _ => Ok((Seq::empty(), t)),
    }
}

/// The two bytes of a 16-bit operand.
pub proof fn lemma_le16_len(v: int)
    ensures
        le16(v).len() == 2,
{
    reveal(le16);
}

/// Code of a short-circuit jump over `cr`, followed by `cr`.
pub open spec fn jump_over(op: u8, cr: Seq<u8>) -> Seq<u8> {
    seq![op] + le16(cr.len() + 3int) + cr
}

/// The bytecode of `e` appended after tables `t`, with the tables it leaves.
pub open spec fn gen(e: ExprV, cfg: ConfigV, t: Tables) -> Result<(Seq<u8>, Tables), CompileErrorV>
    decreases e,
{
    match e {
        ExprV::And(l, r) => match gen(*l, cfg, t) {
            Ok((cl, t1)) => match gen(*r, cfg, t1) {
                Ok((cr, t2)) => Ok((cl + jump_over(0x70, cr), t2)),
                Err(e) => Err(e),
            },
            Err(e) => Err(e),
        },
        ExprV::Or(l, r) => match gen(*l, cfg, t) {
            Ok((cl, t1)) => match gen(*r, cfg, t1) {
                Ok((cr, t2)) => Ok((cl + jump_over(0x71, cr), t2)),
                Err(e) => Err(e),
            },
            Err(e) => Err(e),
        },
        ExprV::Not(inner) => match gen(*inner, cfg, t) {
            Ok((c, t2)) => Ok((c.push(0x32), t2)),
            Err(e) => Err(e),
        },
        _ => if is_payload_expr(e) {
            payload_code(e, t)
        } else if is_header_expr(e) {
            header_test_code(e, cfg, t)
        } else {
            field_code(e, cfg, t)
        },
    }
}

/// Code of `l`, a jump `op` over the code of `r`, then the code of `r`.
pub open spec fn jump_gen(l: ExprV, r: ExprV, op: u8, cfg: ConfigV, t: Tables) -> Result<
    (Seq<u8>, Tables),
    CompileErrorV,
>
{
    match gen(l, cfg, t) {
        Ok((cl, t1)) => match gen(r, cfg, t1) {
            Ok((cr, t2)) => Ok((cl + jump_over(op, cr), t2)),
            Err(e) => Err(e),
        },
        Err(e) => Err(e),
    }
}

/// The program that compiling `e` under `cfg` yields: its code followed by
/// a return.
pub open spec fn compiled_program(e: ExprV, cfg: ConfigV) -> Result<Program, CompileErrorV> {
    match gen(e, cfg, empty_tables()) {
        Ok((code, t)) => Ok(
            Program {
                code: code.push(0xFF),
                strings: t.strings,
                patterns: t.patterns,
                sets: t.sets,
                delimiter: cfg.delimiter,
            },
        ),
        Err(e) => Err(e),
    }
}

/// The size of the code of `e`.
pub open spec fn code_len(e: ExprV) -> nat
    decreases e,
{
    match e {
        ExprV::Bool(_) => 1,
        ExprV::Rand(_) | ExprV::Contains(_) | ExprV::StartsWith(_) | ExprV::EndsWith(_)
        | ExprV::Equals(_) | ExprV::Matches(_) => 3,
        ExprV::PartIsEmpty(_) | ExprV::PartNotEmpty(_) => 2,
        ExprV::PartNotEquals(_, _) => 5,
        ExprV::HeaderEquals(_, _, _) | ExprV::HeaderIEquals(_, _, _) | ExprV::HeaderContains(
            _,
            _,
            _,
        ) => 6,
        ExprV::And(l, r) | ExprV::Or(l, r) => code_len(*l) + 3 + code_len(*r),
        ExprV::Not(inner) => code_len(*inner) + 1,
        _ => 4,
    }
}

/// The number of nodes of `e`.
pub open spec fn expr_size(e: ExprV) -> nat
    decreases e,
{
    match e {
        ExprV::And(l, r) | ExprV::Or(l, r) => expr_size(*l) + expr_size(*r) + 1,
        ExprV::Not(inner) => expr_size(*inner) + 1,
        _ => 1,
    }
}

/// Every short-circuit jump of `e` spans at most 32767 bytes, so that its
/// offset fits the signed 16-bit operand.
pub open spec fn jumps_fit(e: ExprV) -> bool
    decreases e,
{
    match e {
        ExprV::And(l, r) | ExprV::Or(l, r) => code_len(*r) + 3 <= 32767 && jumps_fit(*l)
            && jumps_fit(*r),
        ExprV::Not(inner) => jumps_fit(*inner),
        _ => true,
    }
}

/// The part index that field `name` resolves to (0 when it does not).
pub open spec fn part_index(cfg: ConfigV, name: Seq<char>) -> u8 {
    match lookup_field(cfg, name) {
        Ok(i) => i,
        Err(_) => 0,
    }
}

/// The text of field `name` in record `data`.
pub open spec fn part_text(cfg: ConfigV, data: Seq<u8>, name: Seq<char>) -> Seq<u8> {
    field(data, cfg.delimiter, part_index(cfg, name) as int)
}

/// The value of header `h` in field `f` compared with `v`:
/// `how` is 0 for exact, 1 for ASCII case-insensitive, 2 for contains;
/// false when the header is absent.
pub open spec fn header_check(cfg: ConfigV, data: Seq<u8>, f: Seq<char>, h: Seq<char>, v: Seq<char>, how: int) -> bool {
    match header_value(part_text(cfg, data, f), encode_utf8(h)) {
        Some(x) => if how == 0 {
            x == encode_utf8(v)
        } else if how == 1 {
            eq_ignore_case(x, encode_utf8(v))
        } else {
            contains(x, encode_utf8(v))
        },
        None => false,
    }
}

/// The truth value of a single test (anything but a literal, `rand`, `AND`,
/// `OR` or `NOT`) on record `data`.
#[verifier::opaque]
pub open spec fn test_value(e: ExprV, cfg: ConfigV, data: Seq<u8>) -> bool {
    match e {
        ExprV::Contains(s) => str_test(0, data, encode_utf8(s)),
        ExprV::StartsWith(s) => str_test(1, data, encode_utf8(s)),
        ExprV::EndsWith(s) => str_test(2, data, encode_utf8(s)),
        ExprV::Equals(s) => str_test(3, data, encode_utf8(s)),
        ExprV::Matches(p) => regex_is_match(p, data),
        ExprV::PartContains(f, s) => str_test(0, part_text(cfg, data, f), encode_utf8(s)),
        ExprV::PartStartsWith(f, s) => str_test(1, part_text(cfg, data, f), encode_utf8(s)),
        ExprV::PartEndsWith(f, s) => str_test(2, part_text(cfg, data, f), encode_utf8(s)),
        ExprV::PartEquals(f, s) => part_text(cfg, data, f) == encode_utf8(s),
        ExprV::PartNotEquals(f, s) => part_text(cfg, data, f) != encode_utf8(s),
        ExprV::PartIEquals(f, s) => eq_ignore_case(part_text(cfg, data, f), encode_utf8(s)),
        ExprV::PartIContains(f, s) => icontains_spec(part_text(cfg, data, f), encode_utf8(s)),
        ExprV::PartMatches(f, p) => regex_is_match(p, part_text(cfg, data, f)),
        ExprV::PartInSet(f, vals) => exists|j: int|
            0 <= j < vals.len() && part_text(cfg, data, f) == encode_utf8(#[trigger] vals[j]),
        ExprV::PartIsEmpty(f) => part_text(cfg, data, f).len() == 0,
        ExprV::PartNotEmpty(f) => part_text(cfg, data, f).len() != 0,
        ExprV::HeaderEquals(f, h, v) => header_check(cfg, data, f, h, v, 0),
        ExprV::HeaderIEquals(f, h, v) => header_check(cfg, data, f, h, v, 1),
        ExprV::HeaderContains(f, h, v) => header_check(cfg, data, f, h, v, 2),
        ExprV::HeaderExists(f, h) => header_value(part_text(cfg, data, f), encode_utf8(h)) is Some,
        _ => false,
    }
}

/// Some window of `hay` is exactly `s`.
pub open spec fn has_window(hay: Seq<u8>, s: Seq<u8>) -> bool {
    exists|i: int| 0 <= i && i + s.len() <= hay.len() && #[trigger] hay.subrange(i, i + s.len()) == s
}

/// What each single test means on a record, in terms of the record's bytes,
/// the text of the field it names and the value of the header it names:
/// `contains` finds the value's bytes at some position, `starts_with` and
/// `ends_with` find them at the start or the end, `==` and `!=` compare whole
/// texts, `is_empty` and `not_empty` look at the field's length, and header
/// tests compare the header's value, being false when the header is absent.
pub proof fn lemma_test_meaning(cfg: ConfigV, data: Seq<u8>, f: Seq<char>, h: Seq<char>, s: Seq<char>)
    ensures
        ({
            let sv = encode_utf8(s);
            let fd = part_text(cfg, data, f);
            let hv = header_value(fd, encode_utf8(h));
            &&& test_value(ExprV::Contains(s), cfg, data) == has_window(data, sv)
            &&& test_value(ExprV::StartsWith(s), cfg, data) == (sv.len() <= data.len() && data.subrange(
                0,
                sv.len() as int,
            ) == sv)
            &&& test_value(ExprV::EndsWith(s), cfg, data) == (sv.len() <= data.len() && data.subrange(
                data.len() - sv.len(),
                data.len() as int,
            ) == sv)
            &&& test_value(ExprV::Equals(s), cfg, data) == (data == sv)
            &&& test_value(ExprV::PartContains(f, s), cfg, data) == has_window(fd, sv)
            &&& test_value(ExprV::PartStartsWith(f, s), cfg, data) == (sv.len() <= fd.len() && fd.subrange(
                0,
                sv.len() as int,
            ) == sv)
            &&& test_value(ExprV::PartEndsWith(f, s), cfg, data) == (sv.len() <= fd.len() && fd.subrange(
                fd.len() - sv.len(),
                fd.len() as int,
            ) == sv)
            &&& test_value(ExprV::PartEquals(f, s), cfg, data) == (fd == sv)
            &&& test_value(ExprV::PartNotEquals(f, s), cfg, data) == (fd != sv)
            &&& test_value(ExprV::PartIEquals(f, s), cfg, data) == eq_ignore_case(fd, sv)
            &&& test_value(ExprV::PartIContains(f, s), cfg, data) == (exists|i: int|
                0 <= i && i + sv.len() <= fd.len() && #[trigger] eq_ignore_case(fd.subrange(i, i + sv.len()), sv))
            &&& test_value(ExprV::PartIsEmpty(f), cfg, data) == (fd.len() == 0)
            &&& test_value(ExprV::PartNotEmpty(f), cfg, data) == (fd.len() > 0)
            &&& test_value(ExprV::HeaderExists(f, h), cfg, data) == (hv is Some)
            &&& test_value(ExprV::HeaderEquals(f, h, s), cfg, data) == (hv == Some(sv))
            &&& test_value(ExprV::HeaderIEquals(f, h, s), cfg, data) == (hv matches Some(x) && eq_ignore_case(x, sv))
            &&& test_value(ExprV::HeaderContains(f, h, s), cfg, data) == (hv matches Some(x) && has_window(x, sv))
        }),
{
    reveal(test_value);
    let sv = encode_utf8(s);
    let fd = part_text(cfg, data, f);
    lemma_str_test_meaning(data, sv);
    lemma_str_test_meaning(fd, sv);
    let hv = header_value(fd, encode_utf8(h));
    if hv is Some {
        lemma_str_test_meaning(hv->Some_0, sv);
    }
    assert(has_window(data, sv) == str_test(0, data, sv));
    assert(has_window(fd, sv) == str_test(0, fd, sv));
    if hv is Some {
        assert(has_window(hv->Some_0, sv) == contains(hv->Some_0, sv)) by {
            lemma_str_test_meaning(hv->Some_0, sv);
        }
    }
}

/// What a filter expression means on record `data`: its truth value, and
/// how many random draws it used, the `i`-th draw observing `tick(i)` and
/// the first one being draw `k`. `AND` and `OR` evaluate their right
/// operand only when the left one does not decide.
pub open spec fn eval(e: ExprV, cfg: ConfigV, data: Seq<u8>, tick: spec_fn(nat) -> u64, k: nat) -> (
    bool,
    nat,
)
    decreases e,
{
    match e {
        ExprV::Bool(b) => (b, k),
        ExprV::Rand(n) => if n <= 1 {
            (true, k)
        } else {
            (tick(k) % (n as u64) == 0, k + 1)
        },
        ExprV::And(l, r) => {
            let (a, k1) = eval(*l, cfg, data, tick, k);
            if a {
                eval(*r, cfg, data, tick, k1)
            } else {
                (false, k1)
            }
        },
        ExprV::Or(l, r) => {
            let (a, k1) = eval(*l, cfg, data, tick, k);
            if a {
                (true, k1)
            } else {
                eval(*r, cfg, data, tick, k1)
            }
        },
        ExprV::Not(inner) => {
            let (a, k1) = eval(*inner, cfg, data, tick, k);
            (!a, k1)
        },
        _ => (test_value(e, cfg, data), k),
    }
}

/// Whether two strings are equal.
fn str_eq(a: &str, b: &str) -> (r: bool)
    ensures
        r == (a@ == b@),
{
    let r = bytes_eq(a.as_bytes(), b.as_bytes());
    proof {
        vstd::utf8::encode_utf8_decode_utf8(a@);
        vstd::utf8::encode_utf8_decode_utf8(b@);
    }
    r
}

/// The configured fields, names taken as character sequences.
pub open spec fn fields_view(fields: Seq<(String, u8)>) -> Seq<(Seq<char>, u8)> {
    fields.map_values(|e: (String, u8)| (e.0@, e.1))
}

/// The part index of the first field entry named `name`.
fn find_field(fields: &Vec<(String, u8)>, name: &str) -> (r: Option<u8>)
    ensures
        r == lookup_name(fields_view(fields@), name@),
{
    let ghost fs = fields_view(fields@);
    let mut i: usize = 0;
    proof {
        assert(fs.skip(0) =~= fs);
    }
    while i < fields.len()
        invariant
            fs == fields_view(fields@),
            i <= fields@.len(),
            lookup_name(fs, name@) == lookup_name(fs.skip(i as int), name@),
        decreases fields@.len() - i,
    {
        proof {
            assert(fs.skip(i as int)[0] == fs[i as int]);
            assert(fs.skip(i as int).drop_first() =~= fs.skip(i + 1));
        }
        if str_eq(fields[i].0.as_str(), name) {
            return Some(fields[i].1);
        }
        i += 1;
    }
    proof {
        assert(fs.skip(i as int) =~= Seq::<(Seq<char>, u8)>::empty());
    }
    None
}

/// The field names joined with `", "`.
fn join_field_names(fields: &Vec<(String, u8)>) -> (r: String)
    ensures
        r@ == field_names(fields_view(fields@)),
{
    let ghost fs = fields_view(fields@);
    let sep = ", ";
    proof {
        reveal_strlit(", ");
    }
    let mut out = String::new();
    let mut i: usize = 0;
    while i < fields.len()
        invariant
            fs == fields_view(fields@),
            sep@ == seq![',', ' '],
            i <= fields@.len(),
            out@ == field_names(fs.take(i as int)),
        decreases fields@.len() - i,
    {
        proof {
            assert(fs.take(i + 1).drop_last() =~= fs.take(i as int));
        }
        if i > 0 {
            out.append(sep);
        }
        out.append(fields[i].0.as_str());
        i += 1;
    }
    proof {
        assert(fs.take(i as int) =~= fs);
    }
    out
}

/// Compiler state while bytecode is generated.
/// The part index of field `name` in `config`, given `upper`, the name
/// upper-cased: `upper` is looked up first, then `name` as written.
pub fn resolve_field(config: &ParserConfig, name: &str, upper: &str) -> (r: Result<u8, CompileError>)
    ensures
        match field_resolution(config@, name@, upper@) {
            Ok(i) => r matches Ok(j) && j == i,
            Err(e) => r matches Err(x) && x@ == e,
        },
{
    proof {
        assert(fields_view(config.fields@) == config@.fields);
    }
    match find_field(&config.fields, upper) {
        Some(i) => {
            return Ok(i);
        },
        None => {},
    }
    match find_field(&config.fields, name) {
        Some(i) => Ok(i),
        None => Err(CompileError::UnknownField(name.to_owned(), join_field_names(&config.fields))),
    }
}

/// Adds the regex built from `pattern` to `regexes`, given `built`, the
/// outcome of building it: its index, or the build error, or an error when
/// the table is full.
pub fn admit_regex(regexes: &mut Vec<CompiledRegex>, pattern: &str, built: Result<CompiledRegex, String>) -> (r:
    Result<u16, CompileError>)
    ensures
        ({
            let t = Tables { strings: Seq::empty(), patterns: old(regexes)@.map_values(|x: CompiledRegex| x@), sets: Seq::empty() };
            let err = match built {
                Ok(_) => None,
                Err(m) => Some(m@),
            };
            match pattern_admission(t, pattern@, err) {
                Ok((_, i)) => (r matches Ok(j) && j == i) && (built matches Ok(re) && final(regexes)@
                    == old(regexes)@.push(re)),
                Err(e) => r matches Err(x) && x@ == e && final(regexes)@ == old(regexes)@,
            }
        }),
{
    match built {
        Err(msg) => Err(CompileError::InvalidRegex { pattern: pattern.to_owned(), error: msg }),
        Ok(re) => {
            let idx = regexes.len();
            if idx > 65535 {
                return Err(CompileError::TooManyRegexes);
            }
            regexes.push(re);
            Ok(idx as u16)
        },
    }
}

struct Compiler<'a> {
    config: &'a ParserConfig,
    bytecode: Vec<u8>,
    strings: Vec<Vec<u8>>,
    regexes: Vec<CompiledRegex>,
    string_sets: Vec<Vec<u16>>,
}

impl<'a> Compiler<'a> {
    /// The tables built so far.
    spec fn tables(&self) -> Tables {
        Tables {
            strings: self.strings@.map_values(|s: Vec<u8>| s@),
            patterns: self.regexes@.map_values(|r: CompiledRegex| r@),
            sets: self.string_sets@.map_values(|s: Vec<u16>| s@),
        }
    }

    fn new(config: &'a ParserConfig) -> (c: Self)
        ensures
            c.config == config,
            c.bytecode@ == Seq::<u8>::empty(),
            c.tables() == empty_tables(),
    {
        let c = Compiler {
            config,
            bytecode: Vec::new(),
            strings: Vec::new(),
            regexes: Vec::new(),
            string_sets: Vec::new(),
        };
        proof {
            assert(c.tables().strings =~= Seq::<Seq<u8>>::empty());
            assert(c.tables().patterns =~= Seq::<Seq<char>>::empty());
            assert(c.tables().sets =~= Seq::<Seq<u16>>::empty());
        }
        c
    }

    /// Intern a string and return its index.
    fn intern_string(&mut self, s: &str) -> (r: Result<u16, CompileError>)
        ensures
            final(self).config == old(self).config,
            final(self).bytecode@ == old(self).bytecode@,
            match intern_str(old(self).tables(), encode_utf8(s@)) {
                Ok((t2, i)) => r matches Ok(j) && j == i && final(self).tables() == t2,
                Err(e) => r matches Err(x) && x@ == e,
            },
    {
        let bytes = s.as_bytes();
        let ghost t = self.tables();
        let mut i: usize = 0;
        while i < self.strings.len()
            invariant
                t == self.tables(),
                bytes@ == encode_utf8(s@),
                i <= self.strings@.len(),
                first_index_from(t.strings, bytes@, 0) == first_index_from(t.strings, bytes@, i as int),
            decreases self.strings@.len() - i,
        {
            if bytes_eq(self.strings[i].as_slice(), bytes) {
                return Ok(i as u16);
            }
            i += 1;
        }
        let idx = self.strings.len();
        if idx > 65535 {
            return Err(CompileError::TooManyStrings);
        }
        self.strings.push(vstd::slice::slice_to_vec(bytes));
        proof {
            assert(self.tables().strings =~= t.strings.push(bytes@));
            assert(self.tables().patterns == t.patterns);
            assert(self.tables().sets == t.sets);
        }
        Ok(idx as u16)
    }

    /// Intern a regex pattern and return its index.
    fn intern_regex(&mut self, pattern: &str) -> (r: Result<u16, CompileError>)
        ensures
            final(self).config == old(self).config,
            final(self).bytecode@ == old(self).bytecode@,
            match intern_pat(old(self).tables(), pattern@) {
                Ok((t2, i)) => r matches Ok(j) && j == i && final(self).tables() == t2,
                Err(e) => r matches Err(x) && x@ == e,
            },
    {
        let ghost t = self.tables();
        let mut i: usize = 0;
        while i < self.regexes.len()
            invariant
                t == self.tables(),
                i <= self.regexes@.len(),
                first_index_from(t.patterns, pattern@, 0) == first_index_from(t.patterns, pattern@, i as int),
            decreases self.regexes@.len() - i,
        {
            if str_eq(self.regexes[i].as_str(), pattern) {
                return Ok(i as u16);
            }
            i += 1;
        }
        let built = CompiledRegex::new(pattern);
        let r = admit_regex(&mut self.regexes, pattern, built);
        proof {
            if r is Ok {
                assert(self.tables().patterns =~= t.patterns.push(pattern@));
            }
        }
        r
    }

    /// Add a string set and return its index.
    fn add_string_set(&mut self, values: &[String]) -> (r: Result<u16, CompileError>)
        ensures
            final(self).config == old(self).config,
            final(self).bytecode@ == old(self).bytecode@,
            match add_set(old(self).tables(), values@.map_values(|s: String| s@)) {
                Ok((t2, i)) => r matches Ok(j) && j == i && final(self).tables() == t2,
                Err(e) => r matches Err(x) && x@ == e,
            },
    {
        let ghost t0 = self.tables();
        let ghost vals = values@.map_values(|s: String| s@);
        let mut indices: Vec<u16> = Vec::new();
        let mut j: usize = 0;
        while j < values.len()
            invariant
                vals == values@.map_values(|s: String| s@),
                j <= values@.len(),
                self.config == old(self).config,
                self.bytecode@ == old(self).bytecode@,
                t0 == old(self).tables(),
                intern_strs(t0, vals.take(j as int)) == Ok::<(Tables, Seq<u16>), CompileErrorV>(
                    (self.tables(), indices@),
                ),
            decreases values@.len() - j,
        {
            proof {
                assert(vals.take(j + 1).drop_last() =~= vals.take(j as int));
                assert(vals.take(j + 1).last() == values@[j as int]@);
            }
            match self.intern_string(values[j].as_str()) {
                Ok(id) => {
                    indices.push(id);
                },
                Err(e) => {
                    proof {
                        lemma_intern_strs_err(t0, vals, j + 1);
                    }
                    return Err(e);
                },
            }
            j += 1;
        }
        proof {
            assert(vals.take(j as int) =~= vals);
        }
        let idx = self.string_sets.len();
        if idx > 65535 {
            return Err(CompileError::TooManySets);
        }
        let ghost t1 = self.tables();
        self.string_sets.push(indices);
        proof {
            assert(self.tables().sets =~= t1.sets.push(indices@));
            assert(self.tables().strings == t1.strings);
            assert(self.tables().patterns == t1.patterns);
        }
        Ok(idx as u16)
    }

    /// Look up a field name and return its part index.
    fn lookup_field(&self, name: &str) -> (r: Result<u8, CompileError>)
        ensures
            match lookup_field(self.config@, name@) {
                Ok(i) => r matches Ok(j) && j == i,
                Err(e) => r matches Err(x) && x@ == e,
            },
    {
        let upper = to_upper(name);
        resolve_field(self.config, name, upper.as_str())
    }

    /// Emit a single byte.
    fn emit(&mut self, byte: u8)
        ensures
            final(self).config == old(self).config,
            final(self).tables() == old(self).tables(),
            final(self).bytecode@ == old(self).bytecode@.push(byte),
    {
        self.bytecode.push(byte);
    }

    /// Emit an opcode.
    fn emit_op(&mut self, op: Opcode)
        ensures
            final(self).config == old(self).config,
            final(self).tables() == old(self).tables(),
            final(self).bytecode@ == old(self).bytecode@.push(op.byte()),
    {
        self.emit(op.to_byte());
    }

    /// Emit a `u16` in little-endian format.
    fn emit_u16(&mut self, value: u16)
        ensures
            final(self).config == old(self).config,
            final(self).tables() == old(self).tables(),
            final(self).bytecode@ == old(self).bytecode@ + le16(value as int),
            final(self).bytecode@.len() == old(self).bytecode@.len() + 2,
    {
        self.bytecode.push((value % 256) as u8);
        self.bytecode.push((value / 256) as u8);
        proof {
            reveal(le16);
            assert(self.bytecode@ =~= old(self).bytecode@ + le16(value as int));
        }
    }

    /// Current bytecode offset (for backpatching).
    fn offset(&self) -> (n: usize)
        ensures
            n == self.bytecode@.len(),
    {
        self.bytecode.len()
    }

    /// Backpatch a little-endian `u16` at the given bytecode position.
    fn patch_u16(&mut self, pos: usize, value: u16)
        requires
            pos + 1 < old(self).bytecode@.len(),
        ensures
            final(self).config == old(self).config,
            final(self).tables() == old(self).tables(),
            final(self).bytecode@ == old(self).bytecode@.update(pos as int, le16(value as int)[0]).update(
                pos + 1,
                le16(value as int)[1],
            ),
            final(self).bytecode@.len() == old(self).bytecode@.len(),
    {
        assert(self.bytecode@.len() == self.bytecode.len());
        proof {
            reveal(le16);
        }
        let next = pos + 1;
        self.bytecode.set(pos, (value % 256) as u8);
        self.bytecode.set(next, (value / 256) as u8);
    }
}

impl<'a> Compiler<'a> {
    /// A payload instruction whose operand is a string index.
    fn str_instr(&mut self, op: Opcode, s: &str) -> (r: Result<(), CompileError>)
        ensures
            final(self).config == old(self).config,
            match str_code(op.byte(), old(self).tables(), s@) {
                Ok((c, t2)) => r is Ok && final(self).bytecode@ == old(self).bytecode@ + c
                    && final(self).tables() == t2,
                Err(e) => r matches Err(x) && x@ == e,
            },
    {
        let idx = match self.intern_string(s) {
            Ok(i) => i,
            Err(e) => {
                return Err(e);
            },
        };
        self.emit_op(op);
        self.emit_u16(idx);
        proof {
            assert(self.bytecode@ =~= old(self).bytecode@ + (seq![op.byte()] + le16(idx as int)));
        }
        Ok(())
    }

    /// A field instruction whose operand is a string index.
    fn part_str_instr(&mut self, op: Opcode, part: &str, value: &str) -> (r: Result<(), CompileError>)
        ensures
            final(self).config == old(self).config,
            match part_str_code(op.byte(), old(self).config@, old(self).tables(), part@, value@) {
                Ok((c, t2)) => r is Ok && final(self).bytecode@ == old(self).bytecode@ + c
                    && final(self).tables() == t2,
                Err(e) => r matches Err(x) && x@ == e,
            },
    {
        let part_idx = match self.lookup_field(part) {
            Ok(i) => i,
            Err(e) => {
                return Err(e);
            },
        };
        let str_idx = match self.intern_string(value) {
            Ok(i) => i,
            Err(e) => {
                return Err(e);
            },
        };
        self.emit_op(op);
        self.emit(part_idx);
        self.emit_u16(str_idx);
        proof {
            assert(self.bytecode@ =~= old(self).bytecode@ + (seq![op.byte(), part_idx] + le16(
                str_idx as int,
            )));
        }
        Ok(())
    }

    /// A header comparison: field, header name and value operands.
    fn header_instr(&mut self, op: Opcode, part: &str, header: &str, value: &str) -> (r: Result<
        (),
        CompileError,
    >)
        ensures
            final(self).config == old(self).config,
            match header_code(op.byte(), old(self).config@, old(self).tables(), part@, header@, value@) {
                Ok((c, t2)) => r is Ok && final(self).bytecode@ == old(self).bytecode@ + c
                    && final(self).tables() == t2,
                Err(e) => r matches Err(x) && x@ == e,
            },
    {
        let part_idx = match self.lookup_field(part) {
            Ok(i) => i,
            Err(e) => {
                return Err(e);
            },
        };
        let hdr_idx = match self.intern_string(header) {
            Ok(i) => i,
            Err(e) => {
                return Err(e);
            },
        };
        let val_idx = match self.intern_string(value) {
            Ok(i) => i,
            Err(e) => {
                return Err(e);
            },
        };
        self.emit_op(op);
        self.emit(part_idx);
        self.emit_u16(hdr_idx);
        self.emit_u16(val_idx);
        proof {
            assert(self.bytecode@ =~= old(self).bytecode@ + (seq![op.byte(), part_idx] + le16(
                hdr_idx as int,
            ) + le16(val_idx as int)));
        }
        Ok(())
    }

    /// Compile a literal or payload-wide test.
    fn compile_payload(&mut self, expr: &Expr) -> (r: Result<(), CompileError>)
        requires
            is_payload_expr(expr@),
        ensures
            final(self).config == old(self).config,
            match payload_code(expr@, old(self).tables()) {
                Ok((c, t2)) => r is Ok && final(self).bytecode@ == old(self).bytecode@ + c
                    && final(self).tables() == t2,
                Err(e) => r matches Err(x) && x@ == e,
            },
    {
        proof {
            reveal(payload_code);
        }
        match expr {
            Expr::Bool(b) => {
                if *b {
                    self.emit_op(Opcode::PushTrue);
                } else {
                    self.emit_op(Opcode::PushFalse);
                }
                Ok(())
            },
            Expr::Rand(n) => {
                self.emit_op(Opcode::Rand);
                self.emit_u16(*n);
                proof {
                    assert(self.bytecode@ =~= old(self).bytecode@ + (seq![0x60u8] + le16(*n as int)));
                }
                Ok(())
            },
            Expr::Contains(s) => self.str_instr(Opcode::Contains, s.as_str()),
            Expr::StartsWith(s) => self.str_instr(Opcode::StartsWith, s.as_str()),
            Expr::EndsWith(s) => self.str_instr(Opcode::EndsWith, s.as_str()),
            Expr::Equals(s) => self.str_instr(Opcode::Equals, s.as_str()),
            Expr::Matches(pattern) => {
                let idx = match self.intern_regex(pattern.as_str()) {
                    Ok(i) => i,
                    Err(e) => {
                        return Err(e);
                    },
                };
                self.emit_op(Opcode::Matches);
                self.emit_u16(idx);
                proof {
                    assert(self.bytecode@ =~= old(self).bytecode@ + (seq![0x20u8] + le16(idx as int)));
                }
                Ok(())
            },
            _ => Ok(()),
        }
    }

    /// Compile a field test.
    fn compile_field(&mut self, expr: &Expr) -> (r: Result<(), CompileError>)
        requires
            !is_payload_expr(expr@) && !is_header_expr(expr@) && !(expr@ is And || expr@ is Or || expr@ is Not),
        ensures
            final(self).config == old(self).config,
            match field_code(expr@, old(self).config@, old(self).tables()) {
                Ok((c, t2)) => r is Ok && final(self).bytecode@ == old(self).bytecode@ + c
                    && final(self).tables() == t2,
                Err(e) => r matches Err(x) && x@ == e,
            },
    {
        proof {
            reveal(field_code);
        }
        match expr {
            Expr::PartContains { part, value } => self.part_str_instr(
                Opcode::PartContains,
                part.as_str(),
                value.as_str(),
            ),
            Expr::PartIContains { part, value } => self.part_str_instr(
                Opcode::PartIContains,
                part.as_str(),
                value.as_str(),
            ),
            Expr::PartStartsWith { part, value } => self.part_str_instr(
                Opcode::PartStartsWith,
                part.as_str(),
                value.as_str(),
            ),
            Expr::PartEndsWith { part, value } => self.part_str_instr(
                Opcode::PartEndsWith,
                part.as_str(),
                value.as_str(),
            ),
            Expr::PartEquals { part, value } => self.part_str_instr(
                Opcode::PartEquals,
                part.as_str(),
                value.as_str(),
            ),
            Expr::PartIEquals { part, value } => self.part_str_instr(
                Opcode::PartIEquals,
                part.as_str(),
                value.as_str(),
            ),
            Expr::PartNotEquals { part, value } => {
                // compiled as NOT (field == value)
                match self.part_str_instr(Opcode::PartEquals, part.as_str(), value.as_str()) {
                    Ok(()) => {},
                    Err(e) => {
                        return Err(e);
                    },
                }
                self.emit_op(Opcode::Not);
                proof {
                    assert(self.bytecode@ =~= old(self).bytecode@ + (self.bytecode@.subrange(
                        old(self).bytecode@.len() as int,
                        self.bytecode@.len() - 1,
                    ).push(0x32)));
                }
                Ok(())
            },
            Expr::PartMatches { part, pattern } => {
                let part_idx = match self.lookup_field(part.as_str()) {
                    Ok(i) => i,
                    Err(e) => {
                        return Err(e);
                    },
                };
                let regex_idx = match self.intern_regex(pattern.as_str()) {
                    Ok(i) => i,
                    Err(e) => {
                        return Err(e);
                    },
                };
                self.emit_op(Opcode::PartMatches);
                self.emit(part_idx);
                self.emit_u16(regex_idx);
                proof {
                    assert(self.bytecode@ =~= old(self).bytecode@ + (seq![0x44u8, part_idx] + le16(
                        regex_idx as int,
                    )));
                }
                Ok(())
            },
            Expr::PartInSet { part, values } => {
                let part_idx = match self.lookup_field(part.as_str()) {
                    Ok(i) => i,
                    Err(e) => {
                        return Err(e);
                    },
                };
                let set_idx = match self.add_string_set(values.as_slice()) {
                    Ok(i) => i,
                    Err(e) => {
                        return Err(e);
                    },
                };
                self.emit_op(Opcode::PartInSet);
                self.emit(part_idx);
                self.emit_u16(set_idx);
                proof {
                    assert(self.bytecode@ =~= old(self).bytecode@ + (seq![0x47u8, part_idx] + le16(
                        set_idx as int,
                    )));
                }
                Ok(())
            },
            Expr::PartIsEmpty { part } => {
                let part_idx = match self.lookup_field(part.as_str()) {
                    Ok(i) => i,
                    Err(e) => {
                        return Err(e);
                    },
                };
                self.emit_op(Opcode::PartIsEmpty);
                self.emit(part_idx);
                proof {
                    assert(self.bytecode@ =~= old(self).bytecode@ + seq![0x45u8, part_idx]);
                }
                Ok(())
            },
            Expr::PartNotEmpty { part } => {
                let part_idx = match self.lookup_field(part.as_str()) {
                    Ok(i) => i,
                    Err(e) => {
                        return Err(e);
                    },
                };
                self.emit_op(Opcode::PartNotEmpty);
                self.emit(part_idx);
                proof {
                    assert(self.bytecode@ =~= old(self).bytecode@ + seq![0x46u8, part_idx]);
                }
                Ok(())
            },
            _ => Ok(()),
        }
    }

    /// Compile a header test.
    fn compile_header(&mut self, expr: &Expr) -> (r: Result<(), CompileError>)
        requires
            is_header_expr(expr@),
        ensures
            final(self).config == old(self).config,
            match header_test_code(expr@, old(self).config@, old(self).tables()) {
                Ok((c, t2)) => r is Ok && final(self).bytecode@ == old(self).bytecode@ + c
                    && final(self).tables() == t2,
                Err(e) => r matches Err(x) && x@ == e,
            },
    {
        proof {
            reveal(header_test_code);
        }
        match expr {
            Expr::HeaderEquals { part, header, value } => self.header_instr(
                Opcode::HeaderEquals,
                part.as_str(),
                header.as_str(),
                value.as_str(),
            ),
            Expr::HeaderIEquals { part, header, value } => self.header_instr(
                Opcode::HeaderIEquals,
                part.as_str(),
                header.as_str(),
                value.as_str(),
            ),
            Expr::HeaderContains { part, header, value } => self.header_instr(
                Opcode::HeaderContains,
                part.as_str(),
                header.as_str(),
                value.as_str(),
            ),
            Expr::HeaderExists { part, header } => {
                let part_idx = match self.lookup_field(part.as_str()) {
                    Ok(i) => i,
                    Err(e) => {
                        return Err(e);
                    },
                };
                let hdr_idx = match self.intern_string(header.as_str()) {
                    Ok(i) => i,
                    Err(e) => {
                        return Err(e);
                    },
                };
                self.emit_op(Opcode::HeaderExists);
                self.emit(part_idx);
                self.emit_u16(hdr_idx);
                proof {
                    assert(self.bytecode@ =~= old(self).bytecode@ + (seq![0x53u8, part_idx] + le16(
                        hdr_idx as int,
                    )));
                }
                Ok(())
            },
            _ => Ok(()),
        }
    }

    /// Compile `AND` or `OR` of `left` and `right`: the left operand, a
    /// jump `op` over the right operand that keeps the deciding value, then
    /// the right operand.
    #[verifier::spinoff_prover]
    fn compile_jump(&mut self, left: &Expr, right: &Expr, op: Opcode) -> (r: Result<(), CompileError>)
        ensures
            final(self).config == old(self).config,
            match jump_gen(left@, right@, op.byte(), old(self).config@, old(self).tables()) {
                Ok((c, t2)) => r is Ok && final(self).bytecode@ == old(self).bytecode@ + c
                    && final(self).tables() == t2,
                Err(e) => r matches Err(x) && x@ == e,
            },
        decreases expr_size(left@) + expr_size(right@) + 1, 0nat,
    {
        let ghost cfg = self.config@;
        let ghost t0 = self.tables();
        let ghost b0 = self.bytecode@;
        match self.compile_expr(left) {
            Ok(()) => {},
            Err(e) => {
                return Err(e);
            },
        }
        let ghost gl = gen(left@, cfg, t0);
        let ghost cl = match gl {
            Ok((c, _)) => c,
            Err(_) => Seq::empty(),
        };
        let ghost t1 = self.tables();
        proof {
            assert(gl == Ok::<(Seq<u8>, Tables), CompileErrorV>((cl, t1)));
        }
        let ghost b1 = self.bytecode@;
        let opcode_pos = self.offset();
        self.emit_op(op);
        let patch_pos = self.offset();
        self.emit_u16(0);
        let ghost b2 = self.bytecode@;
        proof {
            assert(b2 =~= b1 + seq![op.byte()] + le16(0));
        }
        match self.compile_expr(right) {
            Ok(()) => {},
            Err(e) => {
                proof {
                    lemma_jump_gen_right(left@, right@, op.byte(), cfg, t0, cl, t1);
                }
                return Err(e);
            },
        }
        let ghost gr = gen(right@, cfg, t1);
        let ghost cr = match gr {
            Ok((c, _)) => c,
            Err(_) => Seq::empty(),
        };
        let ghost t2 = self.tables();
        proof {
            assert(gr == Ok::<(Seq<u8>, Tables), CompileErrorV>((cr, t2)));
        }
        let ghost b3 = self.bytecode@;
        let jump_target = self.offset();
        let offset = jump_target - opcode_pos;
        self.patch_u16(patch_pos, (offset % 65536) as u16);
        proof {
            lemma_le16_low_bits(offset as u64);
            assert(b1.subrange(0, b0.len() as int) =~= b0);
            assert(b3.subrange(0, b2.len() as int) =~= b2);
            lemma_jump_layout(b0, b1, b2, b3, self.bytecode@, op.byte());
            assert(b1.subrange(b0.len() as int, b1.len() as int) =~= cl);
            assert(b3.subrange(b2.len() as int, b3.len() as int) =~= cr);
            lemma_jump_gen_right(left@, right@, op.byte(), cfg, t0, cl, t1);
        }
        Ok(())
    }

    /// Compile an expression, appending its code.
    #[verifier::spinoff_prover]
    fn compile_expr(&mut self, expr: &Expr) -> (r: Result<(), CompileError>)
        ensures
            final(self).config == old(self).config,
            match gen(expr@, old(self).config@, old(self).tables()) {
                Ok((c, t2)) => r is Ok && final(self).bytecode@ == old(self).bytecode@ + c
                    && final(self).tables() == t2,
                Err(e) => r matches Err(x) && x@ == e,
            },
        decreases expr_size(expr@), 1nat,
    {
        match expr {
            Expr::And(left, right) => self.compile_jump(left, right, Opcode::JumpIfFalse),
            Expr::Or(left, right) => self.compile_jump(left, right, Opcode::JumpIfTrue),
            Expr::Not(inner) => {
                match self.compile_expr(inner) {
                    Ok(()) => {},
                    Err(e) => {
                        return Err(e);
                    },
                }
                let ghost b1 = self.bytecode@;
                self.emit_op(Opcode::Not);
                proof {
                    assert(self.bytecode@ =~= old(self).bytecode@ + b1.subrange(
                        old(self).bytecode@.len() as int,
                        b1.len() as int,
                    ).push(0x32));
                }
                Ok(())
            },
            _ => {
                if is_payload(expr) {
                    self.compile_payload(expr)
                } else if is_header(expr) {
                    self.compile_header(expr)
                } else {
                    self.compile_field(expr)
                }
            },
        }
    }
}

impl<'a> Compiler<'a> {
    /// Finish compilation: append the return and build the filter.
    fn finish(self, source: String) -> (f: CompiledFilter)
        ensures
            f@ == (Program {
                code: self.bytecode@.push(0xFF),
                strings: self.tables().strings,
                patterns: self.tables().patterns,
                sets: self.tables().sets,
                delimiter: self.config@.delimiter,
            }),
            f.source_text() == source@,
    {
        let mut compiler = self;
        compiler.emit_op(Opcode::Return);
        let delimiter = vstd::slice::slice_to_vec(compiler.config.delimiter.as_slice());
        CompiledFilter::new(
            compiler.bytecode,
            compiler.strings,
            compiler.regexes,
            compiler.string_sets,
            delimiter,
            source,
        )
    }
}

/// Compile a pre-parsed expression into a filter.
///
/// Fails, with the first error met in evaluation order, on an unknown
/// field, a regex that does not build, or tables over 65536 entries.
pub fn compile_expr(expr: &Expr, config: &ParserConfig, source: String) -> (r: Result<
    CompiledFilter,
    CompileError,
>)
    ensures
        match compiled_program(expr@, config@) {
            Ok(p) => r matches Ok(f) && f@ == p && f.source_text() == source@,
            Err(e) => r matches Err(x) && x@ == e,
        },
{
    let mut compiler = Compiler::new(config);
    match compiler.compile_expr(expr) {
        Ok(()) => {},
        Err(e) => {
            return Err(e);
        },
    }
    Ok(compiler.finish(source))
}

/// What compiling the text `source` under `cfg` gives: the program, or the
/// first parse or compile error.
pub open spec fn compile_outcome(source: Seq<char>, cfg: ConfigV) -> Result<Program, CompileErrorV> {
    match parse_spec(source) {
        Ok(e) => compiled_program(e, cfg),
        Err(pe) => Err(CompileErrorV::Parse(pe)),
    }
}

/// Compile a filter expression string into a filter ready for evaluation.
///
/// Fails with the parse error when the source does not parse, else as
/// `compile_expr` does.
pub fn compile(source: &str, config: &ParserConfig) -> (r: Result<CompiledFilter, CompileError>)
    ensures
        match compile_outcome(source@, config@) {
            Ok(p) => r matches Ok(f) && f@ == p && f.source_text() == source@,
            Err(e) => r matches Err(x) && x@ == e,
        },
{
    let expr = match parse(source, config) {
        Ok(e) => e,
        Err(e) => {
            return Err(CompileError::Parse(e));
        },
    };
    compile_expr(&expr, config, source.to_owned())
}

/// Whether `expr` is a literal or a payload-wide test.
fn is_payload(expr: &Expr) -> (b: bool)
    ensures
        b == is_payload_expr(expr@),
{
    match expr {
        Expr::Bool(_) | Expr::Rand(_) | Expr::Contains(_) | Expr::StartsWith(_)
        | Expr::EndsWith(_) | Expr::Equals(_) | Expr::Matches(_) => true,
        _ => false,
    }
}

/// Whether `expr` is a header test.
fn is_header(expr: &Expr) -> (b: bool)
    ensures
        b == is_header_expr(expr@),
{
    match expr {
        Expr::HeaderEquals { .. } | Expr::HeaderIEquals { .. } | Expr::HeaderContains { .. }
        | Expr::HeaderExists { .. } => true,
        _ => false,
    }
}

/// Once the left operand compiles, a jump compiles as its right operand
/// does.
proof fn lemma_jump_gen_right(
    l: ExprV,
    r: ExprV,
    op: u8,
    cfg: ConfigV,
    t0: Tables,
    cl: Seq<u8>,
    t1: Tables,
)
    requires
        gen(l, cfg, t0) == Ok::<(Seq<u8>, Tables), CompileErrorV>((cl, t1)),
    ensures
        jump_gen(l, r, op, cfg, t0) == match gen(r, cfg, t1) {
            Ok((cr, t2)) => Ok((cl + jump_over(op, cr), t2)),
            Err(e) => Err(e),
        },
{
}

/// Code laid out as: what was there, the left operand, the jump with its
/// offset patched in, and the right operand.
proof fn lemma_jump_layout(b0: Seq<u8>, b1: Seq<u8>, b2: Seq<u8>, b3: Seq<u8>, fin: Seq<u8>, op: u8)
    requires
        b0.len() <= b1.len(),
        b1.subrange(0, b0.len() as int) == b0,
        b2 == b1 + seq![op] + le16(0),
        b2.len() <= b3.len(),
        b3.subrange(0, b2.len() as int) == b2,
        fin == b3.update(b1.len() + 1int, le16(b3.len() - b1.len())[0]).update(
            b1.len() + 2int,
            le16(b3.len() - b1.len())[1],
        ),
    ensures
        fin == b0 + (b1.subrange(b0.len() as int, b1.len() as int) + jump_over(
            op,
            b3.subrange(b2.len() as int, b3.len() as int),
        )),
{
    reveal(le16);
    let cr = b3.subrange(b2.len() as int, b3.len() as int);
    let mid = b1.subrange(b0.len() as int, b1.len() as int);
    let t = b0 + (mid + jump_over(op, cr));
    assert(b3.len() - b1.len() == cr.len() + 3);
    assert(t.len() == fin.len());
    assert forall|i: int| 0 <= i < fin.len() implies fin[i] == t[i] by {
        if i < b0.len() {
            assert(b1[i] == b0[i]);
            assert(b3[i] == b2[i]);
        } else if i < b1.len() {
            assert(b3[i] == b2[i]);
            assert(t[i] == mid[i - b0.len()]);
        } else if i < b2.len() {
            assert(b3[i] == b2[i]);
            assert(t[i] == jump_over(op, cr)[i - b1.len()]);
        } else {
            assert(t[i] == jump_over(op, cr)[i - b1.len()]);
            assert(jump_over(op, cr)[i - b1.len()] == cr[i - b2.len()]);
        }
    }
    assert(fin =~= t);
}

/// The low 16 bits of `n`, split in bytes, are the low 16 bits of `n % 65536`.
proof fn lemma_le16_low_bits(n: u64)
    ensures
        le16((n % 65536) as u16 as int) == le16(n as int),
{
    reveal(le16);
    assert((n % 65536) % 256 == n % 256) by (bit_vector);
    assert(((n % 65536) / 256) % 256 == (n / 256) % 256) by (bit_vector);
    assert(le16((n % 65536) as u16 as int) =~= le16(n as int));
}

/// Once a prefix of the values fails to intern, so do all the values.
proof fn lemma_intern_strs_err(t: Tables, vals: Seq<Seq<char>>, m: int)
    requires
        0 <= m <= vals.len(),
        intern_strs(t, vals.take(m)) is Err,
    ensures
        intern_strs(t, vals) == intern_strs(t, vals.take(m)),
    decreases vals.len(),
{
    if vals.len() > m {
        assert(vals.drop_last().take(m) =~= vals.take(m));
        lemma_intern_strs_err(t, vals.drop_last(), m);
    } else {
        assert(vals.take(m) =~= vals);
    }
}

/// The tables of program `p`.
pub open spec fn program_tables(p: Program) -> Tables {
    Tables { strings: p.strings, patterns: p.patterns, sets: p.sets }
}

/// Every entry of `t` is still in `t2`, at the same index.
pub open spec fn extends(t2: Tables, t: Tables) -> bool {
    &&& t.strings.len() <= t2.strings.len()
    &&& forall|i: int| 0 <= i < t.strings.len() ==> #[trigger] t2.strings[i] == t.strings[i]
    &&& t.patterns.len() <= t2.patterns.len()
    &&& forall|i: int| 0 <= i < t.patterns.len() ==> #[trigger] t2.patterns[i] == t.patterns[i]
    &&& t.sets.len() <= t2.sets.len()
    &&& forall|i: int| 0 <= i < t.sets.len() ==> #[trigger] t2.sets[i] == t.sets[i]
}

/// Each table has at most 65536 entries, so that every index fits a `u16`.
pub open spec fn bounded(t: Tables) -> bool {
    t.strings.len() <= 65536 && t.patterns.len() <= 65536 && t.sets.len() <= 65536
}

proof fn lemma_extends_trans(t3: Tables, t2: Tables, t1: Tables)
    requires
        extends(t3, t2),
        extends(t2, t1),
    ensures
        extends(t3, t1),
{
    assert forall|i: int| 0 <= i < t1.strings.len() implies #[trigger] t3.strings[i] == t1.strings[i] by {
        assert(t3.strings[i] == t2.strings[i]);
    }
    assert forall|i: int| 0 <= i < t1.patterns.len() implies #[trigger] t3.patterns[i]
        == t1.patterns[i] by {
        assert(t3.patterns[i] == t2.patterns[i]);
    }
    assert forall|i: int| 0 <= i < t1.sets.len() implies #[trigger] t3.sets[i] == t1.sets[i] by {
        assert(t3.sets[i] == t2.sets[i]);
    }
}

proof fn lemma_first_index<A>(s: Seq<A>, x: A, i: int)
    ensures
        first_index_from(s, x, i) matches Some(j) ==> i <= j < s.len() && s[j] == x,
    decreases s.len() - i,
{
    if 0 <= i < s.len() && s[i] != x {
        lemma_first_index(s, x, i + 1);
    }
}

/// An interned string sits at the index returned.
proof fn lemma_intern_str(t: Tables, s: Seq<u8>)
    requires
        bounded(t),
    ensures
        intern_str(t, s) matches Ok((t2, i)) ==> extends(t2, t) && bounded(t2) && i
            < t2.strings.len() && t2.strings[i as int] == s,
{
    lemma_first_index(t.strings, s, 0);
}

/// An interned pattern sits at the index returned.
proof fn lemma_intern_pat(t: Tables, p: Seq<char>)
    requires
        bounded(t),
    ensures
        intern_pat(t, p) matches Ok((t2, i)) ==> extends(t2, t) && bounded(t2) && i
            < t2.patterns.len() && t2.patterns[i as int] == p,
{
    lemma_first_index(t.patterns, p, 0);
}

/// Each interned value sits at its index.
proof fn lemma_intern_strs(t: Tables, vals: Seq<Seq<char>>)
    requires
        bounded(t),
    ensures
        intern_strs(t, vals) matches Ok((t2, ids)) ==> extends(t2, t) && bounded(t2) && ids.len()
            == vals.len() && forall|j: int|
            0 <= j < ids.len() ==> #[trigger] ids[j] < t2.strings.len() && t2.strings[ids[j] as int]
                == encode_utf8(vals[j]),
    decreases vals.len(),
{
    if vals.len() > 0 {
        lemma_intern_strs(t, vals.drop_last());
        match intern_strs(t, vals.drop_last()) {
            Ok((t1, ids)) => {
                lemma_intern_str(t1, encode_utf8(vals.last()));
                match intern_str(t1, encode_utf8(vals.last())) {
                    Ok((t2, id)) => {
                        lemma_extends_trans(t2, t1, t);
                        assert forall|j: int| 0 <= j < ids.len() + 1 implies #[trigger] ids.push(
                            id,
                        )[j] < t2.strings.len() && t2.strings[ids.push(id)[j] as int]
                            == encode_utf8(vals[j]) by {
                            if j < ids.len() {
                                assert(ids.push(id)[j] == ids[j]);
                                assert(t2.strings[ids[j] as int] == t1.strings[ids[j] as int]);
                                assert(vals.drop_last()[j] == vals[j]);
                            }
                        }
                    },
                    Err(_) => {},
                }
            },
            Err(_) => {},
        }
    }
}

/// A set added holds the indexes of its values.
proof fn lemma_add_set(t: Tables, vals: Seq<Seq<char>>)
    requires
        bounded(t),
    ensures
        add_set(t, vals) matches Ok((t2, i)) ==> extends(t2, t) && bounded(t2) && i < t2.sets.len()
            && t2.sets[i as int].len() == vals.len() && forall|j: int|
            0 <= j < vals.len() ==> #[trigger] t2.sets[i as int][j] < t2.strings.len()
                && t2.strings[t2.sets[i as int][j] as int] == encode_utf8(vals[j]),
{
    lemma_intern_strs(t, vals);
}

/// The two bytes of a 16-bit operand read back as its value.
pub proof fn lemma_le16_decode(v: int)
    requires
        0 <= v < 65536,
    ensures
        le16(v).len() == 2,
        le16(v)[0] + 256 * le16(v)[1] == v,
{
    reveal(le16);
}

/// Code size and table growth of a literal or payload-wide test.
proof fn lemma_payload_facts(e: ExprV, t: Tables)
    requires
        bounded(t),
        is_payload_expr(e),
    ensures
        payload_code(e, t) matches Ok((c, t2)) ==> c.len() == code_len(e) && extends(t2, t)
            && bounded(t2),
{
    reveal(payload_code);
    match e {
        ExprV::Rand(n) => {
            lemma_le16_len(n as int);
        },
        ExprV::Matches(p) => {
            lemma_intern_pat(t, p);
            match intern_pat(t, p) {
                Ok((_, i)) => lemma_le16_len(i as int),
                Err(_) => {},
            }
        },
        ExprV::Contains(s) | ExprV::StartsWith(s) | ExprV::EndsWith(s) | ExprV::Equals(s) => {
            lemma_intern_str(t, encode_utf8(s));
            match intern_str(t, encode_utf8(s)) {
                Ok((_, i)) => lemma_le16_len(i as int),
                Err(_) => {},
            }
        },
        _ => {},
    }
}

/// Code size and table growth of a field test.
proof fn lemma_field_facts(e: ExprV, cfg: ConfigV, t: Tables)
    requires
        bounded(t),
        !is_payload_expr(e) && !is_header_expr(e) && !(e is And || e is Or || e is Not),
    ensures
        field_code(e, cfg, t) matches Ok((c, t2)) ==> c.len() == code_len(e) && extends(t2, t)
            && bounded(t2),
{
    reveal(field_code);
    match e {
        ExprV::PartMatches(_, p) => {
            lemma_intern_pat(t, p);
            match intern_pat(t, p) {
                Ok((_, i)) => lemma_le16_len(i as int),
                Err(_) => {},
            }
        },
        ExprV::PartInSet(_, vals) => {
            lemma_add_set(t, vals);
            match add_set(t, vals) {
                Ok((_, i)) => lemma_le16_len(i as int),
                Err(_) => {},
            }
        },
        ExprV::PartContains(_, s) | ExprV::PartStartsWith(_, s) | ExprV::PartEndsWith(_, s)
        | ExprV::PartEquals(_, s) | ExprV::PartIEquals(_, s) | ExprV::PartIContains(_, s)
        | ExprV::PartNotEquals(_, s) => {
            lemma_intern_str(t, encode_utf8(s));
            match intern_str(t, encode_utf8(s)) {
                Ok((_, i)) => lemma_le16_len(i as int),
                Err(_) => {},
            }
        },
        _ => {},
    }
}

/// Code size and table growth of a header test.
proof fn lemma_header_facts(e: ExprV, cfg: ConfigV, t: Tables)
    requires
        bounded(t),
        is_header_expr(e),
    ensures
        header_test_code(e, cfg, t) matches Ok((c, t2)) ==> c.len() == code_len(e) && extends(t2, t)
            && bounded(t2),
{
    reveal(header_test_code);
    match e {
        ExprV::HeaderEquals(_, h, v) | ExprV::HeaderIEquals(_, h, v) | ExprV::HeaderContains(_, h, v) => {
            lemma_intern_str(t, encode_utf8(h));
            match intern_str(t, encode_utf8(h)) {
                Ok((t1, hi)) => {
                    lemma_le16_len(hi as int);
                    lemma_intern_str(t1, encode_utf8(v));
                    match intern_str(t1, encode_utf8(v)) {
                        Ok((t2, vi)) => {
                            lemma_le16_len(vi as int);
                            lemma_extends_trans(t2, t1, t);
                        },
                        Err(_) => {},
                    }
                },
                Err(_) => {},
            }
        },
        ExprV::HeaderExists(_, h) => {
            lemma_intern_str(t, encode_utf8(h));
            match intern_str(t, encode_utf8(h)) {
                Ok((_, i)) => lemma_le16_len(i as int),
                Err(_) => {},
            }
        },
        _ => {},
    }
}

/// Compiling gives code of the expression's size and only adds to the tables.
proof fn lemma_gen_facts(e: ExprV, cfg: ConfigV, t: Tables)
    requires
        bounded(t),
    ensures
        gen(e, cfg, t) matches Ok((c, t2)) ==> c.len() == code_len(e) && extends(t2, t) && bounded(t2),
    decreases e,
{
    match e {
        ExprV::And(l, r) | ExprV::Or(l, r) => {
            lemma_gen_facts(*l, cfg, t);
            match gen(*l, cfg, t) {
                Ok((cl, t1)) => {
                    lemma_gen_facts(*r, cfg, t1);
                    match gen(*r, cfg, t1) {
                        Ok((cr, t2)) => {
                            lemma_extends_trans(t2, t1, t);
                            lemma_le16_len(cr.len() + 3int);
                        },
                        Err(_) => {},
                    }
                },
                Err(_) => {},
            }
        },
        ExprV::Not(inner) => {
            lemma_gen_facts(*inner, cfg, t);
        },
        _ => {
            if is_payload_expr(e) {
                lemma_payload_facts(e, t);
            } else if is_header_expr(e) {
                lemma_header_facts(e, cfg, t);
            } else {
                lemma_field_facts(e, cfg, t);
            }
        },
    }
}

/// Program `p` holds code `c` at `pc` with something after it, its tables
/// extend `t`, and it splits records as `cfg` says.
pub open spec fn holds_code(p: Program, cfg: ConfigV, t: Tables, pc: int, c: Seq<u8>) -> bool {
    &&& 0 <= pc
    &&& pc + c.len() < p.code.len()
    &&& p.code.subrange(pc, pc + c.len()) == c
    &&& extends(program_tables(p), t)
    &&& p.delimiter == cfg.delimiter
}

/// The byte at offset `j` of code held at `pc`.
proof fn lemma_code_at(code: Seq<u8>, pc: int, c: Seq<u8>, j: int)
    requires
        0 <= pc,
        pc + c.len() <= code.len(),
        code.subrange(pc, pc + c.len()) == c,
        0 <= j < c.len(),
    ensures
        code[pc + j] == c[j],
{
    assert(code.subrange(pc, pc + c.len())[j] == code[pc + j]);
}

/// A 16-bit operand at offset `at` of code held at `pc` reads back as `v`.
proof fn lemma_operand(code: Seq<u8>, pc: int, c: Seq<u8>, at: int, v: int)
    requires
        0 <= pc,
        pc + c.len() <= code.len(),
        code.subrange(pc, pc + c.len()) == c,
        0 <= at,
        at + 1 < c.len(),
        0 <= v < 65536,
        c[at] == le16(v)[0],
        c[at + 1] == le16(v)[1],
    ensures
        u16_at(code, pc + at) == v,
{
    lemma_le16_decode(v);
    lemma_code_at(code, pc, c, at);
    lemma_code_at(code, pc, c, at + 1);
}

/// A literal or payload-wide test runs to its value.
#[verifier::spinoff_prover]
#[verifier::rlimit(100)]
proof fn lemma_payload_runs(
    e: ExprV,
    cfg: ConfigV,
    t: Tables,
    c: Seq<u8>,
    t2: Tables,
    p: Program,
    data: Seq<u8>,
    tick: spec_fn(nat) -> u64,
    pc: int,
    st: Seq<bool>,
    k: nat,
)
    requires
        bounded(t),
        is_payload_expr(e),
        payload_code(e, t) == Ok::<(Seq<u8>, Tables), CompileErrorV>((c, t2)),
        holds_code(p, cfg, t2, pc, c),
        st.len() < STACK_SIZE,
    ensures
        step(p, data, tick, pc, st, k) == Step::Next(
            pc + c.len(),
            st.push(eval(e, cfg, data, tick, k).0),
            eval(e, cfg, data, tick, k).1,
        ),
{
    reveal(test_value);
    reveal(payload_code);
    lemma_code_at(p.code, pc, c, 0);
    match e {
        ExprV::Rand(n) => {
            lemma_le16_len(n as int);
            lemma_operand(p.code, pc, c, 1, n as int);
        },
        ExprV::Matches(pat) => {
            lemma_intern_pat(t, pat);
            let i = intern_pat(t, pat)->Ok_0.1;
            lemma_le16_len(i as int);
            lemma_operand(p.code, pc, c, 1, i as int);
            assert(p.patterns[i as int] == t2.patterns[i as int]);
        },
        ExprV::Contains(s) | ExprV::StartsWith(s) | ExprV::EndsWith(s) | ExprV::Equals(s) => {
            lemma_intern_str(t, encode_utf8(s));
            let i = intern_str(t, encode_utf8(s))->Ok_0.1;
            lemma_le16_len(i as int);
            lemma_operand(p.code, pc, c, 1, i as int);
            assert(p.strings[i as int] == t2.strings[i as int]);
        },
        _ => {},
    }
}

/// Membership in a set of string indexes is membership among its values.
proof fn lemma_set_member(
    part: Seq<u8>,
    ids: Seq<u16>,
    strings: Seq<Seq<u8>>,
    vals: Seq<Seq<char>>,
    j: int,
)
    requires
        ids.len() == vals.len(),
        0 <= j <= ids.len(),
        forall|m: int|
            0 <= m < ids.len() ==> #[trigger] ids[m] < strings.len() && strings[ids[m] as int]
                == encode_utf8(vals[m]),
    ensures
        set_member(part, ids, strings, j) == Some(
            exists|m: int| j <= m < vals.len() && part == encode_utf8(#[trigger] vals[m]),
        ),
    decreases ids.len() - j,
{
    if j < ids.len() {
        assert(ids[j] < strings.len());
        if part != strings[ids[j] as int] {
            lemma_set_member(part, ids, strings, vals, j + 1);
            assert((exists|m: int| j <= m < vals.len() && part == encode_utf8(#[trigger] vals[m])) == (
            exists|m: int| j + 1 <= m < vals.len() && part == encode_utf8(#[trigger] vals[m])));
        }
    }
}

/// A field test runs to its value.
#[verifier::spinoff_prover]
#[verifier::rlimit(100)]
proof fn lemma_field_runs(
    e: ExprV,
    cfg: ConfigV,
    t: Tables,
    c: Seq<u8>,
    t2: Tables,
    p: Program,
    data: Seq<u8>,
    tick: spec_fn(nat) -> u64,
    pc: int,
    st: Seq<bool>,
    k: nat,
)
    requires
        bounded(t),
        !is_payload_expr(e) && !is_header_expr(e) && !(e is And || e is Or || e is Not),
        field_code(e, cfg, t) == Ok::<(Seq<u8>, Tables), CompileErrorV>((c, t2)),
        holds_code(p, cfg, t2, pc, c),
        st.len() < STACK_SIZE,
    ensures
        run(p, data, tick, pc, st, k) == run(
            p,
            data,
            tick,
            pc + c.len(),
            st.push(eval(e, cfg, data, tick, k).0),
            eval(e, cfg, data, tick, k).1,
        ),
{
    reveal(test_value);
    reveal(field_code);
    lemma_code_at(p.code, pc, c, 0);
    let b = eval(e, cfg, data, tick, k).0;
    match e {
        ExprV::PartContains(f, s) | ExprV::PartStartsWith(f, s) | ExprV::PartEndsWith(f, s)
        | ExprV::PartEquals(f, s) | ExprV::PartIEquals(f, s) | ExprV::PartIContains(f, s) => {
            lemma_intern_str(t, encode_utf8(s));
            let i = intern_str(t, encode_utf8(s))->Ok_0.1;
            lemma_le16_len(i as int);
            lemma_code_at(p.code, pc, c, 1);
            lemma_operand(p.code, pc, c, 2, i as int);
            assert(p.strings[i as int] == t2.strings[i as int]);
            assert(step(p, data, tick, pc, st, k) == Step::Next(pc + c.len(), st.push(b), k));
            lemma_run_unfold(p, data, tick, pc, st, k, pc + c.len(), st.push(b), k);
        },
        ExprV::PartNotEquals(f, s) => {
            lemma_intern_str(t, encode_utf8(s));
            let i = intern_str(t, encode_utf8(s))->Ok_0.1;
            lemma_le16_len(i as int);
            lemma_code_at(p.code, pc, c, 1);
            lemma_code_at(p.code, pc, c, 4);
            lemma_operand(p.code, pc, c, 2, i as int);
            assert(p.strings[i as int] == t2.strings[i as int]);
            let eq = !b;
            assert(step(p, data, tick, pc, st, k) == Step::Next(pc + 4, st.push(eq), k));
            lemma_run_unfold(p, data, tick, pc, st, k, pc + 4, st.push(eq), k);
            assert(st.push(eq).take(st.len() as int) =~= st);
            assert(step(p, data, tick, pc + 4, st.push(eq), k) == Step::Next(pc + 5, st.push(b), k));
            lemma_run_unfold(p, data, tick, pc + 4, st.push(eq), k, pc + 5, st.push(b), k);
        },
        ExprV::PartMatches(f, pat) => {
            lemma_intern_pat(t, pat);
            let i = intern_pat(t, pat)->Ok_0.1;
            lemma_le16_len(i as int);
            lemma_code_at(p.code, pc, c, 1);
            lemma_operand(p.code, pc, c, 2, i as int);
            assert(p.patterns[i as int] == t2.patterns[i as int]);
            assert(step(p, data, tick, pc, st, k) == Step::Next(pc + c.len(), st.push(b), k));
            lemma_run_unfold(p, data, tick, pc, st, k, pc + c.len(), st.push(b), k);
        },
        ExprV::PartInSet(f, vals) => {
            lemma_add_set(t, vals);
            let i = add_set(t, vals)->Ok_0.1;
            lemma_le16_len(i as int);
            lemma_code_at(p.code, pc, c, 1);
            lemma_operand(p.code, pc, c, 2, i as int);
            let ids = t2.sets[i as int];
            assert(p.sets[i as int] == ids);
            assert forall|m: int| 0 <= m < ids.len() implies #[trigger] ids[m] < p.strings.len()
                && p.strings[ids[m] as int] == encode_utf8(vals[m]) by {
                assert(t2.sets[i as int][m] < t2.strings.len());
                assert(p.strings[ids[m] as int] == t2.strings[ids[m] as int]);
            }
            lemma_set_member(part_text(cfg, data, f), ids, p.strings, vals, 0);
            assert(step(p, data, tick, pc, st, k) == Step::Next(pc + c.len(), st.push(b), k));
            lemma_run_unfold(p, data, tick, pc, st, k, pc + c.len(), st.push(b), k);
        },
        ExprV::PartIsEmpty(f) | ExprV::PartNotEmpty(f) => {
            lemma_code_at(p.code, pc, c, 1);
            assert(step(p, data, tick, pc, st, k) == Step::Next(pc + c.len(), st.push(b), k));
            lemma_run_unfold(p, data, tick, pc, st, k, pc + c.len(), st.push(b), k);
        },
        _ => {},
    }
}

/// A header test runs to its value.
#[verifier::spinoff_prover]
#[verifier::rlimit(100)]
proof fn lemma_header_runs(
    e: ExprV,
    cfg: ConfigV,
    t: Tables,
    c: Seq<u8>,
    t2: Tables,
    p: Program,
    data: Seq<u8>,
    tick: spec_fn(nat) -> u64,
    pc: int,
    st: Seq<bool>,
    k: nat,
)
    requires
        bounded(t),
        is_header_expr(e),
        header_test_code(e, cfg, t) == Ok::<(Seq<u8>, Tables), CompileErrorV>((c, t2)),
        holds_code(p, cfg, t2, pc, c),
        st.len() < STACK_SIZE,
    ensures
        step(p, data, tick, pc, st, k) == Step::Next(
            pc + c.len(),
            st.push(eval(e, cfg, data, tick, k).0),
            eval(e, cfg, data, tick, k).1,
        ),
{
    reveal(test_value);
    reveal(header_test_code);
    lemma_code_at(p.code, pc, c, 0);
    lemma_code_at(p.code, pc, c, 1);
    match e {
        ExprV::HeaderEquals(f, h, v) | ExprV::HeaderIEquals(f, h, v) | ExprV::HeaderContains(f, h, v) => {
            lemma_intern_str(t, encode_utf8(h));
            let (t1, hi) = intern_str(t, encode_utf8(h))->Ok_0;
            lemma_intern_str(t1, encode_utf8(v));
            let vi = intern_str(t1, encode_utf8(v))->Ok_0.1;
            lemma_le16_len(hi as int);
            lemma_le16_len(vi as int);
            lemma_operand(p.code, pc, c, 2, hi as int);
            lemma_operand(p.code, pc, c, 4, vi as int);
            assert(t2.strings[hi as int] == t1.strings[hi as int]);
            assert(p.strings[hi as int] == t2.strings[hi as int]);
            assert(p.strings[vi as int] == t2.strings[vi as int]);
        },
        ExprV::HeaderExists(f, h) => {
            lemma_intern_str(t, encode_utf8(h));
            let hi = intern_str(t, encode_utf8(h))->Ok_0.1;
            lemma_le16_len(hi as int);
            lemma_operand(p.code, pc, c, 2, hi as int);
            assert(p.strings[hi as int] == t2.strings[hi as int]);
        },
        _ => {},
    }
}

/// A short-circuit jump, between its operands' code, runs to the value of
/// `AND` or `OR`.
#[verifier::spinoff_prover]
proof fn lemma_jump_runs(
    e: ExprV,
    cfg: ConfigV,
    c: Seq<u8>,
    cl: Seq<u8>,
    cr: Seq<u8>,
    op: u8,
    p: Program,
    data: Seq<u8>,
    tick: spec_fn(nat) -> u64,
    pc: int,
    st: Seq<bool>,
    k: nat,
)
    requires
        e is And || e is Or,
        op == (if e is And {
            0x70u8
        } else {
            0x71u8
        }),
        c == cl + jump_over(op, cr),
        cr.len() + 3 <= 32767,
        0 <= pc,
        pc + c.len() < p.code.len(),
        p.code.subrange(pc, pc + c.len()) == c,
        st.len() < STACK_SIZE,
        ({
            let (l, r) = match e {
                ExprV::And(l, r) => (*l, *r),
                ExprV::Or(l, r) => (*l, *r),
                _ => (e, e),
            };
            let (a, k1) = eval(l, cfg, data, tick, k);
            &&& run(p, data, tick, pc, st, k) == run(p, data, tick, pc + cl.len(), st.push(a), k1)
            &&& run(p, data, tick, pc + cl.len() + 3, st, k1) == run(
                p,
                data,
                tick,
                pc + cl.len() + 3 + cr.len(),
                st.push(eval(r, cfg, data, tick, k1).0),
                eval(r, cfg, data, tick, k1).1,
            )
        }),
    ensures
        run(p, data, tick, pc, st, k) == run(
            p,
            data,
            tick,
            pc + c.len(),
            st.push(eval(e, cfg, data, tick, k).0),
            eval(e, cfg, data, tick, k).1,
        ),
{
    let (l, r) = match e {
        ExprV::And(l, r) => (*l, *r),
        ExprV::Or(l, r) => (*l, *r),
        _ => (e, e),
    };
    let (a, k1) = eval(l, cfg, data, tick, k);
    let pos = pc + cl.len();
    lemma_le16_len(cr.len() + 3int);
    lemma_code_at(p.code, pc, c, cl.len() as int);
    lemma_operand(p.code, pc, c, cl.len() + 1int, cr.len() + 3int);
    assert(i16_at(p.code, pos + 1) == cr.len() + 3);
    assert(st.push(a).take(st.len() as int) =~= st);
    if a == (op == 0x71) {
        assert(step(p, data, tick, pos, st.push(a), k1) == Step::Next(pc + c.len(), st.push(a), k1));
        lemma_run_unfold(p, data, tick, pos, st.push(a), k1, pc + c.len(), st.push(a), k1);
    } else {
        assert(step(p, data, tick, pos, st.push(a), k1) == Step::Next(pos + 3, st, k1));
        lemma_run_unfold(p, data, tick, pos, st.push(a), k1, pos + 3, st, k1);
    }
}

/// A `NOT` instruction replaces the top of the stack by its negation.
proof fn lemma_not_step(
    p: Program,
    data: Seq<u8>,
    tick: spec_fn(nat) -> u64,
    pc: int,
    st: Seq<bool>,
    a: bool,
    k: nat,
)
    requires
        0 <= pc,
        pc + 1 < p.code.len(),
        p.code[pc] == 0x32,
    ensures
        run(p, data, tick, pc, st.push(a), k) == run(p, data, tick, pc + 1, st.push(!a), k),
{
    assert(st.push(a).take(st.len() as int) =~= st);
    assert(step(p, data, tick, pc, st.push(a), k) == Step::Next(pc + 1, st.push(!a), k));
    lemma_run_unfold(p, data, tick, pc, st.push(a), k, pc + 1, st.push(!a), k);
}

/// The code of `e`, held at `pc`, runs to `e`'s value pushed on the stack,
/// using the draws `e` uses.
#[verifier::spinoff_prover]
proof fn lemma_gen_runs(
    e: ExprV,
    cfg: ConfigV,
    t: Tables,
    c: Seq<u8>,
    t2: Tables,
    p: Program,
    data: Seq<u8>,
    tick: spec_fn(nat) -> u64,
    pc: int,
    st: Seq<bool>,
    k: nat,
)
    requires
        bounded(t),
        jumps_fit(e),
        gen(e, cfg, t) == Ok::<(Seq<u8>, Tables), CompileErrorV>((c, t2)),
        holds_code(p, cfg, t2, pc, c),
        st.len() < STACK_SIZE,
    ensures
        run(p, data, tick, pc, st, k) == run(
            p,
            data,
            tick,
            pc + c.len(),
            st.push(eval(e, cfg, data, tick, k).0),
            eval(e, cfg, data, tick, k).1,
        ),
    decreases e,
{
    match e {
        ExprV::And(l, r) | ExprV::Or(l, r) => {
            let op: u8 = if e is And {
                0x70
            } else {
                0x71
            };
            lemma_gen_facts(*l, cfg, t);
            let (cl, t1) = gen(*l, cfg, t)->Ok_0;
            lemma_gen_facts(*r, cfg, t1);
            let cr = gen(*r, cfg, t1)->Ok_0.0;
            assert(c == cl + jump_over(op, cr));
            lemma_le16_len(cr.len() + 3int);
            lemma_extends_trans(program_tables(p), t2, t1);
            let pos = pc + cl.len();
            assert(jump_over(op, cr).len() == cr.len() + 3);
            assert(c.len() == cl.len() + 3 + cr.len());
            assert(p.code.subrange(pc, pos) =~= cl);
            assert forall|j: int| 0 <= j < cr.len() implies #[trigger] p.code.subrange(
                pos + 3,
                pos + 3 + cr.len(),
            )[j] == cr[j] by {
                lemma_code_at(p.code, pc, c, cl.len() + 3 + j);
                assert(c[cl.len() + 3 + j] == jump_over(op, cr)[3 + j]);
            }
            assert(p.code.subrange(pos + 3, pos + 3 + cr.len()) =~= cr);
            let k1 = eval(*l, cfg, data, tick, k).1;
            lemma_gen_runs(*l, cfg, t, cl, t1, p, data, tick, pc, st, k);
            lemma_gen_runs(*r, cfg, t1, cr, t2, p, data, tick, pos + 3, st, k1);
            lemma_jump_runs(e, cfg, c, cl, cr, op, p, data, tick, pc, st, k);
        },
        ExprV::Not(inner) => {
            lemma_gen_facts(*inner, cfg, t);
            let ci = gen(*inner, cfg, t)->Ok_0.0;
            assert(c == ci.push(0x32));
            assert(p.code.subrange(pc, pc + ci.len()) =~= ci);
            lemma_gen_runs(*inner, cfg, t, ci, t2, p, data, tick, pc, st, k);
            let (a, k1) = eval(*inner, cfg, data, tick, k);
            lemma_code_at(p.code, pc, c, ci.len() as int);
            lemma_not_step(p, data, tick, pc + ci.len(), st, a, k1);
        },
        _ => {
            let (b, k2) = eval(e, cfg, data, tick, k);
            if is_payload_expr(e) {
                lemma_payload_runs(e, cfg, t, c, t2, p, data, tick, pc, st, k);
                lemma_payload_facts(e, t);
                lemma_run_unfold(p, data, tick, pc, st, k, pc + c.len(), st.push(b), k2);
            } else if is_header_expr(e) {
                lemma_header_runs(e, cfg, t, c, t2, p, data, tick, pc, st, k);
                lemma_header_facts(e, cfg, t);
                lemma_run_unfold(p, data, tick, pc, st, k, pc + c.len(), st.push(b), k2);
            } else {
                lemma_field_runs(e, cfg, t, c, t2, p, data, tick, pc, st, k);
            }
        },
    }
}

/// A compiled filter means what its expression means: on every record,
/// and whatever values the random draws observe, running the compiled
/// program gives the expression's truth value and uses the same draws.
/// This holds whenever every short-circuit jump fits its 16-bit operand.
pub proof fn lemma_compiled_program_evaluates(
    e: ExprV,
    cfg: ConfigV,
    data: Seq<u8>,
    tick: spec_fn(nat) -> u64,
)
    requires
        compiled_program(e, cfg) is Ok,
        jumps_fit(e),
    ensures
        execute(compiled_program(e, cfg)->Ok_0, data, tick) == eval(e, cfg, data, tick, 0),
{
    let p = compiled_program(e, cfg)->Ok_0;
    let (c, t2) = gen(e, cfg, empty_tables())->Ok_0;
    assert(p.code.subrange(0, c.len() as int) =~= c);
    assert(program_tables(p) == t2);
    let (b, k2) = eval(e, cfg, data, tick, 0);
    lemma_gen_runs(e, cfg, empty_tables(), c, t2, p, data, tick, 0, Seq::empty(), 0);
    assert(Seq::<bool>::empty().push(b)[0] == b);
    assert(step(p, data, tick, c.len() as int, Seq::<bool>::empty().push(b), k2) == Step::Return(b));
    reveal(run);
}

/// Layout of the compiled boolean operators. `l AND r` is the code of `l`, a
/// `JumpIfFalse` whose little-endian operand is the distance to the end of
/// `r` (three bytes of jump plus the code of `r`), then the code of `r`;
/// `l OR r` is the same with `JumpIfTrue`. `NOT x` is the code of `x`
/// followed by `Not`, and `f != s` the code of `f == s` followed by `Not`.
pub proof fn lemma_code_layout(
    l: ExprV,
    r: ExprV,
    f: Seq<char>,
    s: Seq<char>,
    cfg: ConfigV,
    t: Tables,
)
    ensures
        ({
            let gl = gen(l, cfg, t);
            let gr = gen(r, cfg, gl->Ok_0.1);
            let cl = gl->Ok_0.0;
            let cr = gr->Ok_0.0;
            gl is Ok && gr is Ok ==> {
                &&& gen(ExprV::And(Box::new(l), Box::new(r)), cfg, t) == Ok::<(Seq<u8>, Tables), CompileErrorV>(
                    (cl + seq![0x70u8] + le16(cr.len() + 3int) + cr, gr->Ok_0.1),
                )
                &&& gen(ExprV::Or(Box::new(l), Box::new(r)), cfg, t) == Ok::<(Seq<u8>, Tables), CompileErrorV>(
                    (cl + seq![0x71u8] + le16(cr.len() + 3int) + cr, gr->Ok_0.1),
                )
                &&& le16(cr.len() + 3int).len() == 2
                &&& cr.len() + 3 < 65536 ==> le16(cr.len() + 3int)[0] + 256 * le16(cr.len() + 3int)[1]
                    == cr.len() + 3
            }
        }),
        gen(l, cfg, t) is Ok ==> gen(ExprV::Not(Box::new(l)), cfg, t) == Ok::<(Seq<u8>, Tables), CompileErrorV>(
            (gen(l, cfg, t)->Ok_0.0.push(0x32), gen(l, cfg, t)->Ok_0.1),
        ),
        gen(ExprV::PartEquals(f, s), cfg, t) is Ok ==> gen(ExprV::PartNotEquals(f, s), cfg, t) == Ok::<
            (Seq<u8>, Tables),
            CompileErrorV,
        >(
            (
                gen(ExprV::PartEquals(f, s), cfg, t)->Ok_0.0.push(0x32),
                gen(ExprV::PartEquals(f, s), cfg, t)->Ok_0.1,
            ),
        ),
{
    reveal(field_code);
    let gl = gen(l, cfg, t);
    if gl is Ok {
        let gr = gen(r, cfg, gl->Ok_0.1);
        if gr is Ok {
            let cl = gl->Ok_0.0;
            let cr = gr->Ok_0.0;
            lemma_le16_len(cr.len() + 3int);
            assert(cl + jump_over(0x70, cr) =~= cl + seq![0x70u8] + le16(cr.len() + 3int) + cr);
            assert(cl + jump_over(0x71, cr) =~= cl + seq![0x71u8] + le16(cr.len() + 3int) + cr);
            if cr.len() + 3 < 65536 {
                lemma_le16_decode(cr.len() + 3int);
            }
        }
    }
}

/// Whether `e` holds no `rand`.
pub open spec fn draw_free(e: ExprV) -> bool
    decreases e,
{
    match e {
        ExprV::Rand(_) => false,
        ExprV::And(l, r) | ExprV::Or(l, r) => draw_free(*l) && draw_free(*r),
        ExprV::Not(inner) => draw_free(*inner),
        _ => true,
    }
}

/// An expression without `rand` makes no draw, and its value does not
/// depend on the values draws would observe.
pub proof fn lemma_draw_free_eval(
    e: ExprV,
    cfg: ConfigV,
    data: Seq<u8>,
    f: spec_fn(nat) -> u64,
    g: spec_fn(nat) -> u64,
    k: nat,
    j: nat,
)
    requires
        draw_free(e),
    ensures
        eval(e, cfg, data, f, k).1 == k,
        eval(e, cfg, data, f, k).0 == eval(e, cfg, data, g, j).0,
    decreases e,
{
    match e {
        ExprV::And(l, r) | ExprV::Or(l, r) => {
            lemma_draw_free_eval(*l, cfg, data, f, g, k, j);
            lemma_draw_free_eval(*l, cfg, data, g, f, j, k);
            lemma_draw_free_eval(*r, cfg, data, f, g, k, j);
        },
        ExprV::Not(inner) => {
            lemma_draw_free_eval(*inner, cfg, data, f, g, k, j);
        },
        _ => {},
    }
}

/// A compiled filter without `rand` never advances the random counter: its
/// run makes no draw.
pub proof fn lemma_draw_free_filter_makes_no_draw(
    e: ExprV,
    cfg: ConfigV,
    data: Seq<u8>,
    tick: spec_fn(nat) -> u64,
)
    requires
        compiled_program(e, cfg) is Ok,
        jumps_fit(e),
        draw_free(e),
    ensures
        execute(compiled_program(e, cfg)->Ok_0, data, tick).1 == 0,
{
    lemma_compiled_program_evaluates(e, cfg, data, tick);
    lemma_draw_free_eval(e, cfg, data, tick, tick, 0, 0);
}

/// Boolean operators compose filters: for expressions without `rand`, the
/// compiled `l AND r`, `l OR r` and `NOT l` answer, on every record, the
/// conjunction, disjunction and negation of what the compiled `l` and `r`
/// answer.
pub proof fn lemma_filters_compose(
    l: ExprV,
    r: ExprV,
    cfg: ConfigV,
    data: Seq<u8>,
    tick: spec_fn(nat) -> u64,
)
    requires
        draw_free(l),
        draw_free(r),
        compiled_program(l, cfg) is Ok,
        compiled_program(r, cfg) is Ok,
        compiled_program(ExprV::And(Box::new(l), Box::new(r)), cfg) is Ok,
        compiled_program(ExprV::Or(Box::new(l), Box::new(r)), cfg) is Ok,
        compiled_program(ExprV::Not(Box::new(l)), cfg) is Ok,
        jumps_fit(ExprV::And(Box::new(l), Box::new(r))),
        jumps_fit(ExprV::Or(Box::new(l), Box::new(r))),
    ensures
        ({
            let a = execute(compiled_program(l, cfg)->Ok_0, data, tick).0;
            let b = execute(compiled_program(r, cfg)->Ok_0, data, tick).0;
            &&& execute(compiled_program(ExprV::And(Box::new(l), Box::new(r)), cfg)->Ok_0, data, tick)
                == (a && b, 0nat)
            &&& execute(compiled_program(ExprV::Or(Box::new(l), Box::new(r)), cfg)->Ok_0, data, tick)
                == (a || b, 0nat)
            &&& execute(compiled_program(ExprV::Not(Box::new(l)), cfg)->Ok_0, data, tick) == (
                !a,
                0nat,
            )
        }),
{
    let and_e = ExprV::And(Box::new(l), Box::new(r));
    let or_e = ExprV::Or(Box::new(l), Box::new(r));
    let not_e = ExprV::Not(Box::new(l));
    lemma_compiled_program_evaluates(l, cfg, data, tick);
    lemma_compiled_program_evaluates(r, cfg, data, tick);
    lemma_compiled_program_evaluates(and_e, cfg, data, tick);
    lemma_compiled_program_evaluates(or_e, cfg, data, tick);
    lemma_compiled_program_evaluates(not_e, cfg, data, tick);
    lemma_draw_free_eval(l, cfg, data, tick, tick, 0, 0);
    lemma_draw_free_eval(r, cfg, data, tick, tick, 0, 0);
}

/// The number of `rand(n)` nodes with `n >= 2` that short-circuit
/// evaluation of `e` reaches, draws starting at `k`.
pub open spec fn reached_rands(e: ExprV, cfg: ConfigV, data: Seq<u8>, tick: spec_fn(nat) -> u64, k: nat) -> nat
    decreases e,
{
    match e {
        ExprV::Rand(n) => if n <= 1 {
            0
        } else {
            1
        },
        ExprV::And(l, r) => {
            let a = eval(*l, cfg, data, tick, k).0;
            let dl = reached_rands(*l, cfg, data, tick, k);
            if a {
                dl + reached_rands(*r, cfg, data, tick, k + dl)
            } else {
                dl
            }
        },
        ExprV::Or(l, r) => {
            let a = eval(*l, cfg, data, tick, k).0;
            let dl = reached_rands(*l, cfg, data, tick, k);
            if a {
                dl
            } else {
                dl + reached_rands(*r, cfg, data, tick, k + dl)
            }
        },
        ExprV::Not(inner) => reached_rands(*inner, cfg, data, tick, k),
        _ => 0,
    }
}

/// Evaluation draws once for every `rand(n)` with `n >= 2` that it reaches.
pub proof fn lemma_eval_draws_reached_rands(
    e: ExprV,
    cfg: ConfigV,
    data: Seq<u8>,
    tick: spec_fn(nat) -> u64,
    k: nat,
)
    ensures
        eval(e, cfg, data, tick, k).1 == k + reached_rands(e, cfg, data, tick, k),
    decreases e,
{
    match e {
        ExprV::And(l, r) | ExprV::Or(l, r) => {
            lemma_eval_draws_reached_rands(*l, cfg, data, tick, k);
            let k1 = eval(*l, cfg, data, tick, k).1;
            lemma_eval_draws_reached_rands(*r, cfg, data, tick, k1);
        },
        ExprV::Not(inner) => {
            lemma_eval_draws_reached_rands(*inner, cfg, data, tick, k);
        },
        _ => {},
    }
}

/// A compiled filter's run advances the random counter once for every
/// `rand(n)` with `n >= 2` that short-circuit evaluation reaches.
pub proof fn lemma_filter_draws_reached_rands(
    e: ExprV,
    cfg: ConfigV,
    data: Seq<u8>,
    tick: spec_fn(nat) -> u64,
)
    requires
        compiled_program(e, cfg) is Ok,
        jumps_fit(e),
    ensures
        execute(compiled_program(e, cfg)->Ok_0, data, tick).1 == reached_rands(e, cfg, data, tick, 0),
{
    lemma_compiled_program_evaluates(e, cfg, data, tick);
    lemma_eval_draws_reached_rands(e, cfg, data, tick, 0);
}

/// `AND` short-circuits: when its left operand is false, the compiled filter
/// answers false and makes no draw beyond those of the left operand, so the
/// right operand is never run.
pub proof fn lemma_and_short_circuits(
    l: ExprV,
    r: ExprV,
    cfg: ConfigV,
    data: Seq<u8>,
    tick: spec_fn(nat) -> u64,
)
    requires
        compiled_program(ExprV::And(Box::new(l), Box::new(r)), cfg) is Ok,
        jumps_fit(ExprV::And(Box::new(l), Box::new(r))),
        !eval(l, cfg, data, tick, 0).0,
    ensures
        execute(compiled_program(ExprV::And(Box::new(l), Box::new(r)), cfg)->Ok_0, data, tick) == (
            false,
            eval(l, cfg, data, tick, 0).1,
        ),
{
    lemma_compiled_program_evaluates(ExprV::And(Box::new(l), Box::new(r)), cfg, data, tick);
}

/// `OR` short-circuits: when its left operand is true, the compiled filter
/// answers true and makes no draw beyond those of the left operand.
pub proof fn lemma_or_short_circuits(
    l: ExprV,
    r: ExprV,
    cfg: ConfigV,
    data: Seq<u8>,
    tick: spec_fn(nat) -> u64,
)
    requires
        compiled_program(ExprV::Or(Box::new(l), Box::new(r)), cfg) is Ok,
        jumps_fit(ExprV::Or(Box::new(l), Box::new(r))),
        eval(l, cfg, data, tick, 0).0,
    ensures
        execute(compiled_program(ExprV::Or(Box::new(l), Box::new(r)), cfg)->Ok_0, data, tick) == (
            true,
            eval(l, cfg, data, tick, 0).1,
        ),
{
    lemma_compiled_program_evaluates(ExprV::Or(Box::new(l), Box::new(r)), cfg, data, tick);
}

} // verus!
