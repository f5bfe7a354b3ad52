//! Loading filters from text that may carry configuration directives.
//!
//! A filter text holds comments (lines starting with `#`), directives
//! (`@delimiter = ";;;"`, `@field NAME = index`) that adjust the parser
//! configuration, and the filter expression, which may span several lines
//! and carry inline `#` comments.

use vstd::prelude::*;
use vstd::string::StringExecFns;
use vstd::utf8::encode_utf8;

use crate::compiler::{compile, compile_outcome, CompileError, CompileErrorV};
use crate::vm::CompiledFilter;
use crate::lexer::{chars_of, digits_value, is_ascii_digit, is_digit, is_whitespace, is_ws, string_of};
use crate::parser::{insert_field, ConfigV, ParserConfig};

verus! {

/// The pieces of `s` between newlines (`str::lines` once each line is
/// trimmed: a final newline only adds an empty piece).
pub open spec fn split_lines(s: Seq<char>) -> Seq<Seq<char>>
    decreases s.len(),
{
    if s.len() == 0 {
        seq![Seq::empty()]
    } else {
        let p = split_lines(s.drop_last());
        if s.last() == '\n' {
            p.push(Seq::empty())
        } else {
            p.update(p.len() - 1, p.last().push(s.last()))
        }
    }
}

/// `s` without leading whitespace.
pub open spec fn trim_start(s: Seq<char>) -> Seq<char>
    decreases s.len(),
{
    if s.len() > 0 && is_ws(s[0]) {
        trim_start(s.drop_first())
    } else {
        s
    }
}

/// `s` without trailing whitespace.
pub open spec fn trim_end(s: Seq<char>) -> Seq<char>
    decreases s.len(),
{
    if s.len() > 0 && is_ws(s.last()) {
        trim_end(s.drop_last())
    } else {
        s
    }
}

/// `s` without leading or trailing whitespace.
pub open spec fn trim(s: Seq<char>) -> Seq<char> {
    trim_end(trim_start(s))
}

/// Index of the `#` that starts an inline comment at or after `i`: one
/// outside quotes and not escaped by a backslash. `quote` is the open quote,
/// `escaped` whether the previous character was a backslash.
pub open spec fn comment_pos(s: Seq<char>, i: int, quote: Option<char>, escaped: bool) -> Option<int>
    decreases s.len() - i,
{
    if i < 0 || i >= s.len() {
        None
    } else if escaped {
        comment_pos(s, i + 1, quote, false)
    } else if s[i] == '\\' {
        comment_pos(s, i + 1, quote, true)
    } else {
        match quote {
            Some(q) => comment_pos(s, i + 1, if s[i] == q {
                None
            } else {
                quote
            }, false),
            None => if s[i] == '"' || s[i] == '\'' {
                comment_pos(s, i + 1, Some(s[i]), false)
            } else if s[i] == '#' {
                Some(i)
            } else {
                comment_pos(s, i + 1, None, false)
            },
        }
    }
}

/// An expression line without its inline comment, trailing whitespace
/// trimmed when a comment was cut off.
pub open spec fn strip_comment(line: Seq<char>) -> Seq<char> {
    match comment_pos(line, 0, None, false) {
        Some(i) => trim_end(line.take(i)),
        None => line,
    }
}

/// `s` without its leading `c` characters.
pub open spec fn strip_leading(s: Seq<char>, c: char) -> Seq<char>
    decreases s.len(),
{
    if s.len() > 0 && s[0] == c {
        strip_leading(s.drop_first(), c)
    } else {
        s
    }
}

/// `s` without its trailing `c` characters.
pub open spec fn strip_trailing(s: Seq<char>, c: char) -> Seq<char>
    decreases s.len(),
{
    if s.len() > 0 && s.last() == c {
        strip_trailing(s.drop_last(), c)
    } else {
        s
    }
}

/// `s` without `c` at either end (`str::trim_matches`).
pub open spec fn trim_char(s: Seq<char>, c: char) -> Seq<char> {
    strip_trailing(strip_leading(s, c), c)
}

/// `s` without its leading repetitions of `p` (`str::trim_start_matches`).
pub open spec fn strip_prefixes(s: Seq<char>, p: Seq<char>) -> Seq<char>
    decreases s.len(),
{
    if p.len() > 0 && p.len() <= s.len() && s.take(p.len() as int) == p {
        strip_prefixes(s.skip(p.len() as int), p)
    } else {
        s
    }
}

/// Whether `s` begins with `p`.
pub open spec fn starts_with(s: Seq<char>, p: Seq<char>) -> bool {
    p.len() <= s.len() && s.take(p.len() as int) == p
}

/// `s` with each backslash followed by `e` replaced by `r`, left to right.
pub open spec fn replace_escape(s: Seq<char>, e: char, r: char) -> Seq<char>
    decreases s.len(),
{
    if s.len() >= 2 && s[0] == '\\' && s[1] == e {
        seq![r] + replace_escape(s.skip(2), e, r)
    } else if s.len() > 0 {
        seq![s[0]] + replace_escape(s.drop_first(), e, r)
    } else {
        s
    }
}

/// The first index of `c` in `s`.
pub open spec fn find_char(s: Seq<char>, c: char, i: int) -> Option<int>
    decreases s.len() - i,
{
    if i < 0 || i >= s.len() {
        None
    } else if s[i] == c {
        Some(i)
    } else {
        find_char(s, c, i + 1)
    }
}

/// A number's text without its optional leading `+`.
pub open spec fn unsigned_digits(s: Seq<char>) -> Seq<char> {
    if s.len() > 0 && s[0] == '+' {
        s.drop_first()
    } else {
        s
    }
}

/// Every character of `d` is a decimal digit.
pub open spec fn all_digits(d: Seq<char>) -> bool {
    forall|i: int| 0 <= i < d.len() ==> is_digit(#[trigger] d[i])
}

/// The value of a decimal `u8` with an optional leading `+`
/// (`str::parse::<u8>`).
pub open spec fn parse_u8(s: Seq<char>) -> Option<u8> {
    let d = unsigned_digits(s);
    if d.len() == 0 || !all_digits(d) {
        None
    } else if digits_value(d) > 255 {
        None
    } else {
        Some(digits_value(d) as u8)
    }
}

/// The decimal digit character for `d` (below ten).
pub open spec fn digit_char(d: nat) -> char {
    seq!['0', '1', '2', '3', '4', '5', '6', '7', '8', '9'][d as int]
}

/// The decimal text of `n`, without leading zeros.
pub open spec fn decimal(n: nat) -> Seq<char>
    decreases n,
{
    if n < 10 {
        seq![digit_char(n)]
    } else {
        decimal(n / 10).push(digit_char(n % 10))
    }
}

/// The decimal text of `n` is digits whose value is `n`, and starts with a
/// digit.
pub proof fn lemma_decimal(n: nat)
    ensures
        decimal(n).len() > 0,
        all_digits(decimal(n)),
        digits_value(decimal(n)) == n,
        is_digit(decimal(n)[0]),
    decreases n,
{
    let ds = seq!['0', '1', '2', '3', '4', '5', '6', '7', '8', '9'];
    assert forall|d: int| 0 <= d < 10 implies is_digit(#[trigger] ds[d]) && (ds[d] as u32) - ('0' as u32) == d by {
        assert(ds[0] == '0' && ds[1] == '1' && ds[2] == '2' && ds[3] == '3' && ds[4] == '4');
        assert(ds[5] == '5' && ds[6] == '6' && ds[7] == '7' && ds[8] == '8' && ds[9] == '9');
    }
    if n < 10 {
        let t = decimal(n);
        assert(t.drop_last() =~= Seq::<char>::empty());
        assert(digits_value(t.drop_last()) == 0);
        assert(t.last() == ds[n as int]);
        assert((ds[n as int] as u32) - ('0' as u32) == n);
        assert(digits_value(t) == n);
    } else {
        lemma_decimal(n / 10);
        let t = decimal(n);
        let d = (n % 10) as nat;
        assert(t.drop_last() =~= decimal(n / 10));
        assert(t.last() == ds[d as int]);
        assert((ds[d as int] as u32) - ('0' as u32) == d);
        assert(digits_value(t) == digits_value(decimal(n / 10)) * 10 + d);
        assert(n == (n / 10) * 10 + d);
        assert forall|i: int| 0 <= i < t.len() implies is_digit(#[trigger] t[i]) by {
            if i < t.len() - 1 {
                assert(t[i] == decimal(n / 10)[i]);
            }
        }
        assert(t[0] == decimal(n / 10)[0]);
    }
}

/// A field index is read as written: the decimal text of every `n` from 0
/// to 255 parses to `n`.
pub proof fn lemma_parse_u8_decimal(n: u8)
    ensures
        parse_u8(decimal(n as nat)) == Some(n),
{
    lemma_decimal(n as nat);
    let t = decimal(n as nat);
    assert(t[0] != '+');
    assert(unsigned_digits(t) == t);
}

/// Text with no whitespace at its ends trims to itself.
proof fn lemma_trim_clean(s: Seq<char>)
    requires
        s.len() > 0,
        !is_ws(s[0]),
        !is_ws(s.last()),
    ensures
        trim(s) == s,
{
}

/// A space in front of clean text trims away.
proof fn lemma_trim_space_before(s: Seq<char>)
    requires
        s.len() > 0,
        !is_ws(s[0]),
        !is_ws(s.last()),
    ensures
        trim(seq![' '] + s) == s,
{
    let t = seq![' '] + s;
    assert(is_ws(' '));
    assert(t.drop_first() =~= s);
    assert(trim_start(t) == trim_start(s));
}

/// A space after clean text trims away.
proof fn lemma_trim_space_after(s: Seq<char>)
    requires
        s.len() > 0,
        !is_ws(s[0]),
        !is_ws(s.last()),
    ensures
        trim(s + seq![' ']) == s,
{
    let t = s + seq![' '];
    assert(t[0] == s[0]);
    assert(trim_start(t) == t);
    assert(is_ws(' '));
    assert(t.drop_last() =~= s);
    assert(trim_end(t) == trim_end(s));
}

/// `find_char` finds the first occurrence.
proof fn lemma_find_char_first(s: Seq<char>, c: char, i: int, k: int)
    requires
        0 <= i <= k < s.len(),
        s[k] == c,
        forall|j: int| i <= j < k ==> s[j] != c,
    ensures
        find_char(s, c, i) == Some(k),
    decreases k - i,
{
    if i < k {
        lemma_find_char_first(s, c, i + 1, k);
    }
}

/// The directive line `@field X = n`.
pub open spec fn field_directive(x: Seq<char>, n: nat) -> Seq<char> {
    seq!['@', 'f', 'i', 'e', 'l', 'd', ' '] + x + seq![' ', '=', ' '] + decimal(n)
}

/// A field directive maps the field to its index: for every name `X`
/// without whitespace or `=`, and every `n` from 0 to 255, the line
/// `@field X = n` adds the mapping of `X` to `n` to the configuration and
/// changes nothing else.
pub proof fn lemma_field_directive(x: Seq<char>, n: u8, cfg: ConfigV)
    requires
        x.len() > 0,
        forall|k: int| 0 <= k < x.len() ==> !is_ws(#[trigger] x[k]) && x[k] != '=',
    ensures
        apply_directive(field_directive(x, n as nat), cfg) == Ok::<ConfigV, LoadErrorV>(
            ConfigV { fields: insert_field(cfg.fields, x, n), ..cfg },
        ),
{
    reveal_strlit("delimiter");
    reveal_strlit("field");
    let num = decimal(n as nat);
    lemma_decimal(n as nat);
    lemma_parse_u8_decimal(n);
    assert(!is_ws(num[0]));
    assert(!is_ws(num.last())) by {
        assert(is_digit(num[num.len() - 1]));
    }
    let line = field_directive(x, n as nat);
    let d0 = seq!['f', 'i', 'e', 'l', 'd', ' '] + x + seq![' ', '=', ' '] + num;
    assert(line.drop_first() =~= d0);
    assert(strip_leading(line, '@') == strip_leading(d0, '@'));
    assert(strip_leading(d0, '@') == d0);
    assert(d0.last() == num.last());
    lemma_trim_clean(d0);
    let d = d0;
    assert(!starts_with(d, "delimiter"@)) by {
        assert(d.take(9)[0] == 'f');
    }
    assert(d.take(5) =~= "field"@);
    let r0 = seq![' '] + x + seq![' ', '=', ' '] + num;
    assert(d.skip(5) =~= r0);
    assert(r0.take(5)[0] == ' ');
    assert(strip_prefixes(d, "field"@) == strip_prefixes(r0, "field"@));
    assert(strip_prefixes(r0, "field"@) == r0);
    let rest = x + seq![' ', '=', ' '] + num;
    assert(r0 =~= seq![' '] + rest);
    assert(rest[0] == x[0] && rest.last() == num.last());
    lemma_trim_space_before(rest);
    let eq = x.len() as int + 1;
    assert forall|j: int| 0 <= j < eq implies rest[j] != '=' by {
        if j < x.len() {
            assert(rest[j] == x[j]);
        }
    }
    lemma_find_char_first(rest, '=', 0, eq);
    assert(rest.take(eq) =~= x + seq![' ']);
    assert(!is_ws(x[0]) && !is_ws(x.last()));
    lemma_trim_space_after(x);
    assert(rest.skip(eq + 1) =~= seq![' '] + num);
    lemma_trim_space_before(num);
}

/// Text without backslashes.
pub open spec fn no_backslash(s: Seq<char>) -> bool {
    forall|k: int| 0 <= k < s.len() ==> #[trigger] s[k] != '\\'
}

/// Replacing escapes leaves text without backslashes as it is.
proof fn lemma_replace_none(s: Seq<char>, e: char, r: char)
    requires
        no_backslash(s),
    ensures
        replace_escape(s, e, r) == s,
    decreases s.len(),
{
    if s.len() > 0 {
        assert(s[0] != '\\');
        assert(no_backslash(s.drop_first())) by {
            assert forall|k: int| 0 <= k < s.drop_first().len() implies #[trigger] s.drop_first()[k] != '\\' by {
                assert(s.drop_first()[k] == s[k + 1]);
            }
        }
        lemma_replace_none(s.drop_first(), e, r);
        assert(seq![s[0]] + s.drop_first() =~= s);
    }
}

/// Replacing escapes passes over a prefix without backslashes.
proof fn lemma_replace_after_plain(a: Seq<char>, b: Seq<char>, e: char, r: char)
    requires
        no_backslash(a),
    ensures
        replace_escape(a + b, e, r) == a + replace_escape(b, e, r),
    decreases a.len(),
{
    if a.len() > 0 {
        let t = a + b;
        assert(t[0] == a[0] && a[0] != '\\');
        assert(t.drop_first() =~= a.drop_first() + b);
        assert(no_backslash(a.drop_first())) by {
            assert forall|k: int| 0 <= k < a.drop_first().len() implies #[trigger] a.drop_first()[k] != '\\' by {
                assert(a.drop_first()[k] == a[k + 1]);
            }
        }
        lemma_replace_after_plain(a.drop_first(), b, e, r);
        assert(seq![a[0]] + (a.drop_first() + replace_escape(b, e, r)) =~= a + replace_escape(b, e, r));
    } else {
        assert(a + b =~= b);
        assert(a + replace_escape(b, e, r) =~= replace_escape(b, e, r));
    }
}

/// The escape `\e` between plain texts: replacing escape `e2` by `r2`
/// turns it into `r2` when `e2` is `e`, and keeps it otherwise.
proof fn lemma_replace_one_escape(x: Seq<char>, e: char, y: Seq<char>, e2: char, r2: char)
    requires
        no_backslash(x),
        no_backslash(y),
        e != '\\',
    ensures
        e2 == e ==> replace_escape(x + seq!['\\', e] + y, e2, r2) == x + seq![r2] + y,
        e2 != e ==> replace_escape(x + seq!['\\', e] + y, e2, r2) == x + seq!['\\', e] + y,
{
    let t = seq!['\\', e] + y;
    assert(x + seq!['\\', e] + y =~= x + t);
    lemma_replace_after_plain(x, t, e2, r2);
    lemma_replace_none(y, e2, r2);
    assert(t.skip(2) =~= y);
    if e2 == e {
        assert(x + (seq![r2] + y) =~= x + seq![r2] + y);
    } else {
        let u = t.drop_first();
        assert(u =~= seq![e] + y);
        assert(u[0] == e);
        assert(u.drop_first() =~= y);
        assert(replace_escape(u, e2, r2) == seq![e] + y);
        assert(seq!['\\'] + (seq![e] + y) =~= t);
        assert(x + t =~= x + seq!['\\', e] + y);
    }
}

/// Joining texts without backslashes around another character keeps them out.
proof fn lemma_join_no_backslash(x: Seq<char>, c: char, y: Seq<char>)
    requires
        no_backslash(x),
        no_backslash(y),
        c != '\\',
    ensures
        no_backslash(x + seq![c] + y),
{
    let s = x + seq![c] + y;
    assert forall|k: int| 0 <= k < s.len() implies #[trigger] s[k] != '\\' by {
        if k < x.len() {
            assert(s[k] == x[k]);
        } else if k > x.len() {
            assert(s[k] == y[k - x.len() - 1]);
        }
    }
}

/// Text with an escape `\e` inside quote-free texts starts and ends with no
/// quote.
proof fn lemma_escaped_ends(x: Seq<char>, e: char, y: Seq<char>)
    requires
        e != '"' && e != '\'',
        forall|k: int| 0 <= k < x.len() ==> #[trigger] x[k] != '"' && x[k] != '\'',
        forall|k: int| 0 <= k < y.len() ==> #[trigger] y[k] != '"' && y[k] != '\'',
    ensures
        ({
            let v = x + seq!['\\', e] + y;
            v.len() > 0 && v[0] != '"' && v[0] != '\'' && v.last() != '"' && v.last() != '\''
        }),
{
    let v = x + seq!['\\', e] + y;
    if x.len() > 0 {
        assert(v[0] == x[0]);
    }
    if y.len() > 0 {
        assert(v.last() == y[y.len() - 1]);
    }
}

/// The directive line `@delimiter = "v"`.
pub open spec fn delimiter_directive(v: Seq<char>) -> Seq<char> {
    seq!['@', 'd', 'e', 'l', 'i', 'm', 'i', 't', 'e', 'r', ' ', '=', ' ', '"'] + v + seq!['"']
}

/// A delimiter directive yields the quoted text with its escapes applied.
proof fn lemma_delimiter_directive_value(v: Seq<char>, cfg: ConfigV)
    requires
        v.len() > 0,
        v[0] != '"' && v[0] != '\'',
        v.last() != '"' && v.last() != '\'',
    ensures
        apply_directive(delimiter_directive(v), cfg) == Ok::<ConfigV, LoadErrorV>(
            ConfigV {
                delimiter: encode_utf8(
                    replace_escape(replace_escape(replace_escape(v, 't', '\t'), 'n', '\n'), 'r', '\r'),
                ),
                ..cfg
            },
        ),
{
    reveal_strlit("delimiter");
    let line = delimiter_directive(v);
    let d = seq!['d', 'e', 'l', 'i', 'm', 'i', 't', 'e', 'r', ' ', '=', ' ', '"'] + v + seq!['"'];
    assert(line.drop_first() =~= d);
    assert(strip_leading(line, '@') == strip_leading(d, '@'));
    assert(strip_leading(d, '@') == d);
    lemma_trim_clean(d);
    assert(d.take(9) =~= "delimiter"@);
    assert forall|j: int| 0 <= j < 10 implies d[j] != '=' by {}
    lemma_find_char_first(d, '=', 0, 10);
    let q = seq!['"'] + v + seq!['"'];
    assert(d.skip(11) =~= seq![' '] + q);
    lemma_trim_space_before(q);
    // Quotes come off both ends.
    assert(q.drop_first() =~= v + seq!['"']);
    assert(strip_leading(q, '"') == strip_leading(v + seq!['"'], '"'));
    assert((v + seq!['"'])[0] == v[0]);
    assert(strip_leading(v + seq!['"'], '"') == v + seq!['"']);
    assert((v + seq!['"']).drop_last() =~= v);
    assert(strip_trailing(v + seq!['"'], '"') == strip_trailing(v, '"'));
    assert(strip_trailing(v, '"') == v);
    assert(trim_char(q, '"') == v);
    assert(strip_leading(v, '\'') == v);
    assert(trim_char(v, '\'') == v);
}

/// A delimiter directive sets the delimiter to the quoted text, with the
/// escapes `\t`, `\n` and `\r` standing for tab, line feed and carriage
/// return: for all texts `x` and `y` without quotes or backslashes,
/// `@delimiter = "x"` sets the delimiter to `x`, and `@delimiter = "x\ty"`
/// to `x`, TAB, `y` (likewise for `\n` and `\r`); the fields are kept.
pub proof fn lemma_delimiter_directive(x: Seq<char>, y: Seq<char>, cfg: ConfigV)
    requires
        no_backslash(x),
        no_backslash(y),
        forall|k: int| 0 <= k < x.len() ==> #[trigger] x[k] != '"' && x[k] != '\'',
        forall|k: int| 0 <= k < y.len() ==> #[trigger] y[k] != '"' && y[k] != '\'',
    ensures
        x.len() > 0 ==> apply_directive(delimiter_directive(x), cfg) == Ok::<ConfigV, LoadErrorV>(
            ConfigV { delimiter: encode_utf8(x), ..cfg },
        ),
        apply_directive(delimiter_directive(x + seq!['\\', 't'] + y), cfg) == Ok::<ConfigV, LoadErrorV>(
            ConfigV { delimiter: encode_utf8(x + seq!['\t'] + y), ..cfg },
        ),
        apply_directive(delimiter_directive(x + seq!['\\', 'n'] + y), cfg) == Ok::<ConfigV, LoadErrorV>(
            ConfigV { delimiter: encode_utf8(x + seq!['\n'] + y), ..cfg },
        ),
        apply_directive(delimiter_directive(x + seq!['\\', 'r'] + y), cfg) == Ok::<ConfigV, LoadErrorV>(
            ConfigV { delimiter: encode_utf8(x + seq!['\r'] + y), ..cfg },
        ),
{
    if x.len() > 0 {
        lemma_delimiter_directive_value(x, cfg);
        lemma_replace_none(x, 't', '\t');
        lemma_replace_none(x, 'n', '\n');
        lemma_replace_none(x, 'r', '\r');
    }
    let vt = x + seq!['\\', 't'] + y;
    let vn = x + seq!['\\', 'n'] + y;
    let vr = x + seq!['\\', 'r'] + y;
    lemma_escaped_ends(x, 't', y);
    lemma_escaped_ends(x, 'n', y);
    lemma_escaped_ends(x, 'r', y);
    lemma_delimiter_directive_value(vt, cfg);
    lemma_delimiter_directive_value(vn, cfg);
    lemma_delimiter_directive_value(vr, cfg);
    // `\t`
    lemma_replace_one_escape(x, 't', y, 't', '\t');
    lemma_join_no_backslash(x, '\t', y);
    lemma_replace_none(x + seq!['\t'] + y, 'n', '\n');
    lemma_replace_none(x + seq!['\t'] + y, 'r', '\r');
    // `\n`
    lemma_replace_one_escape(x, 'n', y, 't', '\t');
    lemma_replace_one_escape(x, 'n', y, 'n', '\n');
    lemma_join_no_backslash(x, '\n', y);
    lemma_replace_none(x + seq!['\n'] + y, 'r', '\r');
    // `\r`
    lemma_replace_one_escape(x, 'r', y, 't', '\t');
    lemma_replace_one_escape(x, 'r', y, 'n', '\n');
    lemma_replace_one_escape(x, 'r', y, 'r', '\r');
}

/// A character that neither starts a comment nor opens a quote or an escape.
pub open spec fn comment_plain(c: char) -> bool {
    c != '#' && c != '"' && c != '\'' && c != '\\'
}

/// Outside quotes, plain characters are passed over.
proof fn lemma_comment_scan_plain(s: Seq<char>, i: int, k: int)
    requires
        0 <= i <= k <= s.len(),
        forall|j: int| i <= j < k ==> comment_plain(#[trigger] s[j]),
    ensures
        comment_pos(s, i, None, false) == comment_pos(s, k, None, false),
    decreases k - i,
{
    if i < k {
        lemma_comment_scan_plain(s, i + 1, k);
    }
}

/// Inside quotes `q`, characters other than `q` and backslash are passed
/// over.
proof fn lemma_comment_scan_quoted(s: Seq<char>, i: int, k: int, q: char)
    requires
        0 <= i <= k <= s.len(),
        forall|j: int| i <= j < k ==> #[trigger] s[j] != q && s[j] != '\\',
    ensures
        comment_pos(s, i, Some(q), false) == comment_pos(s, k, Some(q), false),
    decreases k - i,
{
    if i < k {
        lemma_comment_scan_quoted(s, i + 1, k, q);
    }
}

/// Inline comments: for texts `x`, `y` and `z`, where `x` and `z` hold no
/// `#`, quote or backslash, `x` does not end in whitespace and `y` holds no
/// double quote or backslash, the line `x # c` keeps only `x` whatever the
/// comment `c` is, and in `x"y"z` a `#` inside the quotes starts no comment.
pub proof fn lemma_inline_comments(x: Seq<char>, y: Seq<char>, z: Seq<char>, c: Seq<char>)
    requires
        x.len() > 0,
        !is_ws(x.last()),
        forall|j: int| 0 <= j < x.len() ==> comment_plain(#[trigger] x[j]),
        forall|j: int| 0 <= j < y.len() ==> #[trigger] y[j] != '"' && y[j] != '\\',
        forall|j: int| 0 <= j < z.len() ==> comment_plain(#[trigger] z[j]),
    ensures
        strip_comment(x + seq![' ', '#'] + c) == x,
        strip_comment(x + seq!['"'] + y + seq!['"'] + z) == x + seq!['"'] + y + seq!['"'] + z,
{
    let s = x + seq![' ', '#'] + c;
    let n: int = x.len() as int + 1;
    assert forall|j: int| 0 <= j < n implies comment_plain(#[trigger] s[j]) by {
        if j < x.len() {
            assert(s[j] == x[j]);
        }
    }
    lemma_comment_scan_plain(s, 0, n);
    assert(s[n] == '#');
    assert(comment_pos(s, n, None, false) == Some(n));
    assert(s.take(n) =~= x + seq![' ']);
    assert(is_ws(' '));
    assert((x + seq![' ']).drop_last() =~= x);
    assert(trim_end(x + seq![' ']) == trim_end(x));

    let t = x + seq!['"'] + y + seq!['"'] + z;
    let a = x.len() as int;
    let b = a + 1 + y.len();
    assert forall|j: int| 0 <= j < a implies comment_plain(#[trigger] t[j]) by {
        assert(t[j] == x[j]);
    }
    lemma_comment_scan_plain(t, 0, a);
    assert(t[a] == '"');
    assert forall|j: int| a + 1 <= j < b implies #[trigger] t[j] != '"' && t[j] != '\\' by {
        assert(t[j] == y[j - a - 1]);
    }
    lemma_comment_scan_quoted(t, a + 1, b, '"');
    assert(t[b] == '"');
    assert forall|j: int| b + 1 <= j < t.len() implies comment_plain(#[trigger] t[j]) by {
        assert(t[j] == z[j - b - 1]);
    }
    lemma_comment_scan_plain(t, b + 1, t.len() as int);
    assert(comment_pos(t, t.len() as int, None, false) is None);
}

/// A load error with its texts taken as character sequences.
pub enum LoadErrorV {
    Io,
    Compile(CompileErrorV),
    InvalidDirective(Seq<char>),
    InvalidFieldIndex(Seq<char>),
}

/// The configuration after directive line `line` (it starts with `@`).
pub open spec fn apply_directive(line: Seq<char>, cfg: ConfigV) -> Result<ConfigV, LoadErrorV> {
    let d = trim(strip_leading(line, '@'));
    if starts_with(d, "delimiter"@) {
        match find_char(d, '=', 0) {
            Some(eq) => {
                let value = trim(d.skip(eq + 1));
                let bare = trim_char(trim_char(value, '"'), '\'');
                let delim = replace_escape(
                    replace_escape(replace_escape(bare, 't', '\t'), 'n', '\n'),
                    'r',
                    '\r',
                );
                Ok(ConfigV { delimiter: encode_utf8(delim), ..cfg })
            },
            None => Err(LoadErrorV::InvalidDirective("Invalid delimiter directive: "@ + d)),
        }
    } else if starts_with(d, "field"@) {
        let rest = trim(strip_prefixes(d, "field"@));
        match find_char(rest, '=', 0) {
            Some(eq) => {
                let name = trim(rest.take(eq));
                let index = trim(rest.skip(eq + 1));
                match parse_u8(index) {
                    Some(i) => Ok(ConfigV { fields: insert_field(cfg.fields, name, i), ..cfg }),
                    None => Err(
                        LoadErrorV::InvalidFieldIndex(
                            "Invalid field index '"@ + index + "' for field '"@ + name + "'"@,
                        ),
                    ),
                }
            },
            None => Err(LoadErrorV::InvalidDirective("Invalid field directive: "@ + d)),
        }
    } else {
        Err(LoadErrorV::InvalidDirective("Unknown directive: @"@ + d))
    }
}

/// The configuration and expression lines after `lines`: blank lines and
/// comments are skipped, directives update the configuration, other lines
/// (inline comments cut off) are expression lines.
pub open spec fn process_lines(lines: Seq<Seq<char>>, cfg: ConfigV) -> Result<
    (ConfigV, Seq<Seq<char>>),
    LoadErrorV,
>
    decreases lines.len(),
{
    if lines.len() == 0 {
        Ok((cfg, Seq::empty()))
    } else {
        match process_lines(lines.drop_last(), cfg) {
            Ok((c, exprs)) => {
                let t = trim(lines.last());
                if t.len() == 0 || t[0] == '#' {
                    Ok((c, exprs))
                } else if t[0] == '@' {
                    match apply_directive(t, c) {
                        Ok(c2) => Ok((c2, exprs)),
                        Err(e) => Err(e),
                    }
                } else {
                    let x = strip_comment(t);
                    if x.len() == 0 {
                        Ok((c, exprs))
                    } else {
                        Ok((c, exprs.push(x)))
                    }
                }
            },
            Err(e) => Err(e),
        }
    }
}

/// Lines joined with single spaces.
pub open spec fn join_spaced(lines: Seq<Seq<char>>) -> Seq<char>
    decreases lines.len(),
{
    if lines.len() == 0 {
        Seq::empty()
    } else if lines.len() == 1 {
        lines[0]
    } else {
        join_spaced(lines.drop_last()) + seq![' '] + lines.last()
    }
}

/// What loading the filter text `content` under `cfg` gives: the
/// configuration the directives leave and the expression text, or the
/// first directive error.
pub open spec fn load_parts(content: Seq<char>, cfg: ConfigV) -> Result<(ConfigV, Seq<char>), LoadErrorV> {
    match process_lines(split_lines(content), cfg) {
        Ok((c, exprs)) => Ok((c, join_spaced(exprs))),
        Err(e) => Err(e),
    }
}

/// Lines without directives leave the configuration as given, and never
/// fail.
pub proof fn lemma_no_directives_keep_config(lines: Seq<Seq<char>>, cfg: ConfigV)
    requires
        forall|i: int| 0 <= i < lines.len() ==> !(trim(#[trigger] lines[i]).len() > 0 && trim(lines[i])[0] == '@'),
    ensures
        process_lines(lines, cfg) matches Ok((c, _)) && c == cfg,
    decreases lines.len(),
{
    if lines.len() > 0 {
        assert forall|i: int| 0 <= i < lines.drop_last().len() implies !(trim(
            #[trigger] lines.drop_last()[i],
        ).len() > 0 && trim(lines.drop_last()[i])[0] == '@') by {
            assert(lines.drop_last()[i] == lines[i]);
        }
        lemma_no_directives_keep_config(lines.drop_last(), cfg);
        assert(lines.last() == lines[lines.len() - 1]);
    }
}

/// Loading is directive processing followed by compiling: when the
/// directives apply, the filter loaded is the expression text compiled under
/// the configuration they leave, and splits records on that configuration's
/// delimiter.
pub proof fn lemma_load_then_compile(content: Seq<char>, cfg: ConfigV)
    ensures
        load_parts(content, cfg) matches Ok((c2, text)) ==> (compile_outcome(text, c2) matches Ok(p)
            ==> p.delimiter == c2.delimiter),
{
}

#[verifier::external_type_specification]
#[verifier::external_body]
pub struct ExIoError(std::io::Error);

/// Error type for filter loading.
#[derive(Debug)]
pub enum LoadError {
    /// The filter file could not be read.
    Io(std::io::Error),
    /// The filter expression failed to compile.
    Compile(CompileError),
    /// A directive that is malformed or unknown.
    InvalidDirective(String),
    /// A field index that is not a number from 0 to 255.
    InvalidFieldIndex(String),
}

impl View for LoadError {
    type V = LoadErrorV;

    open spec fn view(&self) -> LoadErrorV {
        match self {
            LoadError::Io(_) => LoadErrorV::Io,
            LoadError::Compile(e) => LoadErrorV::Compile(e@),
            LoadError::InvalidDirective(s) => LoadErrorV::InvalidDirective(s@),
            LoadError::InvalidFieldIndex(s) => LoadErrorV::InvalidFieldIndex(s@),
        }
    }
}

impl From<std::io::Error> for LoadError {
    fn from(e: std::io::Error) -> (r: Self) {
        LoadError::Io(e)
    }
}

impl vstd::std_specs::convert::FromSpecImpl<std::io::Error> for LoadError {
    open spec fn obeys_from_spec() -> bool {
        true
    }

    open spec fn from_spec(v: std::io::Error) -> Self {
        LoadError::Io(v)
    }
}

impl From<CompileError> for LoadError {
    fn from(e: CompileError) -> (r: Self) {
        LoadError::Compile(e)
    }
}

impl vstd::std_specs::convert::FromSpecImpl<CompileError> for LoadError {
    open spec fn obeys_from_spec() -> bool {
        true
    }

    open spec fn from_spec(v: CompileError) -> Self {
        LoadError::Compile(v)
    }
}

/// Skipping `a` leading whitespace characters is trimming the start.
proof fn lemma_trim_start(s: Seq<char>, a: int)
    requires
        0 <= a <= s.len(),
        forall|j: int| 0 <= j < a ==> is_ws(#[trigger] s[j]),
        a == s.len() || !is_ws(s[a]),
    ensures
        trim_start(s) == s.skip(a),
    decreases a,
{
    if a == 0 {
        assert(s.skip(0) =~= s);
    } else {
        assert forall|j: int| 0 <= j < a - 1 implies is_ws(#[trigger] s.drop_first()[j]) by {
            assert(s.drop_first()[j] == s[j + 1]);
        }
        lemma_trim_start(s.drop_first(), a - 1);
        assert(s.drop_first().skip(a - 1) =~= s.skip(a));
    }
}

/// Keeping the first `b` characters, all after them whitespace, is
/// trimming the end.
proof fn lemma_trim_end(s: Seq<char>, b: int)
    requires
        0 <= b <= s.len(),
        forall|j: int| b <= j < s.len() ==> is_ws(#[trigger] s[j]),
        b == 0 || !is_ws(s[b - 1]),
    ensures
        trim_end(s) == s.take(b),
    decreases s.len() - b,
{
    if b == s.len() {
        assert(s.take(b) =~= s);
    } else {
        assert forall|j: int| b <= j < s.len() - 1 implies is_ws(#[trigger] s.drop_last()[j]) by {
            assert(s.drop_last()[j] == s[j]);
        }
        lemma_trim_end(s.drop_last(), b);
        assert(s.drop_last().take(b) =~= s.take(b));
    }
}

/// `s` without trailing whitespace.
fn trim_end_chars(s: &[char]) -> (r: Vec<char>)
    ensures
        r@ == trim_end(s@),
{
    let mut b = s.len();
    while b > 0 && is_whitespace(s[b - 1])
        invariant
            b <= s@.len(),
            forall|j: int| b <= j < s@.len() ==> is_ws(#[trigger] s@[j]),
        decreases b,
    {
        b -= 1;
    }
    proof {
        lemma_trim_end(s@, b as int);
    }
    let mut out: Vec<char> = Vec::new();
    let mut j: usize = 0;
    while j < b
        invariant
            b <= s@.len(),
            j <= b,
            out@ == s@.take(j as int),
        decreases b - j,
    {
        out.push(s[j]);
        j += 1;
        proof {
            assert(out@ =~= s@.take(j as int));
        }
    }
    out
}

/// `s` without leading or trailing whitespace.
fn trim_chars(s: &[char]) -> (r: Vec<char>)
    ensures
        r@ == trim(s@),
{
    let mut a: usize = 0;
    while a < s.len() && is_whitespace(s[a])
        invariant
            a <= s@.len(),
            forall|j: int| 0 <= j < a ==> is_ws(#[trigger] s@[j]),
        decreases s@.len() - a,
    {
        a += 1;
    }
    proof {
        lemma_trim_start(s@, a as int);
    }
    let mut rest: Vec<char> = Vec::new();
    let mut j = a;
    while j < s.len()
        invariant
            a <= j <= s@.len(),
            rest@ == s@.subrange(a as int, j as int),
        decreases s@.len() - j,
    {
        rest.push(s[j]);
        j += 1;
        proof {
            assert(rest@ =~= s@.subrange(a as int, j as int));
        }
    }
    proof {
        assert(rest@ =~= s@.skip(a as int));
    }
    trim_end_chars(rest.as_slice())
}

/// The lines of `chars`, as `split_lines` gives them.
fn lines_of(chars: &Vec<char>) -> (r: Vec<Vec<char>>)
    ensures
        r@.map_values(|l: Vec<char>| l@) == split_lines(chars@),
{
    let mut lines: Vec<Vec<char>> = Vec::new();
    let mut current: Vec<char> = Vec::new();
    let mut i: usize = 0;
    proof {
        assert(chars@.take(0) =~= Seq::<char>::empty());
        assert(lines@.map_values(|l: Vec<char>| l@).push(current@) =~= seq![Seq::<char>::empty()]);
    }
    while i < chars.len()
        invariant
            i <= chars@.len(),
            lines@.map_values(|l: Vec<char>| l@).push(current@) == split_lines(chars@.take(i as int)),
        decreases chars@.len() - i,
    {
        let c = chars[i];
        let ghost before = lines@.map_values(|l: Vec<char>| l@);
        let ghost cur = current@;
        proof {
            assert(chars@.take(i + 1).drop_last() =~= chars@.take(i as int));
            assert(chars@.take(i + 1).last() == c);
        }
        if c == '\n' {
            let done = current;
            lines.push(done);
            current = Vec::new();
            proof {
                assert(lines@.map_values(|l: Vec<char>| l@) =~= before.push(cur));
                assert(lines@.map_values(|l: Vec<char>| l@).push(current@) =~= before.push(cur).push(
                    Seq::empty(),
                ));
            }
        } else {
            current.push(c);
            proof {
                assert(lines@.map_values(|l: Vec<char>| l@).push(current@) =~= before.push(cur).update(
                    before.len() as int,
                    cur.push(c),
                ));
            }
        }
        i += 1;
    }
    proof {
        assert(chars@.take(i as int) =~= chars@);
    }
    lines.push(current);
    lines
}

/// The first `n` characters of `s`.
fn prefix_chars(s: &[char], n: usize) -> (r: Vec<char>)
    requires
        n <= s@.len(),
    ensures
        r@ == s@.take(n as int),
{
    let mut out: Vec<char> = Vec::new();
    let mut j: usize = 0;
    while j < n
        invariant
            n <= s@.len(),
            j <= n,
            out@ == s@.take(j as int),
        decreases n - j,
    {
        out.push(s[j]);
        j += 1;
        proof {
            assert(out@ =~= s@.take(j as int));
        }
    }
    out
}

/// The characters of `s` from `n` on.
fn suffix_chars(s: &[char], n: usize) -> (r: Vec<char>)
    requires
        n <= s@.len(),
    ensures
        r@ == s@.skip(n as int),
{
    let mut out: Vec<char> = Vec::new();
    let mut j = n;
    while j < s.len()
        invariant
            n <= j <= s@.len(),
            out@ == s@.subrange(n as int, j as int),
        decreases s@.len() - j,
    {
        out.push(s[j]);
        j += 1;
        proof {
            assert(out@ =~= s@.subrange(n as int, j as int));
        }
    }
    proof {
        assert(out@ =~= s@.skip(n as int));
    }
    out
}

/// Strip an inline `#` comment from an expression line, respecting quoted
/// strings and backslash escapes.
fn strip_inline_comment(line: &[char]) -> (r: Vec<char>)
    ensures
        r@ == strip_comment(line@),
{
    let mut quote: Option<char> = None;
    let mut escaped = false;
    let mut i: usize = 0;
    while i < line.len()
        invariant
            i <= line@.len(),
            comment_pos(line@, 0, None, false) == comment_pos(line@, i as int, quote, escaped),
        decreases line@.len() - i,
    {
        let c = line[i];
        if escaped {
            escaped = false;
        } else if c == '\\' {
            escaped = true;
        } else {
            match quote {
                Some(q) => {
                    if c == q {
                        quote = None;
                    }
                },
                None => {
                    if c == '"' || c == '\'' {
                        quote = Some(c);
                    } else if c == '#' {
                        let head = prefix_chars(line, i);
                        return trim_end_chars(head.as_slice());
                    }
                },
            }
        }
        i += 1;
    }
    prefix_chars(line, line.len())
}

/// `s` without its leading `c` characters.
fn strip_leading_chars(s: &[char], c: char) -> (r: Vec<char>)
    ensures
        r@ == strip_leading(s@, c),
{
    let mut a: usize = 0;
    proof {
        assert(s@.skip(0) =~= s@);
    }
    while a < s.len() && s[a] == c
        invariant
            a <= s@.len(),
            strip_leading(s@, c) == strip_leading(s@.skip(a as int), c),
        decreases s@.len() - a,
    {
        proof {
            assert(s@.skip(a as int).drop_first() =~= s@.skip(a + 1));
        }
        a += 1;
    }
    suffix_chars(s, a)
}

/// `s` without `c` at either end.
fn trim_char_chars(s: &[char], c: char) -> (r: Vec<char>)
    ensures
        r@ == trim_char(s@, c),
{
    let t = strip_leading_chars(s, c);
    let mut b = t.len();
    proof {
        assert(t@.take(t@.len() as int) =~= t@);
    }
    while b > 0 && t[b - 1] == c
        invariant
            b <= t@.len(),
            strip_trailing(t@, c) == strip_trailing(t@.take(b as int), c),
        decreases b,
    {
        proof {
            assert(t@.take(b as int).drop_last() =~= t@.take(b - 1));
        }
        b -= 1;
    }
    proof {
        assert(t@.take(t@.len() as int) =~= t@);
    }
    prefix_chars(t.as_slice(), b)
}

/// Whether `s` begins with `p`.
fn starts_with_chars(s: &[char], p: &[char]) -> (r: bool)
    ensures
        r == starts_with(s@, p@),
{
    if p.len() > s.len() {
        return false;
    }
    let mut i: usize = 0;
    while i < p.len()
        invariant
            p@.len() <= s@.len(),
            i <= p@.len(),
            forall|j: int| 0 <= j < i ==> s@[j] == p@[j],
        decreases p@.len() - i,
    {
        if s[i] != p[i] {
            return false;
        }
        i += 1;
    }
    assert(s@.take(p@.len() as int) =~= p@);
    true
}

/// `s` without its leading repetitions of `p`.
fn strip_prefixes_chars(s: &[char], p: &[char]) -> (r: Vec<char>)
    requires
        p@.len() > 0,
    ensures
        r@ == strip_prefixes(s@, p@),
{
    let mut cur = suffix_chars(s, 0);
    proof {
        assert(s@.skip(0) =~= s@);
    }
    while starts_with_chars(cur.as_slice(), p)
        invariant
            p@.len() > 0,
            strip_prefixes(s@, p@) == strip_prefixes(cur@, p@),
        decreases cur@.len(),
    {
        cur = suffix_chars(cur.as_slice(), p.len());
    }
    cur
}

/// `s` with each backslash followed by `e` replaced by `r`.
fn replace_escape_chars(s: &[char], e: char, r: char) -> (out: Vec<char>)
    ensures
        out@ == replace_escape(s@, e, r),
{
    let mut out: Vec<char> = Vec::new();
    let mut i: usize = 0;
    proof {
        assert(s@.skip(0) =~= s@);
        assert(Seq::<char>::empty() + replace_escape(s@, e, r) =~= replace_escape(s@, e, r));
    }
    while i < s.len()
        invariant
            i <= s@.len(),
            replace_escape(s@, e, r) == out@ + replace_escape(s@.skip(i as int), e, r),
        decreases s@.len() - i,
    {
        let ghost rest = s@.skip(i as int);
        if i + 1 < s.len() && s[i] == '\\' && s[i + 1] == e {
            proof {
                assert(rest.skip(2) =~= s@.skip(i + 2));
                assert(out@ + (seq![r] + replace_escape(rest.skip(2), e, r)) =~= out@.push(r)
                    + replace_escape(s@.skip(i + 2), e, r));
            }
            out.push(r);
            i += 2;
        } else {
            proof {
                assert(rest.drop_first() =~= s@.skip(i + 1));
                assert(out@ + (seq![s@[i as int]] + replace_escape(rest.drop_first(), e, r)) =~= out@.push(
                    s@[i as int],
                ) + replace_escape(s@.skip(i + 1), e, r));
            }
            out.push(s[i]);
            i += 1;
        }
    }
    proof {
        assert(s@.skip(i as int) =~= Seq::<char>::empty());
        assert(out@ + Seq::<char>::empty() =~= out@);
    }
    out
}

/// The first index of `c` in `s`.
fn find_char_in(s: &[char], c: char) -> (r: Option<usize>)
    ensures
        match find_char(s@, c, 0) {
            Some(i) => r matches Some(j) && j as int == i,
            None => r is None,
        },
        r matches Some(i) ==> i < s@.len(),
{
    let mut i: usize = 0;
    while i < s.len()
        invariant
            i <= s@.len(),
            find_char(s@, c, 0) == find_char(s@, c, i as int),
        decreases s@.len() - i,
    {
        if s[i] == c {
            return Some(i);
        }
        i += 1;
    }
    None
}

/// A decimal `u8` with an optional leading `+`.
fn parse_u8_chars(s: &[char]) -> (r: Option<u8>)
    ensures
        r == parse_u8(s@),
{
    let start: usize = if s.len() > 0 && s[0] == '+' {
        1
    } else {
        0
    };
    let ghost d = unsigned_digits(s@);
    proof {
        assert(start == 1 ==> s@.drop_first() =~= s@.skip(start as int));
        assert(start == 0 ==> s@ =~= s@.skip(start as int));
    }
    if start == s.len() {
        return None;
    }
    let mut value: u32 = 0;
    let mut i = start;
    proof {
        assert(d.take(0) =~= Seq::<char>::empty());
    }
    while i < s.len()
        invariant
            start <= i <= s@.len(),
            d == unsigned_digits(s@),
            d == s@.skip(start as int),
            value <= 255,
            value == digits_value(d.take(i - start)),
            forall|j: int| 0 <= j < i - start ==> is_digit(#[trigger] d[j]),
        decreases s@.len() - i,
    {
        if !is_ascii_digit(s[i]) {
            proof {
                assert(d[i - start] == s@[i as int]);
                assert(!all_digits(d));
            }
            return None;
        }
        proof {
            assert(d.take(i - start + 1).drop_last() =~= d.take(i - start));
            assert(d.take(i - start + 1).last() == s@[i as int]);
        }
        value = value * 10 + (s[i] as u32 - '0' as u32);
        if value > 255 {
            proof {
                if all_digits(d) {
                    lemma_digits_value_grows(d, i - start + 1);
                }
            }
            return None;
        }
        i += 1;
    }
    proof {
        assert(d.take(i - start) =~= d);
    }
    Some(value as u8)
}

/// A longer run of digits has at least the value of its prefix.
proof fn lemma_digits_value_grows(d: Seq<char>, k: int)
    requires
        0 <= k <= d.len(),
        forall|j: int| 0 <= j < d.len() ==> is_digit(#[trigger] d[j]),
    ensures
        digits_value(d.take(k)) <= digits_value(d),
    decreases d.len() - k,
{
    if k < d.len() {
        lemma_digits_value_grows(d, k + 1);
        assert(d.take(k + 1).drop_last() =~= d.take(k));
    } else {
        assert(d.take(k) =~= d);
    }
}

/// The text of `chars`.
fn text_of(chars: &Vec<char>) -> (r: String)
    ensures
        r@ == chars@,
{
    let r = string_of(chars, 0, chars.len());
    proof {
        assert(chars@.subrange(0, chars@.len() as int) =~= chars@);
    }
    r
}

/// `prefix` followed by `text`.
fn message(prefix: &str, text: &Vec<char>) -> (r: String)
    ensures
        r@ == prefix@ + text@,
{
    let mut m = String::new();
    m.append(prefix);
    m.append(text_of(text).as_str());
    proof {
        assert(Seq::<char>::empty() + prefix@ =~= prefix@);
    }
    m
}

/// Apply directive line `line` (it starts with `@`) to `config`.
fn parse_directive(line: &[char], config: &mut ParserConfig) -> (r: Result<(), LoadError>)
    ensures
        match apply_directive(line@, old(config)@) {
            Ok(c) => r is Ok && final(config)@ == c,
            Err(e) => r matches Err(x) && x@ == e,
        },
        r is Err ==> *final(config) == *old(config),
{
    proof {
        reveal_strlit("delimiter");
        reveal_strlit("field");
        assert("delimiter"@ =~= seq!['d', 'e', 'l', 'i', 'm', 'i', 't', 'e', 'r']);
        assert("field"@ =~= seq!['f', 'i', 'e', 'l', 'd']);
    }
    let stripped = strip_leading_chars(line, '@');
    let d = trim_chars(stripped.as_slice());
    let ghost sd = trim(strip_leading(line@, '@'));
    assert(d@ == sd);
    let is_delim = starts_with_chars(d.as_slice(), &['d', 'e', 'l', 'i', 'm', 'i', 't', 'e', 'r']);
    assert(is_delim == starts_with(sd, "delimiter"@));
    let is_field = starts_with_chars(d.as_slice(), &['f', 'i', 'e', 'l', 'd']);
    assert(is_field == starts_with(sd, "field"@));
    if is_delim {
        // @delimiter = ";;;"
        match find_char_in(d.as_slice(), '=') {
            None => Err(LoadError::InvalidDirective(message("Invalid delimiter directive: ", &d))),
            Some(eq) => {
                assert(d@.len() == d.len());
                let after_eq = suffix_chars(d.as_slice(), eq + 1);
                let value = trim_chars(after_eq.as_slice());
                // remove quotes and turn escapes into their characters
                let unquoted = trim_char_chars(value.as_slice(), '"');
                let bare = trim_char_chars(unquoted.as_slice(), '\'');
                let tabs = replace_escape_chars(bare.as_slice(), 't', '\t');
                let newlines = replace_escape_chars(tabs.as_slice(), 'n', '\n');
                let delimiter = replace_escape_chars(newlines.as_slice(), 'r', '\r');
                let text = text_of(&delimiter);
                config.set_delimiter(text.as_str());
                Ok(())
            },
        }
    } else if is_field {
        // @field NAME = index
        let after_kw = strip_prefixes_chars(d.as_slice(), &['f', 'i', 'e', 'l', 'd']);
        let rest = trim_chars(after_kw.as_slice());
        match find_char_in(rest.as_slice(), '=') {
            None => Err(LoadError::InvalidDirective(message("Invalid field directive: ", &d))),
            Some(eq) => {
                assert(rest@.len() == rest.len());
                let name_part = prefix_chars(rest.as_slice(), eq);
                let name = trim_chars(name_part.as_slice());
                let index_part = suffix_chars(rest.as_slice(), eq + 1);
                let index = trim_chars(index_part.as_slice());
                match parse_u8_chars(index.as_slice()) {
                    Some(i) => {
                        let name_text = text_of(&name);
                        config.add_field(name_text.as_str(), i);
                        Ok(())
                    },
                    None => {
                        let mut m = message("Invalid field index '", &index);
                        m.append("' for field '");
                        m.append(text_of(&name).as_str());
                        m.append("'");
                        Err(LoadError::InvalidFieldIndex(m))
                    },
                }
            },
        }
    } else {
        Err(LoadError::InvalidDirective(message("Unknown directive: @", &d)))
    }
}

/// A copy of `config`.
fn copy_config(config: &ParserConfig) -> (c: ParserConfig)
    ensures
        c@ == config@,
{
    let mut fields: Vec<(String, u8)> = Vec::new();
    let mut i: usize = 0;
    while i < config.fields.len()
        invariant
            i <= config.fields@.len(),
            fields@.map_values(|e: (String, u8)| (e.0@, e.1)) == config@.fields.take(i as int),
        decreases config.fields@.len() - i,
    {
        let name = config.fields[i].0.clone();
        let ghost before = fields@.map_values(|e: (String, u8)| (e.0@, e.1));
        fields.push((name, config.fields[i].1));
        proof {
            assert(name@ == config.fields@[i as int].0@);
            assert(config@.fields[i as int] == (config.fields@[i as int].0@, config.fields@[i as int].1));
            assert(fields@.map_values(|e: (String, u8)| (e.0@, e.1)) =~= before.push(config@.fields[i as int]));
            assert(config@.fields.take(i + 1) =~= config@.fields.take(i as int).push(config@.fields[i as int]));
        }
        i += 1;
    }
    proof {
        assert(config@.fields.take(i as int) =~= config@.fields);
    }
    let c = ParserConfig { fields, delimiter: vstd::slice::slice_to_vec(config.delimiter.as_slice()) };
    proof {
        assert(c@.fields =~= config@.fields);
        assert(c@.delimiter =~= config@.delimiter);
    }
    c
}

/// Once a prefix of the lines fails, processing all of them fails alike.
proof fn lemma_process_err(lines: Seq<Seq<char>>, cfg: ConfigV, m: int)
    requires
        0 <= m <= lines.len(),
        process_lines(lines.take(m), cfg) is Err,
    ensures
        process_lines(lines, cfg) == process_lines(lines.take(m), cfg),
    decreases lines.len(),
{
    if lines.len() > m {
        assert(lines.drop_last().take(m) =~= lines.take(m));
        lemma_process_err(lines.drop_last(), cfg, m);
    } else {
        assert(lines.take(m) =~= lines);
    }
}

/// The expression lines joined with single spaces.
fn join_spaced_text(lines: &Vec<Vec<char>>) -> (r: String)
    ensures
        r@ == join_spaced(lines@.map_values(|l: Vec<char>| l@)),
{
    let ghost v = lines@.map_values(|l: Vec<char>| l@);
    let sep = " ";
    proof {
        reveal_strlit(" ");
    }
    let mut out = String::new();
    let mut i: usize = 0;
    while i < lines.len()
        invariant
            v == lines@.map_values(|l: Vec<char>| l@),
            sep@ == seq![' '],
            i <= lines@.len(),
            out@ == join_spaced(v.take(i as int)),
        decreases lines@.len() - i,
    {
        proof {
            assert(v.take(i + 1).drop_last() =~= v.take(i as int));
        }
        if i > 0 {
            out.append(sep);
        }
        out.append(text_of(&lines[i]).as_str());
        i += 1;
    }
    proof {
        assert(v.take(i as int) =~= v);
    }
    out
}

/// Load and compile a filter from a string.
///
/// Blank lines and lines starting with `#` are skipped; `@delimiter` and
/// `@field` directives adjust a copy of `config`; all other lines, inline
/// comments removed, form the expression, joined with spaces.
pub fn load_filter_string(content: &str, config: &ParserConfig) -> (r: Result<CompiledFilter, LoadError>)
    ensures
        match load_parts(content@, config@) {
            Ok((cfg, text)) => match compile_outcome(text, cfg) {
                Ok(p) => r matches Ok(f) && f@ == p && f.source_text() == text,
                Err(ce) => r matches Err(x) && x@ == LoadErrorV::Compile(ce),
            },
            Err(e) => r matches Err(x) && x@ == e,
        },
{
    let mut local = copy_config(config);
    let chars = chars_of(content);
    let lines = lines_of(&chars);
    let ghost lv = lines@.map_values(|l: Vec<char>| l@);
    let mut exprs: Vec<Vec<char>> = Vec::new();
    let mut i: usize = 0;
    proof {
        assert(lv.take(0) =~= Seq::<Seq<char>>::empty());
        assert(exprs@.map_values(|l: Vec<char>| l@) =~= Seq::<Seq<char>>::empty());
    }
    while i < lines.len()
        invariant
            lv == lines@.map_values(|l: Vec<char>| l@),
            lv == split_lines(content@),
            i <= lines@.len(),
            process_lines(lv.take(i as int), config@) == Ok::<(ConfigV, Seq<Seq<char>>), LoadErrorV>(
                (local@, exprs@.map_values(|l: Vec<char>| l@)),
            ),
        decreases lines@.len() - i,
    {
        proof {
            assert(lv.take(i + 1).drop_last() =~= lv.take(i as int));
            assert(lv.take(i + 1).last() == lines@[i as int]@);
        }
        let t = trim_chars(lines[i].as_slice());
        if t.len() == 0 || t[0] == '#' {
        } else if t[0] == '@' {
            match parse_directive(t.as_slice(), &mut local) {
                Ok(()) => {},
                Err(e) => {
                    proof {
                        lemma_process_err(lv, config@, i + 1);
                    }
                    return Err(e);
                },
            }
        } else {
            // an expression line, its inline comment cut off
            let x = strip_inline_comment(t.as_slice());
            if x.len() > 0 {
                let ghost before = exprs@.map_values(|l: Vec<char>| l@);
                exprs.push(x);
                proof {
                    assert(exprs@.map_values(|l: Vec<char>| l@) =~= before.push(x@));
                }
            }
        }
        i += 1;
    }
    proof {
        assert(lv.take(i as int) =~= lv);
    }
    let text = join_spaced_text(&exprs);
    match compile(text.as_str(), &local) {
        Ok(f) => Ok(f),
        Err(e) => Err(LoadError::Compile(e)),
    }
}

} // verus!
