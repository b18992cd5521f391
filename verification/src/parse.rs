//! The record loader: parses the raw unit-table text into validated records,
//! skipping malformed rows with a warning.

use vstd::prelude::*;
use crate::chars::char_is_whitespace;
use crate::chars::chars_to_string;
use crate::chars::is_space_char;
use crate::chars::str_to_chars;
use crate::ident::pascal_to_upper_snake;
use crate::ident::upper_snake_of;
use crate::records::Dimension;
use crate::records::spec_dimension_of_code;
use crate::records::dimension_of_code;
use crate::records::UnitRecord;
use crate::records::UnitView;
use crate::records::views_of;

verus! {

// ---------------------------------------------------------------------
// Trimming
// ---------------------------------------------------------------------

/// `s` without its leading whitespace.
pub open spec fn trim_start_spec(s: Seq<char>) -> Seq<char>
    decreases s.len(),
{
    if s.len() > 0 && is_space_char(s[0]) {
        trim_start_spec(s.drop_first())
    } else {
        s
    }
}

/// `s` without its trailing whitespace.
pub open spec fn trim_end_spec(s: Seq<char>) -> Seq<char>
    decreases s.len(),
{
    if s.len() > 0 && is_space_char(s.last()) {
        trim_end_spec(s.drop_last())
    } else {
        s
    }
}

/// `s` without leading and trailing whitespace.
pub open spec fn trim_spec(s: Seq<char>) -> Seq<char> {
    trim_end_spec(trim_start_spec(s))
}

/// Trim leading and trailing whitespace from a character vector.
pub(crate) fn trim_chars(cs: &Vec<char>) -> (r: Vec<char>)
    ensures
        r@ == trim_spec(cs@),
{
    let n = cs.len();
    proof {
        assert(cs@.skip(0) =~= cs@);
    }
    let mut start: usize = 0;
    while start < n && char_is_whitespace(cs[start])
        invariant
            start <= n,
            n == cs@.len(),
            trim_start_spec(cs@) == trim_start_spec(cs@.skip(start as int)),
        decreases n - start,
    {
        proof {
            assert(cs@.skip(start as int).drop_first() =~= cs@.skip(start + 1));
        }
        start = start + 1;
    }
    proof {
        assert(trim_start_spec(cs@) == cs@.skip(start as int));
    }
    let mut end: usize = n;
    while end > start && char_is_whitespace(cs[end - 1])
        invariant
            start <= end <= n,
            n == cs@.len(),
            trim_start_spec(cs@) == cs@.skip(start as int),
            trim_spec(cs@) == trim_end_spec(cs@.subrange(start as int, end as int)),
        decreases end,
    {
        proof {
            let u = cs@.subrange(start as int, end as int);
            assert(u.last() == cs@[end - 1]);
            assert(u.drop_last() =~= cs@.subrange(start as int, end - 1));
        }
        end = end - 1;
    }
    proof {
        assert(trim_spec(cs@) == cs@.subrange(start as int, end as int));
    }
    let mut out: Vec<char> = Vec::new();
    let mut i: usize = start;
    while i < end
        invariant
            start <= i <= end <= n,
            n == cs@.len(),
            out@ == cs@.subrange(start as int, i as int),
        decreases end - i,
    {
        out.push(cs[i]);
        proof {
            assert(cs@.subrange(start as int, i + 1) =~= cs@.subrange(start as int, i as int).push(cs@[i as int]));
        }
        i = i + 1;
    }
    out
}

// ---------------------------------------------------------------------
// Finding a character, splitting into fields
// ---------------------------------------------------------------------

/// The index of the first occurrence of `c` in `s`, or `s.len()` if there is
/// none.
pub open spec fn find_char(s: Seq<char>, c: char) -> int
    decreases s.len(),
{
    if s.len() == 0 {
        0
    } else if s[0] == c {
        0
    } else {
        1 + find_char(s.drop_first(), c)
    }
}

pub proof fn lemma_find_char(s: Seq<char>, c: char)
    ensures
        0 <= find_char(s, c) <= s.len(),
        find_char(s, c) < s.len() ==> s[find_char(s, c)] == c,
        forall|j: int| 0 <= j < find_char(s, c) ==> s[j] != c,
    decreases s.len(),
{
    if s.len() > 0 && s[0] != c {
        lemma_find_char(s.drop_first(), c);
        assert forall|j: int| 0 <= j < find_char(s, c) implies s[j] != c by {
            if j >= 1 {
                assert(s.drop_first()[j - 1] == s[j]);
                assert(s.drop_first()[j - 1] != c);
            }
        }
    }
}

/// Find the first occurrence of `c`, returning the vector's length if there
/// is none.
pub(crate) fn find_char_exec(cs: &Vec<char>, c: char) -> (k: usize)
    ensures
        k as int == find_char(cs@, c),
{
    proof {
        lemma_find_char(cs@, c);
    }
    let n = cs.len();
    let mut i: usize = 0;
    while i < n
        invariant
            i <= n,
            n == cs@.len(),
            forall|j: int| 0 <= j < i ==> cs@[j] != c,
        decreases n - i,
    {
        if cs[i] == c {
            return i;
        }
        i = i + 1;
    }
    n
}

/// Split `s` into at most `n` comma-separated fields; the last field keeps
/// any remaining commas.
pub open spec fn split_fields(s: Seq<char>, n: nat) -> Seq<Seq<char>>
    decreases n,
{
    if n <= 1 {
        seq![s]
    } else {
        let k = find_char(s, ',');
        if k == s.len() {
            seq![s]
        } else {
            seq![s.take(k)] + split_fields(s.skip(k + 1), (n - 1) as nat)
        }
    }
}

/// Copy the characters of `cs` between `a` and `b`.
pub(crate) fn vec_range(cs: &Vec<char>, a: usize, b: usize) -> (r: Vec<char>)
    requires
        a <= b <= cs@.len(),
    ensures
        r@ == cs@.subrange(a as int, b as int),
{
    let mut out: Vec<char> = Vec::new();
    let mut i: usize = a;
    while i < b
        invariant
            a <= i <= b <= cs@.len(),
            out@ == cs@.subrange(a as int, i as int),
        decreases b - i,
    {
        out.push(cs[i]);
        proof {
            assert(cs@.subrange(a as int, i + 1) =~= cs@.subrange(a as int, i as int).push(cs@[i as int]));
        }
        i = i + 1;
    }
    out
}

/// Split into at most `n` comma-separated fields.
pub(crate) fn split_fields_exec(cs: &Vec<char>, n: usize) -> (r: Vec<Vec<char>>)
    requires
        n >= 1,
    ensures
        r.deep_view() == split_fields(cs@, n as nat),
    decreases n,
{
    proof {
        lemma_find_char(cs@, ',');
    }
    if n == 1 {
        let whole = vec_range(cs, 0, cs.len());
        let mut r: Vec<Vec<char>> = Vec::new();
        r.push(whole);
        proof {
            assert(cs@.subrange(0, cs@.len() as int) =~= cs@);
            assert(r.deep_view() =~~= split_fields(cs@, n as nat));
        }
        r
    } else {
        let k = find_char_exec(cs, ',');
        if k == cs.len() {
            let whole = vec_range(cs, 0, cs.len());
            let mut r: Vec<Vec<char>> = Vec::new();
            r.push(whole);
            proof {
                assert(cs@.subrange(0, cs@.len() as int) =~= cs@);
                assert(r.deep_view() =~~= split_fields(cs@, n as nat));
            }
            r
        } else {
            let head = vec_range(cs, 0, k);
            let tail = vec_range(cs, k + 1, cs.len());
            let mut rest = split_fields_exec(&tail, n - 1);
            let mut r: Vec<Vec<char>> = Vec::new();
            r.push(head);
            r.append(&mut rest);
            proof {
                assert(head@ == cs@.take(k as int));
                assert(tail@ =~= cs@.skip(k + 1));
                assert(r.deep_view() =~~= split_fields(cs@, n as nat));
            }
            r
        }
    }
}

// ---------------------------------------------------------------------
// Unsigned integer parsing
// ---------------------------------------------------------------------

pub open spec fn is_digit_char(c: char) -> bool {
    48 <= c as u32 && c as u32 <= 57
}

pub open spec fn all_digits(s: Seq<char>) -> bool {
    forall|i: int| 0 <= i < s.len() ==> is_digit_char(#[trigger] s[i])
}

/// The numeric value of a digit string.
pub open spec fn digits_val(s: Seq<char>) -> int
    decreases s.len(),
{
    if s.len() == 0 {
        0
    } else {
        digits_val(s.drop_last()) * 10 + (s.last() as u32 - 48)
    }
}

pub open spec fn pow10(n: nat) -> int
    decreases n,
{
    if n == 0 {
        1
    } else {
        10 * pow10((n - 1) as nat)
    }
}

/// What `str::parse::<u32>` accepts: an optional leading `+`, then one or
/// more ASCII digits whose value fits in a `u32`.
pub open spec fn spec_parse_u32(s: Seq<char>) -> Option<u32> {
    let body = if s.len() > 0 && s[0] == '+' {
        s.drop_first()
    } else {
        s
    };
    if body.len() > 0 && all_digits(body) && digits_val(body) <= u32::MAX {
        Some(digits_val(body) as u32)
    } else {
        None
    }
}

proof fn lemma_digits_drop_leading_zero(s: Seq<char>)
    requires
        s.len() > 0,
        (s[0] as u32) == 48,
    ensures
        digits_val(s) == digits_val(s.drop_first()),
    decreases s.len(),
{
    if s.len() == 1 {
        assert(s.drop_last() =~= Seq::<char>::empty());
        assert(s.drop_first() =~= Seq::<char>::empty());
    } else {
        lemma_digits_drop_leading_zero(s.drop_last());
        assert(s.drop_last().drop_first() =~= s.drop_first().drop_last());
        assert(s.drop_first().last() == s.last());
    }
}

proof fn lemma_digits_val_upper(s: Seq<char>)
    requires
        all_digits(s),
    ensures
        0 <= digits_val(s) < pow10(s.len()),
    decreases s.len(),
{
    if s.len() > 0 {
        lemma_digits_val_upper(s.drop_last());
    }
}

proof fn lemma_digits_val_lower(s: Seq<char>)
    requires
        all_digits(s),
        s.len() > 0,
        (s[0] as u32) != 48,
    ensures
        digits_val(s) >= pow10((s.len() - 1) as nat),
    decreases s.len(),
{
    if s.len() == 1 {
        assert(s.drop_last().len() == 0);
        assert(digits_val(s) == (s[0] as u32) - 48);
        assert(is_digit_char(s[0]));
        assert(pow10(0) == 1);
    } else {
        assert(forall|j: int| 0 <= j < s.len() - 1 ==> #[trigger] s.drop_last()[j] == s[j]);
        lemma_digits_val_lower(s.drop_last());
        assert(is_digit_char(s.last()));
        assert(digits_val(s) == digits_val(s.drop_last()) * 10 + (s.last() as u32 - 48));
        assert(pow10((s.len() - 1) as nat) == 10 * pow10((s.len() - 2) as nat));
    }
}

/// Parse a digit string as `str::parse::<u32>` would: an optional `+` sign,
/// at least one digit, value at most `u32::MAX`; anything else is rejected.
pub(crate) fn parse_u32_chars(cs: &Vec<char>) -> (r: Option<u32>)
    ensures
        r == spec_parse_u32(cs@),
{
    let n = cs.len();
    let start: usize = if n > 0 && cs[0] == '+' {
        1
    } else {
        0
    };
    let ghost body = if cs@.len() > 0 && cs@[0] == '+' {
        cs@.drop_first()
    } else {
        cs@
    };
    proof {
        assert(body =~= cs@.subrange(start as int, n as int));
    }
    if start == n {
        return None;
    }
    let mut i: usize = start;
    while i < n
        invariant
            start <= i <= n,
            n == cs@.len(),
            body == cs@.subrange(start as int, n as int),
            forall|j: int| start <= j < i ==> is_digit_char(#[trigger] cs@[j]),
        decreases n - i,
    {
        let u = cs[i] as u32;
        if u < 48 || u > 57 {
            proof {
                assert(body[i - start] == cs@[i as int]);
                assert(!all_digits(body));
            }
            return None;
        }
        i = i + 1;
    }
    proof {
        assert(all_digits(body)) by {
            assert(forall|j: int| 0 <= j < body.len() ==> #[trigger] body[j] == cs@[j + start]);
        }
    }
    // Skip leading zeros: they do not change the value.
    let mut z: usize = start;
    while z < n && cs[z] as u32 == 48
        invariant
            start <= z <= n,
            n == cs@.len(),
            body == cs@.subrange(start as int, n as int),
            all_digits(body),
            digits_val(body) == digits_val(cs@.subrange(z as int, n as int)),
            all_digits(cs@.subrange(z as int, n as int)),
        decreases n - z,
    {
        proof {
            let cur = cs@.subrange(z as int, n as int);
            lemma_digits_drop_leading_zero(cur);
            assert(cur.drop_first() =~= cs@.subrange(z + 1, n as int));
        }
        z = z + 1;
    }
    let ghost rest = cs@.subrange(z as int, n as int);
    if n - z > 10 {
        // At least eleven digits with a nonzero leading digit: the value
        // exceeds any u32.
        proof {
            lemma_digits_val_lower(rest);
            lemma_pow10_at_least(10, (rest.len() - 1) as nat);
            reveal_with_fuel(pow10, 11);
            assert(pow10(10) == 10000000000);
        }
        return None;
    }
    let mut acc: u64 = 0;
    let mut j: usize = z;
    while j < n
        invariant
            z <= j <= n,
            n == cs@.len(),
            rest == cs@.subrange(z as int, n as int),
            all_digits(rest),
            n - z <= 10,
            acc as int == digits_val(cs@.subrange(z as int, j as int)),
            (acc as int) < pow10((j - z) as nat),
        decreases n - j,
    {
        proof {
            assert(rest[j - z] == cs@[j as int]);
            let taken = cs@.subrange(z as int, j as int);
            let taken1 = cs@.subrange(z as int, j + 1);
            assert(taken1.drop_last() =~= taken);
            assert(taken1.last() == cs@[j as int]);
            lemma_pow10_at_least((j - z) as nat, 9);
            reveal_with_fuel(pow10, 11);
            assert(pow10(10) == 10000000000);
        }
        let d = cs[j] as u32 - 48;
        acc = acc * 10 + (d as u64);
        j = j + 1;
    }
    proof {
        assert(cs@.subrange(z as int, j as int) == rest);
    }
    if acc > 0xFFFF_FFFFu64 {
        None
    } else {
        Some(acc as u32)
    }
}

proof fn lemma_pow10_at_least(n: nat, m: nat)
    requires
        n <= m,
    ensures
        pow10(n) <= pow10(m),
        pow10(n) >= 1,
    decreases m,
{
    if m > 0 {
        if n == m {
            lemma_pow10_at_least((n - 1) as nat, (m - 1) as nat);
        } else {
            lemma_pow10_at_least(n, (m - 1) as nat);
        }
    }
}

// ---------------------------------------------------------------------
// Line splitting
// ---------------------------------------------------------------------

/// `s` cut at every newline; the final piece is what follows the last
/// newline, possibly empty.
pub open spec fn raw_split_lines(s: Seq<char>) -> Seq<Seq<char>>
    decreases s.len(),
{
    let k = find_char(s, '\n');
    if 0 <= k && k < s.len() {
        seq![s.take(k)] + raw_split_lines(s.skip(k + 1))
    } else {
        seq![s]
    }
}

/// A line without its trailing carriage return, if it has one.
pub open spec fn strip_cr(l: Seq<char>) -> Seq<char> {
    if l.len() > 0 && l.last() == '\r' {
        l.drop_last()
    } else {
        l
    }
}

/// The lines of `s` as `str::lines` yields them: cut at `\n`, a trailing
/// carriage return removed from each, and no final empty line when the text
/// ends with a newline.
pub open spec fn spec_lines(s: Seq<char>) -> Seq<Seq<char>> {
    let p = raw_split_lines(s);
    let q = if p.len() > 0 && p.last().len() == 0 {
        p.drop_last()
    } else {
        p
    };
    q.map_values(|l: Seq<char>| strip_cr(l))
}

fn raw_split_lines_exec(cs: &Vec<char>) -> (r: Vec<Vec<char>>)
    ensures
        r.deep_view() == raw_split_lines(cs@),
    decreases cs@.len(),
{
    proof {
        lemma_find_char(cs@, '\n');
    }
    let k = find_char_exec(cs, '\n');
    if k == cs.len() {
        let whole = vec_range(cs, 0, cs.len());
        let mut r: Vec<Vec<char>> = Vec::new();
        r.push(whole);
        proof {
            assert(cs@.subrange(0, cs@.len() as int) =~= cs@);
            assert(r.deep_view() =~~= raw_split_lines(cs@));
        }
        r
    } else {
        let head = vec_range(cs, 0, k);
        let tail = vec_range(cs, k + 1, cs.len());
        let mut rest = raw_split_lines_exec(&tail);
        let mut r: Vec<Vec<char>> = Vec::new();
        r.push(head);
        r.append(&mut rest);
        proof {
            assert(tail@ =~= cs@.skip(k + 1));
            assert(r.deep_view() =~~= raw_split_lines(cs@));
        }
        r
    }
}

/// The lines of the input text, as `str::lines` would cut them.
pub(crate) fn split_lines_exec(cs: &Vec<char>) -> (r: Vec<Vec<char>>)
    ensures
        r.deep_view() == spec_lines(cs@),
{
    let mut parts = raw_split_lines_exec(cs);
    let ghost p = raw_split_lines(cs@);
    proof {
        assert(parts.deep_view() == p);
        assert(p.len() > 0 ==> parts.deep_view()[p.len() - 1] =~= parts@[p.len() - 1]@);
    }
    if parts.len() > 0 && parts[parts.len() - 1].len() == 0 {
        parts.pop();
        proof {
            assert(parts.deep_view() =~~= p.drop_last());
        }
    }
    let ghost q = if p.len() > 0 && p.last().len() == 0 {
        p.drop_last()
    } else {
        p
    };
    proof {
        assert(parts.deep_view() == q);
    }
    let n = parts.len();
    let mut out: Vec<Vec<char>> = Vec::new();
    let mut i: usize = 0;
    while i < n
        invariant
            i <= n,
            n == q.len(),
            parts.deep_view() == q,
            parts@.len() == n,
            out.deep_view() == q.map_values(|l: Seq<char>| strip_cr(l)).take(i as int),
        decreases n - i,
    {
        let li = &parts[i];
        proof {
            assert(parts.deep_view()[i as int] =~= li@);
        }
        let m = li.len();
        let stripped: Vec<char> = if m > 0 && li[m - 1] == '\r' {
            vec_range(li, 0, m - 1)
        } else {
            vec_range(li, 0, m)
        };
        proof {
            assert(li@.subrange(0, li@.len() as int) =~= li@);
            assert(stripped@ == strip_cr(q[i as int]));
        }
        out.push(stripped);
        proof {
            let mapped = q.map_values(|l: Seq<char>| strip_cr(l));
            assert(mapped.take(i + 1) =~= mapped.take(i as int).push(mapped[i as int]));
            assert(out.deep_view() =~~= mapped.take(i + 1));
        }
        i = i + 1;
    }
    proof {
        let mapped = q.map_values(|l: Seq<char>| strip_cr(l));
        assert(mapped.take(n as int) =~= mapped);
    }
    out
}

// ---------------------------------------------------------------------
// Classifying lines, building records
// ---------------------------------------------------------------------

/// A diagnostic for a skipped input row.
pub enum ParseWarning {
    /// The row did not split into exactly five fields.
    MalformedLine { line: String },
    /// The first field did not parse as an unsigned integer.
    InvalidDiscriminant { line: String },
    /// The discriminant's leading digit group is not a known dimension code.
    UnknownDimensionCode { discriminant: u32, code: u32 },
}

/// The mathematical shadow of a `ParseWarning`.
pub ghost enum ParseWarningView {
    MalformedLine { line: Seq<char> },
    InvalidDiscriminant { line: Seq<char> },
    UnknownDimensionCode { discriminant: u32, code: u32 },
}

impl View for ParseWarning {
    type V = ParseWarningView;

    open spec fn view(&self) -> ParseWarningView {
        match self {
            ParseWarning::MalformedLine { line } => ParseWarningView::MalformedLine { line: line@ },
            ParseWarning::InvalidDiscriminant { line } => ParseWarningView::InvalidDiscriminant {
                line: line@,
            },
            ParseWarning::UnknownDimensionCode { discriminant, code } => (
            ParseWarningView::UnknownDimensionCode { discriminant: *discriminant, code: *code }),
        }
    }
}

/// What the loader does with one line of the table.
pub ghost enum LineOutcome {
    /// Blank, or a comment: ignored without a diagnostic.
    Blank,
    /// A valid row, accepted as a record.
    Record(UnitView),
    /// Not exactly five fields: skipped with a warning.
    Malformed(Seq<char>),
    /// Unparsable discriminant: skipped with a warning.
    BadDiscriminant(Seq<char>),
    /// Unknown dimension code: skipped with a warning.
    UnknownCode(u32),
}

/// Classify one line of the table. The dimension field of the row is ignored:
/// the dimension is recomputed from the discriminant.
pub open spec fn classify_line(line: Seq<char>) -> LineOutcome {
    let t = trim_spec(line);
    if t.len() == 0 || t[0] == '#' {
        LineOutcome::Blank
    } else {
        let parts = split_fields(t, 5);
        if parts.len() != 5 {
            LineOutcome::Malformed(t)
        } else {
            match spec_parse_u32(trim_spec(parts[0])) {
                Option::None => LineOutcome::BadDiscriminant(t),
                Option::Some(v) => match spec_dimension_of_code(v / 10000) {
                    Option::None => LineOutcome::UnknownCode(v),
                    Option::Some(dim) => LineOutcome::Record(
                        UnitView {
                            name: trim_spec(parts[2]),
                            constant_suffix: upper_snake_of(trim_spec(parts[2])),
                            symbol: trim_spec(parts[3]),
                            dimension: dim,
                        },
                    ),
                },
            }
        }
    }
}

/// The record an outcome contributes, if any.
pub open spec fn outcome_records(o: LineOutcome) -> Seq<UnitView> {
    match o {
        LineOutcome::Record(u) => seq![u],
        _ => Seq::empty(),
    }
}

/// The warning an outcome contributes, if any.
pub open spec fn outcome_warnings(o: LineOutcome) -> Seq<ParseWarningView> {
    match o {
        LineOutcome::Malformed(t) => seq![ParseWarningView::MalformedLine { line: t }],
        LineOutcome::BadDiscriminant(t) => seq![ParseWarningView::InvalidDiscriminant { line: t }],
        LineOutcome::UnknownCode(v) => seq![
            ParseWarningView::UnknownDimensionCode { discriminant: v, code: v / 10000 },
        ],
        _ => Seq::empty(),
    }
}

/// The records accepted from a sequence of lines, in source order.
pub open spec fn records_of_lines(ls: Seq<Seq<char>>) -> Seq<UnitView>
    decreases ls.len(),
{
    if ls.len() == 0 {
        Seq::empty()
    } else {
        records_of_lines(ls.drop_last()) + outcome_records(classify_line(ls.last()))
    }
}

/// The warnings emitted for a sequence of lines, in source order.
pub open spec fn warnings_of_lines(ls: Seq<Seq<char>>) -> Seq<ParseWarningView>
    decreases ls.len(),
{
    if ls.len() == 0 {
        Seq::empty()
    } else {
        warnings_of_lines(ls.drop_last()) + outcome_warnings(classify_line(ls.last()))
    }
}

/// Parse the raw unit-table text: blank lines and `#` comments are ignored,
/// each remaining line must hold five comma-separated fields with a valid
/// discriminant, and every failure skips just that line with a warning.
pub fn parse_units(content: &str) -> (r: (Vec<UnitRecord>, Vec<ParseWarning>))
    ensures
        views_of(r.0@) == records_of_lines(spec_lines(content@)),
        r.1@.map_values(|w: ParseWarning| w@) == warnings_of_lines(spec_lines(content@)),
{
    let cs = str_to_chars(content);
    let lines = split_lines_exec(&cs);
    let ghost lv = spec_lines(content@);
    let mut records: Vec<UnitRecord> = Vec::new();
    let mut warnings: Vec<ParseWarning> = Vec::new();
    proof {
        assert(lv.take(0) =~= Seq::<Seq<char>>::empty());
        assert(views_of(records@) =~= records_of_lines(lv.take(0)));
        assert(warnings@.map_values(|w: ParseWarning| w@) =~= warnings_of_lines(lv.take(0)));
    }
    let n = lines.len();
    let mut i: usize = 0;
    while i < n
        invariant
            i <= n,
            n == lv.len(),
            lines@.len() == n,
            lines.deep_view() == lv,
            views_of(records@) == records_of_lines(lv.take(i as int)),
            warnings@.map_values(|w: ParseWarning| w@) == warnings_of_lines(lv.take(i as int)),
        decreases n - i,
    {
        let ghost line = lv[i as int];
        let ghost outcome = classify_line(line);
        proof {
            assert(lines.deep_view()[i as int] =~= lines@[i as int]@);
        }
        let t = trim_chars(&lines[i]);
        if t.len() == 0 || t[0] == '#' {
            proof {
                assert(outcome is Blank);
            }
        } else {
            let parts = split_fields_exec(&t, 5);
            let ghost sparts = split_fields(trim_spec(line), 5);
            proof {
                assert(parts@.len() == sparts.len());
            }
            if parts.len() != 5 {
                warnings.push(ParseWarning::MalformedLine { line: chars_to_string(&t) });
                proof {
                    assert(outcome == LineOutcome::Malformed(trim_spec(line)));
                }
            } else {
                proof {
                    assert(parts.deep_view()[0] =~= parts@[0]@);
                    assert(parts@[0]@ == sparts[0]);
                }
                let d = trim_chars(&parts[0]);
                match parse_u32_chars(&d) {
                    Option::None => {
                        warnings.push(
                            ParseWarning::InvalidDiscriminant { line: chars_to_string(&t) },
                        );
                        proof {
                            assert(outcome == LineOutcome::BadDiscriminant(trim_spec(line)));
                        }
                    },
                    Option::Some(v) => {
                        let code = v / 10000;
                        match dimension_of_code(code) {
                            Option::None => {
                                warnings.push(
                                    ParseWarning::UnknownDimensionCode { discriminant: v, code },
                                );
                                proof {
                                    assert(outcome == LineOutcome::UnknownCode(v));
                                }
                            },
                            Option::Some(dim) => {
                                proof {
                                    assert(parts.deep_view()[2] =~= parts@[2]@);
                                    assert(parts@[2]@ == sparts[2]);
                                    assert(parts.deep_view()[3] =~= parts@[3]@);
                                    assert(parts@[3]@ == sparts[3]);
                                }
                                let name_t = trim_chars(&parts[2]);
                                let sym_t = trim_chars(&parts[3]);
                                let name = chars_to_string(&name_t);
                                let constant_suffix = pascal_to_upper_snake(name.as_str());
                                let symbol = chars_to_string(&sym_t);
                                let rec = UnitRecord { name, constant_suffix, symbol, dimension: dim };
                                proof {
                                    assert(outcome == LineOutcome::Record(rec@));
                                }
                                records.push(rec);
                            },
                        }
                    },
                }
            }
        }
        proof {
            assert(lv.take(i + 1) =~= lv.take(i as int).push(line));
            assert(lv.take(i + 1).drop_last() =~= lv.take(i as int));
            assert(lv.take(i + 1).last() == line);
            assert(views_of(records@) =~= records_of_lines(lv.take(i + 1)));
            assert(warnings@.map_values(|w: ParseWarning| w@) =~= warnings_of_lines(lv.take(i + 1)));
        }
        i = i + 1;
    }
    proof {
        assert(lv.take(n as int) =~= lv);
    }
    (records, warnings)
}

// ---------------------------------------------------------------------
// Laws
// ---------------------------------------------------------------------

proof fn lemma_outputs_of_lines_concat(a: Seq<Seq<char>>, b: Seq<Seq<char>>)
    ensures
        records_of_lines(a + b) == records_of_lines(a) + records_of_lines(b),
        warnings_of_lines(a + b) == warnings_of_lines(a) + warnings_of_lines(b),
    decreases b.len(),
{
    if b.len() == 0 {
        assert(a + b =~= a);
        assert(records_of_lines(a) + records_of_lines(b) =~= records_of_lines(a));
        assert(warnings_of_lines(a) + warnings_of_lines(b) =~= warnings_of_lines(a));
    } else {
        assert((a + b).drop_last() =~= a + b.drop_last());
        assert((a + b).last() == b.last());
        lemma_outputs_of_lines_concat(a, b.drop_last());
        assert(records_of_lines(a + b) =~= records_of_lines(a) + records_of_lines(b));
        assert(warnings_of_lines(a + b) =~= warnings_of_lines(a) + warnings_of_lines(b));
    }
}

/// A line that is not accepted — malformed, with an unparsable discriminant,
/// with an unknown dimension code, blank or a comment — contributes nothing
/// to the accepted records: the records of the run are exactly those of the
/// other lines.
pub proof fn lemma_skipped_line_invisible(pre: Seq<Seq<char>>, bad: Seq<char>, post: Seq<Seq<char>>)
    requires
        !(classify_line(bad) is Record),
    ensures
        records_of_lines(pre + seq![bad] + post) == records_of_lines(pre + post),
{
    lemma_outputs_of_lines_concat(pre + seq![bad], post);
    lemma_outputs_of_lines_concat(pre, seq![bad]);
    lemma_outputs_of_lines_concat(pre, post);
    assert(seq![bad].drop_last() =~= Seq::<Seq<char>>::empty());
    assert(seq![bad].last() == bad);
    assert(records_of_lines(Seq::<Seq<char>>::empty()) =~= Seq::<UnitView>::empty());
    assert(records_of_lines(seq![bad]) =~= Seq::<UnitView>::empty());
    assert(records_of_lines(pre + seq![bad]) =~= records_of_lines(pre));
}

/// The loader invents nothing: every accepted record is the classification
/// of some input line that parsed as a valid row, so a record's dimension is
/// always the known mapping of that row's discriminant.
pub proof fn lemma_every_record_has_a_line(ls: Seq<Seq<char>>, r: UnitView)
    requires
        records_of_lines(ls).contains(r),
    ensures
        exists|i: int|
            0 <= i < ls.len() && classify_line(#[trigger] ls[i]) == LineOutcome::Record(r),
    decreases ls.len(),
{
    let pre = records_of_lines(ls.drop_last());
    let last_part = outcome_records(classify_line(ls.last()));
    let k = choose|k: int|
        0 <= k < records_of_lines(ls).len() && records_of_lines(ls)[k] == r;
    if k < pre.len() {
        assert(pre[k] == r);
        assert(pre.contains(r));
        lemma_every_record_has_a_line(ls.drop_last(), r);
        let i = choose|i: int|
            0 <= i < ls.drop_last().len() && classify_line(#[trigger] ls.drop_last()[i])
                == LineOutcome::Record(r);
        assert(ls.drop_last()[i] == ls[i]);
        assert(classify_line(ls[i]) == LineOutcome::Record(r));
    } else {
        assert(last_part[k - pre.len()] == r);
        assert(classify_line(ls.last()) == LineOutcome::Record(r));
        assert(ls.last() == ls[ls.len() - 1]);
    }
}

} // verus!
