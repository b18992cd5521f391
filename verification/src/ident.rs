//! Identifier derivation: the PascalCase to UPPER_SNAKE_CASE rule for
//! constant suffixes, and the symbol to literal-suffix rule.

use vstd::prelude::*;
use crate::chars::is_ascii_char;
use crate::chars::is_lower_char;
use crate::chars::is_upper_char;
use crate::chars::upper_chars_of;
use crate::chars::char_is_lowercase;
use crate::chars::char_is_uppercase;
use crate::chars::char_to_uppercase;
use crate::chars::chars_to_string;
use crate::chars::str_to_chars;

verus! {

/// Whether the casing rule inserts a separator before position `i`: the
/// character there is uppercase and not first, and either the previous
/// character is lowercase, or it is uppercase while the next character (if
/// any) is lowercase.
pub open spec fn needs_separator(s: Seq<char>, i: int) -> bool {
    &&& 0 < i < s.len()
    &&& is_upper_char(s[i])
    &&& {
        ||| is_lower_char(s[i - 1])
        ||| (is_upper_char(s[i - 1]) && i + 1 < s.len() && is_lower_char(s[i + 1]))
    }
}

/// What position `i` of `s` contributes to the UPPER_SNAKE_CASE form: an
/// optional separator, then the uppercase mapping of the character.
pub open spec fn snake_piece(s: Seq<char>, i: int) -> Seq<char> {
    if needs_separator(s, i) {
        seq!['_'] + upper_chars_of(s[i])
    } else {
        upper_chars_of(s[i])
    }
}

/// The UPPER_SNAKE_CASE form of the first `n` characters of `s`.
pub open spec fn upper_snake_prefix(s: Seq<char>, n: int) -> Seq<char>
    decreases n,
{
    if n <= 0 {
        Seq::empty()
    } else {
        upper_snake_prefix(s, n - 1) + snake_piece(s, n - 1)
    }
}

/// The UPPER_SNAKE_CASE form of a PascalCase name.
pub open spec fn upper_snake_of(s: Seq<char>) -> Seq<char> {
    upper_snake_prefix(s, s.len() as int)
}

/// Convert a PascalCase identifier to UPPER_SNAKE_CASE: a separator `_` is
/// inserted wherever `needs_separator` says, and every character is emitted
/// in its uppercase form.
pub fn pascal_to_upper_snake(name: &str) -> (r: String)
    ensures
        r@ == upper_snake_of(name@),
{
    let cs = str_to_chars(name);
    let n = cs.len();
    let mut out: Vec<char> = Vec::new();
    let mut i: usize = 0;
    while i < n
        invariant
            i <= n,
            n == cs@.len(),
            cs@ == name@,
            out@ == upper_snake_prefix(name@, i as int),
        decreases n - i,
    {
        let c = cs[i];
        if i > 0 && char_is_uppercase(c) {
            let prev = cs[i - 1];
            let mut need = char_is_lowercase(prev);
            if !need && char_is_uppercase(prev) && i + 1 < n {
                need = char_is_lowercase(cs[i + 1]);
            }
            if need {
                out.push('_');
            }
        }
        let mut ups = char_to_uppercase(c);
        out.append(&mut ups);
        proof {
            assert(out@ =~= upper_snake_prefix(name@, i as int) + snake_piece(name@, i as int));
        }
        i = i + 1;
    }
    chars_to_string(&out)
}

/// Whether `c` survives the literal-suffix filter: an ASCII letter, an ASCII
/// digit, or an underscore.
pub open spec fn is_suffix_keep_char(c: char) -> bool {
    ||| (48 <= c as u32 && c as u32 <= 57)
    ||| (65 <= c as u32 && c as u32 <= 90)
    ||| (97 <= c as u32 && c as u32 <= 122)
    ||| c == '_'
}

pub fn suffix_keep_char(c: char) -> (r: bool)
    ensures
        r == is_suffix_keep_char(c),
{
    let u = c as u32;
    (48 <= u && u <= 57) || (65 <= u && u <= 90) || (97 <= u && u <= 122) || c == '_'
}

/// What one symbol character contributes to the literal suffix: the fixed
/// replacement for the special characters, the character itself when it is
/// already identifier-safe, and nothing otherwise.
pub open spec fn symbol_char_expansion(c: char) -> Seq<char> {
    if c == '/' {
        seq!['_', 'p', 'e', 'r', '_']
    } else if c == '°' {
        seq!['d', 'e', 'g']
    } else if c == '′' {
        seq!['a', 'r', 'c', 'm', 'i', 'n']
    } else if c == '″' {
        seq!['a', 'r', 'c', 's', 'e', 'c']
    } else if c == 'µ' {
        seq!['u']
    } else if c == '☉' {
        seq!['s', 'o', 'l']
    } else if c == '⊕' {
        seq!['e', 'a', 'r', 't', 'h']
    } else if c == '☾' {
        seq!['m', 'o', 'o', 'n']
    } else if c == '♃' {
        seq!['j', 'u', 'p', 'i', 't', 'e', 'r']
    } else if c == ' ' {
        seq!['_']
    } else if is_suffix_keep_char(c) {
        seq![c]
    } else {
        Seq::empty()
    }
}

/// The literal suffix derived from the first `n` characters of a symbol.
pub open spec fn suffix_prefix(s: Seq<char>, n: int) -> Seq<char>
    decreases n,
{
    if n <= 0 {
        Seq::empty()
    } else {
        suffix_prefix(s, n - 1) + symbol_char_expansion(s[n - 1])
    }
}

/// The literal suffix derived from a whole symbol; the symbol has no usable
/// suffix exactly when this is empty.
pub open spec fn suffix_of(s: Seq<char>) -> Seq<char> {
    suffix_prefix(s, s.len() as int)
}

/// Derive a literal-suffix identifier from a unit symbol: the special
/// characters are expanded, every other character that is not an ASCII
/// letter, digit or underscore is dropped, and an empty outcome means the
/// symbol has no usable suffix.
pub fn make_literal_suffix(symbol: &str) -> (r: Option<String>)
    ensures
        match r {
            Some(t) => t@ == suffix_of(symbol@) && suffix_of(symbol@).len() > 0,
            None => suffix_of(symbol@).len() == 0,
        },
{
    let cs = str_to_chars(symbol);
    let n = cs.len();
    let mut out: Vec<char> = Vec::new();
    let mut i: usize = 0;
    while i < n
        invariant
            i <= n,
            n == cs@.len(),
            cs@ == symbol@,
            out@ == suffix_prefix(symbol@, i as int),
        decreases n - i,
    {
        let c = cs[i];
        let mut piece: Vec<char> = if c == '/' {
            vec!['_', 'p', 'e', 'r', '_']
        } else if c == '°' {
            vec!['d', 'e', 'g']
        } else if c == '′' {
            vec!['a', 'r', 'c', 'm', 'i', 'n']
        } else if c == '″' {
            vec!['a', 'r', 'c', 's', 'e', 'c']
        } else if c == 'µ' {
            vec!['u']
        } else if c == '☉' {
            vec!['s', 'o', 'l']
        } else if c == '⊕' {
            vec!['e', 'a', 'r', 't', 'h']
        } else if c == '☾' {
            vec!['m', 'o', 'o', 'n']
        } else if c == '♃' {
            vec!['j', 'u', 'p', 'i', 't', 'e', 'r']
        } else if c == ' ' {
            vec!['_']
        } else if suffix_keep_char(c) {
            vec![c]
        } else {
            Vec::new()
        };
        out.append(&mut piece);
        proof {
            assert(out@ =~= suffix_prefix(symbol@, i as int) + symbol_char_expansion(symbol@[i as int]));
        }
        i = i + 1;
    }
    if out.len() == 0 {
        None
    } else {
        Some(chars_to_string(&out))
    }
}

/// Whether every character of `s` is ASCII.
pub open spec fn is_ascii_seq(s: Seq<char>) -> bool {
    forall|i: int| 0 <= i < s.len() ==> is_ascii_char(#[trigger] s[i])
}

/// Whether no character of `s` is lowercase.
pub open spec fn no_lower_seq(s: Seq<char>) -> bool {
    forall|i: int| 0 <= i < s.len() ==> !is_lower_char(#[trigger] s[i])
}

proof fn lemma_snake_prefix_ascii_no_lower(s: Seq<char>, n: int)
    requires
        is_ascii_seq(s),
        0 <= n <= s.len(),
    ensures
        is_ascii_seq(upper_snake_prefix(s, n)),
        no_lower_seq(upper_snake_prefix(s, n)),
    decreases n,
{
    if n > 0 {
        lemma_snake_prefix_ascii_no_lower(s, n - 1);
        let c = s[n - 1];
        assert(is_ascii_char(c));
        let up = upper_chars_of(c);
        assert(is_ascii_seq(up) && no_lower_seq(up)) by {
            if is_lower_char(c) {
                let m = (((c as u32) - 32) as u8) as char;
                assert(m as u32 == (c as u32) - 32);
                assert(up =~= seq![m]);
            } else {
                assert(up =~= seq![c]);
            }
        }
        let piece = snake_piece(s, n - 1);
        assert(is_ascii_seq(piece));
        assert(no_lower_seq(piece));
        assert(upper_snake_prefix(s, n) == upper_snake_prefix(s, n - 1) + piece);
    }
}

proof fn lemma_snake_fixed_point(t: Seq<char>, n: int)
    requires
        is_ascii_seq(t),
        no_lower_seq(t),
        0 <= n <= t.len(),
    ensures
        upper_snake_prefix(t, n) == t.take(n),
    decreases n,
{
    if n > 0 {
        lemma_snake_fixed_point(t, n - 1);
        assert(!needs_separator(t, n - 1));
        assert(upper_chars_of(t[n - 1]) == seq![t[n - 1]]);
        assert(upper_snake_prefix(t, n) =~= t.take(n));
    }
}

/// The casing rule is idempotent on ASCII input: converting a name to
/// UPPER_SNAKE_CASE and converting the result again gives the same string.
pub proof fn lemma_upper_snake_idempotent(s: Seq<char>)
    requires
        is_ascii_seq(s),
    ensures
        upper_snake_of(upper_snake_of(s)) == upper_snake_of(s),
{
    lemma_snake_prefix_ascii_no_lower(s, s.len() as int);
    let t = upper_snake_of(s);
    lemma_snake_fixed_point(t, t.len() as int);
    assert(t.take(t.len() as int) =~= t);
}

} // verus!
