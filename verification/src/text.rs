//! Small verified text utilities: template-name normalization (Unicode
//! lowercasing through the store's trusted `str::to_lowercase`, then spaces to
//! underscores), the ASCII-case-insensitive magic-name comparison, markup
//! detection and decimal rendering of positional parameter indices.

use vstd::prelude::*;

verus! {

/// ASCII lowercasing of one character; characters outside `A`..`Z` are kept.
pub open spec fn lower_char(c: char) -> char {
    if 65 <= c as u32 && c as u32 <= 90 {
        ((c as u32) + 32) as char
    } else {
        c
    }
}

/// ASCII lowercasing of a whole string.
pub open spec fn lower_seq(s: Seq<char>) -> Seq<char> {
    s.map_values(|c: char| lower_char(c))
}

/// One character of the separator step of template-name normalization: spaces
/// become underscores.
pub open spec fn norm_char(c: char) -> char {
    if c == ' ' {
        '_'
    } else {
        c
    }
}

/// The normalized form of a template name: Unicode-lowercased (the mapping of
/// `str::to_lowercase`, named `lower_of`), spaces replaced with underscores.
/// This is the key under which the template store and the parse cache file a
/// template.
pub open spec fn norm_seq(s: Seq<char>) -> Seq<char> {
    crate::stdx::lower_of(s).map_values(|c: char| norm_char(c))
}

/// Whether a name is the magic sub-page name, compared case-insensitively.
pub open spec fn is_magic_name(s: Seq<char>) -> bool {
    lower_seq(s) == "subpagename"@
}

pub fn to_lower_char(c: char) -> (r: char)
    ensures
        r == lower_char(c),
{
    let u = c as u32;
    if 65 <= u && u <= 90 {
        ((c as u8) + 32) as char
    } else {
        c
    }
}

pub fn to_norm_char(c: char) -> (r: char)
    ensures
        r == norm_char(c),
{
    if c == ' ' {
        '_'
    } else {
        c
    }
}

pub fn lower_string(s: &str) -> (r: String)
    ensures
        r@ == lower_seq(s@),
{
    let n = s.unicode_len();
    let mut r = String::new();
    let mut i: usize = 0;
    while i < n
        invariant
            i <= n,
            n == s@.len(),
            r@ == lower_seq(s@.subrange(0, i as int)),
        decreases n - i,
    {
        let c = s.get_char(i);
        r.push(to_lower_char(c));
        proof {
            assert(s@.subrange(0, i + 1 as int).drop_last() == s@.subrange(0, i as int));
            assert(r@ =~= lower_seq(s@.subrange(0, i + 1 as int)));
        }
        i = i + 1;
    }
    proof {
        assert(s@.subrange(0, n as int) == s@);
    }
    r
}

/// The normalized key for a template name: Unicode-lowercased, spaces
/// replaced with underscores.
pub fn normalize_name(s: &str) -> (r: String)
    ensures
        r@ == norm_seq(s@),
{
    let lowered = crate::stdx::to_lowercase_str(s);
    let n = lowered.as_str().unicode_len();
    let mut r = String::new();
    let mut i: usize = 0;
    while i < n
        invariant
            i <= n,
            n == lowered@.len(),
            lowered@ == crate::stdx::lower_of(s@),
            r@ == lowered@.subrange(0, i as int).map_values(|c: char| norm_char(c)),
        decreases n - i,
    {
        let c = lowered.as_str().get_char(i);
        r.push(to_norm_char(c));
        proof {
            assert(lowered@.subrange(0, i + 1 as int).drop_last() == lowered@.subrange(
                0,
                i as int,
            ));
            assert(r@ =~= lowered@.subrange(0, i + 1 as int).map_values(
                |c: char| norm_char(c),
            ));
        }
        i = i + 1;
    }
    proof {
        assert(lowered@.subrange(0, n as int) == lowered@);
    }
    r
}

/// Whether the name names the magic sub-page template, case-insensitively.
pub fn is_magic(s: &str) -> (r: bool)
    ensures
        r == is_magic_name(s@),
{
    let lowered = lower_string(s);
    let magic: String = "subpagename".to_owned();
    lowered == magic
}

/// Markup that forces a table cell to be re-parsed: a link opener, emphasis
/// quotes, or template braces.
pub open spec fn has_markup(s: Seq<char>) -> bool {
    exists|i: int|
        0 <= i && i + 1 < s.len() && ((#[trigger] s[i]) == '[' && s[i + 1] == '[' || s[i] == '{'
            && s[i + 1] == '{' || s[i] == '\'' && s[i + 1] == '\'')
}

pub fn contains_markup(s: &str) -> (r: bool)
    ensures
        r == has_markup(s@),
{
    let n = s.unicode_len();
    if n < 2 {
        return false;
    }
    let mut i: usize = 0;
    while i + 1 < n
        invariant
            n == s@.len(),
            i + 1 <= n,
            forall|j: int|
                0 <= j < i ==> !((#[trigger] s@[j]) == '[' && s@[j + 1] == '[' || s@[j] == '{'
                    && s@[j + 1] == '{' || s@[j] == '\'' && s@[j + 1] == '\''),
        decreases n - i,
    {
        let a = s.get_char(i);
        let b = s.get_char(i + 1);
        if (a == '[' && b == '[') || (a == '{' && b == '{') || (a == '\'' && b == '\'') {
            return true;
        }
        i = i + 1;
    }
    false
}

/// The decimal rendering of a nonnegative integer, used to name positional
/// template arguments ("1", "2", ...).
pub open spec fn dec_of(n: nat) -> Seq<char>
    decreases n,
{
    if n < 10 {
        seq![((48 + n) as char)]
    } else {
        dec_of(n / 10).push(((48 + n % 10) as char))
    }
}

pub fn dec_str(n: u64) -> (r: String)
    ensures
        r@ == dec_of(n as nat),
    decreases n,
{
    if n < 10 {
        let mut r = String::new();
        r.push(((48 + n) as u8) as char);
        proof {
            assert(r@ =~= dec_of(n as nat));
        }
        r
    } else {
        let mut r = dec_str(n / 10);
        r.push(((48 + n % 10) as u8) as char);
        proof {
            assert(r@ =~= dec_of(n as nat));
        }
        r
    }
}

} // verus!
