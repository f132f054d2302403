//! The markup grammar: a total parser from text to document trees.
//!
//! The grammar covers the constructs the engine works with: template
//! invocations `{{name|arg=value}}`, parameter placeholders
//! `{{{name|default}}}`, links `[[title|text]]`, bold and italic quotes, and
//! line-oriented tables `{| .. |}`. Anything else, and any construct whose
//! closer is missing, is plain text. The parser is total: every input yields a
//! tree.
//!
//! Scanning is brace-aware: delimiters inside nested `{{..}}`, `{{{..}}}` and
//! `[[..]]` groups do not count. A scanner's spec function is the reference;
//! each exec function computes exactly its spec.

use vstd::prelude::*;

use crate::node::CaptionView;
use crate::node::CellView;
use crate::node::Node;
use crate::node::NodeView;
use crate::node::ParamView;
use crate::node::RowView;
use crate::node::TableCaption;
use crate::node::TableCell;
use crate::node::TableRow;
use crate::node::TemplateParameter;
use crate::node::caption_views;
use crate::node::cell_views;
use crate::node::node_view_lemmas;
use crate::node::node_views;
use crate::node::row_views;
use crate::node::param_views;
use crate::text::dec_str;

verus! {

/// Two given characters stand at `j`, inside the window ending at `end`.
pub open spec fn at2(t: Seq<char>, j: int, end: int, a: char, b: char) -> bool {
    0 <= j && j + 2 <= end && end <= t.len() && t[j] == a && t[j + 1] == b
}

/// Three given characters stand at `j`, inside the window ending at `end`.
pub open spec fn at3(t: Seq<char>, j: int, end: int, a: char, b: char, c: char) -> bool {
    0 <= j && j + 3 <= end && end <= t.len() && t[j] == a && t[j + 1] == b && t[j + 2] == c
}

/// Width of a brace construct's closer: marks are 2 for `{{`, 3 for `{{{`,
/// 4 for `[[` (whose closer `]]` is two characters wide).
pub open spec fn cwidth(m: u8) -> int {
    if m == 3 {
        3
    } else {
        2
    }
}

/// Position of the closer that ends the outermost construct on the stack, or
/// `None` if the text runs out first. The stack holds the marks of the open
/// constructs, innermost last.
pub open spec fn find_close(t: Seq<char>, j: int, end: int, stack: Seq<u8>) -> Option<int>
    decreases end - j,
{
    if j < 0 || j >= end || end > t.len() || stack.len() == 0 {
        None
    } else {
        let top = stack.last();
        if top == 3 && at3(t, j, end, '}', '}', '}') {
            if stack.len() == 1 {
                Some(j)
            } else {
                find_close(t, j + 3, end, stack.drop_last())
            }
        } else if top == 2 && at2(t, j, end, '}', '}') {
            if stack.len() == 1 {
                Some(j)
            } else {
                find_close(t, j + 2, end, stack.drop_last())
            }
        } else if top == 4 && at2(t, j, end, ']', ']') {
            if stack.len() == 1 {
                Some(j)
            } else {
                find_close(t, j + 2, end, stack.drop_last())
            }
        } else if at3(t, j, end, '{', '{', '{') {
            find_close(t, j + 3, end, stack.push(3u8))
        } else if at2(t, j, end, '{', '{') {
            find_close(t, j + 2, end, stack.push(2u8))
        } else if at2(t, j, end, '[', '[') {
            find_close(t, j + 2, end, stack.push(4u8))
        } else {
            find_close(t, j + 1, end, stack)
        }
    }
}

pub proof fn lemma_find_close(t: Seq<char>, j: int, end: int, stack: Seq<u8>)
    requires
        find_close(t, j, end, stack) is Some,
    ensures
        stack.len() >= 1,
        j <= find_close(t, j, end, stack)->Some_0,
        find_close(t, j, end, stack)->Some_0 + cwidth(stack[0]) <= end,
        end <= t.len(),
    decreases end - j,
{
    let top = stack.last();
    if top == 3 && at3(t, j, end, '}', '}', '}') && stack.len() > 1 {
        lemma_find_close(t, j + 3, end, stack.drop_last());
    } else if top == 2 && at2(t, j, end, '}', '}') && stack.len() > 1 {
        lemma_find_close(t, j + 2, end, stack.drop_last());
    } else if top == 4 && at2(t, j, end, ']', ']') && stack.len() > 1 {
        lemma_find_close(t, j + 2, end, stack.drop_last());
    } else if !(top == 3 && at3(t, j, end, '}', '}', '}')) && !(top == 2 && at2(
        t,
        j,
        end,
        '}',
        '}',
    )) && !(top == 4 && at2(t, j, end, ']', ']')) {
        if at3(t, j, end, '{', '{', '{') {
            lemma_find_close(t, j + 3, end, stack.push(3u8));
            assert(stack.push(3u8)[0] == stack[0]);
        } else if at2(t, j, end, '{', '{') {
            lemma_find_close(t, j + 2, end, stack.push(2u8));
            assert(stack.push(2u8)[0] == stack[0]);
        } else if at2(t, j, end, '[', '[') {
            lemma_find_close(t, j + 2, end, stack.push(4u8));
            assert(stack.push(4u8)[0] == stack[0]);
        } else {
            lemma_find_close(t, j + 1, end, stack);
        }
    }
}

/// Exec form of `find_close`, started with a single open construct `mark`.
#[verifier::loop_isolation(false)]
pub fn scan_close(s: &str, j: usize, end: usize, mark: u8) -> (r: Option<usize>)
    requires
        end <= s@.len(),
    ensures
        match r {
            Some(c) => find_close(s@, j as int, end as int, seq![mark]) == Some(c as int),
            None => find_close(s@, j as int, end as int, seq![mark]) is None,
        },
{
    let ghost t = s@;
    let mut stack: Vec<u8> = Vec::new();
    stack.push(mark);
    let mut k = j;
    loop
        invariant
            k <= usize::MAX,
            find_close(t, j as int, end as int, seq![mark]) == find_close(
                t,
                k as int,
                end as int,
                stack@,
            ),
        decreases end - k, stack@.len(),
    {
        if k >= end || stack.len() == 0 {
            return None;
        }
        let top = stack[stack.len() - 1];
        let c0 = s.get_char(k);
        let has1 = end - k >= 2;
        let has2 = end - k >= 3;
        if top == 3 && has2 && c0 == '}' && s.get_char(k + 1) == '}' && s.get_char(k + 2) == '}' {
            if stack.len() == 1 {
                return Some(k);
            }
            stack.pop();
            k = k + 3;
        } else if top == 2 && has1 && c0 == '}' && s.get_char(k + 1) == '}' {
            if stack.len() == 1 {
                return Some(k);
            }
            stack.pop();
            k = k + 2;
        } else if top == 4 && has1 && c0 == ']' && s.get_char(k + 1) == ']' {
            if stack.len() == 1 {
                return Some(k);
            }
            stack.pop();
            k = k + 2;
        } else if has2 && c0 == '{' && s.get_char(k + 1) == '{' && s.get_char(k + 2) == '{' {
            stack.push(3u8);
            k = k + 3;
        } else if has1 && c0 == '{' && s.get_char(k + 1) == '{' {
            stack.push(2u8);
            k = k + 2;
        } else if has1 && c0 == '[' && s.get_char(k + 1) == '[' {
            stack.push(4u8);
            k = k + 2;
        } else {
            k = k + 1;
        }
    }
}


/// Position of the next top-level delimiter: the character `c` (doubled when
/// `dbl` is set), skipping over nested brace and link groups. An unclosed
/// group does not hide delimiters: its opening character is plain text.
pub open spec fn find_top(t: Seq<char>, j: int, end: int, c: char, dbl: bool) -> Option<int>
    decreases end - j,
{
    if j < 0 || j >= end || end > t.len() {
        None
    } else if !dbl && t[j] == c {
        Some(j)
    } else if dbl && at2(t, j, end, c, c) {
        Some(j)
    } else if at3(t, j, end, '{', '{', '{') {
        match find_close(t, j + 3, end, seq![3u8]) {
            Some(cl) => {
                proof {
                    lemma_find_close(t, j + 3, end, seq![3u8]);
                }
                find_top(t, cl + 3, end, c, dbl)
            },
            None => find_top(t, j + 1, end, c, dbl),
        }
    } else if at2(t, j, end, '{', '{') {
        match find_close(t, j + 2, end, seq![2u8]) {
            Some(cl) => {
                proof {
                    lemma_find_close(t, j + 2, end, seq![2u8]);
                }
                find_top(t, cl + 2, end, c, dbl)
            },
            None => find_top(t, j + 1, end, c, dbl),
        }
    } else if at2(t, j, end, '[', '[') {
        match find_close(t, j + 2, end, seq![4u8]) {
            Some(cl) => {
                proof {
                    lemma_find_close(t, j + 2, end, seq![4u8]);
                }
                find_top(t, cl + 2, end, c, dbl)
            },
            None => find_top(t, j + 1, end, c, dbl),
        }
    } else {
        find_top(t, j + 1, end, c, dbl)
    }
}

pub proof fn lemma_find_top(t: Seq<char>, j: int, end: int, c: char, dbl: bool)
    requires
        find_top(t, j, end, c, dbl) is Some,
    ensures
        j <= find_top(t, j, end, c, dbl)->Some_0,
        find_top(t, j, end, c, dbl)->Some_0 < end,
        dbl ==> find_top(t, j, end, c, dbl)->Some_0 + 2 <= end,
        end <= t.len(),
    decreases end - j,
{
    if j < 0 || j >= end || end > t.len() {
    } else if !dbl && t[j] == c {
    } else if dbl && at2(t, j, end, c, c) {
    } else if at3(t, j, end, '{', '{', '{') {
        match find_close(t, j + 3, end, seq![3u8]) {
            Some(cl) => {
                lemma_find_close(t, j + 3, end, seq![3u8]);
                lemma_find_top(t, cl + 3, end, c, dbl);
            },
            None => {
                lemma_find_top(t, j + 1, end, c, dbl);
            },
        }
    } else if at2(t, j, end, '{', '{') {
        match find_close(t, j + 2, end, seq![2u8]) {
            Some(cl) => {
                lemma_find_close(t, j + 2, end, seq![2u8]);
                lemma_find_top(t, cl + 2, end, c, dbl);
            },
            None => {
                lemma_find_top(t, j + 1, end, c, dbl);
            },
        }
    } else if at2(t, j, end, '[', '[') {
        match find_close(t, j + 2, end, seq![4u8]) {
            Some(cl) => {
                lemma_find_close(t, j + 2, end, seq![4u8]);
                lemma_find_top(t, cl + 2, end, c, dbl);
            },
            None => {
                lemma_find_top(t, j + 1, end, c, dbl);
            },
        }
    } else {
        lemma_find_top(t, j + 1, end, c, dbl);
    }
}

/// Exec form of `find_top`.
#[verifier::loop_isolation(false)]
pub fn scan_top(s: &str, j: usize, end: usize, c: char, dbl: bool) -> (r: Option<usize>)
    requires
        end <= s@.len(),
    ensures
        match r {
            Some(p) => find_top(s@, j as int, end as int, c, dbl) == Some(p as int),
            None => find_top(s@, j as int, end as int, c, dbl) is None,
        },
{
    let ghost t = s@;
    let mut k = j;
    loop
        invariant
            find_top(t, j as int, end as int, c, dbl) == find_top(t, k as int, end as int, c, dbl),
        decreases end - k,
    {
        if k >= end {
            return None;
        }
        let c0 = s.get_char(k);
        let has1 = end - k >= 2;
        let has2 = end - k >= 3;
        if !dbl && c0 == c {
            return Some(k);
        } else if dbl && has1 && c0 == c && s.get_char(k + 1) == c {
            return Some(k);
        } else if has2 && c0 == '{' && s.get_char(k + 1) == '{' && s.get_char(k + 2) == '{' {
            match scan_close(s, k + 3, end, 3u8) {
                Some(cl) => {
                    proof {
                        lemma_find_close(t, k + 3 as int, end as int, seq![3u8]);
                    }
                    k = cl + 3;
                },
                None => {
                    k = k + 1;
                },
            }
        } else if has1 && c0 == '{' && s.get_char(k + 1) == '{' {
            match scan_close(s, k + 2, end, 2u8) {
                Some(cl) => {
                    proof {
                        lemma_find_close(t, k + 2 as int, end as int, seq![2u8]);
                    }
                    k = cl + 2;
                },
                None => {
                    k = k + 1;
                },
            }
        } else if has1 && c0 == '[' && s.get_char(k + 1) == '[' {
            match scan_close(s, k + 2, end, 4u8) {
                Some(cl) => {
                    proof {
                        lemma_find_close(t, k + 2 as int, end as int, seq![4u8]);
                    }
                    k = cl + 2;
                },
                None => {
                    k = k + 1;
                },
            }
        } else {
            k = k + 1;
        }
    }
}

/// Position of the next line break, or `end` if the window holds none.
pub open spec fn line_end(t: Seq<char>, j: int, end: int) -> int
    decreases end - j,
{
    if j < 0 || j >= end || end > t.len() {
        end
    } else if t[j] == '\n' {
        j
    } else {
        line_end(t, j + 1, end)
    }
}

pub proof fn lemma_line_end(t: Seq<char>, j: int, end: int)
    requires
        0 <= j <= end <= t.len(),
    ensures
        j <= line_end(t, j, end) <= end,
        line_end(t, j, end) < end ==> t[line_end(t, j, end)] == '\n',
        forall|k: int| j <= k < line_end(t, j, end) ==> t[k] != '\n',
    decreases end - j,
{
    if j < end && t[j] != '\n' {
        lemma_line_end(t, j + 1, end);
    }
}

/// Exec form of `line_end`.
#[verifier::loop_isolation(false)]
pub fn scan_line_end(s: &str, j: usize, end: usize) -> (r: usize)
    requires
        j <= end,
        end <= s@.len(),
    ensures
        r as int == line_end(s@, j as int, end as int),
        j <= r <= end,
{
    proof {
        lemma_line_end(s@, j as int, end as int);
    }
    let mut k = j;
    loop
        invariant
            j <= k <= end,
            line_end(s@, j as int, end as int) == line_end(s@, k as int, end as int),
        decreases end - k,
    {
        if k >= end {
            return k;
        }
        if s.get_char(k) == '\n' {
            return k;
        }
        k = k + 1;
    }
}

/// Position of the next doubled quote character, used to close bold and
/// italic spans.
pub open spec fn find_pair(t: Seq<char>, j: int, end: int, q: char) -> Option<int>
    decreases end - j,
{
    if j < 0 || j + 2 > end || end > t.len() {
        None
    } else if t[j] == q && t[j + 1] == q {
        Some(j)
    } else {
        find_pair(t, j + 1, end, q)
    }
}

pub proof fn lemma_find_pair(t: Seq<char>, j: int, end: int, q: char)
    requires
        find_pair(t, j, end, q) is Some,
    ensures
        j <= find_pair(t, j, end, q)->Some_0,
        find_pair(t, j, end, q)->Some_0 + 2 <= end,
        end <= t.len(),
    decreases end - j,
{
    if !(j < 0 || j + 2 > end || end > t.len()) && !(t[j] == q && t[j + 1] == q) {
        lemma_find_pair(t, j + 1, end, q);
    }
}

/// Exec form of `find_pair`.
#[verifier::loop_isolation(false)]
pub fn scan_pair(s: &str, j: usize, end: usize, q: char) -> (r: Option<usize>)
    requires
        end <= s@.len(),
    ensures
        match r {
            Some(p) => find_pair(s@, j as int, end as int, q) == Some(p as int),
            None => find_pair(s@, j as int, end as int, q) is None,
        },
{
    let mut k = j;
    loop
        invariant
            find_pair(s@, j as int, end as int, q) == find_pair(s@, k as int, end as int, q),
        decreases end - k,
    {
        if k >= end || end - k < 2 {
            return None;
        }
        if s.get_char(k) == q && s.get_char(k + 1) == q {
            return Some(k);
        }
        k = k + 1;
    }
}

/// Position of the next tripled quote character, closing a bold span.
pub open spec fn find_triple(t: Seq<char>, j: int, end: int, q: char) -> Option<int>
    decreases end - j,
{
    if j < 0 || j + 3 > end || end > t.len() {
        None
    } else if t[j] == q && t[j + 1] == q && t[j + 2] == q {
        Some(j)
    } else {
        find_triple(t, j + 1, end, q)
    }
}

pub proof fn lemma_find_triple(t: Seq<char>, j: int, end: int, q: char)
    requires
        find_triple(t, j, end, q) is Some,
    ensures
        j <= find_triple(t, j, end, q)->Some_0,
        find_triple(t, j, end, q)->Some_0 + 3 <= end,
        end <= t.len(),
    decreases end - j,
{
    if !(j < 0 || j + 3 > end || end > t.len()) && !(t[j] == q && t[j + 1] == q && t[j + 2] == q) {
        lemma_find_triple(t, j + 1, end, q);
    }
}

/// Exec form of `find_triple`.
#[verifier::loop_isolation(false)]
pub fn scan_triple(s: &str, j: usize, end: usize, q: char) -> (r: Option<usize>)
    requires
        end <= s@.len(),
    ensures
        match r {
            Some(p) => find_triple(s@, j as int, end as int, q) == Some(p as int),
            None => find_triple(s@, j as int, end as int, q) is None,
        },
{
    let mut k = j;
    loop
        invariant
            find_triple(s@, j as int, end as int, q) == find_triple(s@, k as int, end as int, q),
        decreases end - k,
    {
        if k >= end || end - k < 3 {
            return None;
        }
        if s.get_char(k) == q && s.get_char(k + 1) == q && s.get_char(k + 2) == q {
            return Some(k);
        }
        k = k + 1;
    }
}

/// Position of the line that closes a table (`|}` at a line start), scanning
/// line by line from a line start.
pub open spec fn find_table_end(t: Seq<char>, j: int, end: int) -> Option<int>
    decreases end - j,
{
    if j < 0 || j >= end || end > t.len() {
        None
    } else if at2(t, j, end, '|', '}') {
        Some(j)
    } else {
        let le = line_end(t, j, end);
        proof {
            lemma_line_end(t, j, end);
        }
        if le >= end {
            None
        } else {
            find_table_end(t, le + 1, end)
        }
    }
}

pub proof fn lemma_find_table_end(t: Seq<char>, j: int, end: int)
    requires
        find_table_end(t, j, end) is Some,
    ensures
        j <= find_table_end(t, j, end)->Some_0,
        find_table_end(t, j, end)->Some_0 + 2 <= end,
        end <= t.len(),
    decreases end - j,
{
    if !(j < 0 || j >= end || end > t.len()) && !at2(t, j, end, '|', '}') {
        let le = line_end(t, j, end);
        lemma_line_end(t, j, end);
        if le < end {
            lemma_find_table_end(t, le + 1, end);
        }
    }
}

/// Exec form of `find_table_end`.
#[verifier::loop_isolation(false)]
pub fn scan_table_end(s: &str, j: usize, end: usize) -> (r: Option<usize>)
    requires
        end <= s@.len(),
    ensures
        match r {
            Some(p) => find_table_end(s@, j as int, end as int) == Some(p as int),
            None => find_table_end(s@, j as int, end as int) is None,
        },
{
    let mut k = j;
    loop
        invariant
            find_table_end(s@, j as int, end as int) == find_table_end(s@, k as int, end as int),
        decreases end - k,
    {
        if k >= end {
            return None;
        }
        if end - k >= 2 && s.get_char(k) == '|' && s.get_char(k + 1) == '}' {
            return Some(k);
        }
        proof {
            lemma_line_end(s@, k as int, end as int);
        }
        let le = scan_line_end(s, k, end);
        if le >= end {
            return None;
        }
        k = le + 1;
    }
}


/// A line starts at `i`: the text begins there or a line break precedes it.
pub open spec fn line_start(t: Seq<char>, i: int) -> bool {
    i == 0 || (0 < i <= t.len() && t[i - 1] == '\n')
}

/// A closable parameter placeholder `{{{..}}}` opens at `i`.
pub open spec fn tpu_at(t: Seq<char>, i: int, end: int) -> bool {
    at3(t, i, end, '{', '{', '{') && find_close(t, i + 3, end, seq![3u8]) is Some
}

/// A closable template invocation `{{..}}` opens at `i`.
pub open spec fn tpl_at(t: Seq<char>, i: int, end: int) -> bool {
    at2(t, i, end, '{', '{') && find_close(t, i + 2, end, seq![2u8]) is Some
}

/// A closable link `[[..]]` opens at `i`.
pub open spec fn link_at(t: Seq<char>, i: int, end: int) -> bool {
    at2(t, i, end, '[', '[') && find_close(t, i + 2, end, seq![4u8]) is Some
}

/// A closable bold span `\'\'\'..\'\'\'` opens at `i`.
pub open spec fn bold_at(t: Seq<char>, i: int, end: int) -> bool {
    at3(t, i, end, '\'', '\'', '\'') && find_triple(t, i + 3, end, '\'') is Some
}

/// A closable italic span opens at `i`.
pub open spec fn italic_at(t: Seq<char>, i: int, end: int) -> bool {
    at2(t, i, end, '\'', '\'') && find_pair(t, i + 2, end, '\'') is Some
}

/// A table opens at `i`: `{|` at a line start. An unclosed table runs to the
/// window's end.
pub open spec fn table_at(t: Seq<char>, i: int, end: int) -> bool {
    at2(t, i, end, '{', '|') && line_start(t, i)
}

/// Some construct the grammar knows opens at `i`.
pub open spec fn construct_at(t: Seq<char>, i: int, end: int) -> bool {
    tpu_at(t, i, end) || tpl_at(t, i, end) || link_at(t, i, end) || bold_at(t, i, end)
        || italic_at(t, i, end) || table_at(t, i, end)
}

/// End of the plain-text run that begins at `i`: the first position at or
/// after `i` where a construct opens, or `end`.
pub open spec fn run_end(t: Seq<char>, i: int, end: int) -> int
    decreases end - i,
{
    if i < 0 || i >= end || end > t.len() {
        end
    } else if construct_at(t, i, end) {
        i
    } else {
        run_end(t, i + 1, end)
    }
}

pub proof fn lemma_run_end(t: Seq<char>, i: int, end: int)
    requires
        0 <= i <= end <= t.len(),
    ensures
        i <= run_end(t, i, end) <= end,
        run_end(t, i, end) < end ==> construct_at(t, run_end(t, i, end), end),
        forall|k: int| i <= k < run_end(t, i, end) ==> !construct_at(t, k, end),
    decreases end - i,
{
    if i < end && !construct_at(t, i, end) {
        lemma_run_end(t, i + 1, end);
    }
}

/// The named template arguments between a template's first `|` (at `d`) and
/// its closer (at `cl`). Segments split on top-level `|`; a segment with a
/// top-level `=` binds that name, and any other segment is positional and is
/// named by its decimal index.
pub open spec fn parse_params(t: Seq<char>, d: int, cl: int, idx: nat) -> Seq<ParamView>
    decreases cl - d,
{
    if d < 0 || d >= cl || cl > t.len() {
        Seq::empty()
    } else {
        let nx = match find_top(t, d + 1, cl, '|', false) {
            Some(p) => p,
            None => cl,
        };
        proof {
            if find_top(t, d + 1, cl, '|', false) is Some {
                lemma_find_top(t, d + 1, cl, '|', false);
            }
        }
        let pv = match find_top(t, d + 1, nx, '=', false) {
            Some(e) => ParamView { name: t.subrange(d + 1, e), value: t.subrange(e + 1, nx) },
            None => ParamView { name: crate::text::dec_of(idx), value: t.subrange(d + 1, nx) },
        };
        let idx2: nat = if find_top(t, d + 1, nx, '=', false) is Some {
            idx
        } else {
            idx + 1
        };
        seq![pv] + (if nx < cl {
            parse_params(t, nx, cl, idx2)
        } else {
            Seq::empty()
        })
    }
}

/// The nodes of the window `i..end`, as maximal text runs and parsed
/// constructs.
pub open spec fn parse_inline(t: Seq<char>, i: int, end: int) -> Seq<NodeView>
    decreases end - i, 1nat,
{
    if i < 0 || i >= end || end > t.len() {
        Seq::empty()
    } else {
        let re = run_end(t, i, end);
        proof {
            lemma_run_end(t, i, end);
        }
        if re > i {
            seq![NodeView::Text { text: t.subrange(i, re) }] + parse_inline(t, re, end)
        } else {
            let (node, next) = parse_construct(t, i, end);
            let nx = if next <= i {
                i + 1
            } else if next > end {
                end
            } else {
                next
            };
            seq![node] + parse_inline(t, nx, end)
        }
    }
}

/// The construct opening at `i`, and the position following it.
pub open spec fn parse_construct(t: Seq<char>, i: int, end: int) -> (NodeView, int)
    decreases end - i, 0nat,
{
    if i < 0 || i >= end || end > t.len() {
        (NodeView::Text { text: Seq::empty() }, i + 1)
    } else if tpu_at(t, i, end) {
        let cl = find_close(t, i + 3, end, seq![3u8])->Some_0;
        proof {
            lemma_find_close(t, i + 3, end, seq![3u8]);
        }
        match find_top(t, i + 3, cl, '|', false) {
            Some(d) => {
                proof {
                    lemma_find_top(t, i + 3, cl, '|', false);
                }
                (
                    NodeView::TemplateParameterUse {
                        name: t.subrange(i + 3, d),
                        default: Some(parse_inline(t, d + 1, cl)),
                    },
                    cl + 3,
                )
            },
            None => (
                NodeView::TemplateParameterUse { name: t.subrange(i + 3, cl), default: None },
                cl + 3,
            ),
        }
    } else if tpl_at(t, i, end) {
        let cl = find_close(t, i + 2, end, seq![2u8])->Some_0;
        match find_top(t, i + 2, cl, '|', false) {
            Some(d) => (
                NodeView::Template {
                    name: t.subrange(i + 2, d),
                    parameters: parse_params(t, d, cl, 1),
                },
                cl + 2,
            ),
            None => (
                NodeView::Template { name: t.subrange(i + 2, cl), parameters: Seq::empty() },
                cl + 2,
            ),
        }
    } else if link_at(t, i, end) {
        let cl = find_close(t, i + 2, end, seq![4u8])->Some_0;
        match find_top(t, i + 2, cl, '|', false) {
            Some(d) => (
                NodeView::Link { text: t.subrange(d + 1, cl), title: t.subrange(i + 2, d) },
                cl + 2,
            ),
            None => (
                NodeView::Link { text: t.subrange(i + 2, cl), title: t.subrange(i + 2, cl) },
                cl + 2,
            ),
        }
    } else if bold_at(t, i, end) {
        let k = find_triple(t, i + 3, end, '\'')->Some_0;
        proof {
            lemma_find_triple(t, i + 3, end, '\'');
        }
        (NodeView::Bold { children: parse_inline(t, i + 3, k) }, k + 3)
    } else if italic_at(t, i, end) {
        let k = find_pair(t, i + 2, end, '\'')->Some_0;
        proof {
            lemma_find_pair(t, i + 2, end, '\'');
        }
        (NodeView::Italic { children: parse_inline(t, i + 2, k) }, k + 2)
    } else if table_at(t, i, end) {
        let le0 = line_end(t, i + 2, end);
        proof {
            lemma_line_end(t, i + 2, end);
        }
        let body = if le0 + 1 <= end {
            le0 + 1
        } else {
            end
        };
        let attrs = parse_inline(t, i + 2, le0);
        let tl = table_lines(
            t,
            body,
            end,
            Seq::empty(),
            Seq::empty(),
            Seq::empty(),
            Seq::empty(),
            false,
        );
        (NodeView::Table { attributes: attrs, captions: tl.0, rows: tl.1 }, tl.2)
    } else {
        (NodeView::Text { text: t.subrange(i, i + 1) }, i + 1)
    }
}

/// Closes the row under construction, if one is open.
pub open spec fn finish_rows(
    rows: Seq<RowView>,
    cur_attrs: Seq<NodeView>,
    cur_cells: Seq<CellView>,
    row_started: bool,
) -> Seq<RowView> {
    if row_started || cur_cells.len() > 0 {
        rows.push(RowView { attributes: cur_attrs, cells: cur_cells })
    } else {
        rows
    }
}

/// A table body, line by line: `|}` closes the table, `|+` adds a caption,
/// `|-` starts a row, `!` and `|` lines add cells to the row under
/// construction, and any other line's content joins the last cell.
/// Returns the captions, the rows, and the position following the table.
pub open spec fn table_lines(
    t: Seq<char>,
    j: int,
    end: int,
    captions: Seq<CaptionView>,
    rows: Seq<RowView>,
    cur_attrs: Seq<NodeView>,
    cur_cells: Seq<CellView>,
    row_started: bool,
) -> (Seq<CaptionView>, Seq<RowView>, int)
    decreases end - j, 3nat,
{
    if j < 0 || j >= end || end > t.len() {
        (captions, finish_rows(rows, cur_attrs, cur_cells, row_started), end)
    } else {
        let le = line_end(t, j, end);
        proof {
            lemma_line_end(t, j, end);
        }
        let nextj = if le + 1 <= end {
            le + 1
        } else {
            end
        };
        if at2(t, j, end, '|', '}') {
            (captions, finish_rows(rows, cur_attrs, cur_cells, row_started), j + 2)
        } else if at2(t, j, end, '|', '+') {
            table_lines(
                t,
                nextj,
                end,
                captions.push(caption_of(t, j + 2, le)),
                rows,
                cur_attrs,
                cur_cells,
                row_started,
            )
        } else if at2(t, j, end, '|', '-') {
            table_lines(
                t,
                nextj,
                end,
                captions,
                finish_rows(rows, cur_attrs, cur_cells, row_started),
                parse_inline(t, j + 2, le),
                Seq::empty(),
                true,
            )
        } else if t[j] == '!' {
            table_lines(
                t,
                nextj,
                end,
                captions,
                rows,
                cur_attrs,
                cur_cells + split_cells(t, j + 1, le, '!'),
                row_started,
            )
        } else if t[j] == '|' {
            table_lines(
                t,
                nextj,
                end,
                captions,
                rows,
                cur_attrs,
                cur_cells + split_cells(t, j + 1, le, '|'),
                row_started,
            )
        } else {
            let content = parse_inline(t, j, le);
            let cur2 = if cur_cells.len() > 0 {
                cur_cells.update(
                    cur_cells.len() - 1,
                    CellView {
                        attributes: cur_cells.last().attributes,
                        content: cur_cells.last().content + content,
                    },
                )
            } else {
                cur_cells
            };
            table_lines(t, nextj, end, captions, rows, cur_attrs, cur2, row_started)
        }
    }
}

/// One caption line's attributes and content, split on the first top-level
/// `|`.
pub open spec fn caption_of(t: Seq<char>, a: int, b: int) -> CaptionView
    decreases b - a, 2nat,
{
    match find_top(t, a, b, '|', false) {
        Some(p) => {
            proof {
                lemma_find_top(t, a, b, '|', false);
            }
            CaptionView {
                attributes: Some(parse_inline(t, a, p)),
                content: parse_inline(t, p + 1, b),
            }
        },
        None => CaptionView { attributes: None, content: parse_inline(t, a, b) },
    }
}

/// The cells of one table line: segments split on the doubled separator, each
/// split again on its first top-level `|` into attributes and content.
pub open spec fn split_cells(t: Seq<char>, a: int, b: int, sep: char) -> Seq<CellView>
    decreases b - a, 2nat,
{
    if a < 0 || a > b || b > t.len() {
        Seq::empty()
    } else {
        let nx = match find_top(t, a, b, sep, true) {
            Some(p) => p,
            None => b,
        };
        proof {
            if find_top(t, a, b, sep, true) is Some {
                lemma_find_top(t, a, b, sep, true);
            }
        }
        let cell = match find_top(t, a, nx, '|', false) {
            Some(p) => {
                proof {
                    lemma_find_top(t, a, nx, '|', false);
                }
                CellView {
                    attributes: Some(parse_inline(t, a, p)),
                    content: parse_inline(t, p + 1, nx),
                }
            },
            None => CellView { attributes: None, content: parse_inline(t, a, nx) },
        };
        seq![cell] + (if nx < b {
            split_cells(t, nx + 2, b, sep)
        } else {
            Seq::empty()
        })
    }
}

/// The parse of a whole text: the reference grammar of this library.
pub open spec fn parse_text(t: Seq<char>) -> Seq<NodeView> {
    parse_inline(t, 0, t.len() as int)
}


/// Exec form of `construct_at`.
pub fn is_construct_at(s: &str, i: usize, end: usize) -> (b: bool)
    requires
        end <= s@.len(),
    ensures
        b == construct_at(s@, i as int, end as int),
{
    if i >= end {
        return false;
    }
    let c0 = s.get_char(i);
    let has1 = end - i >= 2;
    let has2 = end - i >= 3;
    let tpu = has2 && c0 == '{' && s.get_char(i + 1) == '{' && s.get_char(i + 2) == '{' && (match scan_close(s, i + 3, end, 3u8) {
        Some(_) => true,
        None => false,
    });
    let tpl = has1 && c0 == '{' && s.get_char(i + 1) == '{' && (match scan_close(s, i + 2, end, 2u8) {
        Some(_) => true,
        None => false,
    });
    let lnk = has1 && c0 == '[' && s.get_char(i + 1) == '[' && (match scan_close(s, i + 2, end, 4u8) {
        Some(_) => true,
        None => false,
    });
    let bld = has2 && c0 == '\'' && s.get_char(i + 1) == '\'' && s.get_char(i + 2) == '\'' && (match scan_triple(s, i + 3, end, '\'') {
        Some(_) => true,
        None => false,
    });
    let itl = has1 && c0 == '\'' && s.get_char(i + 1) == '\'' && (match scan_pair(s, i + 2, end, '\'') {
        Some(_) => true,
        None => false,
    });
    let tbl = has1 && c0 == '{' && s.get_char(i + 1) == '|' && (i == 0 || s.get_char(i - 1)
        == '\n');
    tpu || tpl || lnk || bld || itl || tbl
}

/// Exec form of `run_end`.
#[verifier::loop_isolation(false)]
pub fn scan_run_end(s: &str, i: usize, end: usize) -> (r: usize)
    requires
        i <= end,
        end <= s@.len(),
    ensures
        r as int == run_end(s@, i as int, end as int),
        i <= r <= end,
{
    proof {
        lemma_run_end(s@, i as int, end as int);
    }
    let mut k = i;
    loop
        invariant
            i <= k <= end,
            run_end(s@, i as int, end as int) == run_end(s@, k as int, end as int),
        decreases end - k,
    {
        if k >= end {
            return k;
        }
        if is_construct_at(s, k, end) {
            return k;
        }
        k = k + 1;
    }
}

/// Exec form of `parse_params`.
fn parse_params_exec(s: &str, d: usize, cl: usize, idx: u64) -> (r: Vec<TemplateParameter>)
    requires
        cl <= s@.len(),
        idx as int + (cl as int - d as int) <= u64::MAX as int,
    ensures
        param_views(r@) == parse_params(s@, d as int, cl as int, idx as nat),
    decreases cl - d,
{
    broadcast use node_view_lemmas;

    let ghost t = s@;
    if d >= cl {
        let r: Vec<TemplateParameter> = Vec::new();
        proof {
            assert(param_views(r@) =~= parse_params(t, d as int, cl as int, idx as nat));
        }
        return r;
    }
    let nx = match scan_top(s, d + 1, cl, '|', false) {
        Some(p) => {
            proof {
                lemma_find_top(t, d + 1 as int, cl as int, '|', false);
            }
            p
        },
        None => cl,
    };
    let eqp = scan_top(s, d + 1, nx, '=', false);
    let (param, idx2) = match eqp {
        Some(e) => {
            proof {
                lemma_find_top(t, d + 1 as int, nx as int, '=', false);
            }
            (
                TemplateParameter {
                    name: s.substring_char(d + 1, e).to_owned(),
                    value: s.substring_char(e + 1, nx).to_owned(),
                },
                idx,
            )
        },
        None => (
            TemplateParameter { name: dec_str(idx), value: s.substring_char(d + 1, nx).to_owned() },
            idx + 1,
        ),
    };
    let mut rest: Vec<TemplateParameter> = if nx < cl {
        parse_params_exec(s, nx, cl, idx2)
    } else {
        Vec::new()
    };
    rest.insert(0, param);
    proof {
        assert(param_views(rest@) =~= parse_params(t, d as int, cl as int, idx as nat));
    }
    rest
}

/// Appends the elements of `src` to `dst`.
#[verifier::loop_isolation(false)]
fn append_nodes(dst: &mut Vec<Node>, src: Vec<Node>)
    ensures
        final(dst)@ == old(dst)@ + src@,
{
    let mut src = src;
    let ghost all = old(dst)@ + src@;
    let mut i: usize = 0;
    proof {
        assert(dst@ =~= all.subrange(0, dst@.len() as int));
    }
    while src.len() > 0
        invariant
            dst@.len() + src@.len() == all.len(),
            dst@ == all.subrange(0, dst@.len() as int),
            src@ == all.subrange(dst@.len() as int, all.len() as int),
        decreases src@.len(),
    {
        let x = src.remove(0);
        dst.push(x);
        proof {
            assert(dst@ =~= all.subrange(0, dst@.len() as int));
            assert(src@ =~= all.subrange(dst@.len() as int, all.len() as int));
        }
    }
    proof {
        assert(dst@ =~= all);
    }
}

/// Appends the elements of `src` to `dst`.
#[verifier::loop_isolation(false)]
fn append_cells(dst: &mut Vec<TableCell>, src: Vec<TableCell>)
    ensures
        final(dst)@ == old(dst)@ + src@,
{
    let mut src = src;
    let ghost all = old(dst)@ + src@;
    proof {
        assert(dst@ =~= all.subrange(0, dst@.len() as int));
    }
    while src.len() > 0
        invariant
            dst@.len() + src@.len() == all.len(),
            dst@ == all.subrange(0, dst@.len() as int),
            src@ == all.subrange(dst@.len() as int, all.len() as int),
        decreases src@.len(),
    {
        let x = src.remove(0);
        dst.push(x);
        proof {
            assert(dst@ =~= all.subrange(0, dst@.len() as int));
            assert(src@ =~= all.subrange(dst@.len() as int, all.len() as int));
        }
    }
    proof {
        assert(dst@ =~= all);
    }
}

/// Exec form of `finish_rows`.
fn finish_rows_exec(
    rows: Vec<TableRow>,
    cur_attrs: Vec<Node>,
    cur_cells: Vec<TableCell>,
    row_started: bool,
) -> (r: Vec<TableRow>)
    ensures
        row_views(r@) == finish_rows(
            row_views(rows@),
            node_views(cur_attrs@),
            cell_views(cur_cells@),
            row_started,
        ),
{
    broadcast use node_view_lemmas;

    let mut rows = rows;
    if row_started || cur_cells.len() > 0 {
        let ghost before = rows@;
        rows.push(TableRow { attributes: cur_attrs, cells: cur_cells });
        proof {
            assert(rows@.drop_last() =~= before);
            assert(row_views(rows@) =~= finish_rows(
                row_views(before),
                node_views(cur_attrs@),
                cell_views(cur_cells@),
                row_started,
            ));
        }
    }
    rows
}

/// Exec form of `caption_of`.
fn caption_of_exec(s: &str, a: usize, b: usize) -> (r: TableCaption)
    requires
        a <= b,
        b <= s@.len(),
    ensures
        r@ == caption_of(s@, a as int, b as int),
    decreases b - a, 2nat,
{
    let ghost t = s@;
    match scan_top(s, a, b, '|', false) {
        Some(p) => {
            proof {
                lemma_find_top(t, a as int, b as int, '|', false);
            }
            TableCaption {
                attributes: Some(parse_inline_exec(s, a, p)),
                content: parse_inline_exec(s, p + 1, b),
            }
        },
        None => TableCaption { attributes: None, content: parse_inline_exec(s, a, b) },
    }
}

/// Exec form of `split_cells`.
fn split_cells_exec(s: &str, a: usize, b: usize, sep: char) -> (r: Vec<TableCell>)
    requires
        a <= b,
        b <= s@.len(),
    ensures
        cell_views(r@) == split_cells(s@, a as int, b as int, sep),
    decreases b - a, 2nat,
{
    broadcast use node_view_lemmas;

    let ghost t = s@;
    let nx = match scan_top(s, a, b, sep, true) {
        Some(p) => {
            proof {
                lemma_find_top(t, a as int, b as int, sep, true);
            }
            p
        },
        None => b,
    };
    let cell = match scan_top(s, a, nx, '|', false) {
        Some(p) => {
            proof {
                lemma_find_top(t, a as int, nx as int, '|', false);
            }
            TableCell {
                attributes: Some(parse_inline_exec(s, a, p)),
                content: parse_inline_exec(s, p + 1, nx),
            }
        },
        None => TableCell { attributes: None, content: parse_inline_exec(s, a, nx) },
    };
    let mut rest: Vec<TableCell> = if nx < b {
        split_cells_exec(s, nx + 2, b, sep)
    } else {
        Vec::new()
    };
    rest.insert(0, cell);
    proof {
        assert(cell_views(rest@) =~= split_cells(t, a as int, b as int, sep));
    }
    rest
}

/// Exec form of `table_lines`.
fn table_lines_exec(
    s: &str,
    j: usize,
    end: usize,
    captions: Vec<TableCaption>,
    rows: Vec<TableRow>,
    cur_attrs: Vec<Node>,
    cur_cells: Vec<TableCell>,
    row_started: bool,
) -> (r: (Vec<TableCaption>, Vec<TableRow>, usize))
    requires
        j <= end,
        end <= s@.len(),
    ensures
        ({
            let spec_r = table_lines(
                s@,
                j as int,
                end as int,
                caption_views(captions@),
                row_views(rows@),
                node_views(cur_attrs@),
                cell_views(cur_cells@),
                row_started,
            );
            caption_views(r.0@) == spec_r.0 && row_views(r.1@) == spec_r.1 && r.2 as int
                == spec_r.2
        }),
    decreases end - j, 3nat,
{
    broadcast use node_view_lemmas;

    let ghost t = s@;
    if j >= end {
        return (captions, finish_rows_exec(rows, cur_attrs, cur_cells, row_started), end);
    }
    proof {
        lemma_line_end(t, j as int, end as int);
    }
    let le = scan_line_end(s, j, end);
    let nextj = if end - le >= 1 {
        le + 1
    } else {
        end
    };
    let c0 = s.get_char(j);
    let has1 = end - j >= 2;
    if has1 && c0 == '|' && s.get_char(j + 1) == '}' {
        return (captions, finish_rows_exec(rows, cur_attrs, cur_cells, row_started), j + 2);
    }
    if has1 && c0 == '|' && s.get_char(j + 1) == '+' {
        let cap = caption_of_exec(s, j + 2, le);
        let mut captions = captions;
        let ghost before = captions@;
        captions.push(cap);
        proof {
            assert(captions@.drop_last() =~= before);
            assert(caption_views(captions@) =~= caption_views(before).push(
                caption_of(t, j + 2 as int, le as int),
            ));
        }
        return table_lines_exec(s, nextj, end, captions, rows, cur_attrs, cur_cells, row_started);
    }
    if has1 && c0 == '|' && s.get_char(j + 1) == '-' {
        let rows2 = finish_rows_exec(rows, cur_attrs, cur_cells, row_started);
        let attrs2 = parse_inline_exec(s, j + 2, le);
        return table_lines_exec(s, nextj, end, captions, rows2, attrs2, Vec::new(), true);
    }
    if c0 == '!' {
        let cs = split_cells_exec(s, j + 1, le, '!');
        let mut cur_cells = cur_cells;
        let ghost before = cur_cells@;
        let ghost csv = cell_views(cs@);
        append_cells(&mut cur_cells, cs);
        proof {
            assert(cell_views(cur_cells@) =~= cell_views(before) + csv);
        }
        return table_lines_exec(s, nextj, end, captions, rows, cur_attrs, cur_cells, row_started);
    }
    if c0 == '|' {
        let cs = split_cells_exec(s, j + 1, le, '|');
        let mut cur_cells = cur_cells;
        let ghost before = cur_cells@;
        let ghost csv = cell_views(cs@);
        append_cells(&mut cur_cells, cs);
        proof {
            assert(cell_views(cur_cells@) =~= cell_views(before) + csv);
        }
        return table_lines_exec(s, nextj, end, captions, rows, cur_attrs, cur_cells, row_started);
    }
    let content = parse_inline_exec(s, j, le);
    let mut cur_cells = cur_cells;
    if cur_cells.len() > 0 {
        let ghost before = cur_cells@;
        let mut lastc = cur_cells.pop().unwrap();
        let ghost lastv = lastc@;
        let ghost contentv = node_views(content@);
        append_nodes(&mut lastc.content, content);
        cur_cells.push(lastc);
        proof {
            assert(node_views(lastc.content@) =~= lastv.content + contentv);
            assert(cur_cells@.drop_last() =~= before.drop_last());
            assert(cell_views(cur_cells@) =~= cell_views(before).update(
                cell_views(before).len() - 1,
                CellView {
                    attributes: cell_views(before).last().attributes,
                    content: cell_views(before).last().content + contentv,
                },
            ));
        }
    }
    table_lines_exec(s, nextj, end, captions, rows, cur_attrs, cur_cells, row_started)
}

/// Exec form of `parse_construct`: the construct at `i` and the position
/// following it.
fn parse_construct_exec(s: &str, i: usize, end: usize) -> (r: (Node, usize))
    requires
        i < end,
        end <= s@.len(),
    ensures
        r.0@ == parse_construct(s@, i as int, end as int).0,
        r.1 as int == parse_construct(s@, i as int, end as int).1,
    decreases end - i, 0nat,
{
    broadcast use node_view_lemmas;

    let ghost t = s@;
    let c0 = s.get_char(i);
    let has1 = end - i >= 2;
    let has2 = end - i >= 3;
    if has2 && c0 == '{' && s.get_char(i + 1) == '{' && s.get_char(i + 2) == '{' {
        match scan_close(s, i + 3, end, 3u8) {
            Some(cl) => {
                proof {
                    lemma_find_close(t, i + 3 as int, end as int, seq![3u8]);
                }
                match scan_top(s, i + 3, cl, '|', false) {
                    Some(d) => {
                        proof {
                            lemma_find_top(t, i + 3 as int, cl as int, '|', false);
                        }
                        let name = s.substring_char(i + 3, d).to_owned();
                        let default = parse_inline_exec(s, d + 1, cl);
                        return (
                            Node::TemplateParameterUse { name, default: Some(default) },
                            cl + 3,
                        );
                    },
                    None => {
                        let name = s.substring_char(i + 3, cl).to_owned();
                        return (Node::TemplateParameterUse { name, default: None }, cl + 3);
                    },
                }
            },
            None => {},
        }
    }
    if has1 && c0 == '{' && s.get_char(i + 1) == '{' {
        match scan_close(s, i + 2, end, 2u8) {
            Some(cl) => {
                proof {
                    lemma_find_close(t, i + 2 as int, end as int, seq![2u8]);
                }
                match scan_top(s, i + 2, cl, '|', false) {
                    Some(d) => {
                        proof {
                            lemma_find_top(t, i + 2 as int, cl as int, '|', false);
                        }
                        let name = s.substring_char(i + 2, d).to_owned();
                        let parameters = parse_params_exec(s, d, cl, 1);
                        return (Node::Template { name, parameters }, cl + 2);
                    },
                    None => {
                        let name = s.substring_char(i + 2, cl).to_owned();
                        let parameters: Vec<TemplateParameter> = Vec::new();
                        proof {
                            assert(param_views(parameters@) =~= Seq::<ParamView>::empty());
                        }
                        return (Node::Template { name, parameters }, cl + 2);
                    },
                }
            },
            None => {},
        }
    }
    if has1 && c0 == '[' && s.get_char(i + 1) == '[' {
        match scan_close(s, i + 2, end, 4u8) {
            Some(cl) => {
                proof {
                    lemma_find_close(t, i + 2 as int, end as int, seq![4u8]);
                }
                match scan_top(s, i + 2, cl, '|', false) {
                    Some(d) => {
                        proof {
                            lemma_find_top(t, i + 2 as int, cl as int, '|', false);
                        }
                        let title = s.substring_char(i + 2, d).to_owned();
                        let text = s.substring_char(d + 1, cl).to_owned();
                        return (Node::Link { text, title }, cl + 2);
                    },
                    None => {
                        let title = s.substring_char(i + 2, cl).to_owned();
                        let text = s.substring_char(i + 2, cl).to_owned();
                        return (Node::Link { text, title }, cl + 2);
                    },
                }
            },
            None => {},
        }
    }
    if has2 && c0 == '\'' && s.get_char(i + 1) == '\'' && s.get_char(i + 2) == '\'' {
        match scan_triple(s, i + 3, end, '\'') {
            Some(k) => {
                proof {
                    lemma_find_triple(t, i + 3 as int, end as int, '\'');
                }
                let children = parse_inline_exec(s, i + 3, k);
                return (Node::Bold { children }, k + 3);
            },
            None => {},
        }
    }
    if has1 && c0 == '\'' && s.get_char(i + 1) == '\'' {
        match scan_pair(s, i + 2, end, '\'') {
            Some(k) => {
                proof {
                    lemma_find_pair(t, i + 2 as int, end as int, '\'');
                }
                let children = parse_inline_exec(s, i + 2, k);
                return (Node::Italic { children }, k + 2);
            },
            None => {},
        }
    }
    if has1 && c0 == '{' && s.get_char(i + 1) == '|' && (i == 0 || s.get_char(i - 1) == '\n') {
        proof {
            lemma_line_end(t, i + 2 as int, end as int);
        }
        let le0 = scan_line_end(s, i + 2, end);
        let body = if end - le0 >= 1 {
            le0 + 1
        } else {
            end
        };
        let attrs = parse_inline_exec(s, i + 2, le0);
        let tl = table_lines_exec(s, body, end, Vec::new(), Vec::new(), Vec::new(), Vec::new(), false);
        return (Node::Table { attributes: attrs, captions: tl.0, rows: tl.1 }, tl.2);
    }
    let text = s.substring_char(i, i + 1).to_owned();
    (Node::Text { text }, i + 1)
}

/// Exec form of `parse_inline`: the nodes of the window `i..end`.
pub fn parse_inline_exec(s: &str, i: usize, end: usize) -> (r: Vec<Node>)
    requires
        i <= end,
        end <= s@.len(),
    ensures
        node_views(r@) == parse_inline(s@, i as int, end as int),
    decreases end - i, 1nat,
{
    broadcast use node_view_lemmas;

    let ghost t = s@;
    if i >= end {
        let r: Vec<Node> = Vec::new();
        proof {
            assert(node_views(r@) =~= parse_inline(t, i as int, end as int));
        }
        return r;
    }
    proof {
        lemma_run_end(t, i as int, end as int);
    }
    let re = scan_run_end(s, i, end);
    if re > i {
        let txt = s.substring_char(i, re).to_owned();
        let mut rest = parse_inline_exec(s, re, end);
        rest.insert(0, Node::Text { text: txt });
        proof {
            assert(node_views(rest@) =~= parse_inline(t, i as int, end as int));
        }
        rest
    } else {
        let (node, next) = parse_construct_exec(s, i, end);
        let nx = if next <= i {
            i + 1
        } else if next > end {
            end
        } else {
            next
        };
        let mut rest = parse_inline_exec(s, nx, end);
        rest.insert(0, node);
        proof {
            assert(node_views(rest@) =~= parse_inline(t, i as int, end as int));
        }
        rest
    }
}

/// Parses a whole text into nodes: the library's grammar entry point.
pub fn parse_wikitext(s: &str) -> (r: Vec<Node>)
    ensures
        node_views(r@) == parse_text(s@),
{
    let n = s.unicode_len();
    parse_inline_exec(s, 0, n)
}

} // verus!
