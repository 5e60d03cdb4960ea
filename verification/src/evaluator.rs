//! Deciding an expression.
//!
//! The expressions that a predicate stands for are decided by a general
//! evaluator of expressions.  It is handed only the expressions of the small
//! language below; any other text counts as not true.
//!
//! ```text
//! expression:
//!     ( expression ) && ( expression )
//!     ( expression ) || ( expression )
//!     true
//!     false
//!     quoted operator quoted
//!     number operator number
//!     number operator number - number
//! operator:
//!     ==  !=  >=  <=  >  <
//! ```
//!
//! One space stands on either side of an operator and of the minus sign.  A
//! quoted text stands in single quotes and holds ASCII characters other than
//! quotes and backslashes.  A number has at most 18 digits.

use crate::text::chars_of;
use crate::xpath::{digits_end, lit_at, read_char, read_lit, skip_digits};
use vstd::prelude::*;

verus! {

/// Whether the expression `expr`, which is one of the language above, has the
/// value true.
pub uninterp spec fn expression_holds(expr: Seq<char>) -> bool;

/// A character that may stand inside a quoted text.
pub open spec fn is_plain(c: char) -> bool {
    c < '\u{80}' && c != '\'' && c != '"' && c != '\\'
}

/// The end of a quoted text whose body goes on at `j`.
pub open spec fn quoted_body_end(s: Seq<char>, j: int) -> Option<int>
    decreases s.len() - j,
{
    if j < 0 || j >= s.len() {
        None
    } else if s[j] == '\'' {
        Some(j + 1)
    } else if is_plain(s[j]) {
        quoted_body_end(s, j + 1)
    } else {
        None
    }
}

/// The end of the quoted text at `i`.
pub open spec fn quoted_end(s: Seq<char>, i: int) -> Option<int> {
    if 0 <= i < s.len() && s[i] == '\'' {
        quoted_body_end(s, i + 1)
    } else {
        None
    }
}

/// The end of the number at `i`: from one to 18 digits.
pub open spec fn number_end(s: Seq<char>, i: int) -> Option<int> {
    if i < digits_end(s, i) <= i + 18 {
        Some(digits_end(s, i))
    } else {
        None
    }
}

/// The end of the operator at `i`.
pub open spec fn bare_operator_end(s: Seq<char>, i: int) -> Option<int> {
    if lit_at(s, i, seq!['=', '=']) || lit_at(s, i, seq!['!', '=']) || lit_at(
        s,
        i,
        seq!['>', '='],
    ) || lit_at(s, i, seq!['<', '=']) {
        Some(i + 2)
    } else if lit_at(s, i, seq!['>']) || lit_at(s, i, seq!['<']) {
        Some(i + 1)
    } else {
        None
    }
}

/// The end of a space, an operator and a space at `i`.
pub open spec fn operator_end(s: Seq<char>, i: int) -> Option<int> {
    if lit_at(s, i, seq![' ']) && bare_operator_end(s, i + 1) is Some && lit_at(
        s,
        bare_operator_end(s, i + 1).unwrap(),
        seq![' '],
    ) {
        Some(bare_operator_end(s, i + 1).unwrap() + 1)
    } else {
        None
    }
}

/// The end of a comparison of two quoted texts at `i`.
pub open spec fn text_comparison_end(s: Seq<char>, i: int) -> Option<int> {
    match quoted_end(s, i) {
        Some(a) => match operator_end(s, a) {
            Some(b) => quoted_end(s, b),
            None => None,
        },
        None => None,
    }
}

/// The end of a comparison of numbers at `i`.
pub open spec fn number_comparison_end(s: Seq<char>, i: int) -> Option<int> {
    match number_end(s, i) {
        Some(a) => match operator_end(s, a) {
            Some(b) => match number_end(s, b) {
                Some(c) => if lit_at(s, c, seq![' ', '-', ' ']) && number_end(s, c + 3) is Some {
                    number_end(s, c + 3)
                } else {
                    Some(c)
                },
                None => None,
            },
            None => None,
        },
        None => None,
    }
}

/// The end of the expression without parentheses at `i`.
pub open spec fn atom_end(s: Seq<char>, i: int) -> Option<int> {
    if lit_at(s, i, "true"@) {
        Some(i + "true"@.len())
    } else if lit_at(s, i, "false"@) {
        Some(i + "false"@.len())
    } else if text_comparison_end(s, i) is Some {
        text_comparison_end(s, i)
    } else {
        number_comparison_end(s, i)
    }
}

/// The end of the joiner at `a`: `) && (` or `) || (`.
pub open spec fn joiner_end(s: Seq<char>, a: int) -> Option<int> {
    if lit_at(s, a, seq![')', ' ', '&', '&', ' ', '(']) || lit_at(
        s,
        a,
        seq![')', ' ', '|', '|', ' ', '('],
    ) {
        Some(a + 6)
    } else {
        None
    }
}

/// The end of the expression at `i`.
pub open spec fn expression_end(s: Seq<char>, i: int) -> Option<int>
    decreases s.len() - i,
{
    if lit_at(s, i, seq!['(']) {
        match expression_end(s, i + 1) {
            Some(a) => match joiner_end(s, a) {
                Some(b) => if i < b <= s.len() {
                    match expression_end(s, b) {
                        Some(c) => if lit_at(s, c, seq![')']) {
                            Some(c + 1)
                        } else {
                            None
                        },
                        None => None,
                    }
                } else {
                    None
                },
                None => None,
            },
            None => None,
        }
    } else {
        atom_end(s, i)
    }
}

/// Whether the text is an expression of the language above.
pub open spec fn evaluable(s: Seq<char>) -> bool {
    expression_end(s, 0) == Some(s.len() as int)
}

fn plain_c(c: char) -> (r: bool)
    ensures
        r == is_plain(c),
{
    c < '\u{80}' && c != '\'' && c != '"' && c != '\\'
}

fn read_quoted(s: &Vec<char>, i: usize) -> (r: Option<usize>)
    requires
        i <= s.len(),
    ensures
        match r {
            Some(e) => quoted_end(s@, i as int) == Some(e as int) && i < e <= s.len(),
            None => quoted_end(s@, i as int) is None,
        },
{
    if i >= s.len() || s[i] != '\'' {
        return None;
    }
    let mut j: usize = i + 1;
    while j < s.len()
        invariant
            i < j <= s.len(),
            quoted_end(s@, i as int) == quoted_body_end(s@, j as int),
        decreases s.len() - j,
    {
        let c = s[j];
        if c == '\'' {
            return Some(j + 1);
        }
        if !plain_c(c) {
            return None;
        }
        j += 1;
    }
    None
}

fn read_number(s: &Vec<char>, i: usize) -> (r: Option<usize>)
    requires
        i <= s.len(),
    ensures
        match r {
            Some(e) => number_end(s@, i as int) == Some(e as int) && i < e <= s.len(),
            None => number_end(s@, i as int) is None,
        },
{
    let e = skip_digits(s, i);
    if e > i && e - i <= 18 {
        Some(e)
    } else {
        None
    }
}

fn read_bare_operator(s: &Vec<char>, i: usize) -> (r: Option<usize>)
    requires
        i <= s.len(),
    ensures
        match r {
            Some(e) => bare_operator_end(s@, i as int) == Some(e as int) && i < e <= s.len(),
            None => bare_operator_end(s@, i as int) is None,
        },
{
    if crate::xpath::read_pair(s, i, '=', '=') || crate::xpath::read_pair(s, i, '!', '=')
        || crate::xpath::read_pair(s, i, '>', '=') || crate::xpath::read_pair(s, i, '<', '=') {
        Some(i + 2)
    } else if read_char(s, i, '>') || read_char(s, i, '<') {
        Some(i + 1)
    } else {
        None
    }
}

fn read_spaced_operator(s: &Vec<char>, i: usize) -> (r: Option<usize>)
    requires
        i <= s.len(),
    ensures
        match r {
            Some(e) => operator_end(s@, i as int) == Some(e as int) && i < e <= s.len(),
            None => operator_end(s@, i as int) is None,
        },
{
    if !read_char(s, i, ' ') {
        return None;
    }
    match read_bare_operator(s, i + 1) {
        Some(a) => if read_char(s, a, ' ') {
            Some(a + 1)
        } else {
            None
        },
        None => None,
    }
}

fn read_text_comparison(s: &Vec<char>, i: usize) -> (r: Option<usize>)
    requires
        i <= s.len(),
    ensures
        match r {
            Some(e) => text_comparison_end(s@, i as int) == Some(e as int) && i < e <= s.len(),
            None => text_comparison_end(s@, i as int) is None,
        },
{
    match read_quoted(s, i) {
        Some(a) => match read_spaced_operator(s, a) {
            Some(b) => read_quoted(s, b),
            None => None,
        },
        None => None,
    }
}

fn read_minus(s: &Vec<char>, c: usize) -> (r: bool)
    requires
        c <= s.len(),
    ensures
        r == lit_at(s@, c as int, seq![' ', '-', ' ']),
        r ==> c + 3 <= s.len(),
{
    let mut word: Vec<char> = Vec::new();
    word.push(' ');
    word.push('-');
    word.push(' ');
    assert(word@ =~= seq![' ', '-', ' ']);
    read_lit(s, c, &word)
}

fn read_number_comparison(s: &Vec<char>, i: usize) -> (r: Option<usize>)
    requires
        i <= s.len(),
    ensures
        match r {
            Some(e) => number_comparison_end(s@, i as int) == Some(e as int) && i < e
                <= s.len(),
            None => number_comparison_end(s@, i as int) is None,
        },
{
    match read_number(s, i) {
        Some(a) => match read_spaced_operator(s, a) {
            Some(b) => match read_number(s, b) {
                Some(c) => {
                    if read_minus(s, c) {
                        match read_number(s, c + 3) {
                            Some(d) => {
                                return Some(d);
                            },
                            None => {},
                        }
                    }
                    Some(c)
                },
                None => None,
            },
            None => None,
        },
        None => None,
    }
}

fn read_word(s: &Vec<char>, i: usize, word: &str) -> (r: Option<usize>)
    requires
        i <= s.len(),
        word@.len() > 0,
    ensures
        match r {
            Some(e) => lit_at(s@, i as int, word@) && e == i + word@.len() && i < e <= s.len(),
            None => !lit_at(s@, i as int, word@),
        },
{
    let w = chars_of(word);
    if read_lit(s, i, &w) {
        Some(i + w.len())
    } else {
        None
    }
}

fn read_atom(s: &Vec<char>, i: usize) -> (r: Option<usize>)
    requires
        i <= s.len(),
    ensures
        match r {
            Some(e) => atom_end(s@, i as int) == Some(e as int) && i < e <= s.len(),
            None => atom_end(s@, i as int) is None,
        },
{
    proof {
        reveal_strlit("true");
        reveal_strlit("false");
    }
    match read_word(s, i, "true") {
        Some(e) => {
            return Some(e);
        },
        None => {},
    }
    match read_word(s, i, "false") {
        Some(e) => {
            return Some(e);
        },
        None => {},
    }
    match read_text_comparison(s, i) {
        Some(e) => {
            return Some(e);
        },
        None => {},
    }
    read_number_comparison(s, i)
}

fn read_joiner(s: &Vec<char>, a: usize) -> (r: Option<usize>)
    requires
        a <= s.len(),
    ensures
        match r {
            Some(e) => joiner_end(s@, a as int) == Some(e as int) && a < e <= s.len(),
            None => joiner_end(s@, a as int) is None,
        },
{
    proof {
        reveal_strlit(") && (");
        reveal_strlit(") || (");
        assert(") && ("@ =~= seq![')', ' ', '&', '&', ' ', '(']);
        assert(") || ("@ =~= seq![')', ' ', '|', '|', ' ', '(']);
    }
    match read_word(s, a, ") && (") {
        Some(e) => {
            return Some(e);
        },
        None => {},
    }
    read_word(s, a, ") || (")
}

fn read_expression(s: &Vec<char>, i: usize) -> (r: Option<usize>)
    requires
        i <= s.len(),
    ensures
        match r {
            Some(e) => expression_end(s@, i as int) == Some(e as int) && i < e <= s.len(),
            None => expression_end(s@, i as int) is None,
        },
    decreases s.len() - i,
{
    if read_char(s, i, '(') {
        match read_expression(s, i + 1) {
            Some(a) => match read_joiner(s, a) {
                Some(b) => match read_expression(s, b) {
                    Some(c) => if read_char(s, c, ')') {
                        Some(c + 1)
                    } else {
                        None
                    },
                    None => None,
                },
                None => None,
            },
            None => None,
        }
    } else {
        read_atom(s, i)
    }
}

/// Whether the text is an expression of the language that the evaluator is
/// handed.
pub fn is_evaluable(expr: &str) -> (r: bool)
    ensures
        r == evaluable(expr@),
{
    let s = chars_of(expr);
    match read_expression(&s, 0) {
        Some(e) => e == s.len(),
        None => false,
    }
}

/// Calls `eval::eval` on the expression and tells whether the result is the
/// boolean value true.  The contract gives that answer a name; it claims
/// nothing of what the answer is.  Only the expressions of this module's
/// language are admitted: on other texts the evaluator may fail in ways that
/// do not come back as an error.
#[verifier::external_body]
fn eval_is_true(expr: &str) -> (r: bool)
    requires
        evaluable(expr@),
    ensures
        r == expression_holds(expr@),
{
    eval::eval(expr) == Ok(eval::to_value(true))
}

/// Whether `expr` is an expression of this module's language and has the
/// value true.
pub fn evaluates_true(expr: &str) -> (r: bool)
    ensures
        r == (evaluable(expr@) && expression_holds(expr@)),
{
    if is_evaluable(expr) {
        eval_is_true(expr)
    } else {
        false
    }
}

} // verus!
