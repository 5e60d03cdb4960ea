//! The grammar of addresses.
//!
//! ```text
//! xpath:
//!     element
//!     separator element
//!     xpath separator element
//! separator:
//!     //
//!     /
//! element:
//!     ..
//!     .
//!     @name
//!     name [ conditions_or ]
//!     name [ index ]
//!     * [ conditions_or ]
//!     * [ index ]
//!     *
//!     name
//! conditions_or:
//!     conditions_and or conditions_and
//!     conditions_and
//! conditions_and:
//!     condition and condition
//!     condition
//! condition:
//!     name operator string
//!     @name operator string
//!     text() operator string
//!     position() operator decimal
//!     position() operator last()
//!     position() operator last() - decimal
//!     name
//!     @name
//!     @*
//!     ( condition )
//!     ( conditions_and )
//!     ( conditions_or )
//! index:
//!     decimal
//!     last() - decimal
//!     last()
//! operator:
//!     >=
//!     <=
//!     >
//!     <
//!     !=
//!     =
//! ```
//!
//! Alternatives are tried in the order given, and the first that matches is
//! taken.  A name starts with a letter, `_` or `:` and goes on with letters,
//! digits, `_`, `:`, `-` and `.`.  A string stands in single quotes; inside,
//! a backslash stands before a backslash or a single quote.
//!
//! Every parser here reads from a position `i` of a sequence of characters
//! and gives the position behind what it read.

use crate::text::{chars_of, string_of_range};
use vstd::prelude::*;
use vstd::string::StrSliceExecFns;

verus! {

/// Why an address cannot be evaluated.
#[derive(Debug, Clone, Copy, PartialEq, Eq)]
pub enum QueryError {
    /// A quote or a bracket is left open.
    Unbalanced,
    /// A step does not match the grammar.
    Syntax,
}

pub open spec fn is_digit(c: char) -> bool {
    '0' <= c <= '9'
}

pub open spec fn is_alpha(c: char) -> bool {
    'a' <= c <= 'z' || 'A' <= c <= 'Z'
}

pub open spec fn is_space(c: char) -> bool {
    c == ' ' || c == '\t'
}

pub open spec fn is_name_start(c: char) -> bool {
    is_alpha(c) || c == '_' || c == ':'
}

pub open spec fn is_name_char(c: char) -> bool {
    is_alpha(c) || is_digit(c) || c == '_' || c == ':' || c == '-' || c == '.'
}

/// The end of the run of digits that starts at `i`.
pub open spec fn digits_end(s: Seq<char>, i: int) -> int
    decreases s.len() - i,
{
    if 0 <= i < s.len() && is_digit(s[i]) {
        digits_end(s, i + 1)
    } else {
        i
    }
}

/// The end of the run of spaces and tabs that starts at `i`.
pub open spec fn spaces_end(s: Seq<char>, i: int) -> int
    decreases s.len() - i,
{
    if 0 <= i < s.len() && is_space(s[i]) {
        spaces_end(s, i + 1)
    } else {
        i
    }
}

/// The end of the run of name characters that starts at `i`.
pub open spec fn name_chars_end(s: Seq<char>, i: int) -> int
    decreases s.len() - i,
{
    if 0 <= i < s.len() && is_name_char(s[i]) {
        name_chars_end(s, i + 1)
    } else {
        i
    }
}

/// The end of the decimal number at `i`: one digit at least.
pub open spec fn decimal_end(s: Seq<char>, i: int) -> Option<int> {
    if digits_end(s, i) > i {
        Some(digits_end(s, i))
    } else {
        None
    }
}

/// The end of the spaces at `i`: one at least.
pub open spec fn spaces1_end(s: Seq<char>, i: int) -> Option<int> {
    if spaces_end(s, i) > i {
        Some(spaces_end(s, i))
    } else {
        None
    }
}

/// The end of the name at `i`.
pub open spec fn name_end(s: Seq<char>, i: int) -> Option<int> {
    if 0 <= i < s.len() && is_name_start(s[i]) {
        Some(name_chars_end(s, i + 1))
    } else {
        None
    }
}

/// Whether `lit` stands at `i`.
pub open spec fn lit_at(s: Seq<char>, i: int, lit: Seq<char>) -> bool {
    0 <= i && i + lit.len() <= s.len() && s.subrange(i, i + lit.len()) == lit
}

/// The end of the separator at `i`: `//` before `/`.
pub open spec fn separator_end(s: Seq<char>, i: int) -> Option<int> {
    if lit_at(s, i, seq!['/', '/']) {
        Some(i + 2)
    } else if lit_at(s, i, seq!['/']) {
        Some(i + 1)
    } else {
        None
    }
}

/// The operator at `i`, in the form that an expression takes, and its end.
/// `=` reads as `==`.
pub open spec fn operator_at(s: Seq<char>, i: int) -> Option<(Seq<char>, int)> {
    if lit_at(s, i, seq!['>', '=']) {
        Some((seq!['>', '='], i + 2))
    } else if lit_at(s, i, seq!['<', '=']) {
        Some((seq!['<', '='], i + 2))
    } else if lit_at(s, i, seq!['>']) {
        Some((seq!['>'], i + 1))
    } else if lit_at(s, i, seq!['<']) {
        Some((seq!['<'], i + 1))
    } else if lit_at(s, i, seq!['!', '=']) {
        Some((seq!['!', '='], i + 2))
    } else if lit_at(s, i, seq!['=']) {
        Some((seq!['=', '='], i + 1))
    } else {
        None
    }
}

/// The end of a string whose body goes on at `j`: behind the closing quote.
pub open spec fn string_body_end(s: Seq<char>, j: int) -> Option<int>
    decreases s.len() - j,
{
    if j < 0 || j >= s.len() {
        None
    } else if s[j] == '\'' {
        Some(j + 1)
    } else if s[j] == '\\' {
        if j + 1 < s.len() && (s[j + 1] == '\\' || s[j + 1] == '\'') {
            string_body_end(s, j + 2)
        } else {
            None
        }
    } else {
        string_body_end(s, j + 1)
    }
}

/// The end of the string at `i`.
pub open spec fn string_end(s: Seq<char>, i: int) -> Option<int> {
    if 0 <= i < s.len() && s[i] == '\'' {
        string_body_end(s, i + 1)
    } else {
        None
    }
}

fn digit_c(c: char) -> (r: bool)
    ensures
        r == is_digit(c),
{
    '0' <= c && c <= '9'
}

fn alpha_c(c: char) -> (r: bool)
    ensures
        r == is_alpha(c),
{
    ('a' <= c && c <= 'z') || ('A' <= c && c <= 'Z')
}

fn name_c(c: char) -> (r: bool)
    ensures
        r == is_name_char(c),
{
    alpha_c(c) || digit_c(c) || c == '_' || c == ':' || c == '-' || c == '.'
}

/// Reads the digits at `i`.
pub(crate) fn skip_digits(s: &Vec<char>, i: usize) -> (r: usize)
    requires
        i <= s.len(),
    ensures
        r == digits_end(s@, i as int),
        i <= r <= s.len(),
{
    let mut j: usize = i;
    while j < s.len() && digit_c(s[j])
        invariant
            i <= j <= s.len(),
            digits_end(s@, i as int) == digits_end(s@, j as int),
        decreases s.len() - j,
    {
        j += 1;
    }
    j
}

/// Reads the spaces and tabs at `i`.
pub(crate) fn skip_spaces(s: &Vec<char>, i: usize) -> (r: usize)
    requires
        i <= s.len(),
    ensures
        r == spaces_end(s@, i as int),
        i <= r <= s.len(),
{
    let mut j: usize = i;
    while j < s.len() && (s[j] == ' ' || s[j] == '\t')
        invariant
            i <= j <= s.len(),
            spaces_end(s@, i as int) == spaces_end(s@, j as int),
        decreases s.len() - j,
    {
        j += 1;
    }
    j
}

/// Reads a name at `i`.
pub(crate) fn read_name(s: &Vec<char>, i: usize) -> (r: Option<usize>)
    requires
        i <= s.len(),
    ensures
        match r {
            Some(e) => name_end(s@, i as int) == Some(e as int) && i < e <= s.len(),
            None => name_end(s@, i as int) is None,
        },
{
    if i >= s.len() {
        return None;
    }
    let c = s[i];
    if !(alpha_c(c) || c == '_' || c == ':') {
        return None;
    }
    let mut j: usize = i + 1;
    while j < s.len() && name_c(s[j])
        invariant
            i < j <= s.len(),
            name_chars_end(s@, i + 1) == name_chars_end(s@, j as int),
        decreases s.len() - j,
    {
        j += 1;
    }
    Some(j)
}

/// Reads a decimal number at `i`.
pub(crate) fn read_decimal(s: &Vec<char>, i: usize) -> (r: Option<usize>)
    requires
        i <= s.len(),
    ensures
        match r {
            Some(e) => decimal_end(s@, i as int) == Some(e as int) && i < e <= s.len(),
            None => decimal_end(s@, i as int) is None,
        },
{
    let e = skip_digits(s, i);
    if e > i {
        Some(e)
    } else {
        None
    }
}

/// Whether the characters `lit` stand at `i`.
pub(crate) fn read_lit(s: &Vec<char>, i: usize, lit: &Vec<char>) -> (r: bool)
    requires
        i <= s.len(),
    ensures
        r == lit_at(s@, i as int, lit@),
{
    if lit.len() > s.len() - i {
        return false;
    }
    let mut k: usize = 0;
    while k < lit.len()
        invariant
            k <= lit.len() <= s.len() - i,
            forall|m: int| 0 <= m < k ==> s@[i + m] == lit@[m],
        decreases lit.len() - k,
    {
        if s[i + k] != lit[k] {
            assert(s@.subrange(i as int, i + lit.len())[k as int] != lit@[k as int]);
            return false;
        }
        k += 1;
    }
    assert(s@.subrange(i as int, i + lit.len()) =~= lit@);
    true
}

/// Whether the character `c` stands at `i`.
pub(crate) fn read_char(s: &Vec<char>, i: usize, c: char) -> (r: bool)
    requires
        i <= s.len(),
    ensures
        r == lit_at(s@, i as int, seq![c]),
        r ==> i < s.len(),
{
    if i < s.len() && s[i] == c {
        assert(s@.subrange(i as int, i + 1) =~= seq![c]);
        true
    } else {
        if i < s.len() {
            assert(s@.subrange(i as int, i + 1)[0] != seq![c][0]);
        }
        false
    }
}

/// Whether the characters `a`, `b` stand at `i`.
pub(crate) fn read_pair(s: &Vec<char>, i: usize, a: char, b: char) -> (r: bool)
    requires
        i <= s.len(),
    ensures
        r == lit_at(s@, i as int, seq![a, b]),
        r ==> i + 1 < s.len(),
{
    if i < s.len() && s.len() - i >= 2 && s[i] == a && s[i + 1] == b {
        assert(s@.subrange(i as int, i + 2) =~= seq![a, b]);
        true
    } else {
        if i < s.len() && s.len() - i >= 2 {
            assert(s@.subrange(i as int, i + 2)[0] == s@[i as int]);
            assert(s@.subrange(i as int, i + 2)[1] == s@[i + 1]);
            assert(seq![a, b][0] == a && seq![a, b][1] == b);
        }
        false
    }
}

/// Reads a separator at `i`.
pub(crate) fn read_separator(s: &Vec<char>, i: usize) -> (r: Option<usize>)
    requires
        i <= s.len(),
    ensures
        match r {
            Some(e) => separator_end(s@, i as int) == Some(e as int) && i < e <= s.len(),
            None => separator_end(s@, i as int) is None,
        },
{
    if read_pair(s, i, '/', '/') {
        Some(i + 2)
    } else if read_char(s, i, '/') {
        Some(i + 1)
    } else {
        None
    }
}

/// Reads a string at `i`.
pub(crate) fn read_string(s: &Vec<char>, i: usize) -> (r: Option<usize>)
    requires
        i <= s.len(),
    ensures
        match r {
            Some(e) => string_end(s@, i as int) == Some(e as int) && i < e <= s.len(),
            None => string_end(s@, i as int) is None,
        },
{
    if i >= s.len() || s[i] != '\'' {
        return None;
    }
    let mut j: usize = i + 1;
    while j < s.len()
        invariant
            i < j <= s.len(),
            string_end(s@, i as int) == string_body_end(s@, j as int),
        decreases s.len() - j,
    {
        let c = s[j];
        if c == '\'' {
            return Some(j + 1);
        } else if c == '\\' {
            if s.len() - j >= 2 && (s[j + 1] == '\\' || s[j + 1] == '\'') {
                j += 2;
            } else {
                return None;
            }
        } else {
            j += 1;
        }
    }
    None
}

/// A predicate, as plain values.
pub ghost enum PredView {
    And(Box<PredView>, Box<PredView>),
    Or(Box<PredView>, Box<PredView>),
    Condition(Seq<char>, Option<Seq<char>>, Option<Seq<char>>),
    IndexDecimal(Seq<char>),
    IndexExpr(Seq<char>, Seq<char>),
    Nothing,
}

/// One step of an address, as plain values.
pub ghost struct SegView {
    pub separator: Seq<char>,
    pub node: Seq<char>,
    pub condition: PredView,
}

/// The predicate of a step.
///
/// - `And`, `Or`: both, or one, of two predicates
/// - `Condition`: what is compared (a child's name, `@` and an attribute's
///   name, `@*`, `text()` or `position()`), the operator and the right-hand
///   side; without an operator the condition asks whether the thing is there
/// - `IndexDecimal`: the position given by a number
/// - `IndexExpr`: the position given by `last()`, less a number where the
///   second string is not empty
/// - `Nothing`: no predicate
#[derive(Debug, PartialEq)]
pub enum Predictor {
    And(Box<Predictor>, Box<Predictor>),
    Or(Box<Predictor>, Box<Predictor>),
    Condition(String, Option<String>, Option<String>),
    IndexDecimal(String),
    IndexExpr(String, String),
    Nothing,
}

/// One step of an address: the separator before it (empty for a leading
/// step), the name it selects (`*` for any, `.` and `..` for the node itself
/// and its parent) and the predicate.
#[derive(Debug, PartialEq)]
pub struct XPathSegment {
    pub separator: String,
    pub node: String,
    pub condition: Predictor,
}

pub open spec fn opt_text(s: Option<String>) -> Option<Seq<char>> {
    match s {
        Some(t) => Some(t@),
        None => None,
    }
}

impl View for Predictor {
    type V = PredView;

    open spec fn view(&self) -> PredView
        decreases self,
    {
        match self {
            Predictor::And(l, r) => PredView::And(Box::new((**l).view()), Box::new((**r).view())),
            Predictor::Or(l, r) => PredView::Or(Box::new((**l).view()), Box::new((**r).view())),
            Predictor::Condition(l, op, r) => PredView::Condition(l@, opt_text(*op), opt_text(*r)),
            Predictor::IndexDecimal(n) => PredView::IndexDecimal(n@),
            Predictor::IndexExpr(l, n) => PredView::IndexExpr(l@, n@),
            Predictor::Nothing => PredView::Nothing,
        }
    }
}

impl View for XPathSegment {
    type V = SegView;

    open spec fn view(&self) -> SegView {
        SegView { separator: self.separator@, node: self.node@, condition: self.condition@ }
    }
}

/// The views of the steps, in order.
pub open spec fn segs_view(v: Seq<XPathSegment>) -> Seq<SegView> {
    Seq::new(v.len(), |i: int| v[i]@)
}

pub open spec fn lit_last() -> Seq<char> {
    seq!['l', 'a', 's', 't', '(', ')']
}

pub open spec fn lit_text() -> Seq<char> {
    seq!['t', 'e', 'x', 't', '(', ')']
}

pub open spec fn lit_position() -> Seq<char> {
    seq!['p', 'o', 's', 'i', 't', 'i', 'o', 'n', '(', ')']
}

pub open spec fn lit_and() -> Seq<char> {
    seq!['a', 'n', 'd']
}

pub open spec fn lit_or() -> Seq<char> {
    seq!['o', 'r']
}

/// The index at `i`: a number, `last()` less a number, or `last()`.
pub open spec fn index_at(s: Seq<char>, i: int) -> Option<(PredView, int)> {
    match decimal_end(s, i) {
        Some(e) => Some((PredView::IndexDecimal(s.subrange(i, e)), e)),
        None => if lit_at(s, i, lit_last()) {
            let a = spaces_end(s, i + 6);
            let b = spaces_end(s, a + 1);
            if lit_at(s, a, seq!['-']) && decimal_end(s, b) is Some {
                Some((PredView::IndexExpr(lit_last(), s.subrange(b, decimal_end(s, b)->0)), decimal_end(s, b)->0))
            } else {
                Some((PredView::IndexExpr(lit_last(), Seq::empty()), i + 6))
            }
        } else {
            None
        },
    }
}

/// The right-hand side of a comparison with `position()` at `i`: a number,
/// `last()`, or `last()` less a number, which reads `last() - ` and the
/// number.
pub open spec fn position_operand_at(s: Seq<char>, i: int) -> Option<(Seq<char>, int)> {
    match index_at(s, i) {
        Some((PredView::IndexDecimal(n), e)) => Some((n, e)),
        Some((PredView::IndexExpr(l, n), e)) => if n.len() == 0 {
            Some((l, e))
        } else {
            Some((l + seq![' ', '-', ' '] + n, e))
        },
        _ => None,
    }
}

/// A comparison at `i` whose left-hand side ends at `a`: spaces, an
/// operator, spaces and a string.
pub open spec fn compared_to_string(s: Seq<char>, i: int, a: int) -> Option<(PredView, int)> {
    match operator_at(s, spaces_end(s, a)) {
        Some((op, c)) => match string_end(s, spaces_end(s, c)) {
            Some(e) => Some(
                (
                    PredView::Condition(
                        s.subrange(i, a),
                        Some(op),
                        Some(s.subrange(spaces_end(s, c), e)),
                    ),
                    e,
                ),
            ),
            None => None,
        },
        None => None,
    }
}

/// A comparison of `position()` at `i`.
pub open spec fn compared_position(s: Seq<char>, i: int) -> Option<(PredView, int)> {
    if lit_at(s, i, lit_position()) {
        match operator_at(s, spaces_end(s, i + 10)) {
            Some((op, c)) => match position_operand_at(s, spaces_end(s, c)) {
                Some((rhs, e)) => Some(
                    (PredView::Condition(lit_position(), Some(op), Some(rhs)), e),
                ),
                None => None,
            },
            None => None,
        }
    } else {
        None
    }
}

/// The condition at `i` that is no group in parentheses.
pub open spec fn plain_condition_at(s: Seq<char>, i: int) -> Option<(PredView, int)> {
    if name_end(s, i) is Some && compared_to_string(s, i, name_end(s, i)->0) is Some {
        compared_to_string(s, i, name_end(s, i)->0)
    } else if lit_at(s, i, seq!['@']) && name_end(s, i + 1) is Some && compared_to_string(
        s,
        i,
        name_end(s, i + 1)->0,
    ) is Some {
        compared_to_string(s, i, name_end(s, i + 1)->0)
    } else if lit_at(s, i, lit_text()) && compared_to_string(s, i, i + 6) is Some {
        compared_to_string(s, i, i + 6)
    } else if compared_position(s, i) is Some {
        compared_position(s, i)
    } else if name_end(s, i) is Some {
        Some((PredView::Condition(s.subrange(i, name_end(s, i)->0), None, None), name_end(s, i)->0))
    } else if lit_at(s, i, seq!['@']) && name_end(s, i + 1) is Some {
        Some(
            (
                PredView::Condition(s.subrange(i, name_end(s, i + 1)->0), None, None),
                name_end(s, i + 1)->0,
            ),
        )
    } else if lit_at(s, i, seq!['@', '*']) {
        Some((PredView::Condition(seq!['@', '*'], None, None), i + 2))
    } else {
        None
    }
}

/// Closing a group: spaces and `)` behind a predicate that ends at `e`.
pub open spec fn closed_at(s: Seq<char>, e: int) -> Option<int> {
    if lit_at(s, spaces_end(s, e), seq![')']) {
        Some(spaces_end(s, e) + 1)
    } else {
        None
    }
}

/// The condition at `i`.  A group in parentheses holds a condition, or
/// else two joined by `and`, or else two of those joined by `or`.
pub open spec fn condition_at(s: Seq<char>, i: int) -> Option<(PredView, int)>
    decreases s.len() - i, 0int,
{
    if plain_condition_at(s, i) is Some {
        plain_condition_at(s, i)
    } else if lit_at(s, i, seq!['(']) && i < spaces_end(s, i + 1) <= s.len() {
        let a = spaces_end(s, i + 1);
        if condition_at(s, a) is Some && closed_at(s, condition_at(s, a).unwrap().1) is Some {
            Some((condition_at(s, a).unwrap().0, closed_at(s, condition_at(s, a).unwrap().1)->0))
        } else if conditions_and_at(s, a) is Some && closed_at(s, conditions_and_at(s, a).unwrap().1)
            is Some {
            Some((conditions_and_at(s, a).unwrap().0, closed_at(s, conditions_and_at(s, a).unwrap().1)->0))
        } else if conditions_or_at(s, a) is Some && closed_at(s, conditions_or_at(s, a).unwrap().1)
            is Some {
            Some((conditions_or_at(s, a).unwrap().0, closed_at(s, conditions_or_at(s, a).unwrap().1)->0))
        } else {
            None
        }
    } else {
        None
    }
}

/// Where the right-hand operand of the joiner `word` starts, for a left-hand
/// operand that ends at `a`: behind spaces, the word and spaces again.
pub open spec fn joined_at(s: Seq<char>, a: int, word: Seq<char>) -> Option<int> {
    match spaces1_end(s, a) {
        Some(b) => if lit_at(s, b, word) {
            spaces1_end(s, b + word.len())
        } else {
            None
        },
        None => None,
    }
}

/// Two conditions joined by `and`, or one condition, at `i`.
pub open spec fn conditions_and_at(s: Seq<char>, i: int) -> Option<(PredView, int)>
    decreases s.len() - i, 1int,
{
    match condition_at(s, i) {
        Some((l, a)) => {
            match joined_at(s, a, lit_and()) {
                Some(c) => if i < c <= s.len() && condition_at(s, c) is Some {
                    Some(
                        (
                            PredView::And(Box::new(l), Box::new(condition_at(s, c).unwrap().0)),
                            condition_at(s, c).unwrap().1,
                        ),
                    )
                } else {
                    Some((l, a))
                },
                None => Some((l, a)),
            }
        },
        None => None,
    }
}

/// Two of those joined by `or`, or one, at `i`.
pub open spec fn conditions_or_at(s: Seq<char>, i: int) -> Option<(PredView, int)>
    decreases s.len() - i, 2int,
{
    match conditions_and_at(s, i) {
        Some((l, a)) => {
            match joined_at(s, a, lit_or()) {
                Some(c) => if i < c <= s.len() && conditions_and_at(s, c) is Some {
                    Some(
                        (
                            PredView::Or(Box::new(l), Box::new(conditions_and_at(s, c).unwrap().0)),
                            conditions_and_at(s, c).unwrap().1,
                        ),
                    )
                } else {
                    Some((l, a))
                },
                None => Some((l, a)),
            }
        },
        None => None,
    }
}

fn word_last() -> (r: Vec<char>)
    ensures
        r@ == lit_last(),
{
    proof {
        reveal_strlit("last()");
        assert("last()"@ =~= lit_last());
    }
    chars_of("last()")
}

fn word_text() -> (r: Vec<char>)
    ensures
        r@ == lit_text(),
{
    proof {
        reveal_strlit("text()");
        assert("text()"@ =~= lit_text());
    }
    chars_of("text()")
}

fn word_position() -> (r: Vec<char>)
    ensures
        r@ == lit_position(),
{
    proof {
        reveal_strlit("position()");
        assert("position()"@ =~= lit_position());
    }
    chars_of("position()")
}

fn word_and() -> (r: Vec<char>)
    ensures
        r@ == lit_and(),
{
    proof {
        reveal_strlit("and");
        assert("and"@ =~= lit_and());
    }
    chars_of("and")
}

fn word_or() -> (r: Vec<char>)
    ensures
        r@ == lit_or(),
{
    proof {
        reveal_strlit("or");
        assert("or"@ =~= lit_or());
    }
    chars_of("or")
}

fn text_of(a: char, b: char) -> (r: String)
    ensures
        r@ == seq![a, b],
{
    let mut v: Vec<char> = Vec::new();
    v.push(a);
    v.push(b);
    assert(v@ =~= seq![a, b]);
    crate::text::string_of(&v)
}

fn text_of_one(a: char) -> (r: String)
    ensures
        r@ == seq![a],
{
    let mut v: Vec<char> = Vec::new();
    v.push(a);
    assert(v@ =~= seq![a]);
    crate::text::string_of(&v)
}

/// Reads an operator at `i`.
pub(crate) fn read_operator(s: &Vec<char>, i: usize) -> (r: Option<(String, usize)>)
    requires
        i <= s.len(),
    ensures
        match r {
            Some((op, e)) => operator_at(s@, i as int) == Some((op@, e as int)) && i < e
                <= s.len(),
            None => operator_at(s@, i as int) is None,
        },
{
    if read_pair(s, i, '>', '=') {
        Some((text_of('>', '='), i + 2))
    } else if read_pair(s, i, '<', '=') {
        Some((text_of('<', '='), i + 2))
    } else if read_char(s, i, '>') {
        Some((text_of_one('>'), i + 1))
    } else if read_char(s, i, '<') {
        Some((text_of_one('<'), i + 1))
    } else if read_pair(s, i, '!', '=') {
        Some((text_of('!', '='), i + 2))
    } else if read_char(s, i, '=') {
        Some((text_of('=', '='), i + 1))
    } else {
        None
    }
}

/// Reads an index at `i`.
pub(crate) fn read_index(s: &Vec<char>, i: usize) -> (r: Option<(Predictor, usize)>)
    requires
        i <= s.len(),
    ensures
        match r {
            Some((p, e)) => index_at(s@, i as int) == Some((p@, e as int)) && i < e <= s.len(),
            None => index_at(s@, i as int) is None,
        },
{
    match read_decimal(s, i) {
        Some(e) => Some((Predictor::IndexDecimal(string_of_range(s, i, e)), e)),
        None => {
            let last = word_last();
            if read_lit(s, i, &last) {
                let left = string_of_range(s, i, i + 6);
                assert(left@ == lit_last());
                let a = skip_spaces(s, i + 6);
                if read_char(s, a, '-') {
                    let b = skip_spaces(s, a + 1);
                    match read_decimal(s, b) {
                        Some(e) => {
                            return Some(
                                (Predictor::IndexExpr(left, string_of_range(s, b, e)), e),
                            );
                        },
                        None => {},
                    }
                }
                Some((Predictor::IndexExpr(left, String::new()), i + 6))
            } else {
                None
            }
        },
    }
}

/// Reads the right-hand side of a comparison with `position()` at `i`.
pub(crate) fn read_position_operand(s: &Vec<char>, i: usize) -> (r: Option<(String, usize)>)
    requires
        i <= s.len(),
    ensures
        match r {
            Some((t, e)) => position_operand_at(s@, i as int) == Some((t@, e as int)) && i < e
                <= s.len(),
            None => position_operand_at(s@, i as int) is None,
        },
{
    match read_index(s, i) {
        Some((Predictor::IndexDecimal(n), e)) => Some((n, e)),
        Some((Predictor::IndexExpr(l, n), e)) => {
            if n.as_str().is_empty() {
                Some((l, e))
            } else {
                let mut v = chars_of(l.as_str());
                v.push(' ');
                v.push('-');
                v.push(' ');
                crate::text::push_str_chars(&mut v, n.as_str());
                assert(v@ =~= l@ + seq![' ', '-', ' '] + n@);
                Some((crate::text::string_of(&v), e))
            }
        },
        _ => None,
    }
}

/// Reads spaces, an operator, spaces and a string behind a left-hand side
/// that starts at `i` and ends at `a`.
pub(crate) fn read_compared_to_string(s: &Vec<char>, i: usize, a: usize) -> (r: Option<
    (Predictor, usize),
>)
    requires
        i <= a <= s.len(),
    ensures
        match r {
            Some((p, e)) => compared_to_string(s@, i as int, a as int) == Some((p@, e as int))
                && a < e <= s.len(),
            None => compared_to_string(s@, i as int, a as int) is None,
        },
{
    let b = skip_spaces(s, a);
    match read_operator(s, b) {
        Some((op, c)) => {
            let d = skip_spaces(s, c);
            match read_string(s, d) {
                Some(e) => Some(
                    (
                        Predictor::Condition(
                            string_of_range(s, i, a),
                            Some(op),
                            Some(string_of_range(s, d, e)),
                        ),
                        e,
                    ),
                ),
                None => None,
            }
        },
        None => None,
    }
}

/// Reads a comparison of `position()` at `i`.
pub(crate) fn read_compared_position(s: &Vec<char>, i: usize) -> (r: Option<(Predictor, usize)>)
    requires
        i <= s.len(),
    ensures
        match r {
            Some((p, e)) => compared_position(s@, i as int) == Some((p@, e as int)) && i < e
                <= s.len(),
            None => compared_position(s@, i as int) is None,
        },
{
    let word = word_position();
    if read_lit(s, i, &word) {
        let b = skip_spaces(s, i + 10);
        match read_operator(s, b) {
            Some((op, c)) => {
                let d = skip_spaces(s, c);
                match read_position_operand(s, d) {
                    Some((rhs, e)) => {
                        let left = string_of_range(s, i, i + 10);
                        Some((Predictor::Condition(left, Some(op), Some(rhs)), e))
                    },
                    None => None,
                }
            },
            None => None,
        }
    } else {
        None
    }
}

/// Reads a condition at `i` that is no group in parentheses.
pub(crate) fn read_plain_condition(s: &Vec<char>, i: usize) -> (r: Option<(Predictor, usize)>)
    requires
        i <= s.len(),
    ensures
        match r {
            Some((p, e)) => plain_condition_at(s@, i as int) == Some((p@, e as int)) && i < e
                <= s.len(),
            None => plain_condition_at(s@, i as int) is None,
        },
{
    let name = read_name(s, i);
    match name {
        Some(a) => match read_compared_to_string(s, i, a) {
            Some(r) => {
                return Some(r);
            },
            None => {},
        },
        None => {},
    }
    let at = read_char(s, i, '@');
    let attr = if at {
        read_name(s, i + 1)
    } else {
        None
    };
    match attr {
        Some(a) => match read_compared_to_string(s, i, a) {
            Some(r) => {
                return Some(r);
            },
            None => {},
        },
        None => {},
    }
    let word = word_text();
    if read_lit(s, i, &word) {
        match read_compared_to_string(s, i, i + 6) {
            Some(r) => {
                return Some(r);
            },
            None => {},
        }
    }
    match read_compared_position(s, i) {
        Some(r) => {
            return Some(r);
        },
        None => {},
    }
    match name {
        Some(a) => {
            return Some((Predictor::Condition(string_of_range(s, i, a), None, None), a));
        },
        None => {},
    }
    match attr {
        Some(a) => {
            return Some((Predictor::Condition(string_of_range(s, i, a), None, None), a));
        },
        None => {},
    }
    if read_pair(s, i, '@', '*') {
        return Some((Predictor::Condition(text_of('@', '*'), None, None), i + 2));
    }
    None
}

/// Reads spaces and `)` at `e`.
pub(crate) fn read_closed(s: &Vec<char>, e: usize) -> (r: Option<usize>)
    requires
        e <= s.len(),
    ensures
        match r {
            Some(c) => closed_at(s@, e as int) == Some(c as int) && e < c <= s.len(),
            None => closed_at(s@, e as int) is None,
        },
{
    let a = skip_spaces(s, e);
    if read_char(s, a, ')') {
        Some(a + 1)
    } else {
        None
    }
}

/// Reads spaces, the joiner `word` and spaces at `a`.
pub(crate) fn read_joined(s: &Vec<char>, a: usize, word: &Vec<char>) -> (r: Option<usize>)
    requires
        a <= s.len(),
    ensures
        match r {
            Some(c) => joined_at(s@, a as int, word@) == Some(c as int) && a < c <= s.len(),
            None => joined_at(s@, a as int, word@) is None,
        },
{
    let b = skip_spaces(s, a);
    if b > a && read_lit(s, b, word) {
        let c = b + word.len();
        let d = skip_spaces(s, c);
        if d > c {
            Some(d)
        } else {
            None
        }
    } else {
        None
    }
}

/// Reads a condition at `i`.
pub(crate) fn read_condition(s: &Vec<char>, i: usize) -> (r: Option<(Predictor, usize)>)
    requires
        i <= s.len(),
    ensures
        match r {
            Some((p, e)) => condition_at(s@, i as int) == Some((p@, e as int)) && i < e
                <= s.len(),
            None => condition_at(s@, i as int) is None,
        },
    decreases s.len() - i, 0int,
{
    match read_plain_condition(s, i) {
        Some(r) => {
            return Some(r);
        },
        None => {},
    }
    if !read_char(s, i, '(') {
        return None;
    }
    let a = skip_spaces(s, i + 1);
    match read_condition(s, a) {
        Some((p, e)) => match read_closed(s, e) {
            Some(c) => {
                return Some((p, c));
            },
            None => {},
        },
        None => {},
    }
    match read_conditions_and(s, a) {
        Some((p, e)) => match read_closed(s, e) {
            Some(c) => {
                return Some((p, c));
            },
            None => {},
        },
        None => {},
    }
    match read_conditions_or(s, a) {
        Some((p, e)) => match read_closed(s, e) {
            Some(c) => {
                return Some((p, c));
            },
            None => {},
        },
        None => {},
    }
    None
}

/// Reads two conditions joined by `and`, or one condition, at `i`.
pub(crate) fn read_conditions_and(s: &Vec<char>, i: usize) -> (r: Option<(Predictor, usize)>)
    requires
        i <= s.len(),
    ensures
        match r {
            Some((p, e)) => conditions_and_at(s@, i as int) == Some((p@, e as int)) && i < e
                <= s.len(),
            None => conditions_and_at(s@, i as int) is None,
        },
    decreases s.len() - i, 1int,
{
    match read_condition(s, i) {
        Some((l, a)) => {
            let word = word_and();
            match read_joined(s, a, &word) {
                Some(c) => match read_condition(s, c) {
                    Some((r, e)) => Some((Predictor::And(Box::new(l), Box::new(r)), e)),
                    None => Some((l, a)),
                },
                None => Some((l, a)),
            }
        },
        None => None,
    }
}

/// Reads two groups joined by `or`, or one group, at `i`.
pub(crate) fn read_conditions_or(s: &Vec<char>, i: usize) -> (r: Option<(Predictor, usize)>)
    requires
        i <= s.len(),
    ensures
        match r {
            Some((p, e)) => conditions_or_at(s@, i as int) == Some((p@, e as int)) && i < e
                <= s.len(),
            None => conditions_or_at(s@, i as int) is None,
        },
    decreases s.len() - i, 2int,
{
    match read_conditions_and(s, i) {
        Some((l, a)) => {
            let word = word_or();
            match read_joined(s, a, &word) {
                Some(c) => match read_conditions_and(s, c) {
                    Some((r, e)) => Some((Predictor::Or(Box::new(l), Box::new(r)), e)),
                    None => Some((l, a)),
                },
                None => Some((l, a)),
            }
        },
        None => None,
    }
}

/// The predicate in brackets at `a`: `[`, spaces, two groups joined by `or`
/// or one group, or else an index, then spaces and `]`.
pub open spec fn bracket_at(s: Seq<char>, a: int) -> Option<(PredView, int)> {
    if lit_at(s, a, seq!['[']) {
        let b = spaces_end(s, a + 1);
        if conditions_or_at(s, b) is Some && lit_at(
            s,
            spaces_end(s, conditions_or_at(s, b).unwrap().1),
            seq![']'],
        ) {
            Some(
                (
                    conditions_or_at(s, b).unwrap().0,
                    spaces_end(s, conditions_or_at(s, b).unwrap().1) + 1,
                ),
            )
        } else if index_at(s, b) is Some && lit_at(
            s,
            spaces_end(s, index_at(s, b).unwrap().1),
            seq![']'],
        ) {
            Some((index_at(s, b).unwrap().0, spaces_end(s, index_at(s, b).unwrap().1) + 1))
        } else {
            None
        }
    } else {
        None
    }
}

/// The element at `i`, with an empty separator.
pub open spec fn element_at(s: Seq<char>, i: int) -> Option<(SegView, int)> {
    if lit_at(s, i, seq!['.', '.']) {
        Some(
            (
                SegView {
                    separator: Seq::empty(),
                    node: seq!['.', '.'],
                    condition: PredView::Nothing,
                },
                i + 2,
            ),
        )
    } else if lit_at(s, i, seq!['.']) {
        Some(
            (
                SegView { separator: Seq::empty(), node: seq!['.'], condition: PredView::Nothing },
                i + 1,
            ),
        )
    } else if lit_at(s, i, seq!['@']) && name_end(s, i + 1) is Some {
        Some(
            (
                SegView {
                    separator: Seq::empty(),
                    node: seq!['*'],
                    condition: PredView::Condition(
                        s.subrange(i, name_end(s, i + 1).unwrap()),
                        None,
                        None,
                    ),
                },
                name_end(s, i + 1).unwrap(),
            ),
        )
    } else if name_end(s, i) is Some {
        let a = name_end(s, i).unwrap();
        match bracket_at(s, a) {
            Some((p, e)) => Some(
                (SegView { separator: Seq::empty(), node: s.subrange(i, a), condition: p }, e),
            ),
            None => Some(
                (
                    SegView {
                        separator: Seq::empty(),
                        node: s.subrange(i, a),
                        condition: PredView::Nothing,
                    },
                    a,
                ),
            ),
        }
    } else if lit_at(s, i, seq!['*']) {
        match bracket_at(s, i + 1) {
            Some((p, e)) => Some(
                (SegView { separator: Seq::empty(), node: seq!['*'], condition: p }, e),
            ),
            None => Some(
                (
                    SegView {
                        separator: Seq::empty(),
                        node: seq!['*'],
                        condition: PredView::Nothing,
                    },
                    i + 1,
                ),
            ),
        }
    } else {
        None
    }
}

/// The step at `i`: a separator and an element.
pub open spec fn step_at(s: Seq<char>, i: int) -> Option<(SegView, int)> {
    match separator_end(s, i) {
        Some(a) => match element_at(s, a) {
            Some((seg, e)) => Some((SegView { separator: s.subrange(i, a), ..seg }, e)),
            None => None,
        },
        None => None,
    }
}

/// The steps from `i` on, as many as there are, and where they end.
pub open spec fn steps_from(s: Seq<char>, i: int) -> (Seq<SegView>, int)
    decreases s.len() - i,
{
    match step_at(s, i) {
        Some((seg, e)) => if i < e <= s.len() {
            (seq![seg] + steps_from(s, e).0, steps_from(s, e).1)
        } else {
            (Seq::empty(), i)
        },
        None => (Seq::empty(), i),
    }
}

/// The steps of an address and where they end: a leading element, if there
/// is one, and then every separator with its element.
pub open spec fn xpath_of(s: Seq<char>) -> (Seq<SegView>, int) {
    match element_at(s, 0) {
        Some((seg, e)) => (seq![seg] + steps_from(s, e).0, steps_from(s, e).1),
        None => steps_from(s, 0),
    }
}

/// Reads a predicate in brackets at `a`.
pub(crate) fn read_bracket(s: &Vec<char>, a: usize) -> (r: Option<(Predictor, usize)>)
    requires
        a <= s.len(),
    ensures
        match r {
            Some((p, e)) => bracket_at(s@, a as int) == Some((p@, e as int)) && a < e <= s.len(),
            None => bracket_at(s@, a as int) is None,
        },
{
    if !read_char(s, a, '[') {
        return None;
    }
    let b = skip_spaces(s, a + 1);
    match read_conditions_or(s, b) {
        Some((p, e)) => {
            let c = skip_spaces(s, e);
            if read_char(s, c, ']') {
                return Some((p, c + 1));
            }
        },
        None => {},
    }
    match read_index(s, b) {
        Some((p, e)) => {
            let c = skip_spaces(s, e);
            if read_char(s, c, ']') {
                return Some((p, c + 1));
            }
        },
        None => {},
    }
    None
}

/// Reads an element at `i`.
pub(crate) fn read_element(s: &Vec<char>, i: usize) -> (r: Option<(XPathSegment, usize)>)
    requires
        i <= s.len(),
    ensures
        match r {
            Some((seg, e)) => element_at(s@, i as int) == Some((seg@, e as int)) && i < e
                <= s.len(),
            None => element_at(s@, i as int) is None,
        },
{
    if read_pair(s, i, '.', '.') {
        return Some(
            (
                XPathSegment {
                    separator: String::new(),
                    node: text_of('.', '.'),
                    condition: Predictor::Nothing,
                },
                i + 2,
            ),
        );
    }
    if read_char(s, i, '.') {
        return Some(
            (
                XPathSegment {
                    separator: String::new(),
                    node: text_of_one('.'),
                    condition: Predictor::Nothing,
                },
                i + 1,
            ),
        );
    }
    if read_char(s, i, '@') {
        match read_name(s, i + 1) {
            Some(a) => {
                return Some(
                    (
                        XPathSegment {
                            separator: String::new(),
                            node: text_of_one('*'),
                            condition: Predictor::Condition(string_of_range(s, i, a), None, None),
                        },
                        a,
                    ),
                );
            },
            None => {},
        }
    }
    match read_name(s, i) {
        Some(a) => {
            let node = string_of_range(s, i, a);
            return match read_bracket(s, a) {
                Some((p, e)) => Some(
                    (XPathSegment { separator: String::new(), node, condition: p }, e),
                ),
                None => Some(
                    (
                        XPathSegment {
                            separator: String::new(),
                            node,
                            condition: Predictor::Nothing,
                        },
                        a,
                    ),
                ),
            };
        },
        None => {},
    }
    if read_char(s, i, '*') {
        return match read_bracket(s, i + 1) {
            Some((p, e)) => Some(
                (XPathSegment { separator: String::new(), node: text_of_one('*'), condition: p }, e),
            ),
            None => Some(
                (
                    XPathSegment {
                        separator: String::new(),
                        node: text_of_one('*'),
                        condition: Predictor::Nothing,
                    },
                    i + 1,
                ),
            ),
        };
    }
    None
}

/// Reads a step at `i`: a separator and an element.
pub(crate) fn read_step(s: &Vec<char>, i: usize) -> (r: Option<(XPathSegment, usize)>)
    requires
        i <= s.len(),
    ensures
        match r {
            Some((seg, e)) => step_at(s@, i as int) == Some((seg@, e as int)) && i < e
                <= s.len(),
            None => step_at(s@, i as int) is None,
        },
{
    match read_separator(s, i) {
        Some(a) => match read_element(s, a) {
            Some((seg, e)) => {
                let seg = XPathSegment {
                    separator: string_of_range(s, i, a),
                    node: seg.node,
                    condition: seg.condition,
                };
                Some((seg, e))
            },
            None => None,
        },
        None => None,
    }
}

/// What is left of `input` behind its first `e` characters.
fn rest_of<'a>(input: &'a str, s: &Vec<char>, e: usize) -> (r: &'a str)
    requires
        s@ == input@,
        e <= s.len(),
    ensures
        r@ == input@.subrange(e as int, input@.len() as int),
{
    input.substring_char(e, s.len())
}

/// The two parts of `input` at `e`: what is left behind `e`, and what stands
/// before it.
fn parts<'a>(input: &'a str, s: &Vec<char>, e: usize) -> (r: (&'a str, &'a str))
    requires
        s@ == input@,
        e <= s.len(),
    ensures
        r.0@ == input@.subrange(e as int, input@.len() as int),
        r.1@ == input@.subrange(0, e as int),
{
    (input.substring_char(e, s.len()), input.substring_char(0, e))
}

/// Reads a decimal number at the start of `input`.  The result holds what is
/// left of the input, and the number.
pub fn decimal<'a>(input: &'a str) -> (r: Result<(&'a str, &'a str), QueryError>)
    ensures
        match r {
            Ok((rest, found)) => decimal_end(input@, 0) is Some && found@ == input@.subrange(
                0,
                decimal_end(input@, 0).unwrap(),
            ) && rest@ == input@.subrange(decimal_end(input@, 0).unwrap(), input@.len() as int),
            Err(e) => decimal_end(input@, 0) is None && e == QueryError::Syntax,
        },
{
    let s = chars_of(input);
    match read_decimal(&s, 0) {
        Some(e) => Ok(parts(input, &s, e)),
        None => Err(QueryError::Syntax),
    }
}

/// Reads a name at the start of `input`.  The result holds what is left of
/// the input, and the name.
pub fn name<'a>(input: &'a str) -> (r: Result<(&'a str, &'a str), QueryError>)
    ensures
        match r {
            Ok((rest, found)) => name_end(input@, 0) is Some && found@ == input@.subrange(
                0,
                name_end(input@, 0).unwrap(),
            ) && rest@ == input@.subrange(name_end(input@, 0).unwrap(), input@.len() as int),
            Err(e) => name_end(input@, 0) is None && e == QueryError::Syntax,
        },
{
    let s = chars_of(input);
    match read_name(&s, 0) {
        Some(e) => Ok(parts(input, &s, e)),
        None => Err(QueryError::Syntax),
    }
}

/// Reads a separator at the start of `input`.  The result holds what is
/// left of the input, and the separator.
pub fn separator<'a>(input: &'a str) -> (r: Result<(&'a str, &'a str), QueryError>)
    ensures
        match r {
            Ok((rest, found)) => separator_end(input@, 0) is Some && found@ == input@.subrange(
                0,
                separator_end(input@, 0).unwrap(),
            ) && rest@ == input@.subrange(
                separator_end(input@, 0).unwrap(),
                input@.len() as int,
            ),
            Err(e) => separator_end(input@, 0) is None && e == QueryError::Syntax,
        },
{
    let s = chars_of(input);
    match read_separator(&s, 0) {
        Some(e) => Ok(parts(input, &s, e)),
        None => Err(QueryError::Syntax),
    }
}

/// Reads an operator at the start of `input`.  The result holds what is
/// left of the input, and the operator as an expression takes it: `==` for
/// `=`.
pub fn operator<'a>(input: &'a str) -> (r: Result<(&'a str, &'static str), QueryError>)
    ensures
        match r {
            Ok((rest, found)) => operator_at(input@, 0) is Some && found@ == operator_at(
                input@,
                0,
            ).unwrap().0 && rest@ == input@.subrange(
                operator_at(input@, 0).unwrap().1,
                input@.len() as int,
            ),
            Err(e) => operator_at(input@, 0) is None && e == QueryError::Syntax,
        },
{
    let s = chars_of(input);
    proof {
        reveal_strlit(">=");
        reveal_strlit("<=");
        reveal_strlit(">");
        reveal_strlit("<");
        reveal_strlit("!=");
        reveal_strlit("==");
        assert(">="@ =~= seq!['>', '=']);
        assert("<="@ =~= seq!['<', '=']);
        assert(">"@ =~= seq!['>']);
        assert("<"@ =~= seq!['<']);
        assert("!="@ =~= seq!['!', '=']);
        assert("=="@ =~= seq!['=', '=']);
    }
    if read_pair(&s, 0, '>', '=') {
        Ok((rest_of(input, &s, 2), ">="))
    } else if read_pair(&s, 0, '<', '=') {
        Ok((rest_of(input, &s, 2), "<="))
    } else if read_char(&s, 0, '>') {
        Ok((rest_of(input, &s, 1), ">"))
    } else if read_char(&s, 0, '<') {
        Ok((rest_of(input, &s, 1), "<"))
    } else if read_pair(&s, 0, '!', '=') {
        Ok((rest_of(input, &s, 2), "!="))
    } else if read_char(&s, 0, '=') {
        Ok((rest_of(input, &s, 1), "=="))
    } else {
        Err(QueryError::Syntax)
    }
}

/// Reads a string in single quotes at the start of `input`.  The result
/// holds what is left of the input, and the string with its quotes.
pub fn string<'a>(input: &'a str) -> (r: Result<(&'a str, &'a str), QueryError>)
    ensures
        match r {
            Ok((rest, found)) => string_end(input@, 0) is Some && found@ == input@.subrange(
                0,
                string_end(input@, 0).unwrap(),
            ) && rest@ == input@.subrange(string_end(input@, 0).unwrap(), input@.len() as int),
            Err(e) => string_end(input@, 0) is None && e == QueryError::Syntax,
        },
{
    let s = chars_of(input);
    match read_string(&s, 0) {
        Some(e) => Ok(parts(input, &s, e)),
        None => Err(QueryError::Syntax),
    }
}

/// Reads an index at the start of `input`.  The result holds what is left
/// of the input, and the index.
pub fn index<'a>(input: &'a str) -> (r: Result<(&'a str, Predictor), QueryError>)
    ensures
        match r {
            Ok((rest, found)) => index_at(input@, 0) is Some && found@ == index_at(
                input@,
                0,
            ).unwrap().0 && rest@ == input@.subrange(
                index_at(input@, 0).unwrap().1,
                input@.len() as int,
            ),
            Err(e) => index_at(input@, 0) is None && e == QueryError::Syntax,
        },
{
    let s = chars_of(input);
    match read_index(&s, 0) {
        Some((p, e)) => Ok((rest_of(input, &s, e), p)),
        None => Err(QueryError::Syntax),
    }
}

/// Reads a condition at the start of `input`.  The result holds what is
/// left of the input, and the condition.
pub fn condition<'a>(input: &'a str) -> (r: Result<(&'a str, Predictor), QueryError>)
    ensures
        match r {
            Ok((rest, found)) => condition_at(input@, 0) is Some && found@ == condition_at(
                input@,
                0,
            ).unwrap().0 && rest@ == input@.subrange(
                condition_at(input@, 0).unwrap().1,
                input@.len() as int,
            ),
            Err(e) => condition_at(input@, 0) is None && e == QueryError::Syntax,
        },
{
    let s = chars_of(input);
    match read_condition(&s, 0) {
        Some((p, e)) => Ok((rest_of(input, &s, e), p)),
        None => Err(QueryError::Syntax),
    }
}

/// Reads two conditions joined by `and`, or one, at the start of `input`.
pub fn conditions_and<'a>(input: &'a str) -> (r: Result<(&'a str, Predictor), QueryError>)
    ensures
        match r {
            Ok((rest, found)) => conditions_and_at(input@, 0) is Some && found@
                == conditions_and_at(input@, 0).unwrap().0 && rest@ == input@.subrange(
                conditions_and_at(input@, 0).unwrap().1,
                input@.len() as int,
            ),
            Err(e) => conditions_and_at(input@, 0) is None && e == QueryError::Syntax,
        },
{
    let s = chars_of(input);
    match read_conditions_and(&s, 0) {
        Some((p, e)) => Ok((rest_of(input, &s, e), p)),
        None => Err(QueryError::Syntax),
    }
}

/// Reads two groups joined by `or`, or one, at the start of `input`.
pub fn conditions_or<'a>(input: &'a str) -> (r: Result<(&'a str, Predictor), QueryError>)
    ensures
        match r {
            Ok((rest, found)) => conditions_or_at(input@, 0) is Some && found@
                == conditions_or_at(input@, 0).unwrap().0 && rest@ == input@.subrange(
                conditions_or_at(input@, 0).unwrap().1,
                input@.len() as int,
            ),
            Err(e) => conditions_or_at(input@, 0) is None && e == QueryError::Syntax,
        },
{
    let s = chars_of(input);
    match read_conditions_or(&s, 0) {
        Some((p, e)) => Ok((rest_of(input, &s, e), p)),
        None => Err(QueryError::Syntax),
    }
}

/// Reads an element at the start of `input`.
pub fn element<'a>(input: &'a str) -> (r: Result<(&'a str, XPathSegment), QueryError>)
    ensures
        match r {
            Ok((rest, found)) => element_at(input@, 0) is Some && found@ == element_at(
                input@,
                0,
            ).unwrap().0 && rest@ == input@.subrange(
                element_at(input@, 0).unwrap().1,
                input@.len() as int,
            ),
            Err(e) => element_at(input@, 0) is None && e == QueryError::Syntax,
        },
{
    let s = chars_of(input);
    match read_element(&s, 0) {
        Some((p, e)) => Ok((rest_of(input, &s, e), p)),
        None => Err(QueryError::Syntax),
    }
}

/// Reads an address: a leading element, if there is one, and then every
/// separator with its element, for as long as they match.  The result holds
/// what is left of the input, and the steps.  It is always `Ok`: an address
/// that matches nothing gives no steps and leaves the whole input.
pub fn xpath<'a>(input: &'a str) -> (r: Result<(&'a str, Vec<XPathSegment>), QueryError>)
    ensures
        match r {
            Ok((rest, found)) => segs_view(found@) == xpath_of(input@).0 && rest@
                == input@.subrange(xpath_of(input@).1, input@.len() as int),
            Err(_) => false,
        },
{
    let s = chars_of(input);
    let mut segments: Vec<XPathSegment> = Vec::new();
    let mut i: usize = 0;
    match read_element(&s, 0) {
        Some((seg, e)) => {
            segments.push(seg);
            assert(segs_view(segments@) =~= seq![seg@]);
            i = e;
        },
        None => {
            assert(segs_view(segments@) =~= Seq::<SegView>::empty());
        },
    }
    let end = read_steps(&s, i, &mut segments);
    assert(segs_view(segments@) =~= xpath_of(s@).0);
    Ok((rest_of(input, &s, end), segments))
}

/// Reads the steps from `i` on, as many as there are, and appends them to
/// `out`.  Returns where they end.
pub(crate) fn read_steps(s: &Vec<char>, i: usize, out: &mut Vec<XPathSegment>) -> (r: usize)
    requires
        i <= s.len(),
    ensures
        segs_view(final(out)@) == segs_view(old(out)@) + steps_from(s@, i as int).0,
        r == steps_from(s@, i as int).1,
        i <= r <= s.len(),
    decreases s.len() - i,
{
    match read_step(s, i) {
        Some((seg, e)) => {
            let ghost before = segs_view(out@);
            out.push(seg);
            assert(segs_view(out@) =~= before.push(seg@));
            let r = read_steps(s, e, out);
            assert(segs_view(out@) =~= before + (seq![seg@] + steps_from(s@, e as int).0));
            r
        },
        None => {
            assert(segs_view(out@) =~= segs_view(old(out)@) + Seq::<SegView>::empty());
            i
        },
    }
}

} // verus!
