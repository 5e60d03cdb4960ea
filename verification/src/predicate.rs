//! What a predicate mentions, and the expression that it stands for.

use crate::etreenode::{attr_value, attrs_view, key_index, key_index_from};
use crate::text::{chars_of, push_str_chars, str_eq, string_of, string_of_range};
use crate::xpath::{lit_last, lit_position, PredView, Predictor};
use vstd::prelude::*;

verus! {

/// Whether `a` comes before `b` where both agree up to `i`: at the first
/// place where they differ `a` has the smaller character, or `a` ends first.
pub open spec fn lex_lt_from(a: Seq<char>, b: Seq<char>, i: int) -> bool
    decreases a.len() - i,
{
    if i < 0 || i >= b.len() {
        false
    } else if i >= a.len() {
        true
    } else if a[i] < b[i] {
        true
    } else if a[i] > b[i] {
        false
    } else {
        lex_lt_from(a, b, i + 1)
    }
}

/// The order of strings: character by character, by code point.
pub open spec fn lex_lt(a: Seq<char>, b: Seq<char>) -> bool {
    lex_lt_from(a, b, 0)
}

/// Each string comes before the next.
pub open spec fn ascending(v: Seq<Seq<char>>) -> bool {
    forall|i: int| 0 <= i < v.len() - 1 ==> lex_lt(#[trigger] v[i], v[i + 1])
}

/// The views of the strings, in order.
pub open spec fn names_view(v: Seq<String>) -> Seq<Seq<char>> {
    Seq::new(v.len(), |i: int| v[i]@)
}

/// Of two different strings one comes before the other.
pub proof fn lemma_lex_total(a: Seq<char>, b: Seq<char>, i: int)
    requires
        0 <= i <= a.len(),
        i <= b.len(),
        a.subrange(0, i) == b.subrange(0, i),
        !lex_lt_from(a, b, i),
        !lex_lt_from(b, a, i),
    ensures
        a == b,
    decreases a.len() - i,
{
    if i >= a.len() || i >= b.len() {
        assert(a.len() == b.len());
        assert(a =~= a.subrange(0, i));
        assert(b =~= b.subrange(0, i));
    } else {
        assert(a[i] == b[i]);
        assert(a.subrange(0, i + 1) =~= a.subrange(0, i).push(a[i]));
        assert(b.subrange(0, i + 1) =~= b.subrange(0, i).push(b[i]));
        lemma_lex_total(a, b, i + 1);
    }
}

/// Whether `a` comes before `b`.
pub fn lex_less(a: &Vec<char>, b: &Vec<char>) -> (r: bool)
    ensures
        r == lex_lt(a@, b@),
{
    let mut i: usize = 0;
    loop
        invariant
            i <= a.len(),
            lex_lt(a@, b@) == lex_lt_from(a@, b@, i as int),
        decreases a.len() - i,
    {
        if i >= b.len() {
            return false;
        }
        if i >= a.len() {
            return true;
        }
        if a[i] < b[i] {
            return true;
        }
        if a[i] > b[i] {
            return false;
        }
        i += 1;
    }
}

/// The first position from `k` on whose string does not come before `x`.
pub open spec fn first_not_less(v: Seq<Seq<char>>, x: Seq<char>, k: int) -> int
    decreases v.len() - k,
{
    if 0 <= k < v.len() && lex_lt(v[k], x) {
        first_not_less(v, x, k + 1)
    } else {
        k
    }
}

/// The list with `x` put in before the first string that does not come
/// before it, unless that string is `x`.
pub open spec fn inserted(v: Seq<Seq<char>>, x: Seq<char>) -> Seq<Seq<char>> {
    let k = first_not_less(v, x, 0);
    if 0 <= k < v.len() && v[k] == x {
        v
    } else {
        v.insert(k, x)
    }
}

/// The list with the strings of `xs` put in one after the other.
pub open spec fn inserted_all(v: Seq<Seq<char>>, xs: Seq<Seq<char>>) -> Seq<Seq<char>>
    decreases xs.len(),
{
    if xs.len() == 0 {
        v
    } else {
        inserted(inserted_all(v, xs.drop_last()), xs.last())
    }
}

/// Putting in the strings of `a` and then those of `b` is putting in those
/// of `a + b`.
pub proof fn lemma_inserted_all_concat(v: Seq<Seq<char>>, a: Seq<Seq<char>>, b: Seq<Seq<char>>)
    ensures
        inserted_all(inserted_all(v, a), b) == inserted_all(v, a + b),
    decreases b.len(),
{
    if b.len() == 0 {
        assert(a + b =~= a);
    } else {
        lemma_inserted_all_concat(v, a, b.drop_last());
        assert((a + b).drop_last() =~= a + b.drop_last());
        assert((a + b).last() == b.last());
    }
}

fn less_at(v: &Vec<String>, k: usize, x: &Vec<char>) -> (r: bool)
    requires
        k < v.len(),
    ensures
        r == lex_lt(names_view(v@)[k as int], x@),
{
    let vk = chars_of(v[k].as_str());
    lex_less(&vk, x)
}

/// Puts `x` into the ascending list `v`, unless it is there.
fn insert_sorted(v: &mut Vec<String>, x: String)
    requires
        ascending(names_view(old(v)@)),
    ensures
        ascending(names_view(final(v)@)),
        forall|y: Seq<char>|
            #[trigger] names_view(final(v)@).contains(y) <==> names_view(old(v)@).contains(y) || y == x@,
        names_view(final(v)@) == inserted(names_view(old(v)@), x@),
{
    let xs = chars_of(x.as_str());
    let mut k: usize = 0;
    while k < v.len() && less_at(v, k, &xs)
        invariant
            k <= v.len(),
            v@ == old(v)@,
            xs@ == x@,
            forall|j: int| 0 <= j < k ==> lex_lt(#[trigger] names_view(v@)[j], x@),
            first_not_less(names_view(v@), x@, 0) == first_not_less(names_view(v@), x@, k as int),
        decreases v.len() - k,
    {
        k += 1;
    }
    if k < v.len() {
        if str_eq(v[k].as_str(), x.as_str()) {
            assert forall|y: Seq<char>|
                names_view(v@).contains(y) <==> names_view(old(v)@).contains(y) || y == x@ by {
                assert(names_view(v@)[k as int] == x@);
            }
            return ;
        }
        proof {
            let vk = names_view(v@)[k as int];
            assert(vk.subrange(0, 0) =~= x@.subrange(0, 0));
            if !lex_lt(x@, vk) {
                lemma_lex_total(vk, x@, 0);
            }
        }
    }
    let ghost before = names_view(v@);
    assert(k < v.len() ==> lex_lt(x@, before[k as int]));
    v.insert(k, x);
    let ghost after = names_view(v@);
    assert(after =~= before.insert(k as int, x@));
    assert forall|i: int| 0 <= i < after.len() - 1 implies lex_lt(
        #[trigger] after[i],
        after[i + 1],
    ) by {
        if i < k - 1 {
            assert(after[i] == before[i] && after[i + 1] == before[i + 1]);
        } else if i == k - 1 {
            assert(after[i] == before[i]);
        } else if i == k {
            assert(after[i + 1] == before[i]);
        } else {
            assert(after[i] == before[i - 1] && after[i + 1] == before[i]);
        }
    }
    assert forall|y: Seq<char>| after.contains(y) <==> before.contains(y) || y == x@ by {
        if after.contains(y) {
            let i = choose|i: int| 0 <= i < after.len() && after[i] == y;
            if i < k {
                assert(before[i] == y);
            } else if i > k {
                assert(before[i - 1] == y);
            }
        }
        if before.contains(y) {
            let i = choose|i: int| 0 <= i < before.len() && before[i] == y;
            if i < k {
                assert(after[i] == y);
            } else {
                assert(after[i + 1] == y);
            }
        }
        if y == x@ {
            assert(after[k as int] == y);
        }
    }
}

/// What the conditions of a predicate compare, in order of appearance.  An
/// index that counts from the end mentions `last()`.
pub open spec fn mentions(p: PredView) -> Seq<Seq<char>>
    decreases p,
{
    match p {
        PredView::And(l, r) => mentions(*l) + mentions(*r),
        PredView::Or(l, r) => mentions(*l) + mentions(*r),
        PredView::Condition(left, _, _) => seq![left],
        PredView::IndexExpr(_, _) => seq![lit_last()],
        _ => Seq::empty(),
    }
}

/// Whether a mention names an attribute: it starts with `@`.
pub open spec fn is_attr_mention(m: Seq<char>) -> bool {
    m.len() > 0 && m[0] == '@'
}

/// Whether a mention names a function: it is no attribute and ends with `()`.
pub open spec fn is_func_mention(m: Seq<char>) -> bool {
    !is_attr_mention(m) && m.len() >= 2 && m[m.len() - 2] == '(' && m[m.len() - 1] == ')'
}

/// Whether a mention names a child: it is neither attribute nor function.
pub open spec fn is_child_mention(m: Seq<char>) -> bool {
    !is_attr_mention(m) && !is_func_mention(m)
}

/// The children that the conditions of a predicate name, in order of
/// appearance.
pub open spec fn child_mentions(p: PredView) -> Seq<Seq<char>>
    decreases p,
{
    match p {
        PredView::And(l, r) => child_mentions(*l) + child_mentions(*r),
        PredView::Or(l, r) => child_mentions(*l) + child_mentions(*r),
        PredView::Condition(left, _, _) => if is_child_mention(left) {
            seq![left]
        } else {
            Seq::empty()
        },
        _ => Seq::empty(),
    }
}

/// The names of the children that a predicate mentions, ascending and each
/// once.
pub open spec fn child_tags(p: PredView) -> Seq<Seq<char>> {
    inserted_all(Seq::empty(), child_mentions(p))
}

/// Whether the predicate mentions the child `x`.
pub open spec fn mentions_child(p: PredView, x: Seq<char>) -> bool {
    mentions(p).contains(x) && is_child_mention(x)
}

/// Whether the predicate mentions the attribute `x`, written `@x`.
pub open spec fn mentions_attr(p: PredView, x: Seq<char>) -> bool {
    mentions(p).contains(seq!['@'] + x)
}

/// Whether the predicate mentions the function `x`.
pub open spec fn mentions_func(p: PredView, x: Seq<char>) -> bool {
    mentions(p).contains(x) && is_func_mention(x)
}

proof fn lemma_contains_concat(a: Seq<Seq<char>>, b: Seq<Seq<char>>, x: Seq<char>)
    ensures
        (a + b).contains(x) <==> a.contains(x) || b.contains(x),
{
    if (a + b).contains(x) {
        let i = choose|i: int| 0 <= i < (a + b).len() && (a + b)[i] == x;
        if i < a.len() {
            assert(a[i] == x);
        } else {
            assert(b[i - a.len()] == x);
        }
    }
    if a.contains(x) {
        let i = choose|i: int| 0 <= i < a.len() && a[i] == x;
        assert((a + b)[i] == x);
    }
    if b.contains(x) {
        let i = choose|i: int| 0 <= i < b.len() && b[i] == x;
        assert((a + b)[a.len() + i] == x);
    }
}

fn classify(left: &str, child: &mut Vec<String>, attr: &mut Vec<String>, func: &mut Vec<String>)
    requires
        ascending(names_view(old(child)@)),
        ascending(names_view(old(attr)@)),
        ascending(names_view(old(func)@)),
    ensures
        ascending(names_view(final(child)@)),
        ascending(names_view(final(attr)@)),
        ascending(names_view(final(func)@)),
        forall|x: Seq<char>|
            #[trigger] names_view(final(child)@).contains(x) <==> names_view(old(child)@).contains(x) || (x
                == left@ && is_child_mention(x)),
        forall|x: Seq<char>|
            #[trigger] names_view(final(attr)@).contains(x) <==> names_view(old(attr)@).contains(x) || left@
                == seq!['@'] + x,
        forall|x: Seq<char>|
            #[trigger] names_view(final(func)@).contains(x) <==> names_view(old(func)@).contains(x) || (x
                == left@ && is_func_mention(x)),
        names_view(final(child)@) == if is_child_mention(left@) {
            inserted(names_view(old(child)@), left@)
        } else {
            names_view(old(child)@)
        },
{
    let s = chars_of(left);
    let n = s.len();
    if n > 0 && s[0] == '@' {
        let name = string_of_range(&s, 1, n);
        insert_sorted(attr, name);
        assert forall|x: Seq<char>| left@ == seq!['@'] + x <==> x == s@.subrange(1, n as int) by {
            if left@ == seq!['@'] + x {
                assert(x =~= s@.subrange(1, n as int));
            }
            if x == s@.subrange(1, n as int) {
                assert(left@ =~= seq!['@'] + x);
            }
        }
    } else if n >= 2 && s[n - 2] == '(' && s[n - 1] == ')' {
        insert_sorted(func, left.to_string());
        assert forall|x: Seq<char>| !(left@ == seq!['@'] + x) by {
            if left@ == seq!['@'] + x {
                assert((seq!['@'] + x)[0] == '@');
            }
        }
    } else {
        insert_sorted(child, left.to_string());
        assert forall|x: Seq<char>| !(left@ == seq!['@'] + x) by {
            if left@ == seq!['@'] + x {
                assert((seq!['@'] + x)[0] == '@');
            }
        }
    }
}

impl Predictor {
    fn gather(&self, child: &mut Vec<String>, attr: &mut Vec<String>, func: &mut Vec<String>)
        requires
            ascending(names_view(old(child)@)),
            ascending(names_view(old(attr)@)),
            ascending(names_view(old(func)@)),
        ensures
            ascending(names_view(final(child)@)),
            ascending(names_view(final(attr)@)),
            ascending(names_view(final(func)@)),
            forall|x: Seq<char>|
                #[trigger] names_view(final(child)@).contains(x) <==> names_view(old(child)@).contains(x)
                    || mentions_child(self@, x),
            forall|x: Seq<char>|
                #[trigger] names_view(final(attr)@).contains(x) <==> names_view(old(attr)@).contains(x)
                    || mentions_attr(self@, x),
            forall|x: Seq<char>|
                #[trigger] names_view(final(func)@).contains(x) <==> names_view(old(func)@).contains(x)
                    || mentions_func(self@, x),
            names_view(final(child)@) == inserted_all(
                names_view(old(child)@),
                child_mentions(self@),
            ),
        decreases self,
    {
        match self {
            Predictor::And(l, r) => {
                let ghost lv = (**l)@;
                let ghost rv = (**r)@;
                assert(mentions(self@) == mentions(lv) + mentions(rv));
                assert(child_mentions(self@) == child_mentions(lv) + child_mentions(rv));
                proof {
                    lemma_inserted_all_concat(
                        names_view(old(child)@),
                        child_mentions(lv),
                        child_mentions(rv),
                    );
                }
                l.gather(child, attr, func);
                let ghost mid_child = names_view(child@);
                let ghost mid_attr = names_view(attr@);
                let ghost mid_func = names_view(func@);
                r.gather(child, attr, func);
                assert forall|x: Seq<char>|
                    names_view(child@).contains(x) <==> names_view(old(child)@).contains(x)
                        || mentions_child(self@, x) by {
                    lemma_contains_concat(mentions(lv), mentions(rv), x);
                    assert(mid_child.contains(x) <==> names_view(old(child)@).contains(x)
                        || mentions_child(lv, x));
                    assert(names_view(child@).contains(x) <==> mid_child.contains(x)
                        || mentions_child(rv, x));
                }
                assert forall|x: Seq<char>|
                    names_view(attr@).contains(x) <==> names_view(old(attr)@).contains(x)
                        || mentions_attr(self@, x) by {
                    lemma_contains_concat(mentions(lv), mentions(rv), seq!['@'] + x);
                    assert(mid_attr.contains(x) <==> names_view(old(attr)@).contains(x)
                        || mentions_attr(lv, x));
                    assert(names_view(attr@).contains(x) <==> mid_attr.contains(x)
                        || mentions_attr(rv, x));
                }
                assert forall|x: Seq<char>|
                    names_view(func@).contains(x) <==> names_view(old(func)@).contains(x)
                        || mentions_func(self@, x) by {
                    lemma_contains_concat(mentions(lv), mentions(rv), x);
                    assert(mid_func.contains(x) <==> names_view(old(func)@).contains(x)
                        || mentions_func(lv, x));
                    assert(names_view(func@).contains(x) <==> mid_func.contains(x)
                        || mentions_func(rv, x));
                }
            },
            Predictor::Or(l, r) => {
                let ghost lv = (**l)@;
                let ghost rv = (**r)@;
                assert(mentions(self@) == mentions(lv) + mentions(rv));
                assert(child_mentions(self@) == child_mentions(lv) + child_mentions(rv));
                proof {
                    lemma_inserted_all_concat(
                        names_view(old(child)@),
                        child_mentions(lv),
                        child_mentions(rv),
                    );
                }
                l.gather(child, attr, func);
                let ghost mid_child = names_view(child@);
                let ghost mid_attr = names_view(attr@);
                let ghost mid_func = names_view(func@);
                r.gather(child, attr, func);
                assert forall|x: Seq<char>|
                    names_view(child@).contains(x) <==> names_view(old(child)@).contains(x)
                        || mentions_child(self@, x) by {
                    lemma_contains_concat(mentions(lv), mentions(rv), x);
                    assert(mid_child.contains(x) <==> names_view(old(child)@).contains(x)
                        || mentions_child(lv, x));
                    assert(names_view(child@).contains(x) <==> mid_child.contains(x)
                        || mentions_child(rv, x));
                }
                assert forall|x: Seq<char>|
                    names_view(attr@).contains(x) <==> names_view(old(attr)@).contains(x)
                        || mentions_attr(self@, x) by {
                    lemma_contains_concat(mentions(lv), mentions(rv), seq!['@'] + x);
                    assert(mid_attr.contains(x) <==> names_view(old(attr)@).contains(x)
                        || mentions_attr(lv, x));
                    assert(names_view(attr@).contains(x) <==> mid_attr.contains(x)
                        || mentions_attr(rv, x));
                }
                assert forall|x: Seq<char>|
                    names_view(func@).contains(x) <==> names_view(old(func)@).contains(x)
                        || mentions_func(self@, x) by {
                    lemma_contains_concat(mentions(lv), mentions(rv), x);
                    assert(mid_func.contains(x) <==> names_view(old(func)@).contains(x)
                        || mentions_func(lv, x));
                    assert(names_view(func@).contains(x) <==> mid_func.contains(x)
                        || mentions_func(rv, x));
                }
            },
            Predictor::Condition(left, _, _) => {
                classify(left.as_str(), child, attr, func);
                proof {
                    let before = names_view(old(child)@);
                    if is_child_mention(left@) {
                        assert(seq![left@].drop_last() =~= Seq::<Seq<char>>::empty());
                        assert(inserted_all(before, seq![left@]) == inserted(
                            inserted_all(before, Seq::empty()),
                            left@,
                        ));
                    }
                }
                assert forall|x: Seq<char>| #![auto]
                    (mentions(self@).contains(x) <==> x == left@) by {
                    if x == left@ {
                        assert(mentions(self@)[0] == x);
                    }
                }
                assert forall|x: Seq<char>| #![auto]
                    (mentions_attr(self@, x) <==> left@ == seq!['@'] + x) by {
                    if left@ == seq!['@'] + x {
                        assert(mentions(self@)[0] == seq!['@'] + x);
                    }
                }
            },
            Predictor::IndexExpr(_, _) => {
                proof {
                    reveal_strlit("last()");
                    assert("last()"@ =~= lit_last());
                    assert(is_func_mention(lit_last()));
                }
                insert_sorted(func, "last()".to_string());
                assert forall|x: Seq<char>| #![auto]
                    (mentions(self@).contains(x) <==> x == lit_last()) by {
                    if x == lit_last() {
                        assert(mentions(self@)[0] == x);
                    }
                }
                assert forall|x: Seq<char>| #![auto] !mentions_attr(self@, x) by {
                    if mentions_attr(self@, x) {
                        assert((seq!['@'] + x)[0] == '@');
                    }
                }
            },
            _ => {},
        }
    }

    /// What the predicate mentions: the names of children, the names of
    /// attributes (without the `@`) and the functions, each list ascending
    /// and without a name twice.
    pub fn collect(&self) -> (r: (Vec<String>, Vec<String>, Vec<String>))
        ensures
            ascending(names_view(r.0@)),
            ascending(names_view(r.1@)),
            ascending(names_view(r.2@)),
            forall|x: Seq<char>| #[trigger] names_view(r.0@).contains(x) <==> mentions_child(self@, x),
            forall|x: Seq<char>| #[trigger] names_view(r.1@).contains(x) <==> mentions_attr(self@, x),
            forall|x: Seq<char>| #[trigger] names_view(r.2@).contains(x) <==> mentions_func(self@, x),
            names_view(r.0@) == child_tags(self@),
    {
        let mut child: Vec<String> = Vec::new();
        let mut attr: Vec<String> = Vec::new();
        let mut func: Vec<String> = Vec::new();
        assert(names_view(child@) =~= Seq::<Seq<char>>::empty());
        self.gather(&mut child, &mut attr, &mut func);
        (child, attr, func)
    }
}

/// A character as it stands inside a quoted string of an expression: a
/// backslash before a backslash and before a single quote.
pub open spec fn escaped_char(c: char) -> Seq<char> {
    if c == '\\' {
        seq!['\\', '\\']
    } else if c == '\'' {
        seq!['\\', '\'']
    } else {
        seq![c]
    }
}

/// A text as it stands inside a quoted string of an expression.
pub open spec fn escaped(v: Seq<char>) -> Seq<char>
    decreases v.len(),
{
    if v.len() == 0 {
        Seq::empty()
    } else {
        escaped(v.drop_last()) + escaped_char(v.last())
    }
}

/// Appends the escaped form of `v` to `out`.
pub fn push_escaped(out: &mut Vec<char>, v: &str)
    ensures
        final(out)@ == old(out)@ + escaped(v@),
{
    let s = chars_of(v);
    let mut i: usize = 0;
    assert(s@.take(0) =~= Seq::<char>::empty());
    while i < s.len()
        invariant
            i <= s.len(),
            s@ == v@,
            out@ == old(out)@ + escaped(s@.take(i as int)),
        decreases s.len() - i,
    {
        let c = s[i];
        let ghost before = out@;
        proof {
            assert(s@.take(i + 1).drop_last() =~= s@.take(i as int));
            assert(s@.take(i + 1).last() == c);
        }
        if c == '\\' {
            out.push('\\');
            out.push('\\');
            assert(out@ =~= before + seq!['\\', '\\']);
        } else if c == '\'' {
            out.push('\\');
            out.push('\'');
            assert(out@ =~= before + seq!['\\', '\'']);
        } else {
            out.push(c);
            assert(out@ =~= before + seq![c]);
        }
        assert(out@ =~= old(out)@ + escaped(s@.take(i + 1)));
        i += 1;
    }
    assert(s@.take(s.len() as int) =~= s@);
}

/// The escaped form of `input`, ready for a quoted string of an expression.
/// The result holds what is left of the input, which is nothing, and the
/// escaped text.
pub fn escape_info(input: &str) -> (r: Result<(&'static str, String), crate::xpath::QueryError>)
    ensures
        match r {
            Ok((rest, text)) => rest@.len() == 0 && text@ == escaped(input@),
            Err(_) => false,
        },
{
    let mut out: Vec<char> = Vec::new();
    push_escaped(&mut out, input);
    assert(out@ =~= escaped(input@));
    proof {
        reveal_strlit("");
    }
    Ok(("", string_of(&out)))
}

/// The value that `info` holds for `key`, or no characters.
pub open spec fn info_value(info: Seq<(Seq<char>, Seq<char>)>, key: Seq<char>) -> Seq<char> {
    match attr_value(info, key) {
        Some(v) => v,
        None => Seq::empty(),
    }
}

/// The right-hand side of a comparison with `position()`: where it starts
/// with `last()`, the value of `last()` stands in its place.
pub open spec fn position_operand(right: Seq<char>, info: Seq<(Seq<char>, Seq<char>)>) -> Seq<
    char,
> {
    if lit_last().is_prefix_of(right) {
        info_value(info, lit_last()) + right.subrange(6, right.len() as int)
    } else {
        right
    }
}

/// The expression that a predicate stands for, given what is known of the
/// node under test: `info` maps `text()`, `position()`, `last()`, `@` and an
/// attribute's name, `@*`, and the names of children to values.
///
/// - `And`, `Or`: both sides in parentheses, joined by `&&` or `||`
/// - a condition on something that `info` does not hold: `false`
/// - a condition without an operator: `true`
/// - a comparison with `position()`: the position, the operator and the
///   right-hand side, as numbers
/// - any other comparison: the value in single quotes, escaped, then the
///   operator and the right-hand side as it was written
/// - an index: the position, `==`, and the number; or the value of `last()`,
///   less the number where there is one
/// - no predicate: `true`
pub open spec fn expr_text(p: PredView, info: Seq<(Seq<char>, Seq<char>)>) -> Seq<char>
    decreases p,
{
    match p {
        PredView::And(l, r) => "("@ + expr_text(*l, info) + ") && ("@ + expr_text(*r, info)
            + ")"@,
        PredView::Or(l, r) => "("@ + expr_text(*l, info) + ") || ("@ + expr_text(*r, info) + ")"@,
        PredView::Condition(left, op, right) => if key_index(info, left) is Some {
            if op is None || right is None {
                "true"@
            } else if left == lit_position() {
                info_value(info, left) + " "@ + op.unwrap() + " "@ + position_operand(
                    right.unwrap(),
                    info,
                )
            } else {
                "'"@ + escaped(info_value(info, left)) + "' "@ + op.unwrap() + " "@
                    + right.unwrap()
            }
        } else {
            "false"@
        },
        PredView::IndexDecimal(n) => info_value(info, lit_position()) + " == "@ + n,
        PredView::IndexExpr(l, n) => if n.len() == 0 {
            info_value(info, lit_position()) + " == "@ + info_value(info, l)
        } else {
            info_value(info, lit_position()) + " == "@ + info_value(info, l) + " - "@ + n
        },
        PredView::Nothing => "true"@,
    }
}

/// The position of `key` in `info`.
pub fn find_key(info: &Vec<(String, String)>, key: &str) -> (r: Option<usize>)
    ensures
        match r {
            Some(i) => key_index(attrs_view(info@), key@) == Some(i as int) && i < info.len(),
            None => key_index(attrs_view(info@), key@) is None,
        },
{
    let mut i: usize = 0;
    while i < info.len()
        invariant
            i <= info.len(),
            key_index(attrs_view(info@), key@) == key_index_from(
                attrs_view(info@),
                key@,
                i as int,
            ),
        decreases info.len() - i,
    {
        assert(attrs_view(info@)[i as int].0 == info@[i as int].0@);
        if str_eq(info[i].0.as_str(), key) {
            return Some(i);
        }
        i += 1;
    }
    None
}

fn push_value(out: &mut Vec<char>, info: &Vec<(String, String)>, key: &str)
    ensures
        final(out)@ == old(out)@ + info_value(attrs_view(info@), key@),
{
    match find_key(info, key) {
        Some(i) => {
            assert(attrs_view(info@)[i as int].1 == info@[i as int].1@);
            push_str_chars(out, info[i].1.as_str());
        },
        None => {
            assert(out@ =~= old(out)@ + Seq::<char>::empty());
        },
    }
}

fn push_position_operand(out: &mut Vec<char>, info: &Vec<(String, String)>, right: &str)
    ensures
        final(out)@ == old(out)@ + position_operand(right@, attrs_view(info@)),
{
    let r = chars_of(right);
    let last = chars_of("last()");
    proof {
        reveal_strlit("last()");
        assert("last()"@ =~= lit_last());
    }
    if last.len() <= r.len() && crate::xpath::read_lit(&r, 0, &last) {
        assert(lit_last().is_prefix_of(right@));
        push_value(out, info, "last()");
        let rest = string_of_range(&r, 6, r.len());
        push_str_chars(out, rest.as_str());
        assert(out@ =~= old(out)@ + position_operand(right@, attrs_view(info@)));
    } else {
        assert(!lit_last().is_prefix_of(right@)) by {
            if lit_last().is_prefix_of(right@) {
                assert(right@.subrange(0, 6) =~= lit_last());
            }
        }
        push_str_chars(out, right);
    }
}

impl Predictor {
    fn write_expr(&self, info: &Vec<(String, String)>, out: &mut Vec<char>)
        ensures
            final(out)@ == old(out)@ + expr_text(self@, attrs_view(info@)),
        decreases self,
    {
        let ghost iv = attrs_view(info@);
        match self {
            Predictor::And(l, r) => {
                push_str_chars(out, "(");
                l.write_expr(info, out);
                push_str_chars(out, ") && (");
                r.write_expr(info, out);
                push_str_chars(out, ")");
                assert(out@ =~= old(out)@ + ("("@ + expr_text((**l)@, iv) + ") && ("@ + expr_text(
                    (**r)@,
                    iv,
                ) + ")"@));
            },
            Predictor::Or(l, r) => {
                push_str_chars(out, "(");
                l.write_expr(info, out);
                push_str_chars(out, ") || (");
                r.write_expr(info, out);
                push_str_chars(out, ")");
                assert(out@ =~= old(out)@ + ("("@ + expr_text((**l)@, iv) + ") || ("@ + expr_text(
                    (**r)@,
                    iv,
                ) + ")"@));
            },
            Predictor::Condition(left, op, right) => {
                match find_key(info, left.as_str()) {
                    Some(k) => {
                        match (op, right) {
                            (Some(op), Some(right)) => {
                                let position = chars_of("position()");
                                proof {
                                    reveal_strlit("position()");
                                    assert("position()"@ =~= lit_position());
                                }
                                if str_eq(left.as_str(), "position()") {
                                    push_value(out, info, left.as_str());
                                    push_str_chars(out, " ");
                                    push_str_chars(out, op.as_str());
                                    push_str_chars(out, " ");
                                    push_position_operand(out, info, right.as_str());
                                    assert(out@ =~= old(out)@ + (info_value(iv, left@) + " "@
                                        + op@ + " "@ + position_operand(right@, iv)));
                                } else {
                                    push_str_chars(out, "'");
                                    assert(iv[k as int].1 == info@[k as int].1@);
                                    push_escaped(out, info[k].1.as_str());
                                    push_str_chars(out, "' ");
                                    push_str_chars(out, op.as_str());
                                    push_str_chars(out, " ");
                                    push_str_chars(out, right.as_str());
                                    assert(out@ =~= old(out)@ + ("'"@ + escaped(
                                        info_value(iv, left@),
                                    ) + "' "@ + op@ + " "@ + right@));
                                }
                            },
                            _ => {
                                push_str_chars(out, "true");
                            },
                        }
                    },
                    None => {
                        push_str_chars(out, "false");
                    },
                }
            },
            Predictor::IndexDecimal(n) => {
                proof {
                    reveal_strlit("position()");
                    assert("position()"@ =~= lit_position());
                }
                push_value(out, info, "position()");
                push_str_chars(out, " == ");
                push_str_chars(out, n.as_str());
                assert(out@ =~= old(out)@ + (info_value(iv, lit_position()) + " == "@ + n@));
            },
            Predictor::IndexExpr(l, n) => {
                proof {
                    reveal_strlit("position()");
                    assert("position()"@ =~= lit_position());
                }
                push_value(out, info, "position()");
                push_str_chars(out, " == ");
                push_value(out, info, l.as_str());
                if n.as_str().is_empty() {
                    assert(out@ =~= old(out)@ + (info_value(iv, lit_position()) + " == "@
                        + info_value(iv, l@)));
                } else {
                    push_str_chars(out, " - ");
                    push_str_chars(out, n.as_str());
                    assert(out@ =~= old(out)@ + (info_value(iv, lit_position()) + " == "@
                        + info_value(iv, l@) + " - "@ + n@));
                }
            },
            Predictor::Nothing => {
                push_str_chars(out, "true");
            },
        }
    }

    /// The expression that the predicate stands for, given what `info`
    /// holds of the node under test.
    pub fn expr(&self, info: &Vec<(String, String)>) -> (r: String)
        ensures
            r@ == expr_text(self@, attrs_view(info@)),
    {
        let mut out: Vec<char> = Vec::new();
        self.write_expr(info, &mut out);
        assert(out@ =~= expr_text(self@, attrs_view(info@)));
        string_of(&out)
    }
}

} // verus!
