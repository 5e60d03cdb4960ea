//! Path labels.
//!
//! A node's path label is the chain of identities of its ancestors, outermost
//! first.  Siblings share one label, and the label of a node's children is the
//! node's own label extended by the node's identity.  As text a label reads
//! `#id1#id2#...#`, each identity in decimal; the empty chain reads `#`.

use vstd::prelude::*;

verus! {

/// The decimal digit for `d`, which is below ten.
pub open spec fn digit_char(d: nat) -> char {
    if d == 0 {
        '0'
    } else if d == 1 {
        '1'
    } else if d == 2 {
        '2'
    } else if d == 3 {
        '3'
    } else if d == 4 {
        '4'
    } else if d == 5 {
        '5'
    } else if d == 6 {
        '6'
    } else if d == 7 {
        '7'
    } else if d == 8 {
        '8'
    } else {
        '9'
    }
}

/// The value of a decimal digit, or `None` for any other character.
pub open spec fn digit_value(c: char) -> Option<nat> {
    if c == '0' {
        Some(0)
    } else if c == '1' {
        Some(1)
    } else if c == '2' {
        Some(2)
    } else if c == '3' {
        Some(3)
    } else if c == '4' {
        Some(4)
    } else if c == '5' {
        Some(5)
    } else if c == '6' {
        Some(6)
    } else if c == '7' {
        Some(7)
    } else if c == '8' {
        Some(8)
    } else if c == '9' {
        Some(9)
    } else {
        None
    }
}

/// The decimal numeral of `n`, without leading zeros.
pub open spec fn decimal(n: nat) -> Seq<char>
    decreases n,
{
    if n < 10 {
        seq![digit_char(n)]
    } else {
        decimal(n / 10).push(digit_char(n % 10))
    }
}

/// The text of a label: `#`, then each identity in decimal followed by `#`.
pub open spec fn label_text(chain: Seq<usize>) -> Seq<char>
    decreases chain.len(),
{
    if chain.len() == 0 {
        seq!['#']
    } else {
        label_text(chain.drop_last()) + decimal(chain.last() as nat) + seq!['#']
    }
}

/// Reading a label's text from position `i` on.  `cur` is the value of the
/// digits read since the last `#` (`None` when there were none), `acc` the
/// identities completed so far.  The text must end right after a `#`, every
/// segment must be a non-empty run of decimal digits, and every value must fit
/// a machine word.
pub open spec fn parse_from(t: Seq<char>, i: int, cur: Option<nat>, acc: Seq<usize>) -> Option<
    Seq<usize>,
>
    decreases t.len() - i,
{
    if i < 0 || i >= t.len() {
        if cur is None {
            Some(acc)
        } else {
            None
        }
    } else if t[i] == '#' {
        match cur {
            Some(v) => parse_from(t, i + 1, None, acc.push(v as usize)),
            None => None,
        }
    } else {
        match digit_value(t[i]) {
            Some(d) => {
                let v = (match cur {
                    Some(v) => v,
                    None => 0,
                }) * 10 + d;
                if v > usize::MAX {
                    None
                } else {
                    parse_from(t, i + 1, Some(v), acc)
                }
            },
            None => None,
        }
    }
}

/// The chain that a text denotes, or `None` where the text is no label.
pub open spec fn label_parse(t: Seq<char>) -> Option<Seq<usize>> {
    if t.len() > 0 && t[0] == '#' {
        parse_from(t, 1, None, Seq::empty())
    } else {
        None
    }
}

fn digit_of(d: usize) -> (c: char)
    requires
        d < 10,
    ensures
        c == digit_char(d as nat),
{
    if d == 0 {
        '0'
    } else if d == 1 {
        '1'
    } else if d == 2 {
        '2'
    } else if d == 3 {
        '3'
    } else if d == 4 {
        '4'
    } else if d == 5 {
        '5'
    } else if d == 6 {
        '6'
    } else if d == 7 {
        '7'
    } else if d == 8 {
        '8'
    } else {
        '9'
    }
}

fn value_of(c: char) -> (r: Option<usize>)
    ensures
        match r {
            Some(d) => digit_value(c) == Some(d as nat) && d < 10,
            None => digit_value(c) is None,
        },
{
    if c == '0' {
        Some(0)
    } else if c == '1' {
        Some(1)
    } else if c == '2' {
        Some(2)
    } else if c == '3' {
        Some(3)
    } else if c == '4' {
        Some(4)
    } else if c == '5' {
        Some(5)
    } else if c == '6' {
        Some(6)
    } else if c == '7' {
        Some(7)
    } else if c == '8' {
        Some(8)
    } else if c == '9' {
        Some(9)
    } else {
        None
    }
}

/// Appends the decimal numeral of `n` to `out`.
pub fn push_decimal(out: &mut Vec<char>, n: usize)
    ensures
        final(out)@ == old(out)@ + decimal(n as nat),
{
    let mut low: Vec<char> = Vec::new();
    let mut m: usize = n;
    let mut done: bool = false;
    while !done
        invariant
            !done ==> decimal(n as nat) == decimal(m as nat) + low@.reverse(),
            done ==> decimal(n as nat) == low@.reverse(),
            out@ == old(out)@,
        decreases (if done { 0int } else { m + 1 }),
    {
        let d: usize = m % 10;
        let ghost before = low@;
        low.push(digit_of(d));
        assert(low@.reverse() =~= seq![digit_char(d as nat)] + before.reverse());
        if m < 10 {
            assert(decimal(m as nat) =~= seq![digit_char(d as nat)]);
            done = true;
        } else {
            assert(decimal(m as nat) =~= decimal((m / 10) as nat).push(digit_char(d as nat)));
            assert(decimal(n as nat) =~= decimal((m / 10) as nat) + low@.reverse());
            m = m / 10;
        }
    }
    let mut i: usize = low.len();
    while i > 0
        invariant
            i <= low.len(),
            out@ == old(out)@ + low@.reverse().take(low.len() - i),
        decreases i,
    {
        i -= 1;
        out.push(low[i]);
        assert(low@.reverse().take(low.len() - i) =~= low@.reverse().take(low.len() - i - 1).push(
            low@[i as int],
        ));
    }
    assert(low@.reverse().take(low.len() as int) =~= low@.reverse());
}

/// Appends the text of the label `chain` to `out`.
pub fn push_label(out: &mut Vec<char>, chain: &Vec<usize>)
    ensures
        final(out)@ == old(out)@ + label_text(chain@),
{
    out.push('#');
    let mut i: usize = 0;
    assert(chain@.take(0) =~= Seq::<usize>::empty());
    while i < chain.len()
        invariant
            i <= chain.len(),
            out@ == old(out)@ + label_text(chain@.take(i as int)),
        decreases chain.len() - i,
    {
        push_decimal(out, chain[i]);
        out.push('#');
        proof {
            let next = chain@.take(i + 1);
            assert(next.drop_last() =~= chain@.take(i as int));
            assert(next.last() == chain@[i as int]);
            assert(out@ =~= old(out)@ + label_text(next));
        }
        i += 1;
    }
    assert(chain@.take(chain.len() as int) =~= chain@);
}

/// Reads the text of a label.
pub fn parse_label(t: &Vec<char>) -> (r: Option<Vec<usize>>)
    ensures
        match r {
            Some(chain) => label_parse(t@) == Some(chain@),
            None => label_parse(t@) is None,
        },
{
    if t.len() == 0 || t[0] != '#' {
        return None;
    }
    let mut acc: Vec<usize> = Vec::new();
    let mut cur: Option<usize> = None;
    let mut i: usize = 1;
    while i < t.len()
        invariant
            1 <= i <= t.len(),
            label_parse(t@) == parse_from(
                t@,
                i as int,
                match cur {
                    Some(v) => Some(v as nat),
                    None => None,
                },
                acc@,
            ),
        decreases t.len() - i,
    {
        let c = t[i];
        if c == '#' {
            match cur {
                Some(v) => {
                    acc.push(v);
                    cur = None;
                },
                None => {
                    return None;
                },
            }
        } else {
            match value_of(c) {
                Some(d) => {
                    let base: usize = match cur {
                        Some(v) => v,
                        None => 0,
                    };
                    if base > (usize::MAX - d) / 10 {
                        assert(base * 10 + d > usize::MAX) by (nonlinear_arith)
                            requires
                                base > (usize::MAX - d) / 10,
                                d < 10,
                        ;
                        return None;
                    }
                    assert(base * 10 + d <= usize::MAX) by (nonlinear_arith)
                        requires
                            base <= (usize::MAX - d) / 10,
                            d < 10,
                    ;
                    cur = Some(base * 10 + d);
                },
                None => {
                    return None;
                },
            }
        }
        i += 1;
    }
    match cur {
        Some(_) => None,
        None => Some(acc),
    }
}

/// Whether the chain `p` opens the chain `v`.
pub fn chain_has_prefix(v: &Vec<usize>, p: &Vec<usize>) -> (r: bool)
    ensures
        r == p@.is_prefix_of(v@),
{
    if p.len() > v.len() {
        return false;
    }
    let mut i: usize = 0;
    while i < p.len()
        invariant
            i <= p.len() <= v.len(),
            forall|k: int| 0 <= k < i ==> p@[k] == v@[k],
        decreases p.len() - i,
    {
        if p[i] != v[i] {
            return false;
        }
        i += 1;
    }
    assert(p@ =~= v@.subrange(0, p@.len() as int));
    true
}

/// Whether two chains are equal.
pub fn chain_eq(a: &Vec<usize>, b: &Vec<usize>) -> (r: bool)
    ensures
        r == (a@ == b@),
{
    if a.len() != b.len() {
        return false;
    }
    let r = chain_has_prefix(a, b);
    assert(r ==> a@ =~= b@);
    r
}

/// A copy of the chain `a`.
pub fn chain_copy(a: &Vec<usize>) -> (r: Vec<usize>)
    ensures
        r@ == a@,
{
    let mut r: Vec<usize> = Vec::new();
    let mut i: usize = 0;
    while i < a.len()
        invariant
            i <= a.len(),
            r@ == a@.take(i as int),
        decreases a.len() - i,
    {
        r.push(a[i]);
        i += 1;
    }
    assert(a@.take(a.len() as int) =~= a@);
    r
}

/// A digit's character has the digit as its value.
proof fn lemma_digit_round_trip(d: nat)
    requires
        d < 10,
    ensures
        digit_value(digit_char(d)) == Some(d),
        digit_char(d) != '#',
{
}

/// Reading the numeral of `v` where it stands in a text gives `v`.
proof fn lemma_parse_decimal(s: Seq<char>, i: int, v: nat, acc: Seq<usize>)
    requires
        0 <= i,
        i + decimal(v).len() <= s.len(),
        s.subrange(i, i + decimal(v).len()) == decimal(v),
        v <= usize::MAX,
    ensures
        parse_from(s, i, None, acc) == parse_from(s, i + decimal(v).len(), Some(v), acc),
    decreases v,
{
    let digits = decimal(v);
    let last = i + digits.len() - 1;
    assert(s[last] == digits[digits.len() - 1]);
    lemma_digit_round_trip(v % 10);
    if v < 10 {
        assert(digits[0] == digit_char(v));
    } else {
        let head = decimal(v / 10);
        assert(digits == head.push(digit_char(v % 10)));
        assert(s.subrange(i, i + head.len()) =~= head) by {
            assert(digits.subrange(0, head.len() as int) =~= head);
        }
        lemma_parse_decimal(s, i, v / 10, acc);
        assert(s[last] == digit_char(v % 10));
        assert((v / 10) * 10 + v % 10 == v);
    }
}

/// Reading a text that starts with the text of a label goes through that
/// label and arrives at its chain.
proof fn lemma_parse_label(s: Seq<char>, chain: Seq<usize>)
    requires
        label_text(chain).is_prefix_of(s),
    ensures
        label_text(chain).len() >= 1,
        parse_from(s, 1, None, Seq::empty()) == parse_from(
            s,
            label_text(chain).len() as int,
            None,
            chain,
        ),
    decreases chain.len(),
{
    let whole = label_text(chain);
    assert(whole =~= s.subrange(0, whole.len() as int));
    if chain.len() == 0 {
        assert(chain =~= Seq::<usize>::empty());
    } else {
        let init = chain.drop_last();
        let v = chain.last() as nat;
        let head = label_text(init);
        assert(whole == head + decimal(v) + seq!['#']);
        assert(head =~= s.subrange(0, head.len() as int)) by {
            assert(head =~= whole.subrange(0, head.len() as int));
        }
        lemma_parse_label(s, init);
        let i = head.len() as int;
        let n = decimal(v).len() as int;
        assert(s.subrange(i, i + n) =~= decimal(v)) by {
            assert(whole.subrange(i, i + n) =~= decimal(v));
        }
        lemma_parse_decimal(s, i, v, init);
        assert(s[i + n] == '#') by {
            assert(whole[i + n] == '#');
        }
        assert(init.push(v as usize) =~= chain);
    }
}

/// Reading the text of a label gives the label back.
pub proof fn law_label_round_trip(chain: Seq<usize>)
    ensures
        label_parse(label_text(chain)) == Some(chain),
{
    let s = label_text(chain);
    assert(s =~= s.subrange(0, s.len() as int));
    lemma_parse_label(s, chain);
    lemma_label_starts(chain);
}

/// The text of a label starts with `#`.
proof fn lemma_label_starts(chain: Seq<usize>)
    ensures
        label_text(chain).len() >= 1,
        label_text(chain)[0] == '#',
    decreases chain.len(),
{
    if chain.len() > 0 {
        lemma_label_starts(chain.drop_last());
    }
}

/// Two labels with the same text are the same label.
pub proof fn law_label_text_tells_apart(a: Seq<usize>, b: Seq<usize>)
    requires
        label_text(a) == label_text(b),
    ensures
        a == b,
{
    law_label_round_trip(a);
    law_label_round_trip(b);
}

/// What a reading arrives at starts with what it had.
proof fn lemma_parse_grows(s: Seq<char>, i: int, cur: Option<nat>, acc: Seq<usize>)
    requires
        parse_from(s, i, cur, acc) is Some,
    ensures
        acc.is_prefix_of(parse_from(s, i, cur, acc).unwrap()),
    decreases s.len() - i,
{
    let r = parse_from(s, i, cur, acc).unwrap();
    if i < 0 || i >= s.len() {
        assert(acc =~= r.subrange(0, acc.len() as int));
    } else if s[i] == '#' {
        let next = acc.push(cur.unwrap() as usize);
        lemma_parse_grows(s, i + 1, None, next);
        assert(next =~= r.subrange(0, next.len() as int));
        assert(acc =~= r.subrange(0, acc.len() as int));
    } else {
        let d = digit_value(s[i]).unwrap();
        let v = (match cur {
            Some(v) => v,
            None => 0,
        }) * 10 + d;
        lemma_parse_grows(s, i + 1, Some(v), acc);
    }
}

/// The text of a label lengthens with the label.
proof fn lemma_label_text_grows(a: Seq<usize>, b: Seq<usize>)
    requires
        a.is_prefix_of(b),
    ensures
        label_text(a).is_prefix_of(label_text(b)),
    decreases b.len(),
{
    assert(a =~= b.subrange(0, a.len() as int));
    if a.len() == b.len() {
        assert(a =~= b);
        assert(label_text(a) =~= label_text(b).subrange(0, label_text(a).len() as int));
    } else {
        let init = b.drop_last();
        assert(a =~= init.subrange(0, a.len() as int));
        lemma_label_text_grows(a, init);
        let ta = label_text(a);
        let ti = label_text(init);
        let tb = label_text(b);
        assert(ta =~= ti.subrange(0, ta.len() as int));
        assert(ti =~= tb.subrange(0, ti.len() as int));
        assert(ta =~= tb.subrange(0, ta.len() as int));
    }
}

/// One label opens another exactly where its text opens the other's text:
/// the relations among nodes can be read off the labels as chains or as
/// texts.
pub proof fn law_label_prefix_is_text_prefix(a: Seq<usize>, b: Seq<usize>)
    ensures
        a.is_prefix_of(b) <==> label_text(a).is_prefix_of(label_text(b)),
{
    if a.is_prefix_of(b) {
        lemma_label_text_grows(a, b);
    }
    if label_text(a).is_prefix_of(label_text(b)) {
        let s = label_text(b);
        lemma_parse_label(s, a);
        assert(s =~= s.subrange(0, s.len() as int));
        lemma_parse_label(s, b);
        assert(parse_from(s, s.len() as int, None, b) == Some(b));
        lemma_parse_grows(s, label_text(a).len() as int, None, a);
    }
}

} // verus!
