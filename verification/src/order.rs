//! Lexicographic order on sequences, and the order on text and on lists of
//! names that the ranking uses to break ties.

use vstd::prelude::*;
use vstd::std_specs::iter::IteratorSpec;
use vstd::string::{axiom_spec_iter, next_postcondition};
use crate::record::names_of;

verus! {

/// `lt` is a strict total order: irreflexive, connected and transitive.
pub open spec fn strict_total<T>(lt: spec_fn(T, T) -> bool) -> bool {
    &&& forall|x: T| !(#[trigger] lt(x, x))
    &&& forall|x: T, y: T| x != y ==> (#[trigger] lt(x, y)) || lt(y, x)
    &&& forall|x: T, y: T, z: T| #[trigger] lt(x, y) && #[trigger] lt(y, z) ==> lt(x, z)
}

/// `a` comes strictly before `b` in the lexicographic order that `lt` gives:
/// at the first position where they differ `a` has the lesser item, or `a` is
/// a proper prefix of `b`.
pub open spec fn lex_lt<T>(a: Seq<T>, b: Seq<T>, lt: spec_fn(T, T) -> bool) -> bool
    decreases a.len(),
{
    if b.len() == 0 {
        false
    } else if a.len() == 0 {
        true
    } else if a[0] != b[0] {
        lt(a[0], b[0])
    } else {
        lex_lt(a.drop_first(), b.drop_first(), lt)
    }
}

/// No sequence comes before itself.
pub proof fn lemma_lex_irreflexive<T>(a: Seq<T>, lt: spec_fn(T, T) -> bool)
    ensures
        !lex_lt(a, a, lt),
    decreases a.len(),
{
    if a.len() > 0 {
        lemma_lex_irreflexive(a.drop_first(), lt);
    }
}

/// Of two different sequences one comes before the other.
pub proof fn lemma_lex_connected<T>(a: Seq<T>, b: Seq<T>, lt: spec_fn(T, T) -> bool)
    requires
        strict_total(lt),
        a != b,
    ensures
        lex_lt(a, b, lt) || lex_lt(b, a, lt),
    decreases a.len(),
{
    if a.len() > 0 && b.len() > 0 && a[0] == b[0] {
        if a.drop_first() == b.drop_first() {
            assert(a =~= seq![a[0]] + a.drop_first());
            assert(b =~= seq![b[0]] + b.drop_first());
        }
        lemma_lex_connected(a.drop_first(), b.drop_first(), lt);
    } else if a.len() == 0 && b.len() == 0 {
        assert(a =~= b);
    }
}

/// Coming before is transitive.
pub proof fn lemma_lex_transitive<T>(a: Seq<T>, b: Seq<T>, c: Seq<T>, lt: spec_fn(T, T) -> bool)
    requires
        strict_total(lt),
        lex_lt(a, b, lt),
        lex_lt(b, c, lt),
    ensures
        lex_lt(a, c, lt),
    decreases a.len(),
{
    if a.len() > 0 && b.len() > 0 && c.len() > 0 {
        if a[0] == b[0] && b[0] == c[0] {
            lemma_lex_transitive(a.drop_first(), b.drop_first(), c.drop_first(), lt);
        }
    }
}

/// Two sequences that agree on their first `n` items compare as their rests do.
pub proof fn lemma_lex_skip<T>(a: Seq<T>, b: Seq<T>, n: int, lt: spec_fn(T, T) -> bool)
    requires
        0 <= n <= a.len(),
        n <= b.len(),
        forall|j: int| 0 <= j < n ==> a[j] == b[j],
    ensures
        lex_lt(a, b, lt) == lex_lt(a.skip(n), b.skip(n), lt),
        (a == b) == (a.skip(n) == b.skip(n)),
    decreases n,
{
    if n == 0 {
        assert(a.skip(0) =~= a);
        assert(b.skip(0) =~= b);
    } else {
        let a1 = a.drop_first();
        let b1 = b.drop_first();
        assert forall|j: int| 0 <= j < n - 1 implies a1[j] == b1[j] by {
            assert(a1[j] == a[j + 1]);
            assert(b1[j] == b[j + 1]);
        }
        lemma_lex_skip(a1, b1, n - 1, lt);
        assert(a1.skip(n - 1) =~= a.skip(n));
        assert(b1.skip(n - 1) =~= b.skip(n));
        assert(a[0] == b[0]);
        if a1 == b1 {
            assert(a =~= seq![a[0]] + a1);
            assert(b =~= seq![b[0]] + b1);
        }
    }
}

/// Characters in the order of their code points.
pub open spec fn char_lt() -> spec_fn(char, char) -> bool {
    |x: char, y: char| (x as int) < (y as int)
}

/// Text in lexicographic order of code points.
pub open spec fn text_lt(a: Seq<char>, b: Seq<char>) -> bool {
    lex_lt(a, b, char_lt())
}

/// The order of text as a relation.
pub open spec fn text_order() -> spec_fn(Seq<char>, Seq<char>) -> bool {
    |x: Seq<char>, y: Seq<char>| text_lt(x, y)
}

/// Lists of names in lexicographic order, each name compared as text.
pub open spec fn names_lt(a: Seq<Seq<char>>, b: Seq<Seq<char>>) -> bool {
    lex_lt(a, b, text_order())
}

/// The order of code points is a strict total order.
pub proof fn lemma_char_order()
    ensures
        strict_total(char_lt()),
{
}

/// The order of text is a strict total order.
pub proof fn lemma_text_order()
    ensures
        strict_total(text_order()),
{
    lemma_char_order();
    let lt = text_order();
    assert forall|x: Seq<char>| !(#[trigger] lt(x, x)) by {
        lemma_lex_irreflexive(x, char_lt());
    }
    assert forall|x: Seq<char>, y: Seq<char>| x != y implies (#[trigger] lt(x, y)) || lt(y, x) by {
        lemma_lex_connected(x, y, char_lt());
    }
    assert forall|x: Seq<char>, y: Seq<char>, z: Seq<char>| #[trigger]
        lt(x, y) && #[trigger] lt(y, z) implies lt(x, z) by {
        lemma_lex_transitive(x, y, z, char_lt());
    }
}

/// What holds of the order of text on any three texts.
pub proof fn lemma_text_lt(a: Seq<char>, b: Seq<char>, c: Seq<char>)
    ensures
        !text_lt(a, a),
        a != b ==> text_lt(a, b) || text_lt(b, a),
        !(text_lt(a, b) && text_lt(b, a)),
        text_lt(a, b) && text_lt(b, c) ==> text_lt(a, c),
{
    lemma_char_order();
    lemma_lex_irreflexive(a, char_lt());
    if a != b {
        lemma_lex_connected(a, b, char_lt());
    }
    if text_lt(a, b) && text_lt(b, a) {
        lemma_lex_transitive(a, b, a, char_lt());
    }
    if text_lt(a, b) && text_lt(b, c) {
        lemma_lex_transitive(a, b, c, char_lt());
    }
}

/// What holds of the order of lists of names on any three lists.
pub proof fn lemma_names_lt(a: Seq<Seq<char>>, b: Seq<Seq<char>>, c: Seq<Seq<char>>)
    ensures
        !names_lt(a, a),
        a != b ==> names_lt(a, b) || names_lt(b, a),
        !(names_lt(a, b) && names_lt(b, a)),
        names_lt(a, b) && names_lt(b, c) ==> names_lt(a, c),
{
    lemma_text_order();
    lemma_lex_irreflexive(a, text_order());
    if a != b {
        lemma_lex_connected(a, b, text_order());
    }
    if names_lt(a, b) && names_lt(b, a) {
        lemma_lex_transitive(a, b, a, text_order());
    }
    if names_lt(a, b) && names_lt(b, c) {
        lemma_lex_transitive(a, b, c, text_order());
    }
}

/// How one value stands to another in an order.
#[derive(Clone, Copy, Debug, PartialEq, Eq, Structural)]
pub enum Precedence {
    Before,
    Same,
    After,
}

/// Compares two texts lexicographically by code point.
pub fn text_order_of(a: &String, b: &String) -> (o: Precedence)
    ensures
        (o == Precedence::Before) == text_lt(a@, b@),
        (o == Precedence::Same) == (a@ == b@),
        (o == Precedence::After) == text_lt(b@, a@),
{
    broadcast use {axiom_spec_iter, next_postcondition};

    let mut rest_a = a.as_str().chars();
    let mut rest_b = b.as_str().chars();
    let ghost mut n: int = 0;
    proof {
        assert(a@.skip(0) =~= a@);
        assert(b@.skip(0) =~= b@);
    }
    loop
        invariant
            0 <= n <= a@.len(),
            n <= b@.len(),
            forall|j: int| 0 <= j < n ==> a@[j] == b@[j],
            rest_a.remaining() == a@.skip(n),
            rest_b.remaining() == b@.skip(n),
        decreases a@.len() - n,
    {
        proof {
            lemma_lex_skip(a@, b@, n, char_lt());
            lemma_lex_skip(b@, a@, n, char_lt());
            lemma_text_lt(a@, b@, a@);
        }
        let next_a = rest_a.next();
        let next_b = rest_b.next();
        match next_a {
            None => {
                match next_b {
                    None => {
                        assert(a@.skip(n) =~= b@.skip(n));
                        return Precedence::Same;
                    },
                    Some(_) => {
                        return Precedence::Before;
                    },
                }
            },
            Some(x) => {
                match next_b {
                    None => {
                        return Precedence::After;
                    },
                    Some(y) => {
                        if x < y {
                            return Precedence::Before;
                        }
                        if y < x {
                            return Precedence::After;
                        }
                        proof {
                            assert(a@.skip(n).drop_first() =~= a@.skip(n + 1));
                            assert(b@.skip(n).drop_first() =~= b@.skip(n + 1));
                            n = n + 1;
                        }
                    },
                }
            },
        }
    }
}

/// Compares two lists of names lexicographically, name by name.
pub fn names_order(a: &Vec<String>, b: &Vec<String>) -> (o: Precedence)
    ensures
        (o == Precedence::Before) == names_lt(names_of(a@), names_of(b@)),
        (o == Precedence::Same) == (names_of(a@) == names_of(b@)),
        (o == Precedence::After) == names_lt(names_of(b@), names_of(a@)),
{
    let ghost na = names_of(a@);
    let ghost nb = names_of(b@);
    let mut i: usize = 0;
    while i < a.len() && i < b.len()
        invariant
            i <= a.len(),
            i <= b.len(),
            na == names_of(a@),
            nb == names_of(b@),
            forall|j: int| 0 <= j < i ==> na[j] == nb[j],
        decreases a.len() - i,
    {
        let o = text_order_of(&a[i], &b[i]);
        proof {
            lemma_lex_skip(na, nb, i as int, text_order());
            lemma_lex_skip(nb, na, i as int, text_order());
            lemma_names_lt(na, nb, na);
            assert(na.skip(i as int)[0] == a[i as int]@);
            assert(nb.skip(i as int)[0] == b[i as int]@);
        }
        match o {
            Precedence::Same => {},
            _ => {
                return o;
            },
        }
        i += 1;
    }
    proof {
        lemma_lex_skip(na, nb, i as int, text_order());
        lemma_lex_skip(nb, na, i as int, text_order());
        if a.len() == b.len() {
            assert(na.skip(i as int) =~= nb.skip(i as int));
        }
    }
    if a.len() < b.len() {
        Precedence::Before
    } else if a.len() > b.len() {
        Precedence::After
    } else {
        Precedence::Same
    }
}

} // verus!
