//! Plain operations on text: its characters, substring search and joining.

use vstd::prelude::*;
use vstd::std_specs::iter::IteratorSpec;
use vstd::string::{axiom_spec_iter, next_postcondition, StringExecFns};
use crate::record::names_of;

verus! {

/// `needle` stands in `hay` at position `at`.
pub open spec fn occurs_at(hay: Seq<char>, needle: Seq<char>, at: int) -> bool {
    0 <= at && at + needle.len() <= hay.len() && hay.subrange(at, at + needle.len()) == needle
}

/// `needle` stands somewhere in `hay`.
pub open spec fn has_substring(hay: Seq<char>, needle: Seq<char>) -> bool {
    exists|at: int| occurs_at(hay, needle, at)
}

/// The parts in order, with `sep` between each two.
pub open spec fn joined(parts: Seq<Seq<char>>, sep: Seq<char>) -> Seq<char>
    decreases parts.len(),
{
    if parts.len() == 0 {
        Seq::empty()
    } else if parts.len() == 1 {
        parts[0]
    } else {
        joined(parts.drop_last(), sep) + sep + parts.last()
    }
}

/// The characters of a text, in order.
pub fn chars_of(s: &str) -> (out: Vec<char>)
    ensures
        out@ == s@,
{
    broadcast use {axiom_spec_iter, next_postcondition};

    let mut out: Vec<char> = Vec::new();
    let mut it = s.chars();
    loop
        invariant
            out@.len() <= s@.len(),
            out@ + it.remaining() == s@,
        decreases s@.len() - out@.len(),
    {
        let ghost before = it.remaining();
        let ghost old_out = out@;
        match it.next() {
            Some(c) => {
                out.push(c);
                assert(out@ + it.remaining() =~= old_out + before);
            },
            None => {
                assert(old_out + before =~= old_out);
                return out;
            },
        }
    }
}

/// Whether `needle` stands somewhere in `hay`.
pub fn contains_text(hay: &str, needle: &str) -> (r: bool)
    ensures
        r == has_substring(hay@, needle@),
{
    let h = chars_of(hay);
    let n = chars_of(needle);
    if n.len() > h.len() {
        return false;
    }
    let last = h.len() - n.len();
    let mut i: usize = 0;
    while i <= last
        invariant
            h@ == hay@,
            n@ == needle@,
            last == h.len() - n.len(),
            i <= last + 1,
            forall|at: int| 0 <= at < i ==> !occurs_at(h@, n@, at),
        decreases last + 1 - i,
    {
        let mut j: usize = 0;
        while j < n.len() && h[i + j] == n[j]
            invariant
                i + n.len() <= h.len(),
                j <= n.len(),
                forall|t: int| 0 <= t < j ==> h[i + t] == n[t],
            decreases n.len() - j,
        {
            j += 1;
        }
        if j == n.len() {
            assert(h@.subrange(i as int, i + n.len()) =~= n@);
            assert(occurs_at(h@, n@, i as int));
            return true;
        }
        assert(h@.subrange(i as int, i + n.len())[j as int] != n@[j as int]);
        i += 1;
    }
    false
}

/// The names in order, with `sep` between each two.
pub fn join_names(names: &Vec<String>, sep: &str) -> (out: String)
    ensures
        out@ == joined(names_of(names@), sep@),
{
    let ghost parts = names_of(names@);
    let mut out = String::new();
    let mut i: usize = 0;
    assert(parts.take(0) =~= Seq::empty());
    while i < names.len()
        invariant
            i <= names.len(),
            parts == names_of(names@),
            out@ == joined(parts.take(i as int), sep@),
        decreases names.len() - i,
    {
        proof {
            assert(parts.take(i + 1).drop_last() =~= parts.take(i as int));
            assert(parts.take(i + 1).last() == names[i as int]@);
            if i == 0 {
                assert(out@ + names[i as int]@ =~= names[i as int]@);
            }
        }
        if i > 0 {
            out.append(sep);
        }
        out.append(names[i].as_str());
        i += 1;
    }
    assert(parts.take(names.len() as int) =~= parts);
    out
}

} // verus!
