//! Reading a CPU quantity.
//!
//! A quantity is decimal text, written as a float is, with an optional unit
//! letter. `m` marks millicores; anything else counts whole cores. The result
//! is always a whole number of millicores: a quantity finer than that gives
//! the nearest one, halves going up. A quantity that is negative or no number
//! is refused.

use vstd::prelude::*;
use crate::decimal::{decimal_scaled, scale_decimal, within};
use crate::text::chars_of;

verus! {

/// A quantity that could not be read, with the text as it was given.
#[derive(Clone, Debug)]
pub struct ParseError {
    pub quantity: String,
}

/// The largest quantity held, in millicores.
pub const MAX_MILLICORES: u32 = 0xffff_ffff;

/// `s` with every occurrence of `c` taken out.
pub open spec fn without(s: Seq<char>, c: char) -> Seq<char>
    decreases s.len(),
{
    if s.len() == 0 {
        s
    } else if s.last() == c {
        without(s.drop_last(), c)
    } else {
        without(s.drop_last(), c).push(s.last())
    }
}

/// What a quantity amounts to in millicores.
///
/// With an `m` anywhere in it, the text without its `m`s counts millicores.
/// Else with a `g` in it, the text without its `g`s counts cores. Else the
/// whole text counts cores. The amount is the nearest whole number of
/// millicores, halves going up. There is no amount where the remaining text
/// is not well-written decimal text, or where the amount is more than
/// `MAX_MILLICORES`.
pub open spec fn quantity_millicores(q: Seq<char>) -> Option<nat> {
    if q.contains('m') {
        within(decimal_scaled(without(q, 'm'), 0), MAX_MILLICORES as nat)
    } else if q.contains('g') {
        within(decimal_scaled(without(q, 'g'), 3), MAX_MILLICORES as nat)
    } else {
        within(decimal_scaled(q, 3), MAX_MILLICORES as nat)
    }
}

/// Whether `text` holds the character `c`.
pub fn holds_char(text: &Vec<char>, c: char) -> (r: bool)
    ensures
        r == text@.contains(c),
{
    let mut i: usize = 0;
    while i < text.len()
        invariant
            i <= text.len(),
            forall|j: int| 0 <= j < i ==> text[j] != c,
        decreases text.len() - i,
    {
        if text[i] == c {
            return true;
        }
        i += 1;
    }
    false
}

/// `text` with every occurrence of `c` taken out.
pub fn strip_char(text: &Vec<char>, c: char) -> (out: Vec<char>)
    ensures
        out@ == without(text@, c),
{
    let mut out: Vec<char> = Vec::new();
    let mut i: usize = 0;
    assert(text@.take(0) =~= Seq::empty());
    while i < text.len()
        invariant
            i <= text.len(),
            out@ == without(text@.take(i as int), c),
        decreases text.len() - i,
    {
        assert(text@.take(i + 1).drop_last() =~= text@.take(i as int));
        if text[i] != c {
            out.push(text[i]);
        }
        i += 1;
    }
    assert(text@.take(text.len() as int) =~= text@);
    out
}

/// Reads a CPU quantity as a number of millicores.
pub fn convert_quantity_to_int(quantity: &str) -> (r: Result<u32, ParseError>)
    ensures
        match r {
            Ok(v) => quantity_millicores(quantity@) == Some(v as nat),
            Err(e) => quantity_millicores(quantity@) is None && e.quantity@ == quantity@,
        },
{
    let text = chars_of(quantity);
    let scaled = if holds_char(&text, 'm') {
        scale_decimal(&strip_char(&text, 'm'), 0, MAX_MILLICORES)
    } else if holds_char(&text, 'g') {
        scale_decimal(&strip_char(&text, 'g'), 3, MAX_MILLICORES)
    } else {
        scale_decimal(&text, 3, MAX_MILLICORES)
    };
    match scaled {
        Some(v) => Ok(v),
        None => Err(ParseError { quantity: quantity.to_owned() }),
    }
}

} // verus!
