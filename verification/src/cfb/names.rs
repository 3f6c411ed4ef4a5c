//! The order the format keeps a storage's children in.

use std::cmp::Ordering;

use vstd::prelude::*;

use crate::text::{
    lemma_lex_order_same, lemma_name_order_flip, lex_compare, name_order, upper_all, upper_chars, utf16_len, utf16_units,
};

verus! {

/// Orders two directory entry names the way the format's red-black tree does.
///
/// Shorter names always sort before longer ones, and names of the same length
/// are compared case-insensitively. This is not lexicographic order, so a
/// listing sorted by this function will not look alphabetical.
pub fn cmp_names(a: &str, b: &str) -> (r: Ordering)
    ensures
        (r is Less) == (name_order(a@, b@) < 0),
        (r is Equal) == (name_order(a@, b@) == 0),
        (r is Greater) == (name_order(a@, b@) > 0),
{
    let la = utf16_units(a);
    let lb = utf16_units(b);
    if la < lb {
        return Ordering::Less;
    }
    if la > lb {
        return Ordering::Greater;
    }
    let ua = upper_chars(a);
    let ub = upper_chars(b);
    let c = lex_compare(&ua, &ub);
    if c < 0 {
        Ordering::Less
    } else if c == 0 {
        Ordering::Equal
    } else {
        Ordering::Greater
    }
}

/// Whether `a` sorts before `b` in the format's name order.
pub fn name_less(a: &str, b: &str) -> (r: bool)
    ensures
        r == (name_order(a@, b@) < 0),
{
    match cmp_names(a, b) {
        Ordering::Less => true,
        _ => false,
    }
}

/// Whether `a` and `b` are the same name in the format's name order.
pub fn name_same(a: &str, b: &str) -> (r: bool)
    ensures
        r == (name_order(a@, b@) == 0),
{
    match cmp_names(a, b) {
        Ordering::Equal => true,
        _ => false,
    }
}

/// The order of names is a consistent order: comparing `b` with `a` is the
/// reverse of comparing `a` with `b`, every name compares equal to itself,
/// and a name shorter in UTF-16 units sorts first.
pub proof fn lemma_cmp_names_laws(a: Seq<char>, b: Seq<char>)
    ensures
        name_order(a, b) == -name_order(b, a),
        name_order(a, a) == 0,
        utf16_len(a) < utf16_len(b) ==> name_order(a, b) < 0,
{
    lemma_name_order_flip(a, b);
    lemma_lex_order_same(upper_all(a));
}

} // verus!
