//! Order of index labels by raw UTF-16BE code units: the order in which the
//! dictionary index stores Greek and Latin labels, and in which a reader's
//! binary search expects to find them.
use std::cmp::Ordering;
use vstd::prelude::*;
use crate::utf16::{compare_units, label_sign, lemma_label_sign_equal_iff_same, utf16be_bytes};

verus! {

/// The ordering that a -1/0/1 comparison result stands for.
pub open spec fn ordering_for(n: int) -> Ordering {
    if n < 0 {
        Ordering::Less
    } else if n == 0 {
        Ordering::Equal
    } else {
        Ordering::Greater
    }
}

/// Compares two labels by their UTF-16 code units, unit by unit (a proper
/// prefix sorts first).
pub fn cmp_utf16be(a: &str, b: &str) -> (o: Ordering)
    ensures
        o == ordering_for(label_sign(a@, b@)),
{
    let x = utf16be_bytes(a);
    let y = utf16be_bytes(b);
    let r = compare_units(&x, &y);
    if r < 0 {
        Ordering::Less
    } else if r == 0 {
        Ordering::Equal
    } else {
        Ordering::Greater
    }
}

/// Two labels compare `Equal` exactly when they are the same text, and
/// swapping them turns `Less` into `Greater` and back.
pub proof fn lemma_label_order_antisymmetric(a: Seq<char>, b: Seq<char>)
    ensures
        ordering_for(label_sign(a, b)) == Ordering::Equal <==> a == b,
        ordering_for(label_sign(a, b)) == Ordering::Less <==> ordering_for(label_sign(b, a))
            == Ordering::Greater,
{
    lemma_label_sign_equal_iff_same(a, b);
}

} // verus!
