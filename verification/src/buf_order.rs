//! Equality and order of byte carriers: by the bytes that they hold,
//! whichever their kind.

use core::cmp::Ordering;
use crate::buf::Buf;
use crate::order::{bytes_equal, lemma_lex_total, lex_less, lex_lt};
use vstd::prelude::*;
use vstd::std_specs::cmp::{PartialEqSpec, PartialOrdSpec};

verus! {

impl PartialEq for Buf {
    fn eq(&self, other: &Buf) -> (r: bool) {
        bytes_equal(self.bytes(), other.bytes())
    }
}

impl vstd::std_specs::cmp::PartialEqSpecImpl for Buf {
    open spec fn obeys_eq_spec() -> bool {
        true
    }

    open spec fn eq_spec(&self, other: &Buf) -> bool {
        self@ == other@
    }
}

impl Eq for Buf {

}

impl PartialOrd for Buf {
    fn partial_cmp(&self, other: &Buf) -> (r: Option<Ordering>) {
        if lex_less(self.bytes(), other.bytes()) {
            Some(Ordering::Less)
        } else if lex_less(other.bytes(), self.bytes()) {
            Some(Ordering::Greater)
        } else {
            Some(Ordering::Equal)
        }
    }
}

impl vstd::std_specs::cmp::PartialOrdSpecImpl for Buf {
    open spec fn obeys_partial_cmp_spec() -> bool {
        true
    }

    open spec fn partial_cmp_spec(&self, other: &Buf) -> Option<Ordering> {
        if lex_lt(self@, other@) {
            Some(Ordering::Less)
        } else if lex_lt(other@, self@) {
            Some(Ordering::Greater)
        } else {
            Some(Ordering::Equal)
        }
    }
}

/// The order agrees with equality: two carriers compare as equal exactly
/// when they hold the same bytes.
pub proof fn lemma_order_agrees_with_equality(a: Buf, b: Buf)
    ensures
        a.partial_cmp_spec(&b) == Some(Ordering::Equal) <==> a.eq_spec(&b),
{
    lemma_lex_total(a@, b@);
}

} // verus!
