use vstd::prelude::*;
use std::cmp::Ordering;
use crate::entry::{Entry, models, of_size, sorted_by_size};

verus! {

/// Compares two entries by size, larger first (what `b.size.cmp(&a.size)`
/// gives).
fn larger_first(a: &Entry, b: &Entry) -> (o: Ordering)
    ensures
        o == (if a.size > b.size {
            Ordering::Less
        } else if a.size < b.size {
            Ordering::Greater
        } else {
            Ordering::Equal
        }),
{
    if a.size > b.size {
        Ordering::Less
    } else if a.size < b.size {
        Ordering::Greater
    } else {
        Ordering::Equal
    }
}

/// Calls `slice::sort_by` on `v` with `larger_first`. The standard library
/// documents `sort_by` as a stable sort: afterwards the entries are ordered
/// by the comparator (here: sizes never grow along the vector) and entries
/// that compare equal (here: of the same size) keep their order. That is
/// all this contract claims.
#[verifier::external_body]
pub(crate) fn sort_larger_first(v: &mut Vec<Entry>)
    ensures
        sorted_by_size(models(final(v)@)),
        forall|w: nat| #[trigger] of_size(models(final(v)@), w) == of_size(models(old(v)@), w),
{
    v.sort_by(|a, b| larger_first(a, b))
}

} // verus!
