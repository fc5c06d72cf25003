//! The detector: does a byte sequence contain a backslash?
//!
//! Two strategies with the same contract, offered as a performance
//! comparison: a scan that returns as soon as it finds a match, and a scan
//! that always touches every byte, accumulating the answer with a bitwise
//! or. Both return `has_backslash` of the input, so they agree on every
//! input.

use vstd::prelude::*;

use crate::model::{has_backslash, BACKSLASH};

verus! {

/// Short-circuiting scan: returns true at the first backslash, false when
/// the input is exhausted.
pub fn find_contains(slice: &[u8]) -> (r: bool)
    ensures
        r == has_backslash(slice@),
{
    let mut i: usize = 0;
    while i < slice.len()
        invariant
            i <= slice@.len(),
            forall|j: int| 0 <= j < i ==> slice@[j] != BACKSLASH,
        decreases slice@.len() - i,
    {
        if slice[i] == BACKSLASH {
            assert(slice@[i as int] == BACKSLASH);
            return true;
        }
        i = i + 1;
    }
    false
}

/// Branch-free full scan: folds a bitwise or of "this byte is a backslash"
/// over the whole input, touching every byte even after a match.
pub fn find_fold(slice: &[u8]) -> (r: bool)
    ensures
        r == has_backslash(slice@),
{
    let mut acc: u8 = 0;
    let mut i: usize = 0;
    while i < slice.len()
        invariant
            i <= slice@.len(),
            (acc != 0) == exists|j: int| 0 <= j < i && slice@[j] == BACKSLASH,
        decreases slice@.len() - i,
    {
        let hit: u8 = (slice[i] == BACKSLASH) as u8;
        let prev: u8 = acc;
        acc = acc | hit;
        proof {
            assert((prev | hit) != 0 <==> (prev != 0 || hit != 0)) by (bit_vector);
            if slice@[i as int] == BACKSLASH {
                assert(0 <= i < i + 1 && slice@[i as int] == BACKSLASH);
            }
        }
        i = i + 1;
    }
    acc != 0
}

} // verus!
