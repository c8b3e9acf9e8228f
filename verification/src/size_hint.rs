//! Bounding untrusted size hints before they reach an allocation.

use vstd::prelude::*;

verus! {

/// Cap a decoder's length hint so that hostile input cannot force an
/// arbitrarily large up-front reservation; a missing hint reserves nothing.
pub fn cautious(hint: Option<usize>) -> (r: usize)
    ensures
        r == match hint {
            Some(h) => if h < 4096 {
                h as int
            } else {
                4096int
            },
            None => 0int,
        },
        r <= 4096,
{
    match hint {
        Some(h) => if h < 4096 {
            h
        } else {
            4096
        },
        None => 0,
    }
}

} // verus!
