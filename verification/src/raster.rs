//! Drawing on grey-scale raster images.
use vstd::prelude::*;

verus! {

/// Darkens a grey-scale pixel value by `v`, down to black (zero) at most.
pub fn darken(px: &mut u8, v: u8)
    ensures
        *final(px) == (if *old(px) >= v {
            (*old(px) - v) as u8
        } else {
            0u8
        }),
{
    *px = px.saturating_sub(v);
}

} // verus!
