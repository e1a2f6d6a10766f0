//! Quantization of a colour to integer channels.

use vstd::prelude::*;
use crate::fixed::{SCALE, div_trunc, div_trunc_i128, lemma_div_trunc_bound};
use crate::vec3::Vec3;

verus! {

/// A channel value (millionths of full intensity) mapped to an integer by
/// `255.999 * c`, rounded toward zero.  No clamping: a channel outside zero
/// to one yields an integer outside 0 to 255, exactly as the formula says.
pub open spec fn quantize(c: int) -> int {
    div_trunc(c * 255_999, 1_000 * (SCALE as int))
}

impl Vec3 {
    /// The colour's three channels, quantized.  The caller serializes them.
    pub fn write(&self) -> (rgb: (i64, i64, i64))
        ensures
            rgb.0 == quantize(self.x as int),
            rgb.1 == quantize(self.y as int),
            rgb.2 == quantize(self.z as int),
    {
        (
            Self::write_channel(self.x),
            Self::write_channel(self.y),
            Self::write_channel(self.z),
        )
    }

    fn write_channel(c: i64) -> (q: i64)
        ensures
            q == quantize(c as int),
    {
        proof {
            lemma_div_trunc_bound(
                (c as int) * 255_999,
                1_000 * (SCALE as int),
                3_000_000_000_000_000,
            );
        }
        div_trunc_i128((c as i128) * 255_999, 1_000 * (SCALE as i128)) as i64
    }
}

} // verus!
