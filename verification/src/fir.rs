//! Decimation plan of the composite decoder's second pass: for every output
//! column, the input column the FIR filter is centred on.

use vstd::prelude::*;

verus! {

/// For each of `output_width` columns, the centre input column
/// `min(2x, input_width - 1)` (as a `u32`).
pub struct FirPlan {
    pub input_width: usize,
    pub output_width: usize,
    pub center: Vec<u32>,
}

/// The centre input column of output column `x`, truncated to `u32` as the
/// plan stores it.
pub open spec fn spec_center(input_width: usize, x: int) -> u32 {
    (if 2 * x <= input_width - 1 { 2 * x } else { input_width - 1 }) as u32
}

/// Builds the plan: output column `x` is centred on input column
/// `min(2x, input_width - 1)`. With no output columns the input width may
/// be 0.
pub fn build_plan(input_width: usize, output_width: usize) -> (plan: FirPlan)
    requires
        output_width > 0 ==> 1 <= input_width,
        output_width > 0 ==> 2 * (output_width - 1) <= usize::MAX,
    ensures
        plan.input_width == input_width,
        plan.output_width == output_width,
        plan.center@.len() == output_width,
        forall|x: int| 0 <= x < output_width ==> plan.center@[x] == spec_center(input_width, x),
{
    let mut center: Vec<u32> = Vec::new();
    let mut x: usize = 0;
    while x < output_width
        invariant
            output_width > 0 ==> 1 <= input_width,
            output_width > 0 ==> 2 * (output_width - 1) <= usize::MAX,
            x <= output_width,
            center@.len() == x,
            forall|i: int| 0 <= i < x ==> center@[i] == spec_center(input_width, i),
        decreases output_width - x,
    {
        let doubled: usize = x * 2;
        let c: usize = if doubled <= input_width - 1 { doubled } else { input_width - 1 };
        center.push(#[verifier::truncate] (c as u32));
        x = x + 1;
    }
    FirPlan { input_width, output_width, center }
}

} // verus!
