//! Floored division and remainder on signed integers.
use vstd::prelude::*;
use vstd::arithmetic::div_mod::{lemma_fundamental_div_mod, lemma_fundamental_div_mod_converse};

verus! {

/// Bound on the magnitude of values handed to the helpers below.
pub open spec fn small(x: int) -> bool {
    -0x1_0000_0000_0000_0000_0000_0000 < x < 0x1_0000_0000_0000_0000_0000_0000
}

/// Floored division: the quotient rounded toward negative infinity
/// (`i64::div_euclid` for a positive divisor).
pub fn floor_div(x: i128, d: u32) -> (q: i128)
    requires
        small(x as int),
        d > 0,
    ensures
        q as int == x as int / d as int,
{
    let dd = d as u128;
    if x >= 0 {
        let ux = x as u128;
        let uq = ux / dd;
        assert(uq <= ux);
        uq as i128
    } else {
        let ny = (-x - 1) as u128;
        let q0 = ny / dd;
        let r0 = ny % dd;
        proof {
            lemma_fundamental_div_mod(ny as int, d as int);
            assert(ny as int == d as int * q0 as int + r0 as int);
            assert(x as int == (-(q0 as int) - 1) * d as int + (d as int - 1 - r0 as int))
                by (nonlinear_arith)
                requires
                    ny as int == d as int * q0 as int + r0 as int,
                    ny as int == -(x as int) - 1,
            ;
            lemma_fundamental_div_mod_converse(
                x as int,
                d as int,
                -(q0 as int) - 1,
                d as int - 1 - r0 as int,
            );
        }
        assert(q0 <= ny);
        -(q0 as i128) - 1
    }
}

/// Floored remainder: always in `0..d` (`i64::rem_euclid` for a positive
/// divisor).
pub fn floor_mod(x: i128, d: u32) -> (r: u32)
    requires
        small(x as int),
        d > 0,
    ensures
        r as int == x as int % d as int,
        r < d,
{
    let dd = d as u128;
    if x >= 0 {
        let ux = x as u128;
        let ur = ux % dd;
        ur as u32
    } else {
        let ny = (-x - 1) as u128;
        let q0 = ny / dd;
        let r0 = ny % dd;
        proof {
            lemma_fundamental_div_mod(ny as int, d as int);
            assert(x as int == (-(q0 as int) - 1) * d as int + (d as int - 1 - r0 as int))
                by (nonlinear_arith)
                requires
                    ny as int == d as int * q0 as int + r0 as int,
                    ny as int == -(x as int) - 1,
            ;
            lemma_fundamental_div_mod_converse(
                x as int,
                d as int,
                -(q0 as int) - 1,
                d as int - 1 - r0 as int,
            );
        }
        (dd - 1 - r0) as u32
    }
}

} // verus!
