use vstd::prelude::*;

verus! {

/// An angle of `num / den` degrees, `den > 0`.
#[derive(Clone, Copy, PartialEq, Eq, Structural, Debug)]
pub struct Angle {
    pub num: i128,
    pub den: u64,
}

/// Frame `i`'s angle for a turn of `step_num / den` degrees a frame: `i`
/// steps, modulo 360, negated when `negate`.
pub open spec fn stepped_angle(i: nat, step_num: nat, den: nat, negate: bool) -> Angle {
    let m = ((i * step_num) % (360 * den)) as int;
    Angle { num: if negate { -m } else { m } as i128, den: den as u64 }
}

/// `stepped_angle`, computed.
pub fn step_angle(i: usize, step_num: u128, den: u64, negate: bool) -> (r: Angle)
    requires
        den >= 1,
        step_num <= 0x1_0000_0000,
    ensures
        r == stepped_angle(i as nat, step_num as nat, den as nat, negate),
{
    assert(i * step_num <= 0xffff_ffff_ffff_ffff * 0x1_0000_0000) by (nonlinear_arith)
        requires i <= 0xffff_ffff_ffff_ffff, step_num <= 0x1_0000_0000;
    let m = (i as u128 * step_num) % (360 * den as u128);
    assert(m < 360 * 0x1_0000_0000_0000_0000);
    if negate {
        Angle { num: -(m as i128), den }
    } else {
        Angle { num: m as i128, den }
    }
}

} // verus!
