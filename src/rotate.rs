use vstd::prelude::*;
use crate::angle::Angle;
use crate::frame::Frame;
use crate::number::{Decimal, ONE};

verus! {

/// Prepares a rotation of every frame by `degrees` about its center: the
/// angle for each frame.
pub fn rotate(frames: &Vec<Frame>, degrees: Decimal) -> (angles: Vec<Angle>)
    ensures
        angles@.len() == frames@.len(),
        forall|i: int| 0 <= i < angles@.len() ==> #[trigger] angles@[i] == (Angle { num: degrees.micros as i128, den: ONE as u64 }),
{
    let mut angles: Vec<Angle> = Vec::new();
    let mut i: usize = 0;
    while i < frames.len()
        invariant
            i <= frames@.len(),
            angles@.len() == i,
            forall|k: int| 0 <= k < i ==> #[trigger] angles@[k] == (Angle { num: degrees.micros as i128, den: ONE as u64 }),
        decreases frames@.len() - i,
    {
        angles.push(Angle { num: degrees.micros as i128, den: ONE as u64 });
        i = i + 1;
    }
    angles
}

} // verus!
