//! The ground cover of a unit quad, decided once from the elevations at its
//! four corners.
use vstd::prelude::*;

verus! {

/// The cover of one unit quad.
#[derive(Clone, Copy, Debug, PartialEq, Eq, Structural)]
pub enum Ground {
    Grass,
    Rock,
    Beach,
}

/// The cover of a quad. `steep` says of each of its four sides whether the
/// elevations at the two ends differ by more than the cliff gradient, `low`
/// of each of its four corners whether it lies below the beach level. A quad
/// with a steep side is rock; any other quad with all corners low is beach;
/// the rest is grass.
pub open spec fn ground_of(steep: Seq<bool>, low: Seq<bool>) -> Ground {
    if steep[0] || steep[1] || steep[2] || steep[3] {
        Ground::Rock
    } else if low[0] && low[1] && low[2] && low[3] {
        Ground::Beach
    } else {
        Ground::Grass
    }
}

/// The cover of a quad, from what is known of its sides and corners.
pub fn quad_ground(steep: [bool; 4], low: [bool; 4]) -> (g: Ground)
    ensures
        g == ground_of(steep@, low@),
        g == Ground::Rock <==> exists|i: int| 0 <= i < 4 && steep@[i],
        g == Ground::Beach <==> (forall|i: int| 0 <= i < 4 ==> !steep@[i] && low@[i]),
{
    if steep[0] || steep[1] || steep[2] || steep[3] {
        Ground::Rock
    } else if low[0] && low[1] && low[2] && low[3] {
        Ground::Beach
    } else {
        proof {
            if forall|i: int| 0 <= i < 4 ==> !steep@[i] && low@[i] {
                assert(low@[0] && low@[1] && low@[2] && low@[3]);
            }
        }
        Ground::Grass
    }
}

} // verus!
