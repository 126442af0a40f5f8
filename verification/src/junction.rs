//! Per-vertex records of feature presence and width.
use vstd::prelude::*;

verus! {

/// One axis at one vertex: the stored width, whether a unit edge in the
/// positive direction starts here (`from`) and whether one ends here (`to`).
#[derive(Clone, Copy, Debug, PartialEq, Eq, Structural)]
pub struct HalfJunction {
    pub width: u32,
    pub from: bool,
    pub to: bool,
}

impl HalfJunction {
    /// The record with no edge on this axis.
    pub open spec fn empty(width: u32) -> HalfJunction {
        HalfJunction { width, from: false, to: false }
    }

    /// Whether an edge starts or ends here.
    pub open spec fn present(&self) -> bool {
        self.from || self.to
    }

    /// The width that is reported: the stored one where an edge is present,
    /// zero otherwise.
    pub open spec fn reported_width(&self) -> u32 {
        if self.present() {
            self.width
        } else {
            0
        }
    }

    /// The record with no edge on this axis and the given stored width.
    pub fn new(width: u32) -> (r: HalfJunction)
        ensures
            r == Self::empty(width),
    {
        HalfJunction { width, from: false, to: false }
    }

    /// Whether an edge starts or ends here.
    pub fn any(&self) -> (r: bool)
        ensures
            r == self.present(),
    {
        self.from || self.to
    }

    /// The width that is reported: the stored one where an edge is present,
    /// zero otherwise.
    pub fn width(&self) -> (r: u32)
        ensures
            r == self.reported_width(),
            r > 0 ==> self.from || self.to,
            !self.from && !self.to ==> r == 0,
    {
        if self.any() {
            self.width
        } else {
            0
        }
    }
}

/// The two axes at one vertex.
#[derive(Clone, Copy, Debug, PartialEq, Eq, Structural)]
pub struct Junction {
    pub horizontal: HalfJunction,
    pub vertical: HalfJunction,
}

impl Junction {
    /// The record with no edge on either axis.
    pub open spec fn empty(width: u32) -> Junction {
        Junction { horizontal: HalfJunction::empty(width), vertical: HalfJunction::empty(width) }
    }

    /// The record with no edge on either axis and the given stored width on
    /// both.
    pub fn new(width: u32) -> (r: Junction)
        ensures
            r == Self::empty(width),
    {
        Junction { horizontal: HalfJunction::new(width), vertical: HalfJunction::new(width) }
    }
}

} // verus!
