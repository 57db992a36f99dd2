//! Aggregate statistics of a node: how many children, how many nodes below.

use vstd::prelude::*;

verus! {

/// The size of a subtree: the number of direct children of its root, and the
/// number of nodes in it, the root included.
#[derive(Copy, Clone, Debug, PartialEq, Eq, Structural)]
pub struct Size {
    /// Count of direct children.
    pub degree: u32,
    /// Count of all nodes, the node itself and all its descendants.
    pub node_cnt: u32,
}

impl Size {
    /// The field-wise sum, as a mathematical pair.
    pub open spec fn plus(self, rhs: Size) -> (int, int) {
        (self.degree + rhs.degree, self.node_cnt + rhs.node_cnt)
    }

    /// The field-wise difference, as a mathematical pair.
    pub open spec fn minus(self, rhs: Size) -> (int, int) {
        (self.degree - rhs.degree, self.node_cnt - rhs.node_cnt)
    }

    /// Whether a mathematical pair fits into a `Size`.
    pub open spec fn fits(p: (int, int)) -> bool {
        0 <= p.0 <= u32::MAX && 0 <= p.1 <= u32::MAX
    }

    /// The `Size` that holds a mathematical pair, each field reduced modulo 2^32.
    pub open spec fn wrap(p: (int, int)) -> Size {
        Size { degree: (p.0 % 0x1_0000_0000) as u32, node_cnt: (p.1 % 0x1_0000_0000) as u32 }
    }
}

impl core::ops::Add for Size {
    type Output = Size;

    /// Field-wise addition. Both sums must fit in `u32`.
    fn add(self, rhs: Size) -> (out: Size) {
        Size { degree: self.degree + rhs.degree, node_cnt: self.node_cnt + rhs.node_cnt }
    }
}

impl vstd::std_specs::ops::AddSpecImpl for Size {
    open spec fn obeys_add_spec() -> bool {
        true
    }

    open spec fn add_req(self, rhs: Size) -> bool {
        Size::fits(self.plus(rhs))
    }

    open spec fn add_spec(self, rhs: Size) -> Size {
        Size::wrap(self.plus(rhs))
    }
}

impl core::ops::Sub for Size {
    type Output = Size;

    /// Field-wise subtraction. Neither difference may fall below zero.
    fn sub(self, rhs: Size) -> (out: Size) {
        Size { degree: self.degree - rhs.degree, node_cnt: self.node_cnt - rhs.node_cnt }
    }
}

impl vstd::std_specs::ops::SubSpecImpl for Size {
    open spec fn obeys_sub_spec() -> bool {
        true
    }

    open spec fn sub_req(self, rhs: Size) -> bool {
        Size::fits(self.minus(rhs))
    }

    open spec fn sub_spec(self, rhs: Size) -> Size {
        Size::wrap(self.minus(rhs))
    }
}

impl core::ops::AddAssign for Size {
    /// Field-wise addition in place: degree to degree, node count to node
    /// count. A sum that does not fit in `u32` wraps around.
    fn add_assign(&mut self, rhs: Size)
        ensures
            *final(self) == Size::wrap(old(self).plus(rhs)),
    {
        self.degree = self.degree.wrapping_add(rhs.degree);
        self.node_cnt = self.node_cnt.wrapping_add(rhs.node_cnt);
    }
}

impl core::ops::SubAssign for Size {
    /// Field-wise subtraction in place: degree from degree, node count from
    /// node count. A difference below zero wraps around.
    fn sub_assign(&mut self, rhs: Size)
        ensures
            *final(self) == Size::wrap(old(self).minus(rhs)),
    {
        self.degree = self.degree.wrapping_sub(rhs.degree);
        self.node_cnt = self.node_cnt.wrapping_sub(rhs.node_cnt);
    }
}

} // verus!
