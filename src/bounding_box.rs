use vstd::prelude::*;

use crate::points::ColorPoint;

verus! {

/// An inclusive box of the RGB cube: `[lr, ur] x [lg, ug] x [lb, ub]`.
#[derive(Clone, Copy, Debug, PartialEq, Eq, Structural)]
pub struct BoundingBox {
    pub lr: i32,
    pub lg: i32,
    pub lb: i32,
    pub ur: i32,
    pub ug: i32,
    pub ub: i32,
}

/// Whether an octant index selects the upper red half.
pub open spec fn red_up(index: usize) -> bool {
    index & 4 != 0
}

/// Whether an octant index selects the upper green half.
pub open spec fn green_up(index: usize) -> bool {
    index & 2 != 0
}

/// Whether an octant index selects the upper blue half.
pub open spec fn blue_up(index: usize) -> bool {
    index & 1 != 0
}

/// The largest radius for which a box around any color fits in `i32`.
pub const MAX_RADIUS: i32 = 2147483392;

impl BoundingBox {
    pub open spec fn spec_intersects(self, o: BoundingBox) -> bool {
        !(self.ur < o.lr || o.ur < self.lr || self.ug < o.lg || o.ug < self.lg || self.ub < o.lb
            || o.ub < self.lb)
    }

    pub open spec fn spec_contains(self, o: BoundingBox) -> bool {
        o.ur <= self.ur && o.lr >= self.lr && o.ug <= self.ug && o.lg >= self.lg && o.ub
            <= self.ub && o.lb >= self.lb
    }

    pub open spec fn spec_contains_color(self, c: ColorPoint) -> bool {
        self.lr <= c.r <= self.ur && self.lg <= c.g <= self.ug && self.lb <= c.b <= self.ub
    }

    /// The cube of half-width `radius` centered on `c`.
    pub open spec fn around(c: ColorPoint, radius: int) -> BoundingBox {
        BoundingBox {
            lr: (c.r - radius) as i32,
            ur: (c.r + radius) as i32,
            lg: (c.g - radius) as i32,
            ug: (c.g + radius) as i32,
            lb: (c.b - radius) as i32,
            ub: (c.b + radius) as i32,
        }
    }

    /// The octant of this box selected by `index`, for a box of width `2 * radius`.
    pub open spec fn sub_box(self, index: usize, radius: int) -> BoundingBox {
        let rp = red_up(index);
        let gp = green_up(index);
        let bp = blue_up(index);
        BoundingBox {
            lr: if rp { (self.lr + radius) as i32 } else { self.lr },
            ur: if !rp { (self.ur - radius) as i32 } else { self.ur },
            lg: if gp { (self.lg + radius) as i32 } else { self.lg },
            ug: if !gp { (self.ug - radius) as i32 } else { self.ug },
            lb: if bp { (self.lb + radius) as i32 } else { self.lb },
            ub: if !bp { (self.ub - radius) as i32 } else { self.ub },
        }
    }

    /// Shrinking or growing every side of the box by `radius` stays within `i32`.
    pub open spec fn can_split(self, radius: int) -> bool {
        &&& self.lr + radius <= i32::MAX
        &&& self.lg + radius <= i32::MAX
        &&& self.lb + radius <= i32::MAX
        &&& self.ur - radius >= i32::MIN
        &&& self.ug - radius >= i32::MIN
        &&& self.ub - radius >= i32::MIN
    }

    pub fn new(lr: i32, lg: i32, lb: i32, ur: i32, ug: i32, ub: i32) -> (r: BoundingBox)
        ensures
            r == (BoundingBox { lr, lg, lb, ur, ug, ub }),
    {
        BoundingBox { lr, lg, lb, ur, ug, ub }
    }

    pub fn intersects(&self, other: &BoundingBox) -> (r: bool)
        ensures
            r == self.spec_intersects(*other),
    {
        !(self.ur < other.lr || other.ur < self.lr || self.ug < other.lg || other.ug < self.lg
            || self.ub < other.lb || other.ub < self.lb)
    }

    pub fn contains(&self, other: &BoundingBox) -> (r: bool)
        ensures
            r == self.spec_contains(*other),
    {
        other.ur <= self.ur && other.lr >= self.lr && other.ug <= self.ug && other.lg >= self.lg
            && other.ub <= self.ub && other.lb >= self.lb
    }

    pub fn contains_color(&self, color: &ColorPoint) -> (r: bool)
        ensures
            r == self.spec_contains_color(*color),
    {
        color.r as i32 >= self.lr && color.r as i32 <= self.ur && color.g as i32 >= self.lg
            && color.g as i32 <= self.ug && color.b as i32 >= self.lb && color.b as i32 <= self.ub
    }

    /// Makes this box the cube of half-width `radius` around `center`.
    pub fn set_around(&mut self, center: &ColorPoint, radius: i32)
        requires
            0 < radius <= MAX_RADIUS,
        ensures
            *final(self) == BoundingBox::around(*center, radius as int),
    {
        self.lr = center.r as i32 - radius;
        self.ur = center.r as i32 + radius;
        self.lg = center.g as i32 - radius;
        self.ug = center.g as i32 + radius;
        self.lb = center.b as i32 - radius;
        self.ub = center.b as i32 + radius;
    }

    /// Constructs a box around the given center with the given radius.
    pub fn from_around(center: &ColorPoint, radius: i32) -> (r: BoundingBox)
        requires
            0 < radius <= MAX_RADIUS,
        ensures
            r == BoundingBox::around(*center, radius as int),
    {
        let mut bb = BoundingBox::new(0, 0, 0, 0, 0, 0);
        bb.set_around(center, radius);
        bb
    }

    /// Constructs the child of this box for an octree index: bit 2 of `index` picks the
    /// upper red half, bit 1 the upper green half, bit 0 the upper blue half.
    pub fn sub_for_idx(&self, index: usize, radius: i32) -> (r: BoundingBox)
        requires
            index < 8,
            radius > 0,
            self.can_split(radius as int),
        ensures
            r == self.sub_box(index, radius as int),
    {
        let rp = index & 4 != 0;
        let gp = index & 2 != 0;
        let bp = index & 1 != 0;
        let lr = if rp { self.lr + radius } else { self.lr };
        let ur = if !rp { self.ur - radius } else { self.ur };
        let lg = if gp { self.lg + radius } else { self.lg };
        let ug = if !gp { self.ug - radius } else { self.ug };
        let lb = if bp { self.lb + radius } else { self.lb };
        let ub = if !bp { self.ub - radius } else { self.ub };
        BoundingBox { lr, lg, lb, ur, ug, ub }
    }
}

/// A box built around a color contains that color.
pub proof fn lemma_around_contains_center(c: ColorPoint, radius: int)
    requires
        0 < radius <= MAX_RADIUS,
    ensures
        BoundingBox::around(c, radius).spec_contains_color(c),
{
}

/// Intersection of boxes is symmetric.
pub proof fn lemma_intersects_symmetric(a: BoundingBox, b: BoundingBox)
    ensures
        a.spec_intersects(b) == b.spec_intersects(a),
{
}

} // verus!
