use vstd::multiset::Multiset;
use vstd::prelude::*;

use crate::points::{beats, ColorPoint, Point, SpacePoint};

verus! {

/// A nearest-color index over frontier points.
pub trait NnSearch3d: Sized {
    /// The points stored in the index, with multiplicity.
    spec fn stored(&self) -> Multiset<Point>;

    /// The index is in a consistent state.
    spec fn valid(&self) -> bool;

    fn add(&mut self, point: Point, spare_vectors: &mut Vec<Vec<Point>>)
        requires
            old(self).valid(),
            old(self).stored().len() < usize::MAX,
        ensures
            final(self).valid(),
            final(self).stored() == old(self).stored().insert(point),
    ;

    fn add_sync(&mut self, point: Point, spare_vectors: &mut Vec<Vec<Point>>)
        requires
            old(self).valid(),
            old(self).stored().len() < usize::MAX,
        ensures
            final(self).valid(),
            final(self).stored() == old(self).stored().insert(point),
    ;

    /// Removes one instance of `point`, if there is one.
    fn remove(&mut self, point: Point, spare_vectors: &mut Vec<Vec<Point>>)
        requires
            old(self).valid(),
        ensures
            final(self).valid(),
            final(self).stored() == old(self).stored().remove(point),
    ;

    fn remove_sync(&mut self, point: Point, spare_vectors: &mut Vec<Vec<Point>>)
        requires
            old(self).valid(),
        ensures
            final(self).valid(),
            final(self).stored() == old(self).stored().remove(point),
    ;

    /// A stored point whose color is nearest to `pt`, or `None` when nothing is stored.
    /// Among equally near points it is the least in `point_lt` order, so the result is
    /// a function of the stored points and `pt`.
    fn find_nearest(&self, pt: &ColorPoint) -> (r: Option<Point>)
        requires
            self.valid(),
        ensures
            r is None <==> self.stored().len() == 0,
            r matches Some(p) ==> self.stored().count(p) > 0 && forall|q: Point|
                #[trigger] self.stored().count(q) > 0 ==> !beats(q, p, *pt),
    ;

    /// Whether some stored point has the position `pt`.
    fn has(&self, pt: &SpacePoint) -> (r: bool)
        requires
            self.valid(),
        ensures
            r == exists|p: Point| self.stored().count(p) > 0 && p.space == *pt,
    ;

    fn has_point(&self, pt: &Point) -> (r: bool)
        requires
            self.valid(),
        ensures
            r == (self.stored().count(*pt) > 0),
    ;

    fn len(&self) -> (r: usize)
        requires
            self.valid(),
        ensures
            r == self.stored().len(),
    ;

    fn is_empty(&self) -> (r: bool)
        requires
            self.valid(),
        ensures
            r == (self.stored().len() == 0),
    ;
}

/// At most one stored point can be the result of a nearest-color search: no stored
/// point beats it, so two searches for the same color on the same points agree.
pub proof fn lemma_nearest_unique(stored: Multiset<Point>, c: ColorPoint, a: Point, b: Point)
    requires
        stored.count(a) > 0,
        stored.count(b) > 0,
        forall|q: Point| #[trigger] stored.count(q) > 0 ==> !beats(q, a, c),
        forall|q: Point| #[trigger] stored.count(q) > 0 ==> !beats(q, b, c),
    ensures
        a == b,
{
    assert(!beats(a, b, c));
    assert(!beats(b, a, c));
}

} // verus!
