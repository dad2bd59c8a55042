use vstd::multiset::Multiset;
use vstd::arithmetic::div_mod::lemma_fundamental_div_mod_converse;
use vstd::prelude::*;

use integer_sqrt::IntegerSquareRoot;

use crate::bounding_box::BoundingBox;
use crate::nn_search_3d::NnSearch3d;
use crate::points::{beats, dist2, point_lt, ColorPoint, Point, SpacePoint};

verus! {

broadcast use vstd::multiset::lemma_multiset_empty_len;

/// A fixed-depth octree over the RGB cube. Inner nodes split their cube in eight
/// octants; leaves hold the points whose colors fall in their cube.
pub enum OctreeLeafy {
    Node { children: Vec<OctreeLeafy>, bounds: BoundingBox, depth: usize, total_points: usize },
    Leaf { points: Vec<Point>, bounds: BoundingBox, total_points: usize },
}

/// Half the side of a node's cube at `depth`.
pub open spec fn spec_radius(depth: int) -> int {
    if depth == 0 {
        128
    } else if depth == 1 {
        64
    } else if depth == 2 {
        32
    } else if depth == 3 {
        16
    } else if depth == 4 {
        8
    } else if depth == 5 {
        4
    } else if depth == 6 {
        2
    } else if depth == 7 {
        1
    } else {
        0
    }
}

/// The whole RGB cube.
pub open spec fn color_cube() -> BoundingBox {
    BoundingBox { lr: 0, lg: 0, lb: 0, ur: 255, ug: 255, ub: 255 }
}

pub open spec fn within_cube(b: BoundingBox) -> bool {
    &&& 0 <= b.lr <= b.ur <= 255
    &&& 0 <= b.lg <= b.ug <= 255
    &&& 0 <= b.lb <= b.ub <= 255
}

/// Every side of the box holds exactly `w` values.
pub open spec fn has_width(b: BoundingBox, w: int) -> bool {
    &&& b.ur - b.lr == w - 1
    &&& b.ug - b.lg == w - 1
    &&& b.ub - b.lb == w - 1
}

/// The low corner of the box is a multiple of `m` on every channel.
pub open spec fn aligned(b: BoundingBox, m: int) -> bool {
    &&& (b.lr as int) % m == 0
    &&& (b.lg as int) % m == 0
    &&& (b.lb as int) % m == 0
}

/// Bit `7 - depth` of a channel value.
pub open spec fn channel_bit(v: u8, depth: usize) -> u32 {
    ((v as u32) >> ((7 - depth) as u32)) & 1u32
}

/// The octant of a node at `depth` that holds `c`: bit 2 from red, bit 1 from green,
/// bit 0 from blue, each the channel's bit `7 - depth`.
pub open spec fn octant_of(c: ColorPoint, depth: usize) -> int {
    4 * channel_bit(c.r, depth) + 2 * channel_bit(c.g, depth) + channel_bit(c.b, depth)
}

/// The state of a nearest-color search: the best point so far, its squared
/// distance, and a box outside of which no color can beat it.
struct NearestSearch {
    nearest: Point,
    nearest_dist: i32,
    bounds: BoundingBox,
}

/// `s` is a sound search state for the target color `c`.
spec fn search_ok(s: NearestSearch, c: ColorPoint) -> bool {
    &&& s.nearest_dist == dist2(s.nearest.color, c)
    &&& forall|q: ColorPoint| #[trigger] dist2(q, c) <= s.nearest_dist ==> s.bounds.spec_contains_color(q)
    &&& s.nearest_dist > 0 ==> box_of_distance(s.bounds, c, s.nearest_dist as int)
}

/// `b` is the cube around `c` whose half-width is the integer square root of `d`.
spec fn box_of_distance(b: BoundingBox, c: ColorPoint, d: int) -> bool {
    exists|r: int| 1 <= r && r * r <= d < (r + 1) * (r + 1) && b == #[trigger] BoundingBox::around(c, r)
}

/// Relies on integer_sqrt's `IntegerSquareRoot::integer_sqrt`: the floor of the square
/// root of a non-negative integer (it panics on negative input).
#[verifier::external_body]
fn isqrt(n: i32) -> (r: i32)
    requires
        n >= 0,
    ensures
        r >= 0,
        r * r <= n < (r + 1) * (r + 1),
{
    n.integer_sqrt()
}

impl OctreeLeafy {
    pub open spec fn spec_bounds(self) -> BoundingBox {
        match self {
            OctreeLeafy::Node { bounds, .. } => bounds,
            OctreeLeafy::Leaf { bounds, .. } => bounds,
        }
    }

    pub open spec fn spec_total(self) -> usize {
        match self {
            OctreeLeafy::Node { total_points, .. } => total_points,
            OctreeLeafy::Leaf { total_points, .. } => total_points,
        }
    }

    /// The depth of an inner node; leaves count as the deepest level.
    pub open spec fn level(self) -> int {
        match self {
            OctreeLeafy::Node { depth, .. } => depth as int,
            OctreeLeafy::Leaf { .. } => 7,
        }
    }

    /// The points stored below this node, with multiplicity.
    pub open spec fn contents(self) -> Multiset<Point>
        decreases self,
    {
        match self {
            OctreeLeafy::Leaf { points, .. } => points@.to_multiset(),
            OctreeLeafy::Node { children, .. } => {
                if children.len() == 8 {
                    children[0].contents().add(children[1].contents()).add(
                        children[2].contents(),
                    ).add(children[3].contents()).add(children[4].contents()).add(
                        children[5].contents(),
                    ).add(children[6].contents()).add(children[7].contents())
                } else {
                    Multiset::empty()
                }
            }
        }
    }

    /// Every path from this node down to a leaf has `d` steps.
    pub open spec fn has_depth(self, d: int) -> bool
        decreases self,
    {
        match self {
            OctreeLeafy::Leaf { .. } => d == 0,
            OctreeLeafy::Node { children, .. } => {
                &&& d > 0
                &&& children.len() == 8
                &&& children[0].has_depth(d - 1)
                &&& children[1].has_depth(d - 1)
                &&& children[2].has_depth(d - 1)
                &&& children[3].has_depth(d - 1)
                &&& children[4].has_depth(d - 1)
                &&& children[5].has_depth(d - 1)
                &&& children[6].has_depth(d - 1)
                &&& children[7].has_depth(d - 1)
            },
        }
    }

    /// Child `k` of a node sits where the octree layout puts it.
    pub open spec fn child_placed(self, k: int) -> bool {
        match self {
            OctreeLeafy::Node { children, bounds, depth, .. } => {
                &&& children[k].spec_bounds() == bounds.sub_box(k as usize, spec_radius(depth as int))
                &&& children[k].level() > depth
                &&& (children[k] is Node ==> children[k].level() == depth + 1)
            },
            OctreeLeafy::Leaf { .. } => true,
        }
    }

    /// Structural invariant: counts match the stored points, every point lies in its
    /// node's cube, and children split their parent's cube into octants.
    pub open spec fn wf(self) -> bool
        decreases self,
    {
        match self {
            OctreeLeafy::Leaf { points, bounds, total_points } => {
                &&& total_points == points.len()
                &&& within_cube(bounds)
                &&& forall|i: int|
                    0 <= i < points.len() ==> bounds.spec_contains_color(#[trigger] points[i].color)
            },
            OctreeLeafy::Node { children, bounds, depth, total_points } => {
                &&& children.len() == 8
                &&& depth < 7
                &&& within_cube(bounds)
                &&& has_width(bounds, 2 * spec_radius(depth as int))
                &&& aligned(bounds, 2 * spec_radius(depth as int))
                &&& total_points == self.contents().len()
                &&& children[0].wf()
                &&& children[1].wf()
                &&& children[2].wf()
                &&& children[3].wf()
                &&& children[4].wf()
                &&& children[5].wf()
                &&& children[6].wf()
                &&& children[7].wf()
                &&& forall|k: int| 0 <= k < 8 ==> #[trigger] self.child_placed(k)
            },
        }
    }

    /// Half the side of a node's cube at `depth`.
    pub fn radius(depth: usize) -> (r: i32)
        requires
            depth < 8,
        ensures
            r == spec_radius(depth as int),
    {
        let d = depth as u32;
        assert(d < 8 ==> ((d == 0 ==> 128u32 >> d == 128u32) && (d == 1 ==> 128u32 >> d == 64u32)
            && (d == 2 ==> 128u32 >> d == 32u32) && (d == 3 ==> 128u32 >> d == 16u32) && (d == 4
            ==> 128u32 >> d == 8u32) && (d == 5 ==> 128u32 >> d == 4u32) && (d == 6 ==> 128u32 >> d
            == 2u32) && (d == 7 ==> 128u32 >> d == 1u32))) by (bit_vector);
        (128u32 >> d) as i32
    }

    /// Builds a tree of the given depth over the whole RGB cube, with no points.
    pub fn init_tree(depth: usize) -> (r: OctreeLeafy)
        requires
            0 < depth < 8,
        ensures
            r.valid(),
            r.contents() == Multiset::<Point>::empty(),
            r is Node,
            r.has_depth(depth as int),
    {
        Self::init_node(0, depth, BoundingBox::new(0, 0, 0, 255, 255, 255))
    }

    fn init_node(depth: usize, remaining_depth: usize, bounding_box: BoundingBox) -> (r: OctreeLeafy)
        requires
            depth + remaining_depth <= 7,
            within_cube(bounding_box),
            remaining_depth > 0 ==> has_width(bounding_box, 2 * spec_radius(depth as int)),
            remaining_depth > 0 ==> aligned(bounding_box, 2 * spec_radius(depth as int)),
        ensures
            r.wf(),
            r.contents() == Multiset::<Point>::empty(),
            r.spec_bounds() == bounding_box,
            remaining_depth > 0 ==> r is Node && r.level() == depth,
            remaining_depth == 0 ==> r is Leaf,
            r.has_depth(remaining_depth as int),
        decreases remaining_depth,
    {
        if remaining_depth == 0 {
            let points: Vec<Point> = Vec::new();
            proof {
                lemma_to_multiset(points@);
                assert(points@ =~= Seq::<Point>::empty());
                assert(points@.to_multiset().len() == 0);
            }
            OctreeLeafy::Leaf { points, bounds: bounding_box, total_points: 0 }
        } else {
            let sub_radius = Self::radius(depth);
            let mut children: Vec<OctreeLeafy> = Vec::new();
            let mut k: usize = 0;
            while k < 8
                invariant
                    k <= 8,
                    children.len() == k,
                    depth + remaining_depth <= 7,
                    remaining_depth > 0,
                    within_cube(bounding_box),
                    has_width(bounding_box, 2 * spec_radius(depth as int)),
                    aligned(bounding_box, 2 * spec_radius(depth as int)),
                    sub_radius == spec_radius(depth as int),
                    forall|j: int|
                        0 <= j < k ==> {
                            &&& (#[trigger] children[j]).wf()
                            &&& children[j].contents() == Multiset::<Point>::empty()
                            &&& children[j].spec_bounds() == bounding_box.sub_box(
                                j as usize,
                                spec_radius(depth as int),
                            )
                            &&& children[j].level() > depth
                            &&& (children[j] is Node ==> children[j].level() == depth + 1)
                            &&& children[j].has_depth(remaining_depth - 1)
                        },
                decreases 8 - k,
            {
                let sub = bounding_box.sub_for_idx(k, sub_radius);
                proof {
                    lemma_sub_aligned(bounding_box, depth as int, k);
                }
                let child = Self::init_node(depth + 1, remaining_depth - 1, sub);
                children.push(child);
                k += 1;
            }
            let r = OctreeLeafy::Node {
                children,
                bounds: bounding_box,
                depth,
                total_points: 0,
            };
            proof {
                assert(r.contents() =~= Multiset::<Point>::empty());
                assert forall|k: int| 0 <= k < 8 implies #[trigger] r.child_placed(k) by {}
            }
            r
        }
    }
}


/// How the multiset of a sequence of points relates to the sequence.
proof fn lemma_to_multiset(s: Seq<Point>)
    ensures
        s.to_multiset().len() == s.len(),
        forall|p: Point| #[trigger] s.to_multiset().count(p) > 0 <==> s.contains(p),
        forall|a: Point| #[trigger] s.push(a).to_multiset() == s.to_multiset().insert(a),
        forall|i: int| 0 <= i < s.len() ==> #[trigger] s.remove(i).to_multiset() == s.to_multiset().remove(s[i]),
{
    broadcast use vstd::seq_lib::group_to_multiset_ensures;
    assert forall|a: Point| #[trigger] s.push(a).to_multiset() == s.to_multiset().insert(a) by {
        assert(s.push(a).to_multiset() =~= s.to_multiset().insert(a));
    }
    assert forall|i: int| 0 <= i < s.len() implies #[trigger] s.remove(i).to_multiset() == s.to_multiset().remove(s[i]) by {
        assert(s.remove(i).to_multiset() =~= s.to_multiset().remove(s[i]));
    }
}

proof fn lemma_channel_bound(x: int, rest: int, d: int, r: int)
    requires
        rest >= 0,
        x * x + rest <= d,
        d < (r + 1) * (r + 1),
        r >= 0,
    ensures
        -r <= x <= r,
{
    if x > r {
        assert(x * x >= (r + 1) * (r + 1)) by (nonlinear_arith)
            requires
                x >= r + 1,
                r >= 0,
        ;
    }
    if x < -r {
        assert(x * x >= (r + 1) * (r + 1)) by (nonlinear_arith)
            requires
                -x >= r + 1,
                r >= 0,
        ;
    }
}

/// With `r` the integer square root of `d`, every color within `sqrt(d)` of `c`
/// lies in the cube of half-width `r` around `c`.
proof fn lemma_ball_in_box(c: ColorPoint, d: int, r: int)
    requires
        r >= 1,
        r * r <= d,
        d < (r + 1) * (r + 1),
        d <= 195075,
    ensures
        r <= 442,
        forall|q: ColorPoint| #[trigger]
            dist2(q, c) <= d ==> BoundingBox::around(c, r).spec_contains_color(q),
{
    assert(r <= 442) by (nonlinear_arith)
        requires
            r >= 1,
            r * r <= d,
            d <= 195075,
    ;
    assert forall|q: ColorPoint| #[trigger]
        dist2(q, c) <= d implies BoundingBox::around(c, r).spec_contains_color(q) by {
        let x = q.r - c.r;
        let y = q.g - c.g;
        let z = q.b - c.b;
        assert(x * x >= 0 && y * y >= 0 && z * z >= 0) by (nonlinear_arith);
        lemma_channel_bound(x, y * y + z * z, d, r);
        lemma_channel_bound(y, x * x + z * z, d, r);
        lemma_channel_bound(z, x * x + y * y, d, r);
    }
}

proof fn lemma_multiple_halves(x: int, r: int)
    requires
        r > 0,
        x % (2 * r) == 0,
    ensures
        x % r == 0,
        (x + r) % r == 0,
{
    let m = 2 * r;
    vstd::arithmetic::div_mod::lemma_fundamental_div_mod(x, m);
    let q = x / m;
    assert(x == r * (2 * q)) by (nonlinear_arith)
        requires
            x == m * q + 0,
            m == 2 * r,
    ;
    lemma_fundamental_div_mod_converse(x, r, 2 * q, 0);
    assert(x + r == (2 * q + 1) * r) by (nonlinear_arith)
        requires
            x == r * (2 * q),
    ;
    lemma_fundamental_div_mod_converse(x + r, r, 2 * q + 1, 0);
}

/// The octants of an aligned box are aligned one level down.
proof fn lemma_sub_aligned(b: BoundingBox, d: int, k: usize)
    requires
        0 <= d < 7,
        within_cube(b),
        aligned(b, 2 * spec_radius(d)),
    ensures
        aligned(b.sub_box(k, spec_radius(d)), spec_radius(d)),
        d < 6 ==> spec_radius(d) == 2 * spec_radius(d + 1),
{
    let r = spec_radius(d);
    lemma_multiple_halves(b.lr as int, r);
    lemma_multiple_halves(b.lg as int, r);
    lemma_multiple_halves(b.lb as int, r);
}

/// Within an aligned cube of side `2 * rad(depth)`, a channel's bit `7 - depth` says
/// whether the value lies in the upper half.
proof fn lemma_channel_bit(v: u8, l: int, depth: usize)
    requires
        depth < 7,
        l % (2 * spec_radius(depth as int)) == 0,
        l <= v < l + 2 * spec_radius(depth as int),
    ensures
        (channel_bit(v, depth) == 1) == (v >= l + spec_radius(depth as int)),
        channel_bit(v, depth) <= 1,
{
    let m = 2 * spec_radius(depth as int);
    vstd::arithmetic::div_mod::lemma_fundamental_div_mod(l, m);
    assert(v == (l / m) * m + (v - l)) by (nonlinear_arith)
        requires
            l == m * (l / m) + l % m,
            l % m == 0,
    ;
    lemma_fundamental_div_mod_converse(v as int, m, l / m, v - l);
    let w = v as u32;
    assert(channel_bit(v, depth) <= 1) by (bit_vector)
        requires
            channel_bit(v, depth) == ((v as u32) >> ((7 - depth) as u32)) & 1u32,
    ;
    if depth == 0 {
        assert((((w >> 7u32) & 1u32) == 1u32) == (w % 256 >= 128)) by (bit_vector) requires w < 256u32;
    } else if depth == 1 {
        assert((((w >> 6u32) & 1u32) == 1u32) == (w % 128 >= 64)) by (bit_vector) requires w < 256u32;
    } else if depth == 2 {
        assert((((w >> 5u32) & 1u32) == 1u32) == (w % 64 >= 32)) by (bit_vector) requires w < 256u32;
    } else if depth == 3 {
        assert((((w >> 4u32) & 1u32) == 1u32) == (w % 32 >= 16)) by (bit_vector) requires w < 256u32;
    } else if depth == 4 {
        assert((((w >> 3u32) & 1u32) == 1u32) == (w % 16 >= 8)) by (bit_vector) requires w < 256u32;
    } else if depth == 5 {
        assert((((w >> 2u32) & 1u32) == 1u32) == (w % 8 >= 4)) by (bit_vector) requires w < 256u32;
    } else {
        assert((((w >> 1u32) & 1u32) == 1u32) == (w % 4 >= 2)) by (bit_vector) requires w < 256u32;
    }
}

/// Distinct octants of a box share no color.
proof fn lemma_octants_disjoint(b: BoundingBox, rad: int, j: usize, k: usize, c: ColorPoint)
    requires
        has_width(b, 2 * rad),
        rad > 0,
        j < 8,
        k < 8,
        j != k,
    ensures
        !(b.sub_box(j, rad).spec_contains_color(c) && b.sub_box(k, rad).spec_contains_color(c)),
{
    assert((j & 4 != 0) != (k & 4 != 0) || (j & 2 != 0) != (k & 2 != 0) || (j & 1 != 0) != (k
        & 1 != 0)) by (bit_vector)
        requires
            j < 8usize,
            k < 8usize,
            j != k,
    ;
}

/// Every point stored in a well-formed tree has its color in the tree's cube.
#[verifier::rlimit(40)]
pub proof fn lemma_stored_in_bounds(t: OctreeLeafy, p: Point)
    requires
        t.wf(),
        t.contents().count(p) > 0,
    ensures
        t.spec_bounds().spec_contains_color(p.color),
        within_cube(t.spec_bounds()),
    decreases t,
{
    match t {
        OctreeLeafy::Leaf { points, .. } => {
            lemma_to_multiset(points@);
            assert(points@.contains(p));
            let i = choose|i: int| 0 <= i < points.len() && points@[i] == p;
            assert(points[i].color == p.color);
        },
        OctreeLeafy::Node { children, bounds, depth, .. } => {
            assert(t.contents().count(p) == children[0].contents().count(p) + children[1].contents().count(p)
                + children[2].contents().count(p) + children[3].contents().count(p)
                + children[4].contents().count(p) + children[5].contents().count(p)
                + children[6].contents().count(p) + children[7].contents().count(p));
            let k = choose|k: int| 0 <= k < 8 && #[trigger] children[k].contents().count(p) > 0;
            lemma_child(t, k);
            lemma_stored_in_bounds(children[k], p);
        },
    }
}

/// A stored point lies in the one child whose octant holds its color.
proof fn lemma_only_child(t: OctreeLeafy, k: int, p: Point)
    requires
        t.wf(),
        t is Node,
        0 <= k < 8,
        t->Node_children[k].spec_bounds().spec_contains_color(p.color),
    ensures
        t.contents().count(p) == t->Node_children[k].contents().count(p),
{
    let children = t->Node_children;
    let rad = spec_radius(t->Node_depth as int);
    assert forall|j: int| 0 <= j < 8 && j != k implies #[trigger] children[j].contents().count(p)
        == 0 by {
        if children[j].contents().count(p) > 0 {
            lemma_child(t, j);
            lemma_child(t, k);
            lemma_stored_in_bounds(children[j], p);
            lemma_octants_disjoint(t->Node_bounds, rad, j as usize, k as usize, p.color);
        }
    }
    lemma_count_sum(t, p);
    if k == 0 {
    } else if k == 1 {
    } else if k == 2 {
    } else if k == 3 {
    } else if k == 4 {
    } else if k == 5 {
    } else if k == 6 {
    } else {
    }
}

/// The multiplicity of a point in a node is the sum over its children.
proof fn lemma_count_sum(t: OctreeLeafy, p: Point)
    requires
        t.wf(),
        t is Node,
    ensures
        t.contents().count(p) == t->Node_children[0].contents().count(p)
            + t->Node_children[1].contents().count(p) + t->Node_children[2].contents().count(p)
            + t->Node_children[3].contents().count(p) + t->Node_children[4].contents().count(p)
            + t->Node_children[5].contents().count(p) + t->Node_children[6].contents().count(p)
            + t->Node_children[7].contents().count(p),
        forall|k: int| 0 <= k < 8 ==> #[trigger] t->Node_children[k].contents().count(p) <= t.contents().count(p),
{
}

/// Each child of a well-formed node is well formed and placed at its octant.
proof fn lemma_child(t: OctreeLeafy, k: int)
    requires
        t.wf(),
        t is Node,
        0 <= k < 8,
    ensures
        t->Node_children[k].wf(),
        t.child_placed(k),
{
    if k == 0 {
    } else if k == 1 {
    } else if k == 2 {
    } else if k == 3 {
    } else if k == 4 {
    } else if k == 5 {
    } else if k == 6 {
    } else {
    }
}

impl OctreeLeafy {
    /// Which child of a node at `depth` with cube `bounds` holds `color`.
    fn addr(bounds: &BoundingBox, depth: usize, color: &ColorPoint) -> (k: usize)
        requires
            depth < 7,
            has_width(*bounds, 2 * spec_radius(depth as int)),
            aligned(*bounds, 2 * spec_radius(depth as int)),
            bounds.spec_contains_color(*color),
        ensures
            k < 8,
            k == octant_of(*color, depth),
            bounds.sub_box(k, spec_radius(depth as int)).spec_contains_color(*color),
    {
        proof {
            lemma_channel_bit(color.r, bounds.lr as int, depth);
            lemma_channel_bit(color.g, bounds.lg as int, depth);
            lemma_channel_bit(color.b, bounds.lb as int, depth);
        }
        let rad = Self::radius(depth);
        let rk: usize = if color.r as i32 >= bounds.lr + rad { 4 } else { 0 };
        let gk: usize = if color.g as i32 >= bounds.lg + rad { 2 } else { 0 };
        let bk: usize = if color.b as i32 >= bounds.lb + rad { 1 } else { 0 };
        assert(((rk | gk | bk) < 8) && (rk | gk | bk) == rk + gk + bk && (((rk | gk | bk) & 4 != 0) == (rk == 4)) && (((rk | gk | bk)
            & 2 != 0) == (gk == 2)) && (((rk | gk | bk) & 1 != 0) == (bk == 1))) by (bit_vector)
            requires
                rk == 0usize || rk == 4usize,
                gk == 0usize || gk == 2usize,
                bk == 0usize || bk == 1usize,
        ;
        rk | gk | bk
    }

    /// The child whose octant holds `color`, or `None` at a leaf.
    pub fn child_for(&self, color: &ColorPoint) -> (r: Option<&OctreeLeafy>)
        requires
            self.wf(),
            self.spec_bounds().spec_contains_color(*color),
        ensures
            (self is Leaf) <==> (r is None),
            r matches Some(c) ==> {
                &&& c.wf()
                &&& c.spec_bounds().spec_contains_color(*color)
                &&& c.level() > self.level()
                &&& forall|p: Point| #[trigger]
                    c.contents().count(p) > 0 ==> self.contents().count(p) > 0
                &&& forall|p: Point|
                    p.color == *color ==> #[trigger] c.contents().count(p) == self.contents().count(
                        p,
                    )
            },
    {
        match self {
            OctreeLeafy::Node { children, bounds, depth, .. } => {
                let k = Self::addr(bounds, *depth, color);
                proof {
                    lemma_child(*self, k as int);
                    assert forall|p: Point| #[trigger]
                        children[k as int].contents().count(p) > 0 implies self.contents().count(p)
                        > 0 by {
                        assert(self.contents().count(p) >= children[k as int].contents().count(p));
                    }
                    assert forall|p: Point| p.color == *color implies #[trigger] children[k as int].contents().count(p)
                        == self.contents().count(p) by {
                        lemma_only_child(*self, k as int, p);
                    }
                }
                Some(&children[k])
            },
            OctreeLeafy::Leaf { .. } => None,
        }
    }

    fn intersects(&self, bounds: &BoundingBox) -> (r: bool)
        ensures
            r == self.spec_bounds().spec_intersects(*bounds),
    {
        match self {
            OctreeLeafy::Node { bounds: node_bounds, .. } => node_bounds.intersects(bounds),
            OctreeLeafy::Leaf { bounds: leaf_bounds, .. } => leaf_bounds.intersects(bounds),
        }
    }

    fn total(&self) -> (r: usize)
        requires
            self.wf(),
        ensures
            r == self.contents().len(),
    {
        match self {
            OctreeLeafy::Node { total_points, .. } => *total_points,
            OctreeLeafy::Leaf { total_points, points, .. } => {
                proof {
                    lemma_to_multiset(points@);
                }
                *total_points
            },
        }
    }

    /// Some point stored below this node, if there is any.
    #[verifier::loop_isolation(false)]
    fn first_point(&self) -> (r: Option<Point>)
        requires
            self.wf(),
        ensures
            (r is None) <==> self.contents().len() == 0,
            r matches Some(p) ==> self.contents().count(p) > 0,
        decreases 7 - self.level(),
    {
        if self.total() == 0 {
            return None;
        }
        match self {
            OctreeLeafy::Node { children, .. } => {
                let mut k: usize = 0;
                while k < 8
                    invariant
                        k <= 8,
                        forall|j: int| 0 <= j < k ==> #[trigger] children[j].contents().len() == 0,
                    decreases 8 - k,
                {
                    proof {
                        lemma_child(*self, k as int);
                    }
                    let found = children[k].first_point();
                    if let Some(p) = found {
                        assert(self.contents().count(p) >= children[k as int].contents().count(p));
                        return Some(p);
                    }
                    k += 1;
                }
                assert(self.contents().len() == children[0].contents().len() + children[1].contents().len()
                    + children[2].contents().len() + children[3].contents().len()
                    + children[4].contents().len() + children[5].contents().len()
                    + children[6].contents().len() + children[7].contents().len());
                None
            },
            OctreeLeafy::Leaf { points, .. } => {
                proof {
                    lemma_to_multiset(points@);
                }
                let p = points[0];
                assert(points@.contains(p));
                Some(p)
            },
        }
    }

    #[verifier::loop_isolation(false)]
    fn find_nearest_inner(&self, pt: &ColorPoint, search: &mut NearestSearch)
        requires
            self.wf(),
            search_ok(*old(search), *pt),
        ensures
            search_ok(*final(search), *pt),
            !beats(old(search).nearest, final(search).nearest, *pt),
            final(search).nearest == old(search).nearest || self.contents().count(
                final(search).nearest,
            ) > 0,
            forall|p: Point| #[trigger]
                self.contents().count(p) > 0 ==> !beats(p, final(search).nearest, *pt),
        decreases 7 - self.level(),
    {
        match self {
            OctreeLeafy::Node { children, .. } => {
                let mut k: usize = 0;
                while k < 8
                    invariant
                        k <= 8,
                        search_ok(*search, *pt),
                        !beats(old(search).nearest, search.nearest, *pt),
                        search.nearest == old(search).nearest || self.contents().count(
                            search.nearest,
                        ) > 0,
                        forall|j: int, p: Point|
                            0 <= j < k && #[trigger] children[j].contents().count(p) > 0 ==> !beats(
                                p,
                                search.nearest,
                                *pt,
                            ),
                    decreases 8 - k,
                {
                    let child = &children[k];
                    proof {
                        lemma_child(*self, k as int);
                    }
                    if child.total() == 0 || !child.intersects(&search.bounds) {
                        assert forall|p: Point| #[trigger]
                            child.contents().count(p) > 0 implies !beats(p, search.nearest, *pt) by {
                            lemma_stored_in_bounds(*child, p);
                            if dist2(p.color, *pt) <= search.nearest_dist {
                                assert(search.bounds.spec_contains_color(p.color));
                            }
                        }
                    } else {
                        child.find_nearest_inner(pt, search);
                        assert(self.contents().count(search.nearest) >= child.contents().count(search.nearest));
                    }
                    k += 1;
                }
                assert forall|p: Point| #[trigger]
                    self.contents().count(p) > 0 implies !beats(p, search.nearest, *pt) by {
                    assert(self.contents().count(p) == children[0].contents().count(p)
                        + children[1].contents().count(p) + children[2].contents().count(p)
                        + children[3].contents().count(p) + children[4].contents().count(p)
                        + children[5].contents().count(p) + children[6].contents().count(p)
                        + children[7].contents().count(p));
                    let j = choose|j: int| 0 <= j < 8 && #[trigger] children[j].contents().count(p) > 0;
                }
            },
            OctreeLeafy::Leaf { points, .. } => {
                proof {
                    lemma_to_multiset(points@);
                }
                let mut i: usize = 0;
                while i < points.len()
                    invariant
                        i <= points.len(),
                        search_ok(*search, *pt),
                        !beats(old(search).nearest, search.nearest, *pt),
                        search.nearest == old(search).nearest || points@.contains(search.nearest),
                        forall|j: int| 0 <= j < i ==> !beats(#[trigger] points[j], search.nearest, *pt),
                    decreases points.len() - i,
                {
                    let point = points[i];
                    if !search.bounds.contains_color(&point.color) {
                        assert(dist2(point.color, *pt) > search.nearest_dist);
                        i += 1;
                        continue;
                    }
                    let dist = point.color.distance_to(pt);
                    if dist < search.nearest_dist || (dist == search.nearest_dist && precedes(
                        &point,
                        &search.nearest,
                    )) {
                        if dist > 0 && dist < search.nearest_dist {
                            let r = isqrt(dist);
                            assert(r >= 1) by (nonlinear_arith)
                                requires
                                    r >= 0,
                                    dist >= 1,
                                    dist < (r + 1) * (r + 1),
                            ;
                            proof {
                                lemma_ball_in_box(*pt, dist as int, r as int);
                            }
                            search.bounds.set_around(pt, r);
                            assert(box_of_distance(search.bounds, *pt, dist as int)) by {
                                assert(search.bounds == BoundingBox::around(*pt, r as int));
                            }
                        }
                        search.nearest = point;
                        search.nearest_dist = dist;
                        assert(points@.contains(point));
                    }
                    i += 1;
                }
                assert forall|p: Point| #[trigger]
                    self.contents().count(p) > 0 implies !beats(p, search.nearest, *pt) by {
                    assert(points@.contains(p));
                    let j = choose|j: int| 0 <= j < points.len() && points@[j] == p;
                    assert(points[j] == p);
                }
            },
        }
    }
}

/// Whether `a` comes before `b` in the order that breaks ties between equally near
/// points.
fn precedes(a: &Point, b: &Point) -> (r: bool)
    ensures
        r == point_lt(*a, *b),
{
    a.space.0 < b.space.0 || (a.space.0 == b.space.0 && (a.color.r < b.color.r || (a.color.r
        == b.color.r && (a.color.g < b.color.g || (a.color.g == b.color.g && a.color.b
        < b.color.b)))))
}

/// Replacing one child of a well-formed node by a well-formed child over the same
/// octant, with the count adjusted by the change in size, gives a well-formed node
/// whose contents change as that child's did.
#[verifier::rlimit(100)]
#[verifier::spinoff_prover]
proof fn lemma_replace_child(t: OctreeLeafy, u: OctreeLeafy, k: int)
    requires
        t.wf(),
        t is Node,
        u is Node,
        0 <= k < 8,
        u->Node_children.len() == 8,
        u->Node_bounds == t->Node_bounds,
        u->Node_depth == t->Node_depth,
        forall|j: int| 0 <= j < 8 && j != k ==> u->Node_children[j] == t->Node_children[j],
        u->Node_children[k].wf(),
        u->Node_children[k].spec_bounds() == t->Node_children[k].spec_bounds(),
        u->Node_children[k].level() == t->Node_children[k].level(),
        (u->Node_children[k] is Node) == (t->Node_children[k] is Node),
        u->Node_total_points + t->Node_children[k].contents().len() == t->Node_total_points
            + u->Node_children[k].contents().len(),
    ensures
        u.wf(),
        forall|p: Point|
            #[trigger] u.contents().count(p) + t->Node_children[k].contents().count(p)
                == t.contents().count(p) + u->Node_children[k].contents().count(p),
{
    let tc = t->Node_children;
    let uc = u->Node_children;
    assert(tc[0].wf() && tc[1].wf() && tc[2].wf() && tc[3].wf() && tc[4].wf() && tc[5].wf()
        && tc[6].wf() && tc[7].wf());
    assert(uc[0].wf()) by { if k != 0 { assert(uc[0] == tc[0]); } }
    assert(uc[1].wf()) by { if k != 1 { assert(uc[1] == tc[1]); } }
    assert(uc[2].wf()) by { if k != 2 { assert(uc[2] == tc[2]); } }
    assert(uc[3].wf()) by { if k != 3 { assert(uc[3] == tc[3]); } }
    assert(uc[4].wf()) by { if k != 4 { assert(uc[4] == tc[4]); } }
    assert(uc[5].wf()) by { if k != 5 { assert(uc[5] == tc[5]); } }
    assert(uc[6].wf()) by { if k != 6 { assert(uc[6] == tc[6]); } }
    assert(uc[7].wf()) by { if k != 7 { assert(uc[7] == tc[7]); } }
    assert forall|j: int| 0 <= j < 8 implies #[trigger] u.child_placed(j) by {
        assert(t.child_placed(j));
        if j != k {
            assert(uc[j] == tc[j]);
        }
    }
    let tk = tc[k].contents();
    let uk = uc[k].contents();
    assert forall|p: Point|
        #[trigger] u.contents().count(p) + tk.count(p) == t.contents().count(p) + uk.count(p) by {
        assert(u.contents().count(p) == uc[0].contents().count(p) + uc[1].contents().count(p)
            + uc[2].contents().count(p) + uc[3].contents().count(p) + uc[4].contents().count(p)
            + uc[5].contents().count(p) + uc[6].contents().count(p) + uc[7].contents().count(p));
        assert(t.contents().count(p) == tc[0].contents().count(p) + tc[1].contents().count(p)
            + tc[2].contents().count(p) + tc[3].contents().count(p) + tc[4].contents().count(p)
            + tc[5].contents().count(p) + tc[6].contents().count(p) + tc[7].contents().count(p));
        if k == 0 {
        } else if k == 1 {
        } else if k == 2 {
        } else if k == 3 {
        } else if k == 4 {
        } else if k == 5 {
        } else if k == 6 {
        } else {
        }
    }
    assert(u.contents().len() + tk.len() == t.contents().len() + uk.len()) by {
        assert(u.contents().len() == uc[0].contents().len() + uc[1].contents().len()
            + uc[2].contents().len() + uc[3].contents().len() + uc[4].contents().len()
            + uc[5].contents().len() + uc[6].contents().len() + uc[7].contents().len());
        assert(t.contents().len() == tc[0].contents().len() + tc[1].contents().len()
            + tc[2].contents().len() + tc[3].contents().len() + tc[4].contents().len()
            + tc[5].contents().len() + tc[6].contents().len() + tc[7].contents().len());
        if k == 0 {
        } else if k == 1 {
        } else if k == 2 {
        } else if k == 3 {
        } else if k == 4 {
        } else if k == 5 {
        } else if k == 6 {
        } else {
        }
    }
}

/// Adding a point and then removing it leaves the stored multiset and its size as
/// they were, whether or not the point was stored before; a point that was absent is
/// absent again.
pub proof fn lemma_add_then_remove(before: Multiset<Point>, p: Point)
    ensures
        before.insert(p).remove(p) == before,
        before.insert(p).remove(p).len() == before.len(),
        before.insert(p).remove(p).count(p) == before.count(p),
{
    assert(before.insert(p).remove(p) =~= before);
}

impl OctreeLeafy {
    #[verifier::rlimit(100)]
    #[verifier::spinoff_prover]
    fn add_inner(&mut self, point: Point)
        requires
            old(self).wf(),
            old(self).spec_bounds().spec_contains_color(point.color),
            old(self).contents().len() < usize::MAX,
        ensures
            final(self).wf(),
            final(self).contents() == old(self).contents().insert(point),
            final(self).spec_bounds() == old(self).spec_bounds(),
            final(self).level() == old(self).level(),
            ((*final(self)) is Node) == ((*old(self)) is Node),
        decreases 7 - old(self).level(),
    {
        let ghost k_ghost: int = 0;
        match self {
            OctreeLeafy::Node { children, bounds, depth, total_points } => {
                let k = Self::addr(bounds, *depth, &point.color);
                proof {
                    lemma_child(*old(self), k as int);
                    lemma_count_sum(*old(self), point);
                    assert(old(self).contents().len() >= children[k as int].contents().len());
                    k_ghost = k as int;
                }
                *total_points = *total_points + 1;
                children[k].add_inner(point);
            },
            OctreeLeafy::Leaf { points, total_points, .. } => {
                proof {
                    lemma_to_multiset(points@);
                }
                points.push(point);
                *total_points = *total_points + 1;
            },
        }
        proof {
            if *self is Node {
                lemma_replace_child(*old(self), *self, k_ghost);
                assert(self.contents() =~= old(self).contents().insert(point));
            }
        }
    }

    #[verifier::rlimit(100)]
    #[verifier::spinoff_prover]
    fn remove_inner(&mut self, point: Point) -> (n: usize)
        requires
            old(self).wf(),
            old(self).spec_bounds().spec_contains_color(point.color),
        ensures
            final(self).wf(),
            final(self).contents() == old(self).contents().remove(point),
            n == (if old(self).contents().count(point) > 0 { 1usize } else { 0usize }),
            final(self).spec_bounds() == old(self).spec_bounds(),
            final(self).level() == old(self).level(),
            ((*final(self)) is Node) == ((*old(self)) is Node),
        decreases 7 - old(self).level(),
    {
        let ghost k_ghost: int = 0;
        let n;
        match self {
            OctreeLeafy::Node { children, bounds, depth, total_points } => {
                let k = Self::addr(bounds, *depth, &point.color);
                proof {
                    lemma_child(*old(self), k as int);
                    lemma_only_child(*old(self), k as int, point);
                    k_ghost = k as int;
                }
                n = children[k].remove_inner(point);
                proof {
                    let m = old(self)->Node_children[k as int].contents();
                    if m.count(point) > 0 {
                        assert(m.remove(point).len() + 1 == m.len()) by {
                            assert(m.remove(point).insert(point) =~= m);
                        }
                    } else {
                        assert(m.remove(point) =~= m);
                    }
                    lemma_count_sum(*old(self), point);
                    assert(old(self).contents().len() >= old(self).contents().count(point));
                }
                *total_points = *total_points - n;
            },
            OctreeLeafy::Leaf { points, total_points, .. } => {
                proof {
                    lemma_to_multiset(points@);
                }
                let mut i: usize = 0;
                while i < points.len() && points[i] != point
                    invariant
                        i <= points.len(),
                        forall|j: int| 0 <= j < i ==> points[j] != point,
                    decreases points.len() - i,
                {
                    i += 1;
                }
                if i < points.len() {
                    proof {
                        assert(points@.contains(point));
                    }
                    points.remove(i);
                    *total_points = *total_points - 1;
                    n = 1;
                } else {
                    proof {
                        assert(!points@.contains(point));
                        assert(points@.to_multiset().remove(point) =~= points@.to_multiset());
                    }
                    n = 0;
                }
            },
        }
        proof {
            if *self is Node {
                lemma_replace_child(*old(self), *self, k_ghost);
                assert(self.contents() =~= old(self).contents().remove(point));
            }
        }
        n
    }

    /// Whether some point below this node has the position `pt`.
    #[verifier::loop_isolation(false)]
    #[verifier::rlimit(100)]
    #[verifier::spinoff_prover]
    fn contains_space(&self, pt: &SpacePoint) -> (r: bool)
        requires
            self.wf(),
        ensures
            r == exists|p: Point| self.contents().count(p) > 0 && p.space == *pt,
        decreases 7 - self.level(),
    {
        match self {
            OctreeLeafy::Node { children, .. } => {
                let mut k: usize = 0;
                while k < 8
                    invariant
                        k <= 8,
                        forall|j: int, p: Point|
                            0 <= j < k && #[trigger] children[j].contents().count(p) > 0 ==> p.space
                                != *pt,
                    decreases 8 - k,
                {
                    proof {
                        lemma_child(*self, k as int);
                    }
                    if children[k].contains_space(pt) {
                        proof {
                            let p = choose|p: Point|
                                children[k as int].contents().count(p) > 0 && p.space == *pt;
                            lemma_count_sum(*self, p);
                            assert(self.contents().count(p) > 0 && p.space == *pt);
                        }
                        return true;
                    }
                    k += 1;
                }
                proof {
                    assert forall|p: Point|
                        !(self.contents().count(p) > 0 && p.space == *pt) by {
                        lemma_count_sum(*self, p);
                    }
                }
                false
            },
            OctreeLeafy::Leaf { points, .. } => {
                proof {
                    lemma_to_multiset(points@);
                }
                let mut i: usize = 0;
                while i < points.len()
                    invariant
                        i <= points.len(),
                        forall|j: int| 0 <= j < i ==> (#[trigger] points[j]).space != *pt,
                    decreases points.len() - i,
                {
                    if points[i].space == *pt {
                        proof {
                            assert(points@.contains(points[i as int]));
                            assert(self.contents().count(points[i as int]) > 0);
                        }
                        return true;
                    }
                    i += 1;
                }
                proof {
                    assert forall|p: Point|
                        !(self.contents().count(p) > 0 && p.space == *pt) by {
                        if self.contents().count(p) > 0 {
                            assert(points@.contains(p));
                        }
                    }
                }
                false
            },
        }
    }

    /// Whether the point is stored below this node.
    #[verifier::loop_isolation(false)]
    fn contains_point(&self, pt: &Point) -> (r: bool)
        requires
            self.wf(),
            self.spec_bounds().spec_contains_color(pt.color),
        ensures
            r == (self.contents().count(*pt) > 0),
        decreases 7 - self.level(),
    {
        match self.child_for(&pt.color) {
            Some(c) => c.contains_point(pt),
            None => {
                match self {
                    OctreeLeafy::Leaf { points, .. } => {
                        proof {
                            lemma_to_multiset(points@);
                        }
                        let mut i: usize = 0;
                        while i < points.len()
                            invariant
                                i <= points.len(),
                                forall|j: int| 0 <= j < i ==> points[j] != *pt,
                            decreases points.len() - i,
                        {
                            if points[i] == *pt {
                                proof {
                                    assert(points@.contains(*pt));
                                }
                                return true;
                            }
                            i += 1;
                        }
                        proof {
                            assert(!points@.contains(*pt));
                        }
                        false
                    },
                    OctreeLeafy::Node { .. } => false,
                }
            },
        }
    }

    /// The leaf bucket that holds the points of the color of `point`.
    pub fn precalc_path(&self, point: Point) -> (r: &Vec<Point>)
        requires
            self.valid(),
        ensures
            forall|q: Point|
                self.contents().count(q) > 0 && q.color == point.color ==> #[trigger] r@.contains(q),
            forall|i: int| 0 <= i < r.len() ==> self.contents().count(#[trigger] r[i]) > 0,
    {
        let mut at = self;
        loop
            invariant
                at.wf(),
                at.spec_bounds().spec_contains_color(point.color),
                forall|q: Point| #[trigger]
                    at.contents().count(q) > 0 ==> self.contents().count(q) > 0,
                forall|q: Point|
                    q.color == point.color ==> #[trigger] at.contents().count(q)
                        == self.contents().count(q),
            decreases 7 - at.level(),
        {
            match at {
                OctreeLeafy::Leaf { points, .. } => {
                    proof {
                        lemma_to_multiset(points@);
                    }
                    proof {
                        assert forall|i: int| 0 <= i < points.len() implies self.contents().count(
                            #[trigger] points[i],
                        ) > 0 by {
                            assert(points@.contains(points[i]));
                            assert(at.contents().count(points[i]) > 0);
                        }
                        assert forall|q: Point|
                            self.contents().count(q) > 0 && q.color == point.color implies #[trigger] points@.contains(q) by {
                            assert(at.contents().count(q) > 0);
                        }
                    }
                    return points;
                },
                OctreeLeafy::Node { .. } => {
                    if let Some(next) = at.child_for(&point.color) {
                        at = next;
                    }
                },
            }
        }
    }
}

impl NnSearch3d for OctreeLeafy {
    open spec fn stored(&self) -> Multiset<Point> {
        self.contents()
    }

    open spec fn valid(&self) -> bool {
        self.wf() && self.spec_bounds() == color_cube()
    }

    fn add(&mut self, point: Point, spare_vectors: &mut Vec<Vec<Point>>) {
        self.add_inner(point);
    }

    fn add_sync(&mut self, point: Point, spare_vectors: &mut Vec<Vec<Point>>) {
        self.add_inner(point);
    }

    fn remove(&mut self, point: Point, spare_vectors: &mut Vec<Vec<Point>>) {
        self.remove_inner(point);
    }

    fn remove_sync(&mut self, point: Point, spare_vectors: &mut Vec<Vec<Point>>) {
        self.remove_inner(point);
    }

    fn find_nearest(&self, color: &ColorPoint) -> (r: Option<Point>) {
        // Start with the smallest node around the target that holds any point.
        let mut at = self;
        loop
            invariant
                at.wf(),
                at.spec_bounds().spec_contains_color(*color),
                forall|q: Point| #[trigger]
                    at.contents().count(q) > 0 ==> self.contents().count(q) > 0,
                self.contents().len() > 0 ==> at.contents().len() > 0,
            decreases 7 - at.level(),
        {
            match at.child_for(color) {
                Some(next) => {
                    if next.total() == 0 {
                        break;
                    }
                    at = next;
                },
                None => {
                    break;
                },
            }
        }
        let nearest = match at.first_point() {
            Some(p) => p,
            None => {
                return None;
            },
        };
        let nearest_dist = nearest.color.distance_to(color);
        // The search cube: every color no farther than the starting point lies in it.
        let bounds = if nearest_dist == 0 {
            proof {
                assert forall|q: ColorPoint| #[trigger] dist2(q, *color) <= 0 implies BoundingBox::around(*color, 1).spec_contains_color(q) by {
                    let (x, y, z) = (q.r - color.r, q.g - color.g, q.b - color.b);
                    assert(x * x >= 0 && y * y >= 0 && z * z >= 0) by (nonlinear_arith);
                    assert(x == 0 && y == 0 && z == 0) by (nonlinear_arith)
                        requires
                            x * x + y * y + z * z <= 0,
                            x * x >= 0,
                            y * y >= 0,
                            z * z >= 0,
                    ;
                }
            }
            BoundingBox::from_around(color, 1)
        } else {
            let r = isqrt(nearest_dist);
            assert(r >= 1) by (nonlinear_arith)
                requires
                    r >= 0,
                    nearest_dist >= 1,
                    nearest_dist < (r + 1) * (r + 1),
            ;
            proof {
                lemma_ball_in_box(*color, nearest_dist as int, r as int);
            }
            let b = BoundingBox::from_around(color, r);
            assert(box_of_distance(b, *color, nearest_dist as int)) by {
                assert(b == BoundingBox::around(*color, r as int));
            }
            b
        };
        let mut search = NearestSearch { nearest, nearest_dist, bounds };
        self.find_nearest_inner(color, &mut search);
        Some(search.nearest)
    }

    fn has(&self, pt: &SpacePoint) -> (r: bool) {
        let r = self.contains_space(pt);
        proof {
            if r {
                let p = choose|p: Point| self.contents().count(p) > 0 && p.space == *pt;
                assert(self.stored().count(p) > 0 && p.space == *pt);
            }
        }
        r
    }

    fn has_point(&self, pt: &Point) -> (r: bool) {
        self.contains_point(pt)
    }

    fn len(&self) -> (r: usize) {
        self.total()
    }

    fn is_empty(&self) -> (r: bool) {
        self.total() == 0
    }
}
} // verus!
