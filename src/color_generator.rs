use vstd::arithmetic::div_mod::lemma_fundamental_div_mod_converse;
use vstd::multiset::Multiset;
use vstd::prelude::*;

use crate::atomicbitmask::AtomicBitMask;
use crate::image::{shown, Image, PIXELS};
use crate::nn_search_3d::NnSearch3d;
use crate::octree_leafy::OctreeLeafy;
use crate::points::{beats, dist2, neighbors_of, pack_xy, ColorPoint, Point, SpacePoint};

verus! {

broadcast use vstd::seq_lib::lemma_seq_contains_after_push;

/// Two grid positions are 4-neighbors.
pub open spec fn adjacent(a: SpacePoint, b: SpacePoint) -> bool {
    let (ax, ay, bx, by) = (a.spec_x(), a.spec_y(), b.spec_x(), b.spec_y());
    (ax == bx && (ay - by == 1 || by - ay == 1)) || (ay == by && (ax - bx == 1 || bx - ax == 1))
}

/// The position lies on the grid of the given size.
pub open spec fn in_grid(s: SpacePoint, width: int, height: int) -> bool {
    s.valid() && s.spec_x() < width && s.spec_y() < height
}

/// Some position among the first `upto` placed ones is next to `s`.
pub open spec fn touches_placed(order: Seq<SpacePoint>, upto: int, s: SpacePoint) -> bool {
    exists|i: int| 0 <= i < upto && #[trigger] adjacent(order[i], s)
}

/// Some position among the first `upto` placed ones is next to the position of `p`
/// and got the color of `p`.
pub open spec fn fed_by(order: Seq<SpacePoint>, colors: Seq<ColorPoint>, upto: int, p: Point) -> bool {
    exists|i: int| 0 <= i < upto && #[trigger] adjacent(order[i], p.space) && colors[i] == p.color
}

/// What the frontier gains when `space` gets `color`: one entry for each grid neighbor
/// of `space` that is not placed.
pub open spec fn gained(
    space: SpacePoint,
    color: ColorPoint,
    w: int,
    h: int,
    placed: Seq<SpacePoint>,
    q: Point,
) -> int {
    if q.color == color && adjacent(space, q.space) && in_grid(q.space, w, h) && !placed.contains(
        q.space,
    ) {
        1
    } else {
        0
    }
}

/// The color at index `i` of the table of all colors, red varying slowest.
pub open spec fn color_of_index(i: u32) -> ColorPoint {
    ColorPoint { r: ((i >> 16u32) & 255u32) as u8, g: ((i >> 8u32) & 255u32) as u8, b: (i & 255u32) as u8 }
}

proof fn lemma_pack(x: int, y: int)
    requires
        0 <= x < 4096,
        0 <= y < 4096,
    ensures
        SpacePoint(pack_xy(x, y)).spec_x() == x,
        SpacePoint(pack_xy(x, y)).spec_y() == y,
        SpacePoint(pack_xy(x, y)).valid(),
        SpacePoint(pack_xy(x, y)).0 == y * 4096 + x,
{
    lemma_fundamental_div_mod_converse(y * 4096 + x, 4096, y, x);
    lemma_fundamental_div_mod_converse(y, 4096, 0, y);
}

proof fn lemma_valid_offset(s: SpacePoint)
    requires
        s.valid(),
    ensures
        s.spec_offset() == s.0,
        0 <= s.spec_x() < 4096,
        0 <= s.spec_y() < 4096,
{
    let q = s.0 / 4096;
    let r = s.0 % 4096;
    lemma_fundamental_div_mod_converse(s.0 as int, 4096, q as int, r as int);
    lemma_fundamental_div_mod_converse(q as int, 4096, 0, q as int);
}

/// The neighbors of a grid position are on the grid and next to it.
proof fn lemma_neighbors(s: SpacePoint)
    requires
        s.valid(),
    ensures
        forall|k: int|
            0 <= k < neighbors_of(s.spec_x(), s.spec_y()).len() ==> {
                let q = #[trigger] neighbors_of(s.spec_x(), s.spec_y())[k];
                q.valid() && adjacent(s, q)
            },
{
    let x = s.spec_x();
    let y = s.spec_y();
    lemma_valid_offset(s);
    if x > 0 {
        lemma_pack(x - 1, y);
    }
    if x < 4095 {
        lemma_pack(x + 1, y);
    }
    if y > 0 {
        lemma_pack(x, y - 1);
    }
    if y < 4095 {
        lemma_pack(x, y + 1);
    }
}

/// The positions `get_neighbors` lists are distinct.
proof fn lemma_neighbors_distinct(s: SpacePoint)
    requires
        s.valid(),
    ensures
        neighbors_of(s.spec_x(), s.spec_y()).no_duplicates(),
{
    let x = s.spec_x();
    let y = s.spec_y();
    lemma_valid_offset(s);
    if x > 0 {
        lemma_pack(x - 1, y);
    }
    if x < 4095 {
        lemma_pack(x + 1, y);
    }
    if y > 0 {
        lemma_pack(x, y - 1);
    }
    if y < 4095 {
        lemma_pack(x, y + 1);
    }
    let ns = neighbors_of(x, y);
    assert forall|i: int, j: int| 0 <= i < ns.len() && 0 <= j < ns.len() && i != j implies ns[i] != ns[j] by {
        assert(ns[i].0 != ns[j].0);
    }
}

/// A grid neighbor of `s` is one of the positions `get_neighbors` lists.
proof fn lemma_neighbors_complete(s: SpacePoint, b: SpacePoint)
    requires
        s.valid(),
        b.valid(),
        adjacent(s, b),
    ensures
        neighbors_of(s.spec_x(), s.spec_y()).contains(b),
{
    let x = s.spec_x();
    let y = s.spec_y();
    lemma_valid_offset(s);
    lemma_valid_offset(b);
    let ns = neighbors_of(x, y);
    if b.spec_x() == x - 1 {
        lemma_pack(x - 1, y);
        assert(ns[0] == b);
    } else if b.spec_x() == x + 1 {
        lemma_pack(x + 1, y);
        if x > 0 {
            assert(ns[1] == b);
        } else {
            assert(ns[0] == b);
        }
    } else if b.spec_y() == y - 1 {
        lemma_pack(x, y - 1);
        let i = (if x > 0 { 1int } else { 0int }) + (if x < 4095 { 1int } else { 0int });
        assert(ns[i] == b);
    } else {
        lemma_pack(x, y + 1);
        let i = (if x > 0 { 1int } else { 0int }) + (if x < 4095 { 1int } else { 0int }) + (if y
            > 0 { 1int } else { 0int });
        assert(ns[i] == b);
    }
}

/// When the grid holds a placed and an unplaced position, some placed position is
/// next to an unplaced one.
proof fn lemma_edge(order: Seq<SpacePoint>, w: int, h: int, a: SpacePoint, b: SpacePoint)
    requires
        1 <= w <= 4096,
        1 <= h <= 4096,
        in_grid(a, w, h),
        in_grid(b, w, h),
        order.contains(a),
        !order.contains(b),
    ensures
        exists|c: SpacePoint, d: SpacePoint|
            #[trigger] adjacent(c, d) && in_grid(c, w, h) && in_grid(d, w, h) && order.contains(c)
                && !order.contains(d),
    decreases (if a.spec_x() >= b.spec_x() { a.spec_x() - b.spec_x() } else { b.spec_x() - a.spec_x() }) + (if a.spec_y() >= b.spec_y() { a.spec_y() - b.spec_y() } else { b.spec_y() - a.spec_y() }),
{
    lemma_valid_offset(a);
    lemma_valid_offset(b);
    let (ax, ay, bx, by) = (a.spec_x(), a.spec_y(), b.spec_x(), b.spec_y());
    assert(ax != bx || ay != by);
    let (nx, ny) = if ax < bx {
        (ax + 1, ay)
    } else if ax > bx {
        (ax - 1, ay)
    } else if ay < by {
        (ax, ay + 1)
    } else {
        (ax, ay - 1)
    };
    lemma_pack(nx, ny);
    let n = SpacePoint(pack_xy(nx, ny));
    assert(adjacent(a, n));
    if !order.contains(n) {
        assert(adjacent(a, n) && in_grid(a, w, h) && in_grid(n, w, h) && order.contains(a) && !order.contains(n));
    } else {
        lemma_edge(order, w, h, n, b);
    }
}

/// A sequence of distinct grid positions that holds every position of a `w` x `h`
/// grid has exactly `w * h` entries.
proof fn lemma_full_grid(order: Seq<SpacePoint>, w: int, h: int)
    requires
        1 <= w <= 4096,
        1 <= h <= 4096,
        order.no_duplicates(),
        forall|j: int| 0 <= j < order.len() ==> in_grid(#[trigger] order[j], w, h),
        forall|s: SpacePoint| in_grid(s, w, h) ==> #[trigger] order.contains(s),
    ensures
        order.len() == w * h,
{
    let idx = order.map_values(|s: SpacePoint| s.spec_y() * w + s.spec_x());
    assert forall|a: int, b: int| 0 <= a < idx.len() && 0 <= b < idx.len() && a != b implies idx[a]
        != idx[b] by {
        let (sa, sb) = (order[a], order[b]);
        assert(in_grid(sa, w, h) && in_grid(sb, w, h));
        lemma_valid_offset(sa);
        lemma_valid_offset(sb);
        if idx[a] == idx[b] {
            lemma_fundamental_div_mod_converse(idx[a], w, sa.spec_y(), sa.spec_x());
            lemma_fundamental_div_mod_converse(idx[b], w, sb.spec_y(), sb.spec_x());
            assert(sa.0 == sb.0);
        }
    }
    assert(idx.no_duplicates());
    idx.unique_seq_to_set();
    let range = vstd::set_lib::set_int_range(0, w * h);
    assert forall|i: int| #[trigger] range.contains(i) <==> idx.to_set().contains(i) by {
        if range.contains(i) {
            let x = i % w;
            let y = i / w;
            vstd::arithmetic::div_mod::lemma_fundamental_div_mod(i, w);
            vstd::arithmetic::div_mod::lemma_mod_pos_bound(i, w);
            assert(i == y * w + x) by (nonlinear_arith)
                requires
                    i == w * (i / w) + (i % w),
                    x == i % w,
                    y == i / w,
            ;
            assert(0 <= x < w);
            assert(0 <= y < h) by (nonlinear_arith)
                requires
                    i == y * w + x,
                    0 <= x < w,
                    0 <= i < w * h,
                    w >= 1,
            ;
            lemma_pack(x, y);
            let s = SpacePoint(pack_xy(x, y));
            assert(in_grid(s, w, h));
            assert(order.contains(s));
            let j = choose|j: int| 0 <= j < order.len() && order[j] == s;
            assert(idx[j] == i);
            assert(idx.contains(i));
        }
        if idx.to_set().contains(i) {
            assert(idx.contains(i));
            let j = choose|j: int| 0 <= j < idx.len() && idx[j] == i;
            let s = order[j];
            assert(in_grid(s, w, h));
            lemma_valid_offset(s);
            let (x, y) = (s.spec_x(), s.spec_y());
            assert(0 <= y * w + x < w * h) by (nonlinear_arith)
                requires
                    0 <= x < w,
                    0 <= y < h,
            ;
        }
    }
    assert(range =~= idx.to_set());
    vstd::set_lib::lemma_int_range(0, w * h);
}

/// Relies on fastrand::seed: it only resets the thread-local generator.
#[verifier::external_body]
fn seed_rng(seed: u64) {
    fastrand::seed(seed)
}

/// Relies on fastrand::shuffle: it permutes the slice by swapping its elements.
#[verifier::external_body]
fn shuffle_in_place(v: &mut Vec<ColorPoint>)
    ensures
        final(v)@.to_multiset() == old(v)@.to_multiset(),
        final(v)@.len() == old(v)@.len(),
{
    fastrand::shuffle(v.as_mut_slice())
}

/// The table of all 2^24 colors.
fn initialize_color_space() -> (colors: Vec<ColorPoint>)
    ensures
        colors.len() == PIXELS,
        forall|i: int| 0 <= i < PIXELS ==> #[trigger] colors@[i] == color_of_index(i as u32),
{
    let mut colors: Vec<ColorPoint> = Vec::with_capacity(PIXELS);
    let mut i: u32 = 0;
    while (i as usize) < PIXELS
        invariant
            i as usize <= PIXELS,
            colors.len() == i,
            forall|j: int| 0 <= j < i ==> #[trigger] colors@[j] == color_of_index(j as u32),
        decreases PIXELS - i as usize,
    {
        colors.push(ColorPoint::new(((i >> 16) & 255) as u8, ((i >> 8) & 255) as u8, (i & 255) as u8));
        i += 1;
    }
    colors
}

/// The table of all grid positions, indexed by offset.
fn initialize_space_space() -> (spaces: Vec<SpacePoint>)
    ensures
        spaces.len() == PIXELS,
        forall|o: int| 0 <= o < PIXELS ==> #[trigger] spaces@[o].0 == o,
{
    let mut spaces: Vec<SpacePoint> = Vec::with_capacity(PIXELS);
    let mut o: u32 = 0;
    while (o as usize) < PIXELS
        invariant
            o as usize <= PIXELS,
            spaces.len() == o,
            forall|j: int| 0 <= j < o ==> #[trigger] spaces@[j].0 == j,
        decreases PIXELS - o as usize,
    {
        spaces.push(SpacePoint(o));
        o += 1;
    }
    spaces
}

/// Grows an image from seed pixels: each next color of the sequence goes to the
/// frontier position whose candidate color is nearest to it.
pub struct ColorGenerator {
    colors: Vec<ColorPoint>,
    spaces: Vec<SpacePoint>,
    writing_spaces: AtomicBitMask,
    written_spaces: AtomicBitMask,
    root: OctreeLeafy,
    image: Image,
    current_color_idx: usize,
    width: u32,
    height: u32,
    order: Ghost<Seq<SpacePoint>>,
    seeded: Ghost<Seq<bool>>,
}

impl ColorGenerator {
    /// The color sequence.
    pub closed spec fn spec_colors(&self) -> Seq<ColorPoint> {
        self.colors@
    }

    /// The positions placed so far; the `j`-th got color `j` of the sequence.
    pub closed spec fn placed(&self) -> Seq<SpacePoint> {
        self.order@
    }

    /// Which placements were seeds.
    pub closed spec fn seeds(&self) -> Seq<bool> {
        self.seeded@
    }

    /// The image, pixel by pixel.
    pub closed spec fn pixels(&self) -> Seq<Option<ColorPoint>> {
        self.image@
    }

    /// The completion bitmap.
    pub closed spec fn written(&self) -> Seq<bool> {
        self.written_spaces@
    }

    /// The frontier index.
    pub closed spec fn frontier(&self) -> Multiset<Point> {
        self.root.stored()
    }

    pub closed spec fn spec_width(&self) -> int {
        self.width as int
    }

    pub closed spec fn spec_height(&self) -> int {
        self.height as int
    }

    pub closed spec fn wf(&self) -> bool {
        &&& self.wf_core()
        &&& self.root.stored().len() <= 4 * self.current_color_idx
        &&& self.frontier_except(None)
        &&& self.live_except(None)
    }

    /// Every frontier entry is for an unplaced position (or for `skip`).
    closed spec fn live_except(&self, skip: Option<SpacePoint>) -> bool {
        forall|q: Point|
            #[trigger] self.root.stored().count(q) > 0 ==> !self.order@.contains(q.space) || skip == Some(
                q.space,
            )
    }

    /// Every unplaced grid position next to a placed one (other than `skip`) has a
    /// frontier entry with the color of that placed neighbor.
    closed spec fn frontier_except(&self, skip: Option<SpacePoint>) -> bool {
        forall|a: SpacePoint, b: SpacePoint|
            #[trigger] adjacent(a, b) && in_grid(a, self.width as int, self.height as int) && in_grid(
                b,
                self.width as int,
                self.height as int,
            ) && self.order@.contains(a) && !self.order@.contains(b) && skip != Some(a)
                ==> self.root.stored().count(Point { space: b, color: shown(self.image@[a.0 as int]) })
                > 0
    }

    /// Only the frontier changed between `self` and `other`.
    closed spec fn same_but_frontier(&self, other: &ColorGenerator) -> bool {
        &&& self.colors == other.colors
        &&& self.spaces == other.spaces
        &&& self.writing_spaces == other.writing_spaces
        &&& self.written_spaces == other.written_spaces
        &&& self.image == other.image
        &&& self.current_color_idx == other.current_color_idx
        &&& self.width == other.width
        &&& self.height == other.height
        &&& self.order == other.order
        &&& self.seeded == other.seeded
    }

    closed spec fn wf_core(&self) -> bool {
        let order = self.order@;
        &&& 1 <= self.width <= 4096
        &&& 1 <= self.height <= 4096
        &&& self.colors.len() <= PIXELS
        &&& self.spaces.len() == PIXELS
        &&& forall|o: int| 0 <= o < PIXELS ==> #[trigger] self.spaces@[o].0 == o
        &&& self.writing_spaces.wf()
        &&& self.written_spaces.wf()
        &&& self.writing_spaces@.len() == PIXELS
        &&& self.writing_spaces@ == self.written_spaces@
        &&& self.image.wf()
        &&& self.image@.len() == PIXELS
        &&& forall|o: int| 0 <= o < PIXELS ==> #[trigger] self.written_spaces@[o] == self.image@[o] is Some
        &&& self.root.valid()
        &&& self.current_color_idx <= self.colors.len()
        &&& order.len() == self.current_color_idx
        &&& self.seeded@.len() == order.len()
        &&& order.no_duplicates()
        &&& forall|j: int| 0 <= j < order.len() ==> in_grid(#[trigger] order[j], self.width as int, self.height as int)
        &&& forall|s: SpacePoint| s.valid() ==> (self.written_spaces@[s.0 as int] <==> #[trigger] order.contains(s))
        &&& forall|j: int| 0 <= j < order.len() ==> self.image@[(#[trigger] order[j]).0 as int] == Some(self.colors@[j])
        &&& forall|j: int| 0 <= j < order.len() && !self.seeded@[j] ==> touches_placed(order, j, #[trigger] order[j])
        &&& forall|p: Point| #[trigger] self.root.stored().count(p) > 0 ==> in_grid(p.space, self.width as int, self.height as int)
            && fed_by(order, self.colors@, order.len() as int, p)
    }
}


/// The offset of `(x, y)` in a row-major 4096 x 4096 buffer.
fn space_offset(x: u32, y: u32) -> (o: usize)
    requires
        x < 4096,
        y < 4096,
    ensures
        o == y * 4096 + x,
{
    assert((y << 12u32 | x) == y * 4096 + x) by (bit_vector)
        requires
            x < 4096u32,
            y < 4096u32,
    ;
    (y << 12 | x) as usize
}

impl ColorGenerator {
    /// A generator over the whole 4096 x 4096 grid with the table of all colors.
    pub fn new() -> (r: ColorGenerator)
        ensures
            r.wf(),
            r.spec_width() == 4096,
            r.spec_height() == 4096,
            r.spec_colors().len() == PIXELS,
            forall|i: int| 0 <= i < PIXELS ==> #[trigger] r.spec_colors()[i] == color_of_index(i as u32),
            r.placed().len() == 0,
            r.frontier().len() == 0,
            r.written().len() == PIXELS,
            forall|o: int| 0 <= o < PIXELS ==> !#[trigger] r.written()[o],
    {
        Self::with_colors(4096, 4096, initialize_color_space())
    }

    /// A generator over the top-left `width` x `height` part of the grid that places
    /// the given colors in order.
    pub fn with_colors(width: u32, height: u32, colors: Vec<ColorPoint>) -> (r: ColorGenerator)
        requires
            1 <= width <= 4096,
            1 <= height <= 4096,
            colors.len() <= PIXELS,
        ensures
            r.wf(),
            r.spec_width() == width,
            r.spec_height() == height,
            r.spec_colors() == colors@,
            r.placed().len() == 0,
            r.frontier().len() == 0,
            forall|o: int| 0 <= o < PIXELS ==> #[trigger] r.pixels()[o] is None,
            r.written().len() == PIXELS,
            forall|o: int| 0 <= o < PIXELS ==> !#[trigger] r.written()[o],
    {
        let r = ColorGenerator {
            colors,
            spaces: initialize_space_space(),
            writing_spaces: AtomicBitMask::new(PIXELS),
            written_spaces: AtomicBitMask::new(PIXELS),
            root: OctreeLeafy::init_tree(4),
            image: Image::new(),
            current_color_idx: 0,
            width,
            height,
            order: Ghost(Seq::empty()),
            seeded: Ghost(Seq::empty()),
        };
        assert(r.root.stored().len() == 0);
        r
    }

    /// Shuffles the color sequence; done before any pixel is placed.
    pub fn shuffle_colors(&mut self)
        requires
            old(self).wf(),
            old(self).placed().len() == 0,
        ensures
            final(self).wf(),
            final(self).spec_colors().to_multiset() == old(self).spec_colors().to_multiset(),
            final(self).spec_colors().len() == old(self).spec_colors().len(),
            final(self).placed().len() == 0,
            final(self).spec_width() == old(self).spec_width(),
            final(self).spec_height() == old(self).spec_height(),
            final(self).frontier() == old(self).frontier(),
    {
        seed_rng(0);
        shuffle_in_place(&mut self.colors);
    }

    /// The image being grown.
    pub fn image(&self) -> (r: &Image)
        requires
            self.wf(),
        ensures
            r.wf(),
            r@ == self.pixels(),
    {
        &self.image
    }

    /// Adds to the frontier each grid neighbor of the just placed `space` that is not
    /// placed yet, with the color placed there.
    fn add_neighbors(
        &mut self,
        space: &SpacePoint,
        color: &ColorPoint,
        add_vec: &mut Vec<SpacePoint>,
        point_pool: &mut Vec<Vec<Point>>,
    )
        requires
            old(self).wf_core(),
            old(self).root.stored().len() + 4 <= 4 * old(self).current_color_idx,
            old(self).order@.len() > 0,
            old(self).order@.last() == *space,
            old(self).frontier_except(Some(*space)),
            old(self).image@[space.0 as int] == Some(*color),
            old(self).colors@[old(self).order@.len() - 1] == *color,
            old(self).live_except(None),
        ensures
            final(self).wf(),
            final(self).same_but_frontier(old(self)),
            forall|q: Point|
                #[trigger] final(self).root.stored().count(q) == old(self).root.stored().count(q)
                    + gained(*space, *color, old(self).width as int, old(self).height as int, old(self).order@, q),
    {
        let ghost order = self.order@;
        let ghost last = order.len() - 1;
        let ghost start = self.root.stored();
        proof {
            assert(in_grid(order[last], self.width as int, self.height as int));
            lemma_neighbors(*space);
            lemma_neighbors_distinct(*space);
        }
        space.get_neighbors(add_vec);
        proof {
            assert(add_vec@.take(0) =~= Seq::<SpacePoint>::empty());
        }
        let mut i: usize = 0;
        while i < add_vec.len()
            invariant
                self.wf_core(),
                self.same_but_frontier(old(self)),
                order == self.order@,
                last == order.len() - 1,
                order[last] == *space,
                add_vec@ == neighbors_of(space.spec_x(), space.spec_y()),
                add_vec.len() <= 4,
                i <= add_vec.len(),
                self.root.stored().len() + 4 <= 4 * self.current_color_idx + i,
                forall|k: int|
                    0 <= k < add_vec.len() ==> {
                        let q = #[trigger] add_vec@[k];
                        q.valid() && adjacent(*space, q)
                    },
                self.frontier_except(Some(*space)),
                self.image@[space.0 as int] == Some(*color),
                forall|k: int|
                    0 <= k < i && in_grid(#[trigger] add_vec@[k], self.width as int, self.height as int)
                        && !order.contains(add_vec@[k]) ==> self.root.stored().count(
                        Point { space: add_vec@[k], color: *color },
                    ) > 0,
                self.colors@[last] == *color,
                self.live_except(None),
                add_vec@.no_duplicates(),
                forall|q: Point|
                    #[trigger] self.root.stored().count(q) == start.count(q) + (if q.color == *color
                        && in_grid(q.space, self.width as int, self.height as int) && !order.contains(q.space)
                        && add_vec@.take(i as int).contains(q.space) { 1int } else { 0int }),
            decreases add_vec.len() - i,
        {
            let n = add_vec[i];
            let (nx, ny) = n.xy();
            let o = n.offset();
            proof {
                lemma_valid_offset(n);
            }
            if nx < self.width && ny < self.height && !self.written_spaces.test(o)
                && !self.writing_spaces.test(o) {
                let ghost before = self.root.stored();
                let pt = Point::new(n, *color);
                self.root.add(pt, point_pool);
                proof {
                    assert forall|q: Point| before.count(q) > 0 implies #[trigger] self.root.stored().count(q) > 0 by {}

                    assert forall|p: Point| #[trigger] self.root.stored().count(p) > 0 implies in_grid(
                        p.space,
                        self.width as int,
                        self.height as int,
                    ) && fed_by(order, self.colors@, order.len() as int, p) by {
                        if p == pt {
                            assert(adjacent(order[last], p.space));
                        } else {
                            assert(before.count(p) > 0);
                        }
                    }
                }
            }
            proof {
                assert(order.contains(n) <==> self.written_spaces@[n.0 as int]);
                assert(add_vec@.take(i + 1) =~= add_vec@.take(i as int).push(n));
                assert(!add_vec@.take(i as int).contains(n)) by {
                    if add_vec@.take(i as int).contains(n) {
                        let k = choose|k: int| 0 <= k < i && add_vec@.take(i as int)[k] == n;
                        assert(add_vec@[k] == add_vec@[i as int]);
                    }
                }
            }
            i += 1;
        }
        proof {
            assert forall|a: SpacePoint, b: SpacePoint|
                #[trigger] adjacent(a, b) && in_grid(a, self.width as int, self.height as int) && in_grid(
                    b,
                    self.width as int,
                    self.height as int,
                ) && self.order@.contains(a) && !self.order@.contains(b) && None::<SpacePoint> != Some(a)
                    implies self.root.stored().count(Point { space: b, color: shown(self.image@[a.0 as int]) }) > 0 by {
                if a == *space {
                    lemma_neighbors_complete(*space, b);
                    let k = choose|k: int| 0 <= k < add_vec.len() && add_vec@[k] == b;
                    assert(in_grid(add_vec@[k], self.width as int, self.height as int));
                } else {
                    assert(Some(*space) != Some(a));
                }
            }
            assert(add_vec@.take(add_vec.len() as int) =~= add_vec@);
            assert forall|q: Point|
                #[trigger] self.root.stored().count(q) == start.count(q) + gained(
                    *space,
                    *color,
                    self.width as int,
                    self.height as int,
                    order,
                    q,
                ) by {
                if adjacent(*space, q.space) && q.space.valid() {
                    lemma_neighbors_complete(*space, q.space);
                }
                if add_vec@.contains(q.space) {
                    let k = choose|k: int| 0 <= k < add_vec.len() && add_vec@[k] == q.space;
                    assert(adjacent(*space, add_vec@[k]));
                }
            }
        }
    }

    /// Places color `current_color_idx` of the sequence at `(x, y)` and adds the
    /// neighbors of that pixel to the frontier.
    pub fn add_next_seed_pixel(&mut self, x: u32, y: u32, point_pool: &mut Vec<Vec<Point>>)
        requires
            old(self).wf(),
            x < old(self).spec_width(),
            y < old(self).spec_height(),
            old(self).placed().len() < old(self).spec_colors().len(),
            !old(self).written()[y * 4096 + x],
        ensures
            final(self).wf(),
            final(self).placed() == old(self).placed().push(SpacePoint(pack_xy(x as int, y as int))),
            final(self).seeds() == old(self).seeds().push(true),
            final(self).written()[y * 4096 + x],
            forall|q: Point|
                #[trigger] final(self).frontier().count(q) == (if q.space == SpacePoint(
                    pack_xy(x as int, y as int),
                ) {
                    0
                } else {
                    old(self).frontier().count(q)
                }) + gained(
                    SpacePoint(pack_xy(x as int, y as int)),
                    old(self).spec_colors()[old(self).placed().len() as int],
                    old(self).spec_width(),
                    old(self).spec_height(),
                    old(self).placed(),
                    q,
                ),
            final(self).spec_colors() == old(self).spec_colors(),
            final(self).pixels() == old(self).pixels().update(
                y * 4096 + x,
                Some(old(self).spec_colors()[old(self).placed().len() as int]),
            ),
            final(self).spec_width() == old(self).spec_width(),
            final(self).spec_height() == old(self).spec_height(),
    {
        let color = self.colors[self.current_color_idx];
        let ofs = space_offset(x, y);
        let space = self.spaces[ofs];
        proof {
            lemma_pack(x as int, y as int);
            lemma_valid_offset(space);
            assert(space == SpacePoint(pack_xy(x as int, y as int)));
            assert(!self.order@.contains(space));
        }
        self.current_color_idx += 1;
        self.writing_spaces.test_and_set(ofs);
        self.written_spaces.test_and_set(ofs);
        self.image.write(&space, &color);
        let ghost before = self.order@;
        self.order = Ghost(self.order@.push(space));
        self.seeded = Ghost(self.seeded@.push(true));
        proof {
            assert forall|o: int| 0 <= o < PIXELS implies #[trigger] self.written_spaces@[o]
                == self.image@[o] is Some by {
                if o != ofs {
                    assert(old(self).written_spaces@[o] == old(self).image@[o] is Some);
                }
            }
            self.lemma_after_placement(before, space, color);
            self.lemma_frontier_after_placement(old(self), space, color);
        }
        let mut add_vec: Vec<SpacePoint> = Vec::with_capacity(4);
        self.drop_candidates(&space, &color, &mut add_vec, point_pool);
        self.add_neighbors(&space, &color, &mut add_vec, point_pool);
        proof {
            assert forall|q: Point|
                gained(space, color, self.width as int, self.height as int, self.order@, q) == gained(
                    space,
                    color,
                    self.width as int,
                    self.height as int,
                    before,
                    q,
                ) by {
                if adjacent(space, q.space) {
                    assert(q.space != space);
                    assert(self.order@.contains(q.space) <==> before.contains(q.space));
                }
            }
        }
    }

    /// The invariant holds again after `space` got the next color of the sequence.
    proof fn lemma_after_placement(&self, before: Seq<SpacePoint>, space: SpacePoint, color: ColorPoint)
        requires
            1 <= self.width <= 4096,
            1 <= self.height <= 4096,
            self.colors.len() <= PIXELS,
            self.spaces.len() == PIXELS,
            forall|o: int| 0 <= o < PIXELS ==> #[trigger] self.spaces@[o].0 == o,
            self.writing_spaces.wf(),
            self.written_spaces.wf(),
            self.writing_spaces@.len() == PIXELS,
            self.image.wf(),
            self.image@.len() == PIXELS,
            self.root.valid(),
            self.current_color_idx <= self.colors.len(),
            self.order@ == before.push(space),
            self.seeded@.len() == self.order@.len(),
            self.order@.len() == self.current_color_idx,
            before.no_duplicates(),
            !before.contains(space),
            in_grid(space, self.width as int, self.height as int),
            forall|j: int| 0 <= j < before.len() ==> in_grid(#[trigger] before[j], self.width as int, self.height as int),
            self.writing_spaces@ == self.written_spaces@,
            forall|s: SpacePoint| s.valid() ==> (self.written_spaces@[s.0 as int] <==> (#[trigger] before.contains(s) || s == space)),
            forall|o: int| 0 <= o < PIXELS ==> #[trigger] self.written_spaces@[o] == self.image@[o] is Some,
            forall|j: int| 0 <= j < before.len() ==> self.image@[(#[trigger] before[j]).0 as int] == Some(self.colors@[j]),
            self.image@[space.0 as int] == Some(color),
            color == self.colors@[before.len() as int],
            forall|j: int| 0 <= j < before.len() && !self.seeded@[j] ==> touches_placed(before, j, #[trigger] before[j]),
            !self.seeded@[before.len() as int] ==> touches_placed(before, before.len() as int, space),
            forall|p: Point| #[trigger] self.root.stored().count(p) > 0 ==> in_grid(p.space, self.width as int, self.height as int)
                && fed_by(before, self.colors@, before.len() as int, p),
        ensures
            self.wf_core(),
    {
        let order = self.order@;
        assert forall|j: int| 0 <= j < order.len() implies in_grid(#[trigger] order[j], self.width as int, self.height as int) by {
            if j < before.len() {
                assert(order[j] == before[j]);
            }
        }
        assert forall|s: SpacePoint| s.valid() implies (self.written_spaces@[s.0 as int] <==> #[trigger] order.contains(s)) by {
            assert(order.contains(s) <==> before.contains(s) || s == space);
        }
        assert forall|j: int| 0 <= j < order.len() implies self.image@[(#[trigger] order[j]).0 as int] == Some(self.colors@[j]) by {
            if j < before.len() {
                assert(order[j] == before[j]);
            }
        }
        assert forall|j: int, s: SpacePoint| 0 <= j <= before.len() && touches_placed(before, j, s) implies touches_placed(order, j, s) by {
            let i = choose|i: int| 0 <= i < j && #[trigger] adjacent(before[i], s);
            assert(order[i] == before[i]);
        }
        assert forall|j: int| 0 <= j < order.len() && !self.seeded@[j] implies touches_placed(order, j, #[trigger] order[j]) by {
            if j < before.len() {
                assert(order[j] == before[j]);
            }
        }
        assert forall|p: Point| #[trigger] self.root.stored().count(p) > 0 implies in_grid(p.space, self.width as int, self.height as int)
            && fed_by(order, self.colors@, order.len() as int, p) by {
            let i = choose|i: int| 0 <= i < before.len() && #[trigger] adjacent(before[i], p.space) && self.colors@[i] == p.color;
            assert(order[i] == before[i]);
        }
        assert(order.no_duplicates());
    }
}

impl ColorGenerator {
    /// Right after `space` got placed, the frontier still covers every other placed
    /// position's unplaced neighbors.
    proof fn lemma_frontier_after_placement(&self, prev: &ColorGenerator, space: SpacePoint, color: ColorPoint)
        requires
            prev.frontier_except(None),
            self.root == prev.root,
            self.width == prev.width,
            self.height == prev.height,
            self.order@ == prev.order@.push(space),
            prev.image@.len() == PIXELS,
            space.valid(),
            self.image@ == prev.image@.update(space.0 as int, Some(color)),
        ensures
            self.frontier_except(Some(space)),
    {
        assert forall|a: SpacePoint, b: SpacePoint|
            #[trigger] adjacent(a, b) && in_grid(a, self.width as int, self.height as int) && in_grid(
                b,
                self.width as int,
                self.height as int,
            ) && self.order@.contains(a) && !self.order@.contains(b) && Some(space) != Some(a)
                implies self.root.stored().count(Point { space: b, color: shown(self.image@[a.0 as int]) }) > 0 by {
            assert(prev.order@.contains(a));
            assert(!prev.order@.contains(b));
            assert(a.0 != space.0);
            assert(self.image@[a.0 as int] == prev.image@[a.0 as int]);
            assert(None::<SpacePoint> != Some(a));
        }
    }

    /// Gives the next color of the sequence to the frontier point `p`: paints its
    /// position, drops the frontier entries of that position, one per placed neighbor,
    /// and adds its free neighbors with the new color.
    #[verifier::rlimit(60)]
    #[verifier::spinoff_prover]
    fn place(&mut self, p: Point, color: ColorPoint, point_pool: &mut Vec<Vec<Point>>)
        requires
            old(self).wf(),
            old(self).root.stored().count(p) > 0,
            !old(self).written_spaces@[p.space.0 as int],
            old(self).current_color_idx < old(self).colors.len(),
            color == old(self).colors@[old(self).current_color_idx as int],
        ensures
            final(self).wf(),
            final(self).order@ == old(self).order@.push(p.space),
            final(self).seeded@ == old(self).seeded@.push(false),
            final(self).colors == old(self).colors,
            final(self).width == old(self).width,
            final(self).height == old(self).height,
    {
        let space = p.space;
        proof {
            assert(in_grid(space, self.width as int, self.height as int));
            lemma_valid_offset(space);
            assert(!self.order@.contains(space));
        }
        let o = space.offset();
        self.current_color_idx += 1;
        self.writing_spaces.test_and_set(o);
        self.image.write(&space, &color);
        self.written_spaces.test_and_set(o);
        let ghost before = self.order@;
        self.order = Ghost(self.order@.push(space));
        self.seeded = Ghost(self.seeded@.push(false));
        proof {
            assert forall|q: int| 0 <= q < PIXELS implies #[trigger] self.written_spaces@[q]
                == self.image@[q] is Some by {
                if q != o {
                    assert(old(self).written_spaces@[q] == old(self).image@[q] is Some);
                }
            }
            self.lemma_after_placement(before, space, color);
            self.lemma_frontier_after_placement(old(self), space, color);
        }
        let mut nbrs: Vec<SpacePoint> = Vec::with_capacity(4);
        self.drop_candidates(&space, &color, &mut nbrs, point_pool);
        self.add_neighbors(&space, &color, &mut nbrs, point_pool);
    }

    /// Drops every frontier entry of the just placed `space`: for each placed neighbor,
    /// all entries of `space` with that neighbor's color. Leaves in `nbrs` the grid
    /// neighbors of `space`.
    fn drop_candidates(
        &mut self,
        space: &SpacePoint,
        color: &ColorPoint,
        nbrs: &mut Vec<SpacePoint>,
        point_pool: &mut Vec<Vec<Point>>,
    )
        requires
            old(self).wf_core(),
            old(self).root.stored().len() + 4 <= 4 * old(self).current_color_idx,
            old(self).order@.len() > 0,
            old(self).order@.last() == *space,
            old(self).frontier_except(Some(*space)),
            old(self).image@[space.0 as int] == Some(*color),
            old(self).live_except(Some(*space)),
        ensures
            final(self).wf_core(),
            final(self).same_but_frontier(old(self)),
            final(self).root.stored().len() + 4 <= 4 * final(self).current_color_idx,
            final(self).frontier_except(Some(*space)),
            final(self).live_except(None),
            forall|q: Point|
                #[trigger] final(self).root.stored().count(q) == if q.space == *space {
                    0
                } else {
                    old(self).root.stored().count(q)
                },
    {
        let ghost order = self.order@;
        let ghost start = self.root.stored();
        proof {
            assert(in_grid(order[order.len() - 1], self.width as int, self.height as int));
            lemma_neighbors(*space);
        }
        space.get_neighbors(nbrs);
        let mut i: usize = 0;
        while i < nbrs.len()
            invariant
                self.wf_core(),
                self.same_but_frontier(old(self)),
                order == self.order@,
                self.root.stored().len() + 4 <= 4 * self.current_color_idx,
                order.len() > 0,
                order.last() == *space,
                self.frontier_except(Some(*space)),
                i <= nbrs.len(),
                nbrs@ == neighbors_of(space.spec_x(), space.spec_y()),
                forall|k: int| 0 <= k < nbrs.len() ==> (#[trigger] nbrs@[k]).valid(),
                forall|q: Point| q.space != *space ==> #[trigger] self.root.stored().count(q) == start.count(q),
                forall|q: Point|
                    #[trigger] self.root.stored().count(q) > 0 ==> !order.contains(q.space) || (q.space
                        == *space && forall|k: int|
                        0 <= k < i && self.written_spaces@[(#[trigger] nbrs@[k]).0 as int] ==> q.color
                            != shown(self.image@[nbrs@[k].0 as int])),
            decreases nbrs.len() - i,
        {
            let n = nbrs[i];
            let no = n.offset();
            proof {
                lemma_valid_offset(n);
            }
            if self.written_spaces.test(no) {
                let c = self.image.color_at(no);
                let pt = Point::new(*space, c);
                while self.root.has_point(&pt)
                    invariant
                        self.wf_core(),
                        self.same_but_frontier(old(self)),
                        order == self.order@,
                        self.root.stored().len() + 4 <= 4 * self.current_color_idx,
                        order.len() > 0,
                        order.last() == *space,
                        self.frontier_except(Some(*space)),
                        pt == (Point { space: *space, color: c }),
                        forall|q: Point| q.space != *space ==> #[trigger] self.root.stored().count(q) == start.count(q),
                        forall|q: Point|
                            #[trigger] self.root.stored().count(q) > 0 ==> !order.contains(q.space) || (q.space
                                == *space && forall|k: int|
                                0 <= k < i && self.written_spaces@[(#[trigger] nbrs@[k]).0 as int] ==> q.color
                                    != shown(self.image@[nbrs@[k].0 as int])),
                    decreases self.root.stored().len(),
                {
                    let ghost prev = self.root.stored();
                    self.root.remove(pt, point_pool);
                    proof {
                        assert forall|q: Point| #[trigger] self.root.stored().count(q) > 0 implies prev.count(q) > 0 by {}
                        assert forall|q: Point| q != pt && prev.count(q) > 0 implies #[trigger] self.root.stored().count(q) > 0 by {}
                        assert(self.root.stored().insert(pt) =~= prev);
                        assert forall|a: SpacePoint, b: SpacePoint|
                            #[trigger] adjacent(a, b) && in_grid(a, self.width as int, self.height as int) && in_grid(
                                b,
                                self.width as int,
                                self.height as int,
                            ) && self.order@.contains(a) && !self.order@.contains(b) && Some(*space) != Some(a)
                                implies self.root.stored().count(Point { space: b, color: shown(self.image@[a.0 as int]) }) > 0 by {
                            assert(b != *space);
                        }
                    }
                }
            }
            i += 1;
        }
        proof {
            assert forall|q: Point| #[trigger] self.root.stored().count(q) > 0 implies !order.contains(q.space) by {
                if order.contains(q.space) {
                    assert(q.space == *space);
                    let i0 = choose|i0: int| 0 <= i0 < order.len() && #[trigger] adjacent(order[i0], q.space) && self.colors@[i0] == q.color;
                    let n0 = order[i0];
                    assert(in_grid(n0, self.width as int, self.height as int));
                    assert(adjacent(*space, n0));
                    lemma_neighbors_complete(*space, n0);
                    let k = choose|k: int| 0 <= k < nbrs.len() && nbrs@[k] == n0;
                    assert(order.contains(n0));
                    assert(self.written_spaces@[n0.0 as int]);
                    assert(self.image@[n0.0 as int] == Some(self.colors@[i0]));
                    assert(self.written_spaces@[(nbrs@[k]).0 as int]);
                }
            }
            assert forall|q: Point|
                #[trigger] self.root.stored().count(q) == if q.space == *space {
                    0
                } else {
                    start.count(q)
                } by {
                if q.space == *space && self.root.stored().count(q) > 0 {
                    assert(order[order.len() - 1] == *space);
                    assert(order.contains(q.space));
                }
            }
        }
    }

    /// With an empty frontier and at least one placement, every grid position is
    /// placed; when the grid can hold `n` placements and `n` is not reached yet, this
    /// cannot happen.
    proof fn lemma_empty_frontier(&self, n: int)
        requires
            self.wf(),
            self.order@.len() > 0,
            self.root.stored().len() == 0,
        ensures
            forall|s: SpacePoint|
                in_grid(s, self.width as int, self.height as int) ==> #[trigger] self.order@.contains(s),
            self.order@.len() < n <= self.width * self.height ==> false,
    {
        assert forall|s: SpacePoint|
            in_grid(s, self.width as int, self.height as int) implies #[trigger] self.order@.contains(s) by {
            if !self.order@.contains(s) {
                let first = self.order@[0];
                assert(self.order@[0] == first);
                assert(self.order@.contains(first));
                lemma_edge(self.order@, self.width as int, self.height as int, first, s);
                let (c, d) = choose|c: SpacePoint, d: SpacePoint|
                    #[trigger] adjacent(c, d) && in_grid(c, self.width as int, self.height as int)
                        && in_grid(d, self.width as int, self.height as int) && self.order@.contains(c)
                        && !self.order@.contains(d);
                assert(None::<SpacePoint> != Some(c));
                assert(self.root.stored().count(Point { space: d, color: shown(self.image@[c.0 as int]) }) > 0);
            }
        }
        lemma_full_grid(self.order@, self.width as int, self.height as int);
    }

    /// One step of growth for the next color `k` of the sequence: `k` goes to the
    /// position of the frontier entry whose candidate color is nearest to `k`, and that
    /// entry is returned. With an empty frontier nothing changes.
    pub fn grow_one(&mut self, point_pool: &mut Vec<Vec<Point>>) -> (taken: Option<Point>)
        requires
            old(self).wf(),
            old(self).placed().len() < old(self).spec_colors().len(),
        ensures
            final(self).wf(),
            final(self).spec_colors() == old(self).spec_colors(),
            final(self).spec_width() == old(self).spec_width(),
            final(self).spec_height() == old(self).spec_height(),
            taken is None <==> old(self).frontier().len() == 0,
            taken matches Some(p) ==> {
                let k = old(self).spec_colors()[old(self).placed().len() as int];
                &&& final(self).placed() == old(self).placed().push(p.space)
                &&& final(self).seeds() == old(self).seeds().push(false)
                &&& final(self).pixels()[p.space.0 as int] == Some(k)
                &&& !old(self).placed().contains(p.space)
                &&& old(self).frontier().count(p) > 0
                &&& fed_by(old(self).placed(), old(self).spec_colors(), old(self).placed().len() as int, p)
                &&& forall|q: Point| #[trigger]
                    old(self).frontier().count(q) > 0 ==> dist2(q.color, k) >= dist2(p.color, k)
                        && !beats(q, p, k)
            },
            taken is None ==> final(self).placed() == old(self).placed() && final(self).seeds()
                == old(self).seeds() && final(self).pixels() == old(self).pixels()
                && final(self).frontier() == old(self).frontier(),
    {
        let color = self.colors[self.current_color_idx];
        match self.root.find_nearest(&color) {
            None => None,
            Some(p) => {
                proof {
                    assert(in_grid(p.space, self.width as int, self.height as int));
                    lemma_valid_offset(p.space);
                    assert(!self.order@.contains(p.space));
                }
                self.place(p, color, point_pool);
                proof {
                    let j = self.order@.len() - 1;
                    assert(self.order@[j] == p.space);
                }
                Some(p)
            },
        }
    }

    /// Places colors of the sequence, each at the frontier position whose candidate
    /// color is nearest, until `pixel_count` colors are placed or the frontier is empty.
    pub fn grow_pixels_to(&mut self, pixel_count: usize)
        requires
            old(self).wf(),
            old(self).placed().len() > 0,
            pixel_count <= old(self).spec_colors().len(),
        ensures
            final(self).wf(),
            final(self).spec_colors() == old(self).spec_colors(),
            final(self).spec_width() == old(self).spec_width(),
            final(self).spec_height() == old(self).spec_height(),
            final(self).placed().len() >= old(self).placed().len(),
            final(self).placed().subrange(0, old(self).placed().len() as int) == old(self).placed(),
            final(self).seeds().subrange(0, old(self).placed().len() as int) == old(self).seeds(),
            forall|j: int|
                old(self).placed().len() <= j < final(self).placed().len() ==> !#[trigger] final(self).seeds()[j],
            old(self).placed().len() <= pixel_count ==> final(self).placed().len() <= pixel_count,
            final(self).placed().len() < pixel_count ==> forall|s: SpacePoint|
                in_grid(s, final(self).spec_width(), final(self).spec_height()) ==> #[trigger] final(self).placed().contains(s),
            old(self).placed().len() <= pixel_count <= old(self).spec_width() * old(self).spec_height()
                ==> final(self).placed().len() == pixel_count,
    {
        let mut point_pool: Vec<Vec<Point>> = Vec::new();
        let ghost start = *self;
        proof {
            assert(self.order@.subrange(0, start.order@.len() as int) =~= start.order@);
            assert(self.seeded@.subrange(0, start.order@.len() as int) =~= start.seeded@);
        }
        while self.current_color_idx < pixel_count
            invariant
                start == *old(self),
                start.order@.len() > 0,
                self.wf(),
                pixel_count <= self.colors.len(),
                self.colors@ == start.colors@,
                self.width == start.width,
                self.height == start.height,
                self.order@.len() >= start.order@.len(),
                self.order@.subrange(0, start.order@.len() as int) == start.order@,
                self.seeded@.subrange(0, start.order@.len() as int) == start.seeded@,
                forall|j: int| start.order@.len() <= j < self.order@.len() ==> !#[trigger] self.seeded@[j],
                start.order@.len() <= pixel_count ==> self.order@.len() <= pixel_count,
            decreases pixel_count - self.current_color_idx,
        {
            let ghost prev_order = self.order@;
            let ghost prev_seeded = self.seeded@;
            match self.grow_one(&mut point_pool) {
                Some(_) => {
                    proof {
                        assert(self.order@.subrange(0, start.order@.len() as int) =~= prev_order.subrange(0, start.order@.len() as int));
                        assert(self.seeded@.subrange(0, start.order@.len() as int) =~= prev_seeded.subrange(0, start.order@.len() as int));
                    }
                },
                None => {
                    proof {
                        self.lemma_empty_frontier(pixel_count as int);
                    }
                    return;
                },
            }
        }
    }
}

/// What a generator's state records of a run: no position is placed twice; the
/// completion bitmap has exactly one set bit per placement; the `j`-th placed pixel
/// shows color `j` of the sequence; every placement that is not a seed is next to an
/// earlier placement; every frontier entry lies on the grid next to a placed pixel of
/// its candidate color and is for an unplaced position; and every free grid cell next to a placed pixel has an entry
/// with that pixel's color. The choice of the nearest entry is stated by `grow_one`.
pub proof fn lemma_placement_record(g: &ColorGenerator)
    requires
        g.wf(),
    ensures
        1 <= g.spec_width() <= 4096,
        1 <= g.spec_height() <= 4096,
        g.pixels().len() == PIXELS,
        g.written().len() == PIXELS,
        forall|o: int| 0 <= o < PIXELS ==> (#[trigger] g.written()[o] <==> g.pixels()[o] is Some),
        forall|s: SpacePoint| s.valid() ==> (g.written()[s.0 as int] <==> #[trigger] g.placed().contains(s)),
        forall|j: int|
            0 <= j < g.placed().len() ==> in_grid(#[trigger] g.placed()[j], g.spec_width(), g.spec_height()),
        forall|p: Point|
            #[trigger] g.frontier().count(p) > 0 ==> in_grid(p.space, g.spec_width(), g.spec_height())
                && !g.placed().contains(p.space) && fed_by(g.placed(), g.spec_colors(), g.placed().len() as int, p),
        forall|a: SpacePoint, b: SpacePoint|
            #[trigger] adjacent(a, b) && in_grid(a, g.spec_width(), g.spec_height()) && in_grid(
                b,
                g.spec_width(),
                g.spec_height(),
            ) && g.placed().contains(a) && !g.placed().contains(b) ==> g.frontier().count(
                Point { space: b, color: shown(g.pixels()[a.0 as int]) },
            ) > 0,
        g.placed().no_duplicates(),
        Set::new(|o: int| 0 <= o < PIXELS && g.written()[o]).len() == g.placed().len(),
        forall|j: int|
            0 <= j < g.placed().len() ==> g.pixels()[(#[trigger] g.placed()[j]).0 as int] == Some(
                g.spec_colors()[j],
            ),
        forall|j: int|
            0 <= j < g.placed().len() && !g.seeds()[j] ==> touches_placed(
                g.placed(),
                j,
                #[trigger] g.placed()[j],
            ),
{
    let order = g.order@;
    assert forall|a: SpacePoint, b: SpacePoint|
        #[trigger] adjacent(a, b) && in_grid(a, g.spec_width(), g.spec_height()) && in_grid(
            b,
            g.spec_width(),
            g.spec_height(),
        ) && g.placed().contains(a) && !g.placed().contains(b) implies g.frontier().count(
            Point { space: b, color: shown(g.pixels()[a.0 as int]) },
        ) > 0 by {
        assert(None::<SpacePoint> != Some(a));
    }
    let offs = order.map_values(|s: SpacePoint| s.0 as int);
    assert forall|a: int, b: int| 0 <= a < offs.len() && 0 <= b < offs.len() && a != b implies offs[a] != offs[b] by {
        assert(order[a] != order[b]);
    }
    assert(offs.no_duplicates());
    offs.unique_seq_to_set();
    let written = Set::new(|o: int| 0 <= o < PIXELS && g.written()[o]);
    assert forall|o: int| written.contains(o) <==> #[trigger] offs.to_set().contains(o) by {
        if written.contains(o) {
            let s = SpacePoint(o as u32);
            assert(s.valid());
            assert(order.contains(s));
            let j = choose|j: int| 0 <= j < order.len() && order[j] == s;
            assert(offs[j] == o);
            assert(offs.contains(o));
        }
        if offs.to_set().contains(o) {
            assert(offs.contains(o));
            let j = choose|j: int| 0 <= j < offs.len() && offs[j] == o;
            let s = order[j];
            assert(in_grid(s, g.width as int, g.height as int));
            assert(order.contains(s));
        }
    }
    assert(written =~= offs.to_set());
}
} // verus!
