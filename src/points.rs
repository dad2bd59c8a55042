use vstd::prelude::*;

verus! {


/// A pixel position packed as `y * 4096 + x`, with `x, y` in `[0, 4096)`.
#[derive(Clone, Copy, Debug, Hash, PartialEq, Eq, Structural, PartialOrd, Ord)]
pub struct SpacePoint(pub u32);

/// The packed position of `(x, y)`.
pub open spec fn pack_xy(x: int, y: int) -> u32 {
    (y * 4096 + x) as u32
}

impl SpacePoint {
    /// The column of the point.
    pub open spec fn spec_x(self) -> int {
        (self.0 % 4096) as int
    }

    /// The row of the point.
    pub open spec fn spec_y(self) -> int {
        ((self.0 / 4096) % 4096) as int
    }

    /// The point lies on the 4096 x 4096 grid.
    pub open spec fn valid(self) -> bool {
        self.0 < 16777216
    }

    /// The index of the point in a row-major 4096 x 4096 buffer.
    pub open spec fn spec_offset(self) -> int {
        self.spec_y() * 4096 + self.spec_x()
    }

    pub fn zero() -> (r: SpacePoint)
        ensures
            r.0 == 0,
    {
        SpacePoint(0)
    }

    pub fn new(x: u32, y: u32) -> (r: SpacePoint)
        requires
            x < 4096,
            y < 4096,
        ensures
            r.0 == y * 4096 + x,
            r.spec_x() == x,
            r.spec_y() == y,
            r.valid(),
    {
        assert((y << 12u32 | x) == y * 4096 + x) by (bit_vector)
            requires
                x < 4096u32,
                y < 4096u32,
        ;
        SpacePoint(y << 12 | x)
    }

    pub fn xy(&self) -> (r: (u32, u32))
        ensures
            r.0 == self.spec_x(),
            r.1 == self.spec_y(),
            r.0 < 4096,
            r.1 < 4096,
    {
        let v = self.0;
        let x = v & 4095;
        let y = (v >> 12) & 4095;
        assert(v & 4095u32 == v % 4096) by (bit_vector);
        assert((v >> 12u32) & 4095u32 == (v / 4096) % 4096) by (bit_vector);
        (x, y)
    }

    /// Writes into `ret` the 4-connected neighbors of the point that lie on the grid.
    pub fn get_neighbors(&self, ret: &mut Vec<SpacePoint>)
        ensures
            final(ret)@ == neighbors_of(self.spec_x(), self.spec_y()),
    {
        let (x, y) = self.xy();
        ret.clear();
        if x > 0 {
            ret.push(SpacePoint::new(x - 1, y));
        }
        if x < 4095 {
            ret.push(SpacePoint::new(x + 1, y));
        }
        if y > 0 {
            ret.push(SpacePoint::new(x, y - 1));
        }
        if y < 4095 {
            ret.push(SpacePoint::new(x, y + 1));
        }
        assert(ret@ =~= neighbors_of(x as int, y as int));
    }

    pub fn offset(&self) -> (r: usize)
        ensures
            r == self.spec_offset(),
            r == self.0 % 16777216,
            r < 16777216,
    {
        let (x, y) = self.xy();
        let v = self.0;
        assert(((((v >> 12u32) & 4095u32) << 12u32) | (v & 4095u32)) == v % 16777216) by (bit_vector);
        assert((v / 4096) % 4096 * 4096 + v % 4096 == v % 16777216) by (nonlinear_arith);
        (y * 4096 + x) as usize
    }
}

/// The grid neighbors of `(x, y)`, in the order left, right, up, down.
pub open spec fn neighbors_of(x: int, y: int) -> Seq<SpacePoint> {
    let left = if x > 0 { seq![SpacePoint(pack_xy(x - 1, y))] } else { Seq::empty() };
    let right = if x < 4095 { seq![SpacePoint(pack_xy(x + 1, y))] } else { Seq::empty() };
    let up = if y > 0 { seq![SpacePoint(pack_xy(x, y - 1))] } else { Seq::empty() };
    let down = if y < 4095 { seq![SpacePoint(pack_xy(x, y + 1))] } else { Seq::empty() };
    left + right + up + down
}

/// An RGB color, one byte per channel.
#[derive(Clone, Copy, Debug, Hash, PartialEq, Eq, Structural, PartialOrd, Ord)]
pub struct ColorPoint {
    pub r: u8,
    pub g: u8,
    pub b: u8,
}

/// The squared Euclidean distance between two colors.
pub open spec fn dist2(a: ColorPoint, b: ColorPoint) -> int {
    (a.r - b.r) * (a.r - b.r) + (a.g - b.g) * (a.g - b.g) + (a.b - b.b) * (a.b - b.b)
}

impl Default for ColorPoint {
    fn default() -> (r: Self)
        ensures
            r == (ColorPoint { r: 0, g: 0, b: 0 }),
    {
        ColorPoint::new(0, 0, 0)
    }
}

impl ColorPoint {
    pub fn new(r: u8, g: u8, b: u8) -> (c: ColorPoint)
        ensures
            c == (ColorPoint { r, g, b }),
    {
        ColorPoint { r, g, b }
    }

    /// The distance to another color, squared.
    pub fn distance_to(&self, other: &ColorPoint) -> (d: i32)
        ensures
            d == dist2(*self, *other),
            0 <= d <= 195075,
    {
        let dr = self.r as i32 - other.r as i32;
        let dg = self.g as i32 - other.g as i32;
        let db = self.b as i32 - other.b as i32;
        assert(0 <= dr * dr <= 65025) by (nonlinear_arith)
            requires
                -255 <= dr <= 255,
        ;
        assert(0 <= dg * dg <= 65025) by (nonlinear_arith)
            requires
                -255 <= dg <= 255,
        ;
        assert(0 <= db * db <= 65025) by (nonlinear_arith)
            requires
                -255 <= db <= 255,
        ;
        dr * dr + dg * dg + db * db
    }

    /// The index of the color in a table ordered by blue, then green, then red.
    pub fn offset(&self) -> (r: usize)
        ensures
            r == self.r + 256 * self.g + 65536 * self.b,
    {
        let r = self.r as u32;
        let g = self.g as u32;
        let b = self.b as u32;
        assert((r | (g << 8u32) | (b << 16u32)) == r + 256 * g + 65536 * b) by (bit_vector)
            requires
                r < 256u32,
                g < 256u32,
                b < 256u32,
        ;
        (r | (g << 8) | (b << 16)) as usize
    }
}

/// A fixed total order on points, by position and then by red, green and blue; it
/// settles which of two equally near points a nearest-color search returns.
pub open spec fn point_lt(a: Point, b: Point) -> bool {
    a.space.0 < b.space.0 || (a.space.0 == b.space.0 && (a.color.r < b.color.r || (a.color.r
        == b.color.r && (a.color.g < b.color.g || (a.color.g == b.color.g && a.color.b
        < b.color.b)))))
}

/// `a` is nearer to `c` than `b`, or as near and earlier in [`point_lt`] order.
pub open spec fn beats(a: Point, b: Point, c: ColorPoint) -> bool {
    dist2(a.color, c) < dist2(b.color, c) || (dist2(a.color, c) == dist2(b.color, c) && point_lt(
        a,
        b,
    ))
}

/// A frontier entry: a pixel position with one candidate color for it.
#[derive(Clone, Copy, Debug, Hash, PartialEq, Eq, Structural, PartialOrd, Ord)]
pub struct Point {
    pub space: SpacePoint,
    pub color: ColorPoint,
}

impl Point {
    pub fn new(space: SpacePoint, color: ColorPoint) -> (p: Point)
        ensures
            p == (Point { space, color }),
    {
        Point { space, color }
    }

    pub fn space(&self) -> (r: &SpacePoint)
        ensures
            *r == self.space,
    {
        &self.space
    }

    pub fn color(&self) -> (r: &ColorPoint)
        ensures
            *r == self.color,
    {
        &self.color
    }
}

} // verus!
