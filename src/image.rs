use vstd::prelude::*;

use crate::atomicbitmask::AtomicBitMask;
use crate::points::{ColorPoint, SpacePoint};

verus! {

/// Number of pixels of the image.
pub const PIXELS: usize = 16777216;

/// A 4096 x 4096 RGB buffer in which each pixel is written at most once.
pub struct Image {
    r: Vec<u8>,
    g: Vec<u8>,
    b: Vec<u8>,
    written: AtomicBitMask,
}

/// The color of a pixel that has not been written.
pub open spec fn black() -> ColorPoint {
    ColorPoint { r: 0, g: 0, b: 0 }
}

impl View for Image {
    /// For each pixel offset, the color written there, if any.
    type V = Seq<Option<ColorPoint>>;

    closed spec fn view(&self) -> Seq<Option<ColorPoint>> {
        Seq::new(
            PIXELS as nat,
            |o: int|
                if self.written@[o] {
                    Some(ColorPoint { r: self.r@[o], g: self.g@[o], b: self.b@[o] })
                } else {
                    None
                },
        )
    }
}

/// The color a pixel shows in the raw buffer.
pub open spec fn shown(p: Option<ColorPoint>) -> ColorPoint {
    match p {
        Some(c) => c,
        None => black(),
    }
}

/// An image has one entry per pixel.
pub proof fn lemma_image_len(img: &Image)
    ensures
        img@.len() == PIXELS,
{
}

/// A write fills one unwritten pixel and leaves every written pixel as it was; as
/// `write` needs its pixel unwritten, each offset is written at most once.
pub proof fn lemma_write_once(before: Seq<Option<ColorPoint>>, o: int, c: ColorPoint)
    requires
        0 <= o < before.len(),
        before[o] is None,
    ensures
        before.update(o, Some(c))[o] is Some,
        forall|q: int|
            0 <= q < before.len() && #[trigger] before[q] is Some ==> before.update(o, Some(c))[q]
                == before[q],
{
}

impl Image {
    pub closed spec fn wf(&self) -> bool {
        &&& self.r.len() == PIXELS
        &&& self.g.len() == PIXELS
        &&& self.b.len() == PIXELS
        &&& self.written.wf()
        &&& self.written@.len() == PIXELS
        &&& forall|o: int|
            0 <= o < PIXELS && !self.written@[o] ==> #[trigger] self.r@[o] == 0 && self.g@[o] == 0
                && self.b@[o] == 0
    }

    /// An image with no pixel written.
    pub fn new() -> (r: Image)
        ensures
            r.wf(),
            r@ == Seq::new(PIXELS as nat, |o: int| None::<ColorPoint>),
    {
        let mut r: Vec<u8> = Vec::with_capacity(PIXELS);
        let mut g: Vec<u8> = Vec::with_capacity(PIXELS);
        let mut b: Vec<u8> = Vec::with_capacity(PIXELS);
        let mut i: usize = 0;
        while i < PIXELS
            invariant
                i <= PIXELS,
                r.len() == i,
                g.len() == i,
                b.len() == i,
                forall|o: int| 0 <= o < i ==> r@[o] == 0 && g@[o] == 0 && b@[o] == 0,
            decreases PIXELS - i,
        {
            r.push(0);
            g.push(0);
            b.push(0);
            i += 1;
        }
        let img = Image { r, g, b, written: AtomicBitMask::new(PIXELS) };
        assert(img@ =~= Seq::new(PIXELS as nat, |o: int| None::<ColorPoint>));
        img
    }

    /// Stores the color of a pixel that has not been written yet.
    pub fn write(&mut self, space: &SpacePoint, color: &ColorPoint)
        requires
            old(self).wf(),
            old(self)@[space.spec_offset()] is None,
        ensures
            final(self).wf(),
            final(self)@.len() == PIXELS,
            final(self)@ == old(self)@.update(space.spec_offset(), Some(*color)),
    {
        let offset = space.offset();
        let was_written = self.written.test_and_set(offset);
        self.r.set(offset, color.r);
        self.g.set(offset, color.g);
        self.b.set(offset, color.b);
        assert(self@ =~= old(self)@.update(space.spec_offset(), Some(*color)));
    }

    /// The raw RGBA bytes of the image, row by row, with alpha 255.
    pub fn to_raw(&self) -> (ret: Vec<u8>)
        requires
            self.wf(),
        ensures
            ret.len() == 4 * PIXELS,
            forall|o: int|
                0 <= o < PIXELS ==> {
                    &&& ret@[4 * o] == shown(#[trigger] self@[o]).r
                    &&& ret@[4 * o + 1] == shown(self@[o]).g
                    &&& ret@[4 * o + 2] == shown(self@[o]).b
                    &&& ret@[4 * o + 3] == 255
                },
    {
        let mut ret: Vec<u8> = Vec::with_capacity(4 * PIXELS);
        let mut o: usize = 0;
        while o < PIXELS
            invariant
                self.wf(),
                o <= PIXELS,
                ret.len() == 4 * o,
                forall|q: int|
                    0 <= q < o ==> {
                        &&& ret@[4 * q] == shown(#[trigger] self@[q]).r
                        &&& ret@[4 * q + 1] == shown(self@[q]).g
                        &&& ret@[4 * q + 2] == shown(self@[q]).b
                        &&& ret@[4 * q + 3] == 255
                    },
            decreases PIXELS - o,
        {
            ret.push(self.r[o]);
            ret.push(self.g[o]);
            ret.push(self.b[o]);
            ret.push(255);
            o += 1;
        }
        ret
    }

    /// Whether the pixel at `position` has been written.
    pub fn has(&self, position: usize) -> (r: bool)
        requires
            self.wf(),
            position < PIXELS,
        ensures
            r == self@[position as int] is Some,
    {
        self.written.test(position)
    }

    /// The color shown at `position`.
    pub fn color_at(&self, position: usize) -> (c: ColorPoint)
        requires
            self.wf(),
            position < PIXELS,
        ensures
            c == shown(self@[position as int]),
    {
        ColorPoint::new(self.r[position], self.g[position], self.b[position])
    }
}

} // verus!
