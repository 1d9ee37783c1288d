//! Bitmaps: the pixel type, the mathematical model of an image and the
//! executable image with its accessors.

use vstd::prelude::*;

verus! {

/// One RGBA pixel, eight bits per channel.
#[derive(Clone, Copy, Debug, PartialEq, Eq, Structural)]
pub struct Pixel {
    pub r: u8,
    pub g: u8,
    pub b: u8,
    pub a: u8,
}

/// The mathematical model of an image: its size and its pixels, row by row.
pub struct Bitmap {
    pub width: nat,
    pub height: nat,
    pub pixels: Seq<Pixel>,
}

impl Bitmap {
    /// The pixel sequence has one entry per position.
    pub open spec fn wf(self) -> bool {
        self.pixels.len() == self.width * self.height
    }

    /// `(x, y)` is a position of the bitmap.
    pub open spec fn holds(self, x: int, y: int) -> bool {
        0 <= x < self.width && 0 <= y < self.height
    }

    /// The pixel at column `x` of row `y`.
    pub open spec fn at(self, x: int, y: int) -> Pixel {
        self.pixels[y * self.width + x]
    }

    /// The bitmap of the given size whose pixel at `(x, y)` is `f(x, y)`.
    pub open spec fn build(width: nat, height: nat, f: spec_fn(int, int) -> Pixel) -> Bitmap {
        Bitmap {
            width,
            height,
            pixels: Seq::new(
                width * height,
                |i: int| if width > 0 { f(i % (width as int), i / (width as int)) } else { f(0, 0) },
            ),
        }
    }

    /// The part of `self` of the given size whose top left corner is `(x, y)`.
    pub open spec fn crop(self, x: int, y: int, width: nat, height: nat) -> Bitmap {
        Bitmap::build(width, height, |dx: int, dy: int| self.at(x + dx, y + dy))
    }

    /// Every pixel is `fill`.
    pub open spec fn uniform(self, fill: Pixel) -> bool {
        forall|i: int| 0 <= i < self.pixels.len() ==> self.pixels[i] == fill
    }
}

/// A position of a `width` by `height` bitmap has a row-major index below
/// `width * height`, and the index gives the position back.
pub proof fn lemma_position_index(x: int, y: int, width: int, height: int)
    requires
        0 <= x < width,
        0 <= y < height,
    ensures
        0 <= y * width + x < width * height,
        (y * width + x) % width == x,
        (y * width + x) / width == y,
{
    assert(y * width + width <= height * width) by (nonlinear_arith)
        requires
            0 <= y < height,
            0 < width,
    ;
    assert(0 <= y * width) by (nonlinear_arith)
        requires
            0 <= y,
            0 < width,
    ;
    assert(height * width == width * height) by (nonlinear_arith);
    vstd::arithmetic::div_mod::lemma_fundamental_div_mod_converse(y * width + x, width, y, x);
}

/// In an image whose sides fit sixteen bits, the row-major index of a
/// position fits thirty-two.
pub proof fn lemma_cell_fits(x: int, y: int, width: int, height: int)
    requires
        0 <= x < width <= 0xffff,
        0 <= y < height <= 0xffff,
    ensures
        0 <= y * width <= y * width + x < width * height <= 0xffff_ffff,
{
    lemma_position_index(x, y, width, height);
    assert(0 <= y * width) by (nonlinear_arith)
        requires
            0 <= y,
            0 < width,
    ;
    assert(width * height <= 0xffff * 0xffff) by (nonlinear_arith)
        requires
            0 < width <= 0xffff,
            0 < height <= 0xffff,
    ;
}

/// An index below `width * height` is the row-major index of a position.
pub proof fn lemma_index_position(i: int, width: int, height: int)
    requires
        0 <= i < width * height,
        0 < width,
    ensures
        0 <= i % width < width,
        0 <= i / width < height,
        (i / width) * width + i % width == i,
{
    vstd::arithmetic::div_mod::lemma_fundamental_div_mod(i, width);
    vstd::arithmetic::div_mod::lemma_mod_bound(i, width);
    let q = i / width;
    assert(width * q == q * width) by (nonlinear_arith);
    assert(q < height) by (nonlinear_arith)
        requires
            q * width + i % width == i,
            0 <= i % width,
            i < width * height,
            0 < width,
    ;
    assert(0 <= q) by (nonlinear_arith)
        requires
            q * width + i % width == i,
            i % width < width,
            0 <= i,
            0 < width,
    ;
}

/// `build` gives a well-formed bitmap whose pixel at `(x, y)` is `f(x, y)`.
pub proof fn lemma_build(width: nat, height: nat, f: spec_fn(int, int) -> Pixel)
    ensures
        Bitmap::build(width, height, f).wf(),
        Bitmap::build(width, height, f).width == width,
        Bitmap::build(width, height, f).height == height,
        forall|x: int, y: int|
            0 <= x < width && 0 <= y < height ==> #[trigger] Bitmap::build(width, height, f).at(
                x,
                y,
            ) == f(x, y),
{
    let b = Bitmap::build(width, height, f);
    assert forall|x: int, y: int| 0 <= x < width && 0 <= y < height implies #[trigger] b.at(x, y)
        == f(x, y) by {
        lemma_position_index(x, y, width as int, height as int);
    }
}

/// Two well-formed bitmaps of one size with the same pixel at every position
/// are equal.
pub proof fn lemma_bitmap_ext(a: Bitmap, b: Bitmap)
    requires
        a.wf(),
        b.wf(),
        a.width == b.width,
        a.height == b.height,
        forall|x: int, y: int| a.holds(x, y) ==> a.at(x, y) == b.at(x, y),
    ensures
        a == b,
{
    assert forall|i: int| 0 <= i < a.pixels.len() implies a.pixels[i] == b.pixels[i] by {
        if a.width > 0 {
            lemma_index_position(i, a.width as int, a.height as int);
            let x = i % (a.width as int);
            let y = i / (a.width as int);
            assert(a.holds(x, y));
            assert(a.at(x, y) == b.at(x, y));
        } else {
            assert(a.width * a.height == 0) by (nonlinear_arith)
                requires
                    a.width == 0,
            ;
        }
    }
    assert(a.pixels =~= b.pixels);
}

/// An image: `width * height` pixels, stored row by row.
#[derive(Clone, Debug)]
pub struct Image {
    width: u16,
    height: u16,
    pixels: Vec<Pixel>,
}

impl View for Image {
    type V = Bitmap;

    open spec fn view(&self) -> Bitmap {
        Bitmap { width: self.spec_width() as nat, height: self.spec_height() as nat, pixels: self.spec_pixels() }
    }
}

impl Image {
    pub closed spec fn spec_width(&self) -> u16 {
        self.width
    }

    pub closed spec fn spec_height(&self) -> u16 {
        self.height
    }

    pub closed spec fn spec_pixels(&self) -> Seq<Pixel> {
        self.pixels@
    }

    /// The stored pixels match the stated size.
    pub open spec fn wf(&self) -> bool {
        self@.wf()
    }

    /// An image of the given size with every pixel set to `fill`.
    pub fn new(width: u16, height: u16, fill: Pixel) -> (img: Image)
        ensures
            img.wf(),
            img@.width == width,
            img@.height == height,
            img@.uniform(fill),
    {
        let total: usize = Self::area(width, height);
        let mut pixels: Vec<Pixel> = Vec::new();
        let mut i: usize = 0;
        while i < total
            invariant
                i <= total,
                pixels@.len() == i,
                forall|k: int| 0 <= k < i ==> pixels@[k] == fill,
            decreases total - i,
        {
            pixels.push(fill);
            i = i + 1;
        }
        Image { width, height, pixels }
    }

    /// The image of the given size over `pixels`, taken row by row; `None`
    /// unless there is exactly one pixel per position.
    pub fn from_pixels(width: u16, height: u16, pixels: Vec<Pixel>) -> (out: Option<Image>)
        ensures
            out is Some <==> pixels@.len() == width * height,
            out matches Some(img) ==> img.wf() && img@ == (Bitmap {
                width: width as nat,
                height: height as nat,
                pixels: pixels@,
            }),
    {
        let total: usize = Self::area(width, height);
        if pixels.len() == total {
            Some(Image { width, height, pixels })
        } else {
            None
        }
    }

    /// The number of positions of a `width` by `height` image.
    fn area(width: u16, height: u16) -> (total: usize)
        ensures
            total == width * height,
    {
        assert(width * height <= 0xffff * 0xffff) by (nonlinear_arith)
            requires
                width <= 0xffff,
                height <= 0xffff,
        ;
        (width as usize) * (height as usize)
    }

    pub fn width(&self) -> (w: u16)
        ensures
            w == self@.width,
    {
        self.width
    }

    pub fn height(&self) -> (h: u16)
        ensures
            h == self@.height,
    {
        self.height
    }

    /// The pixel at column `x` of row `y`.
    pub fn get_pixel(&self, x: u32, y: u32) -> (p: Pixel)
        requires
            self.wf(),
            self@.holds(x as int, y as int),
        ensures
            p == self@.at(x as int, y as int),
    {
        proof {
            lemma_cell_fits(x as int, y as int, self.width as int, self.height as int);
        }
        self.pixels[(y as usize) * (self.width as usize) + (x as usize)]
    }

    /// Sets the pixel at column `x` of row `y`, and no other.
    pub fn set_pixel(&mut self, x: u32, y: u32, p: Pixel)
        requires
            old(self).wf(),
            old(self)@.holds(x as int, y as int),
        ensures
            final(self).wf(),
            final(self)@.width == old(self)@.width,
            final(self)@.height == old(self)@.height,
            final(self)@.pixels == old(self)@.pixels.update(y * old(self)@.width + x, p),
    {
        proof {
            lemma_cell_fits(x as int, y as int, self.width as int, self.height as int);
        }
        let i: usize = (y as usize) * (self.width as usize) + (x as usize);
        self.pixels.set(i, p);
    }

    /// The pixels, row by row.
    pub fn get_image_data(&self) -> (data: &Vec<Pixel>)
        ensures
            data@ == self@.pixels,
    {
        &self.pixels
    }

    /// Whether the two images have the same size and the same pixels.
    pub fn same(&self, other: &Image) -> (eq: bool)
        ensures
            eq == (self@ == other@),
    {
        if self.width != other.width || self.height != other.height {
            return false;
        }
        if self.pixels.len() != other.pixels.len() {
            return false;
        }
        let n: usize = self.pixels.len();
        let mut i: usize = 0;
        while i < n
            invariant
                i <= n,
                n == self.pixels@.len(),
                n == other.pixels@.len(),
                forall|k: int| 0 <= k < i ==> self.pixels@[k] == other.pixels@[k],
            decreases n - i,
        {
            if self.pixels[i] != other.pixels[i] {
                return false;
            }
            i = i + 1;
        }
        assert(self.pixels@ =~= other.pixels@);
        true
    }

    /// A copy of the image.
    pub fn copy(&self) -> (img: Image)
        ensures
            img@ == self@,
    {
        let n: usize = self.pixels.len();
        let mut pixels: Vec<Pixel> = Vec::new();
        let mut i: usize = 0;
        while i < n
            invariant
                i <= n,
                n == self.pixels@.len(),
                pixels@ == self.pixels@.subrange(0, i as int),
            decreases n - i,
        {
            pixels.push(self.pixels[i]);
            assert(pixels@ =~= self.pixels@.subrange(0, i + 1));
            i = i + 1;
        }
        assert(pixels@ =~= self.pixels@);
        Image { width: self.width, height: self.height, pixels }
    }

    /// The `width` by `height` part of the image whose top left corner is
    /// `(x, y)`.
    pub fn sub_image(&self, x: u16, y: u16, width: u16, height: u16) -> (img: Image)
        requires
            self.wf(),
            x + width <= self@.width,
            y + height <= self@.height,
        ensures
            img.wf(),
            img@ == self@.crop(x as int, y as int, width as nat, height as nat),
    {
        let total: usize = Self::area(width, height);
        let ghost goal = self@.crop(x as int, y as int, width as nat, height as nat);
        let mut pixels: Vec<Pixel> = Vec::new();
        let mut dy: u16 = 0;
        assert(0 * width == 0) by (nonlinear_arith);
        while dy < height
            invariant
                self.wf(),
                goal.pixels.len() == width * height,
                x + width <= self@.width,
                y + height <= self@.height,
                dy <= height,
                total == width * height,
                goal == self@.crop(x as int, y as int, width as nat, height as nat),
                pixels@.len() == dy * width,
                forall|k: int| 0 <= k < pixels@.len() ==> pixels@[k] == goal.pixels[k],
            decreases height - dy,
        {
            let mut dx: u16 = 0;
            assert(dy * width + width <= width * height) by (nonlinear_arith)
                requires
                    dy < height,
                    0 <= width,
            ;
            while dx < width
                invariant
                    self.wf(),
                    x + width <= self@.width,
                    y + height <= self@.height,
                    dy < height,
                    dx <= width,
                    total == width * height,
                    goal.pixels.len() == width * height,
                    dy * width + width <= width * height,
                    goal == self@.crop(x as int, y as int, width as nat, height as nat),
                    pixels@.len() == dy * width + dx,
                    forall|k: int| 0 <= k < pixels@.len() ==> pixels@[k] == goal.pixels[k],
                decreases width - dx,
            {
                proof {
                    lemma_position_index(dx as int, dy as int, width as int, height as int);
                }
                let p = self.get_pixel((x + dx) as u32, (y + dy) as u32);
                pixels.push(p);
                dx = dx + 1;
            }
            assert(dy * width + width == (dy + 1) * width) by (nonlinear_arith);
            dy = dy + 1;
        }
        assert(height * width == width * height) by (nonlinear_arith);
        assert(pixels@ =~= goal.pixels);
        Image { width, height, pixels }
    }
}

} // verus!
