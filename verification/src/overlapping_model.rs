//! The overlapping model: every window of the sample is a pattern, and two
//! patterns are adjacent where their windows, one shifted by a cell, agree on
//! the cells that they share.

use crate::image::{
    lemma_bitmap_ext, lemma_build, lemma_index_position, lemma_position_index, Bitmap, Image, Pixel,
};
use crate::sampler::{all_square, gathered, lemma_absorb_same, offer, offered, views};
use crate::utils::{dir_dx, dir_dy, direction_offset, rotate_cw, rotations, AdjacencyData};
use crate::{Drawable, InvalidSourceDimensions, WfcPreprocessor};
use vstd::prelude::*;

verus! {

/// A catalog that paints each pattern as one colour.
#[derive(Clone, Debug)]
pub struct ColorPattern(pub Vec<Pixel>);

impl Drawable for ColorPattern {
    open spec fn count(&self) -> nat {
        self.0@.len()
    }

    fn len(&self) -> (n: usize) {
        self.0.len()
    }
}

impl ColorPattern {
    /// The colour of pattern `idx`.
    pub fn color(&self, idx: usize) -> (c: Pixel)
        requires
            idx < self.count(),
        ensures
            c == self.0@[idx as int],
    {
        self.0[idx]
    }
}

/// The `n` by `n` window of `src` whose top left corner is `(x, y)`; it goes
/// on at the opposite side where it leaves the sample.
pub open spec fn window(src: Bitmap, n: nat, x: int, y: int) -> Bitmap {
    Bitmap::build(
        n,
        n,
        |px: int, py: int| src.at((x + px) % (src.width as int), (y + py) % (src.height as int)),
    )
}

/// The number of window origins along a side of the sample that is `extent`
/// long: every position where windows wrap, else those that keep the window
/// inside. A window side below 1, or beyond what an image can have, leaves
/// none.
pub open spec fn origins(extent: nat, n: int, wrap: bool) -> nat {
    if n < 1 || n > 0xffff {
        0
    } else if wrap {
        extent
    } else if n <= extent {
        (extent - n + 1) as nat
    } else {
        0
    }
}

/// The windows of `src` in the order of their origins: column by column, and
/// down each column of `rows` origins.
pub open spec fn window_at(src: Bitmap, n: nat, rows: nat) -> spec_fn(int) -> Bitmap {
    |k: int| window(src, n, k / (rows as int), k % (rows as int))
}

/// The patterns of the sample `src`: its distinct windows, in the order in
/// which they are first seen.
pub open spec fn sampled(src: Bitmap, n: int, wrap_w: bool, wrap_h: bool, rotate: bool) -> Seq<
    Bitmap,
> {
    let columns = origins(src.width, n, wrap_w);
    let rows = origins(src.height, n, wrap_h);
    gathered(window_at(src, n as nat, rows), rotate, columns * rows)
}

/// Pattern `b`, shifted by one cell in direction `dir`, agrees with pattern
/// `a` on every cell that the two `n` by `n` windows share.
pub open spec fn agrees(a: Bitmap, b: Bitmap, n: int, dir: int) -> bool {
    forall|x: int, y: int|
        0 <= x < n && 0 <= y < n && 0 <= x + dir_dx(dir) < n && 0 <= y + dir_dy(dir) < n
            ==> #[trigger] b.at(x, y) == a.at(x + dir_dx(dir), y + dir_dy(dir))
}

/// Builds the catalog and the adjacency table of the overlapping model.
#[derive(Debug)]
pub struct OverlappingPreprocessor {
    n: isize,
    wrap_w: bool,
    wrap_h: bool,
    rotate: bool,
}

impl OverlappingPreprocessor {
    /// The window side.
    pub closed spec fn n(&self) -> int {
        self.n as int
    }

    /// Whether windows wrap from the right side of the sample to the left.
    pub closed spec fn wrap_w(&self) -> bool {
        self.wrap_w
    }

    /// Whether windows wrap from the bottom of the sample to the top.
    pub closed spec fn wrap_h(&self) -> bool {
        self.wrap_h
    }

    /// Whether the turns of each window are patterns too.
    pub closed spec fn rotate(&self) -> bool {
        self.rotate
    }

    /// The side of the patterns that are extracted: the window side, or 0
    /// where no window can be had.
    pub open spec fn side(&self) -> nat {
        if 1 <= self.n() <= 0xffff {
            self.n() as nat
        } else {
            0
        }
    }

    /// A builder for `n` by `n` windows.
    pub fn new(n: isize, wrap_w: bool, wrap_h: bool, rotate: bool) -> (made: Self)
        ensures
            made.n() == n,
            made.wrap_w() == wrap_w,
            made.wrap_h() == wrap_h,
            made.rotate() == rotate,
    {
        Self { n, wrap_w, wrap_h, rotate }
    }

    /// The number of origins along a side of the sample that is `extent`
    /// long.
    fn count_origins(&self, extent: u16, wrap: bool) -> (count: u16)
        ensures
            count == origins(extent as nat, self.n(), wrap),
    {
        if self.n < 1 || self.n > 0xffff {
            0
        } else if wrap {
            extent
        } else if self.n <= extent as isize {
            extent - (self.n as u16) + 1
        } else {
            0
        }
    }

}

impl WfcPreprocessor for OverlappingPreprocessor {
    type Pattern = ColorPattern;

    /// The distinct windows of the sample, in the order in which they are
    /// first seen; no sample is refused.
    open spec fn patterns_of(&self, sample: Bitmap) -> Option<Seq<Bitmap>> {
        Some(sampled(sample, self.n(), self.wrap_w(), self.wrap_h(), self.rotate()))
    }

    /// The images are well-formed squares of the window side.
    open spec fn accepts(&self, images: Seq<Image>) -> bool {
        all_square(images, self.side()) && (self.side() == 0 ==> images.len() == 0)
    }

    /// Each pattern is shown in the colour of its top left cell.
    open spec fn shows(&self, catalog: &ColorPattern, patterns: Seq<Bitmap>) -> bool {
        forall|i: int| 0 <= i < patterns.len() ==> catalog.0@[i] == (#[trigger] patterns[i]).at(0, 0)
    }

    /// `b`, shifted by one cell in direction `dir`, agrees with `a` where
    /// the two windows overlap.
    open spec fn adjacent(&self, a: Bitmap, b: Bitmap, dir: int) -> bool {
        agrees(a, b, self.side() as int, dir)
    }

    /// The patterns of the sample: its distinct windows, in the order in
    /// which they are first seen.
    fn extract_images(&self, image: &Image) -> (out: Result<Vec<Image>, InvalidSourceDimensions>) {
        let columns: u16 = self.count_origins(image.width(), self.wrap_w);
        let rows: u16 = self.count_origins(image.height(), self.wrap_h);
        let mut images: Vec<Image> = Vec::new();
        if columns == 0 || rows == 0 {
            assert(columns * rows == 0) by (nonlinear_arith)
                requires
                    columns == 0 || rows == 0,
            ;
            assert(views(images@) =~= Seq::<Bitmap>::empty());
            return Ok(images);
        }
        let n: u16 = self.n as u16;
        let ghost windows = window_at(image@, n as nat, rows as nat);
        let rotate: bool = self.rotate;
        assert(views(images@) =~= gathered(windows, rotate, 0));
        assert(0 * rows == 0) by (nonlinear_arith);
        let mut x: u16 = 0;
        while x < columns
            invariant
                image.wf(),
                image@.width > 0,
                image@.height > 0,
                1 <= n,
                n == self.side(),
                rows > 0,
                x <= columns,
                windows == window_at(image@, n as nat, rows as nat),
                views(images@) == gathered(windows, rotate, (x * rows) as nat),
                all_square(images@, n as nat),
            decreases columns - x,
        {
            let mut y: u16 = 0;
            while y < rows
                invariant
                    image.wf(),
                    image@.width > 0,
                    image@.height > 0,
                    1 <= n,
                    rows > 0,
                    x < columns,
                    y <= rows,
                    windows == window_at(image@, n as nat, rows as nat),
                    views(images@) == gathered(windows, rotate, (x * rows + y) as nat),
                    all_square(images@, n as nat),
                decreases rows - y,
            {
                let img = get_pattern_image(image, n, x, y);
                proof {
                    lemma_position_index(y as int, x as int, rows as int, columns as int);
                    assert(windows(x * rows + y) == img@);
                    assert(x * rows >= 0) by (nonlinear_arith)
                        requires
                            x >= 0,
                            rows >= 0,
                    ;
                }
                offer(&mut images, img, rotate);
                y = y + 1;
            }
            assert(x * rows + rows == (x + 1) * rows) by (nonlinear_arith);
            x = x + 1;
        }
        Ok(images)
    }

    /// The catalog of the patterns: each is painted in the colour of its top
    /// left cell.
    fn create_patterns(&self, images: &Vec<Image>) -> (patterns: ColorPattern) {
        let mut colors: Vec<Pixel> = Vec::new();
        let mut i: usize = 0;
        assert forall|j: int| 0 <= j < images@.len() implies (#[trigger] images@[j]).wf()
            && images@[j]@.holds(0, 0) by {
            assert(self.side() >= 1);
        }
        while i < images.len()
            invariant
                i <= images@.len(),
                colors@.len() == i,
                forall|j: int|
                    0 <= j < images@.len() ==> (#[trigger] images@[j]).wf() && images@[j]@.holds(
                        0,
                        0,
                    ),
                forall|j: int| 0 <= j < i ==> colors@[j] == images@[j]@.at(0, 0),
            decreases images@.len() - i,
        {
            colors.push(images[i].get_pixel(0, 0));
            i = i + 1;
        }
        let patterns = ColorPattern(colors);
        proof {
            let found = views(images@);
            assert forall|j: int| 0 <= j < found.len() implies patterns.0@[j] == (
            #[trigger] found[j]).at(0, 0) by {
                assert(found[j] == images@[j]@);
            }
        }
        patterns
    }

    /// The adjacency table of the patterns: `a` admits `b` in a direction
    /// exactly if `b`, shifted that way by one cell, agrees with `a` where
    /// their windows overlap.
    fn create_adjacency_rules(&self, images: &Vec<Image>) -> (table: AdjacencyData) {
        let side: u16 = if 1 <= self.n && self.n <= 0xffff {
            self.n as u16
        } else {
            0
        };
        overlap_rules(images, side)
    }
}

/// The `n` by `n` window of the sample whose top left corner is `(x, y)`.
pub fn get_pattern_image(src_image: &Image, n: u16, x: u16, y: u16) -> (img: Image)
    requires
        src_image.wf(),
        src_image@.width > 0,
        src_image@.height > 0,
    ensures
        img.wf(),
        img@ == window(src_image@, n as nat, x as int, y as int),
{
    let w: u32 = src_image.width() as u32;
    let h: u32 = src_image.height() as u32;
    let ghost goal = window(src_image@, n as nat, x as int, y as int);
    proof {
        lemma_build(
            n as nat,
            n as nat,
            |px: int, py: int|
                src_image@.at(
                    (x + px) % (src_image@.width as int),
                    (y + py) % (src_image@.height as int),
                ),
        );
        assert(n * n <= 0xffff * 0xffff) by (nonlinear_arith)
            requires
                n <= 0xffff,
        ;
    }
    let total: usize = (n as usize) * (n as usize);
    let mut pixels: Vec<Pixel> = Vec::new();
    let mut i: usize = 0;
    while i < total
        invariant
            src_image.wf(),
            w == src_image@.width,
            h == src_image@.height,
            w > 0,
            h > 0,
            total == n * n,
            i <= total,
            goal == window(src_image@, n as nat, x as int, y as int),
            goal.pixels.len() == total,
            pixels@.len() == i,
            forall|k: int| 0 <= k < i ==> pixels@[k] == goal.pixels[k],
        decreases total - i,
    {
        proof {
            assert(n > 0) by (nonlinear_arith)
                requires
                    i < n * n,
            ;
            lemma_index_position(i as int, n as int, n as int);
        }
        let px: u32 = (i % (n as usize)) as u32;
        let py: u32 = (i / (n as usize)) as u32;
        let p = src_image.get_pixel((x as u32 + px) % w, (y as u32 + py) % h);
        pixels.push(p);
        i = i + 1;
    }
    assert(pixels@ =~= goal.pixels);
    match Image::from_pixels(n, n, pixels) {
        Some(img) => img,
        None => vstd::pervasive::unreached(),
    }
}

/// Whether pattern `b`, shifted by one cell in direction `dir`, agrees with
/// pattern `a` where the two windows overlap.
pub fn overlap_agrees(a: &Image, b: &Image, n: u16, dir: usize) -> (yes: bool)
    requires
        a.wf(),
        b.wf(),
        a@.width == n,
        a@.height == n,
        b@.width == n,
        b@.height == n,
        dir < 4,
    ensures
        yes == agrees(a@, b@, n as int, dir as int),
{
    let (ox, oy) = direction_offset(dir);
    let side: isize = n as isize;
    let mut x: isize = 0;
    while x < side
        invariant
            a.wf(),
            b.wf(),
            a@.width == n,
            a@.height == n,
            b@.width == n,
            b@.height == n,
            side == n,
            ox == dir_dx(dir as int),
            oy == dir_dy(dir as int),
            0 <= x <= side,
            forall|i: int, j: int|
                0 <= i < x && 0 <= j < n && 0 <= i + ox < n && 0 <= j + oy < n ==> #[trigger] b@.at(
                    i,
                    j,
                ) == a@.at(i + ox, j + oy),
        decreases side - x,
    {
        let mut y: isize = 0;
        while y < side
            invariant
                a.wf(),
                b.wf(),
                a@.width == n,
                a@.height == n,
                b@.width == n,
                b@.height == n,
                side == n,
                ox == dir_dx(dir as int),
                oy == dir_dy(dir as int),
                0 <= x < side,
                0 <= y <= side,
                forall|i: int, j: int|
                    0 <= i < x && 0 <= j < n && 0 <= i + ox < n && 0 <= j + oy < n
                        ==> #[trigger] b@.at(i, j) == a@.at(i + ox, j + oy),
                forall|j: int|
                    0 <= j < y && 0 <= x + ox < n && 0 <= j + oy < n ==> #[trigger] b@.at(
                        x as int,
                        j,
                    ) == a@.at(x + ox, j + oy),
            decreases side - y,
        {
            let tx: isize = ox + x;
            let ty: isize = oy + y;
            if tx >= 0 && tx < side && ty >= 0 && ty < side {
                if b.get_pixel(x as u32, y as u32) != a.get_pixel(tx as u32, ty as u32) {
                    assert(b@.at(x as int, y as int) != a@.at(x + ox, y + oy));
                    return false;
                }
            }
            y = y + 1;
        }
        x = x + 1;
    }
    true
}

/// The adjacency table of `side` by `side` patterns under `agrees`.
pub fn overlap_rules(images: &Vec<Image>, side: u16) -> (table: AdjacencyData)
    requires
        all_square(images@, side as nat),
    ensures
        table.wf(),
        table.ascending(),
        table.count() == images@.len(),
        forall|a: int, dir: int, b: int|
            0 <= a < images@.len() && 0 <= dir < 4 && 0 <= b < images@.len() ==> (
            #[trigger] table.admits(a, dir, b) <==> agrees(
                images@[a]@,
                images@[b]@,
                side as int,
                dir,
            )),
{
    let count: usize = images.len();
    let mut table = AdjacencyData::new();
    let mut a: usize = 0;
    while a < count
        invariant
            all_square(images@, side as nat),
            count == images@.len(),
            a <= count,
            table.count() == a,
            forall|i: int| 0 <= i < a ==> table.fan(i) == 4,
            forall|i: int, dir: int| 0 <= i < a && 0 <= dir < 4 ==> row_lists(
                #[trigger] table.row(i, dir),
                images@,
                side as int,
                i,
                dir,
                count as int,
            ),
        decreases count - a,
    {
        let north = overlap_row(images, side, a, 0);
        let east = overlap_row(images, side, a, 1);
        let south = overlap_row(images, side, a, 2);
        let west = overlap_row(images, side, a, 3);
        table.push(north, east, south, west);
        a = a + 1;
    }
    proof {
        assert forall|i: int, dir: int, b: int|
            0 <= i < count && 0 <= dir < 4 && 0 <= b < count implies (#[trigger] table.admits(
            i,
            dir,
            b,
        ) <==> agrees(images@[i]@, images@[b]@, side as int, dir)) by {
            let row = table.row(i, dir);
            assert(row_lists(row, images@, side as int, i, dir, count as int));
            if agrees(images@[i]@, images@[b]@, side as int, dir) {
                assert(row.contains(b as usize));
            }
        }
        assert forall|i: int, dir: int, k: int|
            0 <= i < table.count() && 0 <= dir < 4 && 0 <= k < table.row(i, dir).len() implies (
        #[trigger] table.row(i, dir)[k]) < table.count() by {
            assert(row_lists(table.row(i, dir), images@, side as int, i, dir, count as int));
        }
        assert forall|i: int, dir: int, j: int, k: int|
            0 <= i < table.count() && 0 <= dir < 4 && 0 <= j < k < table.row(i, dir).len() implies (
        #[trigger] table.row(i, dir)[j]) < #[trigger] table.row(i, dir)[k] by {
            assert(row_lists(table.row(i, dir), images@, side as int, i, dir, count as int));
        }
    }
    table
}

/// `row` lists, in increasing order, exactly the patterns below `upto` that
/// agree with pattern `a` in direction `dir`.
pub open spec fn row_lists(
    row: Seq<usize>,
    images: Seq<Image>,
    side: int,
    a: int,
    dir: int,
    upto: int,
) -> bool {
    &&& forall|k: int|
        0 <= k < row.len() ==> (#[trigger] row[k]) < upto && agrees(
            images[a]@,
            images[row[k] as int]@,
            side,
            dir,
        )
    &&& forall|j: int, k: int| 0 <= j < k < row.len() ==> row[j] < row[k]
    &&& forall|b: int|
        0 <= b < upto && agrees(images[a]@, #[trigger] images[b]@, side, dir) ==> row.contains(
            b as usize,
        )
}

/// The patterns that agree with pattern `a` in direction `dir`, in
/// increasing order.
fn overlap_row(images: &Vec<Image>, side: u16, a: usize, dir: usize) -> (row: Vec<usize>)
    requires
        all_square(images@, side as nat),
        a < images@.len(),
        dir < 4,
    ensures
        row_lists(row@, images@, side as int, a as int, dir as int, images@.len() as int),
{
    let mut row: Vec<usize> = Vec::new();
    let mut b: usize = 0;
    while b < images.len()
        invariant
            all_square(images@, side as nat),
            a < images@.len(),
            dir < 4,
            b <= images@.len(),
            row_lists(row@, images@, side as int, a as int, dir as int, b as int),
        decreases images@.len() - b,
    {
        let ghost earlier = row@;
        if overlap_agrees(&images[a], &images[b], side, dir) {
            row.push(b);
            proof {
                assert forall|c: int|
                    0 <= c < b + 1 && agrees(
                        images@[a as int]@,
                        #[trigger] images@[c]@,
                        side as int,
                        dir as int,
                    ) implies row@.contains(c as usize) by {
                    if c < b {
                        let k = choose|k: int| 0 <= k < earlier.len() && earlier[k] == c as usize;
                        assert(row@[k] == c as usize);
                    } else {
                        assert(row@[earlier.len() as int] == b);
                    }
                }
            }
        }
        b = b + 1;
    }
    row
}

/// The `side` by `side` bitmap with every pixel `fill`.
pub open spec fn plain(side: nat, fill: Pixel) -> Bitmap {
    Bitmap::build(side, side, |x: int, y: int| fill)
}

/// A plain square stays as it is under every turn.
pub proof fn lemma_plain_turns(side: nat, fill: Pixel, rot: nat)
    ensures
        rotations(plain(side, fill), rot) == plain(side, fill),
    decreases rot,
{
    if rot > 0 {
        lemma_plain_turns(side, fill, (rot - 1) as nat);
        let p = plain(side, fill);
        lemma_build(side, side, |x: int, y: int| fill);
        lemma_build(side, side, |x: int, y: int| p.at(y, p.height - 1 - x));
        let turned = rotate_cw(p);
        assert forall|x: int, y: int| turned.holds(x, y) implies turned.at(x, y) == p.at(x, y) by {
            assert(p.holds(y, side - 1 - x));
        }
        lemma_bitmap_ext(turned, p);
    }
}

/// A sample of one colour gives exactly one pattern, the plain window, with
/// or without rotations, as soon as it has one window origin.
pub proof fn lemma_plain_sample(
    src: Bitmap,
    fill: Pixel,
    n: int,
    wrap_w: bool,
    wrap_h: bool,
    rotate: bool,
)
    requires
        src.wf(),
        src.uniform(fill),
        origins(src.width, n, wrap_w) >= 1,
        origins(src.height, n, wrap_h) >= 1,
    ensures
        sampled(src, n, wrap_w, wrap_h, rotate) == seq![plain(n as nat, fill)],
{
    let columns = origins(src.width, n, wrap_w);
    let rows = origins(src.height, n, wrap_h);
    assert(columns * rows >= 1) by (nonlinear_arith)
        requires
            columns >= 1,
            rows >= 1,
    ;
    lemma_plain_gathered(src, fill, n as nat, rows, rotate, columns * rows);
}

/// After one window or more of a sample of one colour, the catalog holds the
/// plain window and nothing else.
proof fn lemma_plain_gathered(src: Bitmap, fill: Pixel, n: nat, rows: nat, rotate: bool, upto: nat)
    requires
        src.wf(),
        src.uniform(fill),
        src.width > 0,
        src.height > 0,
        rows >= 1,
        upto >= 1,
    ensures
        gathered(window_at(src, n, rows), rotate, upto) == seq![plain(n, fill)],
    decreases upto,
{
    let windows = window_at(src, n, rows);
    let p = plain(n, fill);
    let k = upto - 1;
    let x = k / (rows as int);
    let y = k % (rows as int);
    let w = window(src, n, x, y);
    assert(windows(k) == w);
    assert(w == p) by {
        let f = |px: int, py: int|
            src.at((x + px) % (src.width as int), (y + py) % (src.height as int));
        lemma_build(n, n, f);
        lemma_build(n, n, |a: int, b: int| fill);
        assert forall|px: int, py: int| w.holds(px, py) implies w.at(px, py) == p.at(px, py) by {
            let sx = (x + px) % (src.width as int);
            let sy = (y + py) % (src.height as int);
            vstd::arithmetic::div_mod::lemma_mod_bound(x + px, src.width as int);
            vstd::arithmetic::div_mod::lemma_mod_bound(y + py, src.height as int);
            lemma_position_index(sx, sy, src.width as int, src.height as int);
            assert(w.at(px, py) == f(px, py));
        }
        lemma_bitmap_ext(w, p);
    }
    lemma_plain_turns(n, fill, 1);
    lemma_plain_turns(n, fill, 2);
    lemma_plain_turns(n, fill, 3);
    let before = gathered(windows, rotate, k as nat);
    if k >= 1 {
        lemma_plain_gathered(src, fill, n, rows, rotate, k as nat);
    } else {
        assert(before =~= Seq::<Bitmap>::empty());
    }
    lemma_absorb_same(before, offered(p, rotate), p);
    assert(seq![p][0] == p);
    if k >= 1 {
        assert(before.contains(p));
    } else {
        assert(offered(p, rotate).len() > 0);
        assert(Seq::<Bitmap>::empty().push(p) =~= seq![p]);
    }
}

} // verus!
