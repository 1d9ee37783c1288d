//! The tile model: the sample is cut into tiles, each tile is a pattern, and
//! two patterns are adjacent where the borders that would touch are equal.

use crate::image::{lemma_position_index, Bitmap, Image, Pixel};
use crate::sampler::{
    absorb, all_wf, gathered, lemma_absorb_keeps, lemma_absorb_one, lemma_absorb_push, offer,
    views,
};
use crate::utils::{opposite, opposite_direction, AdjacencyData};
use crate::{rules_of, Drawable, InvalidSourceDimensions, WfcPreprocessor};
use vstd::prelude::*;

verus! {

/// A catalog that paints each pattern as its tile.
#[derive(Clone, Debug)]
pub struct TexturePattern(pub Vec<Image>);

impl Drawable for TexturePattern {
    open spec fn count(&self) -> nat {
        self.0@.len()
    }

    fn len(&self) -> (n: usize) {
        self.0.len()
    }
}

impl TexturePattern {
    /// The tile of pattern `idx`.
    pub fn tile(&self, idx: usize) -> (img: &Image)
        requires
            idx < self.count(),
        ensures
            *img == self.0@[idx as int],
    {
        &self.0[idx]
    }
}

/// One border of a bitmap, `side` 0 being the top, 1 the right, 2 the bottom
/// and 3 the left one: top and bottom from left to right, left and right
/// from top to bottom. A bitmap without cells has empty borders.
pub open spec fn border(b: Bitmap, side: int) -> Seq<Pixel> {
    if b.width == 0 || b.height == 0 {
        Seq::empty()
    } else if side == 0 {
        Seq::new(b.width, |x: int| b.at(x, 0))
    } else if side == 1 {
        Seq::new(b.height, |y: int| b.at(b.width - 1, y))
    } else if side == 2 {
        Seq::new(b.width, |x: int| b.at(x, b.height - 1))
    } else {
        Seq::new(b.height, |y: int| b.at(0, y))
    }
}

/// The borders of all the bitmaps, one bitmap after the other, each with its
/// top, right, bottom and left border.
pub open spec fn borders(images: Seq<Bitmap>) -> Seq<Seq<Pixel>> {
    Seq::new(4 * images.len(), |k: int| border(images[k / 4], k % 4))
}

/// The code table of the bitmaps: their distinct borders, in the order in
/// which they are first seen. The code of a border is its place in the table.
pub open spec fn edge_table(images: Seq<Bitmap>) -> Seq<Seq<Pixel>> {
    absorb(Seq::empty(), borders(images))
}

/// The tiles of `src` in the order of their origins: column by column, and
/// down each column of `rows` tiles.
pub open spec fn tile_at(src: Bitmap, tile: nat, rows: nat) -> spec_fn(int) -> Bitmap {
    |k: int| src.crop((k / (rows as int)) * tile, (k % (rows as int)) * tile, tile, tile)
}

/// The sample can be cut into tiles of the given side without a rest.
pub open spec fn divides(src: Bitmap, tile: nat) -> bool {
    tile > 0 && src.width % tile == 0 && src.height % tile == 0
}

/// The patterns of the sample `src`: its distinct tiles, in the order in
/// which they are first seen.
pub open spec fn tiled(src: Bitmap, tile: nat, rotate: bool) -> Seq<Bitmap> {
    gathered(
        tile_at(src, tile, src.height / tile),
        rotate,
        (src.width / tile) * (src.height / tile),
    )
}

/// The codes of the four borders of one pattern.
#[derive(Clone, Copy, Debug, PartialEq, Eq, Structural)]
pub struct EdgeCodes {
    pub top: usize,
    pub right: usize,
    pub bottom: usize,
    pub left: usize,
}

impl EdgeCodes {
    /// The code of the border on the given side.
    pub open spec fn code(self, side: int) -> usize {
        if side == 0 {
            self.top
        } else if side == 1 {
            self.right
        } else if side == 2 {
            self.bottom
        } else {
            self.left
        }
    }

    /// The code of the border on the given side.
    pub fn get(&self, side: usize) -> (c: usize)
        requires
            side < 4,
        ensures
            c == self.code(side as int),
    {
        if side == 0 {
            self.top
        } else if side == 1 {
            self.right
        } else if side == 2 {
            self.bottom
        } else {
            self.left
        }
    }
}

/// The borders that a list of pixel rows stands for.
pub open spec fn keys(table: Seq<Vec<Pixel>>) -> Seq<Seq<Pixel>> {
    Seq::new(table.len(), |i: int| table[i]@)
}

/// The four borders of an image: top, right, bottom, left.
pub fn get_edge_colors(img: &Image) -> (edges: Vec<Vec<Pixel>>)
    requires
        img.wf(),
    ensures
        edges@.len() == 4,
        forall|side: int| 0 <= side < 4 ==> (#[trigger] edges@[side])@ == border(img@, side),
{
    let mut top: Vec<Pixel> = Vec::new();
    let mut left: Vec<Pixel> = Vec::new();
    let mut bottom: Vec<Pixel> = Vec::new();
    let mut right: Vec<Pixel> = Vec::new();
    let w: u16 = img.width();
    let h: u16 = img.height();
    if w > 0 && h > 0 {
        let mut x: u16 = 0;
        while x < w
            invariant
                img.wf(),
                w == img@.width,
                h == img@.height,
                h > 0,
                x <= w,
                top@.len() == x,
                bottom@.len() == x,
                forall|i: int| 0 <= i < x ==> top@[i] == img@.at(i, 0),
                forall|i: int| 0 <= i < x ==> bottom@[i] == img@.at(i, h - 1),
            decreases w - x,
        {
            top.push(img.get_pixel(x as u32, 0));
            bottom.push(img.get_pixel(x as u32, h as u32 - 1));
            x = x + 1;
        }
        let mut y: u16 = 0;
        while y < h
            invariant
                img.wf(),
                w == img@.width,
                h == img@.height,
                w > 0,
                y <= h,
                right@.len() == y,
                left@.len() == y,
                forall|i: int| 0 <= i < y ==> right@[i] == img@.at(w - 1, i),
                forall|i: int| 0 <= i < y ==> left@[i] == img@.at(0, i),
            decreases h - y,
        {
            right.push(img.get_pixel(w as u32 - 1, y as u32));
            left.push(img.get_pixel(0, y as u32));
            y = y + 1;
        }
    }
    proof {
        assert(top@ =~= border(img@, 0));
        assert(right@ =~= border(img@, 1));
        assert(bottom@ =~= border(img@, 2));
        assert(left@ =~= border(img@, 3));
    }
    let mut edges: Vec<Vec<Pixel>> = Vec::new();
    edges.push(top);
    edges.push(right);
    edges.push(bottom);
    edges.push(left);
    edges
}

/// Whether two pixel rows are equal.
fn same_pixels(a: &Vec<Pixel>, b: &Vec<Pixel>) -> (eq: bool)
    ensures
        eq == (a@ == b@),
{
    if a.len() != b.len() {
        return false;
    }
    let mut i: usize = 0;
    while i < a.len()
        invariant
            a@.len() == b@.len(),
            i <= a@.len(),
            forall|k: int| 0 <= k < i ==> a@[k] == b@[k],
        decreases a@.len() - i,
    {
        if a[i] != b[i] {
            return false;
        }
        i = i + 1;
    }
    assert(a@ =~= b@);
    true
}

/// The code of the border `key` under the code table `table`: its place
/// there, after it has been appended if it was new.
fn edge_code(table: &mut Vec<Vec<Pixel>>, key: Vec<Pixel>) -> (code: usize)
    ensures
        keys(final(table)@) == absorb(keys(old(table)@), seq![key@]),
        code < final(table)@.len(),
        keys(final(table)@)[code as int] == key@,
{
    let ghost have = keys(table@);
    proof {
        lemma_absorb_one(have, key@);
    }
    let mut i: usize = 0;
    while i < table.len()
        invariant
            table@ == old(table)@,
            have == keys(table@),
            i <= table@.len(),
            forall|j: int| 0 <= j < i ==> have[j] != key@,
        decreases table@.len() - i,
    {
        if same_pixels(&table[i], &key) {
            proof {
                assert(have[i as int] == key@);
                assert(have.contains(key@));
                lemma_absorb_one(have, key@);
            }
            return i;
        }
        i = i + 1;
    }
    table.push(key);
    assert(keys(table@) =~= have.push(key@));
    i
}

/// The edge codes of the images: each border gets the code of its content,
/// and the codes are given out in the order in which the contents are first
/// seen.
pub fn get_edges_for_images(images: &Vec<Image>) -> (edges: Vec<EdgeCodes>)
    requires
        all_wf(images@),
    ensures
        edges@.len() == images@.len(),
        forall|i: int, side: int|
            0 <= i < images@.len() && 0 <= side < 4 ==> (#[trigger] edges@[i].code(side))
                < edge_table(views(images@)).len() && edge_table(
                views(images@),
            )[edges@[i].code(side) as int] == border(images@[i]@, side),
{
    let ghost all = borders(views(images@));
    let mut table: Vec<Vec<Pixel>> = Vec::new();
    let mut edges: Vec<EdgeCodes> = Vec::new();
    let mut i: usize = 0;
    assert(keys(table@) =~= absorb(Seq::empty(), all.take(0)));
    while i < images.len()
        invariant
            all_wf(images@),
            all == borders(views(images@)),
            i <= images@.len(),
            edges@.len() == i,
            keys(table@) == absorb(Seq::empty(), all.take(4 * i)),
            forall|j: int, side: int|
                0 <= j < i && 0 <= side < 4 ==> (#[trigger] edges@[j].code(side)) < table@.len()
                    && keys(table@)[edges@[j].code(side) as int] == border(images@[j]@, side),
        decreases images@.len() - i,
    {
        let mut colors = get_edge_colors(&images[i]);
        let ghost start = keys(table@);
        let ghost b0 = border(images@[i as int]@, 0);
        let ghost b1 = border(images@[i as int]@, 1);
        let ghost b2 = border(images@[i as int]@, 2);
        let ghost b3 = border(images@[i as int]@, 3);
        proof {
            assert(views(images@)[i as int] == images@[i as int]@);
            assert(all[4 * i] == b0 && all[4 * i + 1] == b1 && all[4 * i + 2] == b2 && all[4 * i
                + 3] == b3);
            assert(all.take(4 * i + 1) =~= all.take(4 * i).push(b0));
            assert(all.take(4 * i + 2) =~= all.take(4 * i + 1).push(b1));
            assert(all.take(4 * i + 3) =~= all.take(4 * i + 2).push(b2));
            assert(all.take(4 * i + 4) =~= all.take(4 * i + 3).push(b3));
            lemma_absorb_push(Seq::empty(), all.take(4 * i), b0);
            lemma_absorb_push(Seq::empty(), all.take(4 * i + 1), b1);
            lemma_absorb_push(Seq::empty(), all.take(4 * i + 2), b2);
            lemma_absorb_push(Seq::empty(), all.take(4 * i + 3), b3);
        }
        let left_key = colors.pop().unwrap();
        let bottom_key = colors.pop().unwrap();
        let right_key = colors.pop().unwrap();
        let top_key = colors.pop().unwrap();
        let top = edge_code(&mut table, top_key);
        let ghost t1 = keys(table@);
        let right = edge_code(&mut table, right_key);
        let ghost t2 = keys(table@);
        let bottom = edge_code(&mut table, bottom_key);
        let ghost t3 = keys(table@);
        let left = edge_code(&mut table, left_key);
        let ghost t4 = keys(table@);
        proof {
            lemma_absorb_keeps(start, seq![b0]);
            lemma_absorb_keeps(t1, seq![b1]);
            lemma_absorb_keeps(t2, seq![b2]);
            lemma_absorb_keeps(t3, seq![b3]);
        }
        edges.push(EdgeCodes { top, right, bottom, left });
        i = i + 1;
    }
    assert(all.take(4 * i) =~= all);
    edges
}

/// Builds the catalog and the adjacency table of the tile model.
#[derive(Debug)]
pub struct TileProcessor {
    rotate: bool,
    tile_size: usize,
}

impl TileProcessor {
    /// The side of a tile.
    pub closed spec fn tile_size(&self) -> nat {
        self.tile_size as nat
    }

    /// Whether the turns of each tile are patterns too.
    pub closed spec fn rotate(&self) -> bool {
        self.rotate
    }

    /// A builder for tiles of the given side.
    pub fn new(tile_size: usize, rotate: bool) -> (made: Self)
        ensures
            made.tile_size() == tile_size,
            made.rotate() == rotate,
    {
        Self { rotate, tile_size }
    }

}

impl WfcPreprocessor for TileProcessor {
    type Pattern = TexturePattern;

    /// The distinct tiles of the sample, in the order in which they are
    /// first seen; a sample that the tile side does not divide is refused.
    open spec fn patterns_of(&self, sample: Bitmap) -> Option<Seq<Bitmap>> {
        if divides(sample, self.tile_size()) {
            Some(tiled(sample, self.tile_size(), self.rotate()))
        } else {
            None
        }
    }

    /// The images are well-formed.
    open spec fn accepts(&self, images: Seq<Image>) -> bool {
        all_wf(images)
    }

    /// Each pattern is shown as its tile.
    open spec fn shows(&self, catalog: &TexturePattern, patterns: Seq<Bitmap>) -> bool {
        views(catalog.0@) == patterns
    }

    /// The border of `a` on side `dir` equals the opposite border of `b`.
    open spec fn adjacent(&self, a: Bitmap, b: Bitmap, dir: int) -> bool {
        border(a, dir) == border(b, opposite(dir))
    }

    /// The patterns of the sample: its distinct tiles, in the order in which
    /// they are first seen. A sample that the tile side does not divide is
    /// refused.
    fn extract_images(&self, image: &Image) -> (out: Result<Vec<Image>, InvalidSourceDimensions>) {
        let tile: usize = self.tile_size;
        let w: usize = image.width() as usize;
        let h: usize = image.height() as usize;
        if tile == 0 || w % tile != 0 || h % tile != 0 {
            return Err(InvalidSourceDimensions);
        }
        let columns: usize = w / tile;
        let rows: usize = h / tile;
        let rotate: bool = self.rotate;
        let ghost tiles = tile_at(image@, tile as nat, rows as nat);
        let mut images: Vec<Image> = Vec::new();
        assert(views(images@) =~= gathered(tiles, rotate, 0));
        assert(0 * rows == 0) by (nonlinear_arith);
        proof {
            vstd::arithmetic::div_mod::lemma_fundamental_div_mod(w as int, tile as int);
            vstd::arithmetic::div_mod::lemma_fundamental_div_mod(h as int, tile as int);
            assert(columns * rows <= 0xffff * 0xffff) by (nonlinear_arith)
                requires
                    tile * columns == w,
                    tile * rows == h,
                    tile >= 1,
                    w <= 0xffff,
                    h <= 0xffff,
                    columns >= 0,
                    rows >= 0,
            ;
        }
        let mut x: usize = 0;
        while x < columns
            invariant
                image.wf(),
                tile >= 1,
                w == image@.width,
                h == image@.height,
                tile * columns == w,
                tile * rows == h,
                x <= columns,
                tiles == tile_at(image@, tile as nat, rows as nat),
                views(images@) == gathered(tiles, rotate, (x * rows) as nat),
                all_wf(images@),
            decreases columns - x,
        {
            let mut y: usize = 0;
            while y < rows
                invariant
                    image.wf(),
                    tile >= 1,
                    w == image@.width,
                    h == image@.height,
                    tile * columns == w,
                    tile * rows == h,
                    x < columns,
                    y <= rows,
                    tiles == tile_at(image@, tile as nat, rows as nat),
                    views(images@) == gathered(tiles, rotate, (x * rows + y) as nat),
                    all_wf(images@),
                decreases rows - y,
            {
                proof {
                    lemma_position_index(y as int, x as int, rows as int, columns as int);
                    assert(x * tile + tile <= w && y * tile + tile <= h && x * tile >= 0 && y
                        * tile >= 0 && tile <= w && x * rows >= 0) by (nonlinear_arith)
                        requires
                            tile * columns == w,
                            tile * rows == h,
                            0 <= x < columns,
                            0 <= y < rows,
                            tile >= 1,
                    ;
                }
                let img = image.sub_image(
                    (x * tile) as u16,
                    (y * tile) as u16,
                    tile as u16,
                    tile as u16,
                );
                assert(tiles(x * rows + y) == img@);
                offer(&mut images, img, rotate);
                y = y + 1;
            }
            assert(x * rows + rows == (x + 1) * rows) by (nonlinear_arith);
            x = x + 1;
        }
        Ok(images)
    }

    /// The catalog of the patterns: each is painted as its tile.
    fn create_patterns(&self, images: &Vec<Image>) -> (patterns: TexturePattern) {
        let mut tiles: Vec<Image> = Vec::new();
        let mut i: usize = 0;
        while i < images.len()
            invariant
                i <= images@.len(),
                tiles@.len() == i,
                forall|j: int| 0 <= j < i ==> tiles@[j]@ == images@[j]@,
            decreases images@.len() - i,
        {
            tiles.push(images[i].copy());
            i = i + 1;
        }
        assert(views(tiles@) =~= views(images@));
        TexturePattern(tiles)
    }

    /// The adjacency table of the patterns: `a` admits `b` in a direction
    /// exactly if the border of `a` on that side has the code of the
    /// opposite border of `b`, that is, if the two borders are equal.
    fn create_adjacency_rules(&self, images: &Vec<Image>) -> (table: AdjacencyData) {
        let edge_data = get_edges_for_images(images);
        let count: usize = images.len();
        let ghost codes = edge_table(views(images@));
        proof {
            lemma_absorb_keeps(Seq::empty(), borders(views(images@)));
        }
        let mut table = AdjacencyData::new();
        let mut a: usize = 0;
        while a < count
            invariant
                count == images@.len(),
                edge_data@.len() == count,
                a <= count,
                table.count() == a,
                forall|i: int| 0 <= i < a ==> table.fan(i) == 4,
                forall|i: int, dir: int| 0 <= i < a && 0 <= dir < 4 ==> fits(
                    #[trigger] table.row(i, dir),
                    edge_data@,
                    i,
                    dir,
                    count as int,
                ),
            decreases count - a,
        {
            let north = edge_row(&edge_data, a, 0);
            let east = edge_row(&edge_data, a, 1);
            let south = edge_row(&edge_data, a, 2);
            let west = edge_row(&edge_data, a, 3);
            table.push(north, east, south, west);
            a = a + 1;
        }
        proof {
            assert forall|i: int, dir: int, b: int|
                0 <= i < count && 0 <= dir < 4 && 0 <= b < count implies (#[trigger] table.admits(
                i,
                dir,
                b,
            ) <==> border(images@[i]@, dir) == border(images@[b]@, opposite(dir))) by {
                let row = table.row(i, dir);
                assert(fits(row, edge_data@, i, dir, count as int));
                let ca = edge_data@[i].code(dir);
                let cb = edge_data@[b].code(opposite(dir));
                assert(codes[ca as int] == border(images@[i]@, dir));
                assert(codes[cb as int] == border(images@[b]@, opposite(dir)));
                if ca == cb {
                    assert(row.contains(b as usize));
                }
            }
            assert forall|i: int, dir: int, k: int|
                0 <= i < table.count() && 0 <= dir < 4 && 0 <= k < table.row(i, dir).len() implies (
            #[trigger] table.row(i, dir)[k]) < table.count() by {
                assert(fits(table.row(i, dir), edge_data@, i, dir, count as int));
            }
            assert forall|i: int, dir: int, j: int, k: int|
                0 <= i < table.count() && 0 <= dir < 4 && 0 <= j < k < table.row(
                    i,
                    dir,
                ).len() implies (#[trigger] table.row(i, dir)[j]) < #[trigger] table.row(
                i,
                dir,
            )[k] by {
                assert(fits(table.row(i, dir), edge_data@, i, dir, count as int));
            }
        }
        table
    }
}

/// `row` lists, in increasing order, exactly the patterns below `upto` whose
/// border opposite to `dir` has the code of the border of pattern `a` on side
/// `dir`.
pub open spec fn fits(row: Seq<usize>, edges: Seq<EdgeCodes>, a: int, dir: int, upto: int) -> bool {
    &&& forall|k: int|
        0 <= k < row.len() ==> (#[trigger] row[k]) < upto && edges[a].code(dir)
            == edges[row[k] as int].code(opposite(dir))
    &&& forall|j: int, k: int| 0 <= j < k < row.len() ==> row[j] < row[k]
    &&& forall|b: int|
        0 <= b < upto && edges[a].code(dir) == (#[trigger] edges[b]).code(opposite(dir))
            ==> row.contains(b as usize)
}

/// The patterns that pattern `a` admits in direction `dir`, in increasing
/// order.
fn edge_row(edges: &Vec<EdgeCodes>, a: usize, dir: usize) -> (row: Vec<usize>)
    requires
        a < edges@.len(),
        dir < 4,
    ensures
        fits(row@, edges@, a as int, dir as int, edges@.len() as int),
{
    let back: usize = opposite_direction(dir);
    let mine: usize = edges[a].get(dir);
    let mut row: Vec<usize> = Vec::new();
    let mut b: usize = 0;
    while b < edges.len()
        invariant
            a < edges@.len(),
            dir < 4,
            back == opposite(dir as int),
            mine == edges@[a as int].code(dir as int),
            b <= edges@.len(),
            fits(row@, edges@, a as int, dir as int, b as int),
        decreases edges@.len() - b,
    {
        let ghost earlier = row@;
        if mine == edges[b].get(back) {
            row.push(b);
            proof {
                assert forall|c: int|
                    0 <= c < b + 1 && edges@[a as int].code(dir as int) == (
                    #[trigger] edges@[c]).code(opposite(dir as int)) implies row@.contains(
                    c as usize,
                ) by {
                    if c < b {
                        let k = choose|k: int| 0 <= k < earlier.len() && earlier[k] == c as usize;
                        assert(row@[k] == c as usize);
                    } else {
                        assert(row@[earlier.len() as int] == b);
                    }
                }
            }
        }
        b = b + 1;
    }
    row
}

/// The rules of the tile model are symmetric: a pattern admits another in a
/// direction exactly if the other admits it in the opposite direction.
pub proof fn lemma_edge_rules_symmetric(
    processor: &TileProcessor,
    patterns: Seq<Bitmap>,
    table: &AdjacencyData,
    a: int,
    b: int,
    dir: int,
)
    requires
        rules_of(processor, patterns, table),
        0 <= a < patterns.len(),
        0 <= b < patterns.len(),
        0 <= dir < 4,
    ensures
        table.admits(a, dir, b) <==> table.admits(b, opposite(dir), a),
{
    assert(opposite(opposite(dir)) == dir);
    assert(table.admits(a, dir, b) <==> processor.adjacent(patterns[a], patterns[b], dir));
    assert(table.admits(b, opposite(dir), a) <==> processor.adjacent(
        patterns[b],
        patterns[a],
        opposite(dir),
    ));
}

} // verus!
