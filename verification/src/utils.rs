//! What the builders and the solver share: grid indexing, the four
//! directions, the adjacency table, and the turning of images.

use crate::image::{lemma_build, lemma_index_position, Bitmap, Image, Pixel};
use vstd::prelude::*;

verus! {

/// Column offset of the neighbour in direction `dir`: 0 is north, 1 east,
/// 2 south, 3 west.
pub open spec fn dir_dx(dir: int) -> int {
    if dir == 1 {
        1
    } else if dir == 3 {
        -1
    } else {
        0
    }
}

/// Row offset of the neighbour in direction `dir`; rows grow southwards.
pub open spec fn dir_dy(dir: int) -> int {
    if dir == 0 {
        -1
    } else if dir == 2 {
        1
    } else {
        0
    }
}

/// The direction that points back.
pub open spec fn opposite(dir: int) -> int {
    (dir + 2) % 4
}

/// The offset of the neighbour in direction `dir`, as column and row.
pub fn direction_offset(dir: usize) -> (off: (isize, isize))
    requires
        dir < 4,
    ensures
        off.0 == dir_dx(dir as int),
        off.1 == dir_dy(dir as int),
{
    if dir == 0 {
        (0, -1)
    } else if dir == 1 {
        (1, 0)
    } else if dir == 2 {
        (0, 1)
    } else {
        (-1, 0)
    }
}

/// The direction that points back from `dir`.
pub fn opposite_direction(dir: usize) -> (back: usize)
    requires
        dir < 4,
    ensures
        back == opposite(dir as int),
        back < 4,
{
    (dir + 2) % 4
}

/// The cell of a grid of the given width that has the given row-major index,
/// as column and row.
pub fn xy_from_index(index: usize, width: usize) -> (xy: (usize, usize))
    requires
        width > 0,
    ensures
        xy.0 == index % width,
        xy.1 == index / width,
{
    (index % width, index / width)
}

/// The row-major index of the cell at column `x` of row `y`.
pub fn index_from_xy(x: usize, y: usize, width: usize) -> (index: usize)
    requires
        x + y * width <= usize::MAX,
    ensures
        index == x + y * width,
{
    assert(y * width >= 0) by (nonlinear_arith)
        requires
            y >= 0,
            width >= 0,
    ;
    x + y * width
}

/// For each pattern and each direction, the patterns admitted as that
/// neighbour.
#[derive(Clone, Debug)]
pub struct AdjacencyData {
    rows: Vec<Vec<Vec<usize>>>,
}

impl AdjacencyData {
    /// The number of patterns.
    pub closed spec fn count(&self) -> nat {
        self.rows@.len()
    }

    /// The number of directions listed for pattern `a`.
    pub closed spec fn fan(&self, a: int) -> nat {
        self.rows@[a]@.len()
    }

    /// The patterns listed for pattern `a` in direction `dir`, in stored order.
    pub closed spec fn row(&self, a: int, dir: int) -> Seq<usize> {
        self.rows@[a]@[dir]@
    }

    /// Pattern `a` admits pattern `b` as its neighbour in direction `dir`.
    pub open spec fn admits(&self, a: int, dir: int, b: int) -> bool {
        exists|k: int| 0 <= k < self.row(a, dir).len() && self.row(a, dir)[k] == b
    }

    /// Every pattern lists four directions, and every listed id is a pattern.
    pub open spec fn wf(&self) -> bool {
        &&& forall|a: int| 0 <= a < self.count() ==> self.fan(a) == 4
        &&& forall|a: int, dir: int, k: int|
            0 <= a < self.count() && 0 <= dir < 4 && 0 <= k < self.row(a, dir).len() ==> (
            #[trigger] self.row(a, dir)[k]) < self.count()
    }

    /// Every row lists its ids in strictly increasing order.
    pub open spec fn ascending(&self) -> bool {
        forall|a: int, dir: int, j: int, k: int|
            0 <= a < self.count() && 0 <= dir < 4 && 0 <= j < k < self.row(a, dir).len() ==> (
            #[trigger] self.row(a, dir)[j]) < #[trigger] self.row(a, dir)[k]
    }

    /// The table with no pattern.
    pub fn new() -> (table: AdjacencyData)
        ensures
            table.wf(),
            table.ascending(),
            table.count() == 0,
    {
        AdjacencyData { rows: Vec::new() }
    }

    /// The table with the given rows, one per pattern, each with its four
    /// directions north, east, south, west; `None` unless every pattern lists
    /// four directions and every listed id is below the number of patterns.
    pub fn from_rows(rows: Vec<Vec<Vec<usize>>>) -> (out: Option<AdjacencyData>)
        ensures
            out is Some <==> rows_valid(rows),
            out matches Some(table) ==> table.wf() && table.count() == rows@.len() && forall|
                a: int,
                dir: int,
            |
                0 <= a < rows@.len() && 0 <= dir < 4 ==> #[trigger] table.row(a, dir)
                    == rows@[a]@[dir]@,
    {
        let n: usize = rows.len();
        let mut a: usize = 0;
        while a < n
            invariant
                a <= n,
                n == rows@.len(),
                forall|i: int| 0 <= i < a ==> row_valid(rows, i),
            decreases n - a,
        {
            if rows[a].len() != 4 {
                assert(!row_valid(rows, a as int));
                return None;
            }
            let mut dir: usize = 0;
            while dir < 4
                invariant
                    a < n,
                    n == rows@.len(),
                    dir <= 4,
                    rows@[a as int]@.len() == 4,
                    forall|d: int, k: int|
                        0 <= d < dir && 0 <= k < rows@[a as int]@[d]@.len() ==> (
                        #[trigger] rows@[a as int]@[d]@[k]) < n,
                decreases 4 - dir,
            {
                let len: usize = rows[a][dir].len();
                let mut k: usize = 0;
                while k < len
                    invariant
                        a < n,
                        n == rows@.len(),
                        dir < 4,
                        rows@[a as int]@.len() == 4,
                        len == rows@[a as int]@[dir as int]@.len(),
                        k <= len,
                        forall|j: int| 0 <= j < k ==> (#[trigger] rows@[a as int]@[dir as int]@[j]) < n,
                    decreases len - k,
                {
                    if rows[a][dir][k] >= n {
                        assert(!row_valid(rows, a as int));
                        return None;
                    }
                    k = k + 1;
                }
                dir = dir + 1;
            }
            assert(row_valid(rows, a as int));
            a = a + 1;
        }
        let table = AdjacencyData { rows };
        proof {
            assert forall|i: int| 0 <= i < table.count() implies table.fan(i) == 4 by {
                assert(row_valid(rows, i));
            }
            assert forall|i: int, dir: int, k: int|
                0 <= i < table.count() && 0 <= dir < 4 && 0 <= k < table.row(i, dir).len() implies (
            #[trigger] table.row(i, dir)[k]) < table.count() by {
                assert(row_valid(rows, i));
            }
        }
        Some(table)
    }

    /// The number of patterns.
    pub fn len(&self) -> (n: usize)
        ensures
            n == self.count(),
    {
        self.rows.len()
    }

    /// The patterns listed for pattern `a` in direction `dir`.
    pub fn get(&self, a: usize, dir: usize) -> (row: &Vec<usize>)
        requires
            self.wf(),
            a < self.count(),
            dir < 4,
        ensures
            row@ == self.row(a as int, dir as int),
    {
        assert(self.fan(a as int) == 4);
        &self.rows[a][dir]
    }

    /// Whether pattern `a` admits pattern `b` as its neighbour in direction
    /// `dir`.
    pub fn allows(&self, a: usize, dir: usize, b: usize) -> (yes: bool)
        requires
            self.wf(),
            a < self.count(),
            dir < 4,
        ensures
            yes == self.admits(a as int, dir as int, b as int),
    {
        let row = self.get(a, dir);
        let mut k: usize = 0;
        while k < row.len()
            invariant
                k <= row@.len(),
                row@ == self.row(a as int, dir as int),
                forall|j: int| 0 <= j < k ==> row@[j] != b,
            decreases row@.len() - k,
        {
            if row[k] == b {
                return true;
            }
            k = k + 1;
        }
        false
    }

    /// Appends a pattern with its four rows, north, east, south, west.
    pub fn push(&mut self, north: Vec<usize>, east: Vec<usize>, south: Vec<usize>, west: Vec<usize>)
        ensures
            final(self).count() == old(self).count() + 1,
            final(self).fan(old(self).count() as int) == 4,
            final(self).row(old(self).count() as int, 0) == north@,
            final(self).row(old(self).count() as int, 1) == east@,
            final(self).row(old(self).count() as int, 2) == south@,
            final(self).row(old(self).count() as int, 3) == west@,
            forall|a: int| 0 <= a < old(self).count() ==> final(self).fan(a) == old(self).fan(a),
            forall|a: int, dir: int|
                0 <= a < old(self).count() ==> #[trigger] final(self).row(a, dir) == old(self).row(
                    a,
                    dir,
                ),
    {
        let mut four: Vec<Vec<usize>> = Vec::new();
        four.push(north);
        four.push(east);
        four.push(south);
        four.push(west);
        self.rows.push(four);
    }

    /// A copy of the table.
    pub fn copy(&self) -> (table: AdjacencyData)
        requires
            self.wf(),
        ensures
            table.wf(),
            table.count() == self.count(),
            forall|a: int, dir: int|
                0 <= a < self.count() && 0 <= dir < 4 ==> #[trigger] table.row(a, dir) == self.row(
                    a,
                    dir,
                ),
    {
        let n: usize = self.rows.len();
        let mut table = AdjacencyData::new();
        let mut a: usize = 0;
        while a < n
            invariant
                self.wf(),
                a <= n,
                n == self.count(),
                table.count() == a,
                forall|i: int| 0 <= i < a ==> table.fan(i) == 4,
                forall|i: int, dir: int|
                    0 <= i < a && 0 <= dir < 4 ==> #[trigger] table.row(i, dir) == self.row(i, dir),
            decreases n - a,
        {
            let north = copy_ids(self.get(a, 0));
            let east = copy_ids(self.get(a, 1));
            let south = copy_ids(self.get(a, 2));
            let west = copy_ids(self.get(a, 3));
            table.push(north, east, south, west);
            a = a + 1;
        }
        table
    }
}

/// Pattern `a` of `rows` lists four directions, each with ids below the
/// number of patterns.
pub open spec fn row_valid(rows: Vec<Vec<Vec<usize>>>, a: int) -> bool {
    &&& rows@[a]@.len() == 4
    &&& forall|dir: int, k: int|
        0 <= dir < 4 && 0 <= k < rows@[a]@[dir]@.len() ==> (#[trigger] rows@[a]@[dir]@[k])
            < rows@.len()
}

/// Every pattern of `rows` is valid.
pub open spec fn rows_valid(rows: Vec<Vec<Vec<usize>>>) -> bool {
    forall|a: int| 0 <= a < rows@.len() ==> row_valid(rows, a)
}

/// A copy of a list of ids.
pub fn copy_ids(ids: &Vec<usize>) -> (out: Vec<usize>)
    ensures
        out@ == ids@,
{
    let mut out: Vec<usize> = Vec::new();
    let mut i: usize = 0;
    while i < ids.len()
        invariant
            i <= ids@.len(),
            out@ == ids@.subrange(0, i as int),
        decreases ids@.len() - i,
    {
        out.push(ids[i]);
        assert(out@ =~= ids@.subrange(0, i + 1));
        i = i + 1;
    }
    assert(out@ =~= ids@);
    out
}

/// The bitmap turned a quarter clockwise: the pixel at `(x, y)` goes to
/// `(height - 1 - y, x)`.
pub open spec fn rotate_cw(b: Bitmap) -> Bitmap {
    Bitmap::build(b.height, b.width, |x: int, y: int| b.at(y, b.height - 1 - x))
}

/// The bitmap turned `rot` quarters clockwise.
pub open spec fn rotations(b: Bitmap, rot: nat) -> Bitmap
    decreases rot,
{
    if rot == 0 {
        b
    } else {
        rotate_cw(rotations(b, (rot - 1) as nat))
    }
}

/// Turning a well-formed bitmap keeps it well-formed; an odd number of
/// quarters swaps its sides.
pub proof fn lemma_rotations_wf(b: Bitmap, rot: nat)
    requires
        b.wf(),
    ensures
        rotations(b, rot).wf(),
        rot % 2 == 0 ==> rotations(b, rot).width == b.width && rotations(b, rot).height == b.height,
        rot % 2 == 1 ==> rotations(b, rot).width == b.height && rotations(b, rot).height == b.width,
    decreases rot,
{
    if rot > 0 {
        lemma_rotations_wf(b, (rot - 1) as nat);
        let prev = rotations(b, (rot - 1) as nat);
        lemma_build(prev.height, prev.width, |x: int, y: int| prev.at(y, prev.height - 1 - x));
    }
}

/// The image turned a quarter clockwise.
fn rotate_quarter(image: &Image) -> (turned: Image)
    requires
        image.wf(),
    ensures
        turned.wf(),
        turned@ == rotate_cw(image@),
{
    let w: u16 = image.height();
    let h: u16 = image.width();
    let ghost goal = rotate_cw(image@);
    proof {
        lemma_build(image@.height, image@.width, |x: int, y: int| image@.at(y, image@.height - 1 - x));
        assert(w * h <= 0xffff * 0xffff) by (nonlinear_arith)
            requires
                w <= 0xffff,
                h <= 0xffff,
        ;
    }
    let total: usize = (w as usize) * (h as usize);
    let mut pixels: Vec<Pixel> = Vec::new();
    let mut i: usize = 0;
    while i < total
        invariant
            image.wf(),
            w == image@.height,
            h == image@.width,
            total == w * h,
            i <= total,
            goal == rotate_cw(image@),
            goal.pixels.len() == total,
            pixels@.len() == i,
            forall|k: int| 0 <= k < i ==> pixels@[k] == goal.pixels[k],
        decreases total - i,
    {
        proof {
            assert(w > 0) by (nonlinear_arith)
                requires
                    i < w * h,
            ;
            lemma_index_position(i as int, w as int, h as int);
        }
        let x: usize = i % (w as usize);
        let y: usize = i / (w as usize);
        let p = image.get_pixel(y as u32, (w as usize - 1 - x) as u32);
        pixels.push(p);
        i = i + 1;
    }
    assert(pixels@ =~= goal.pixels);
    match Image::from_pixels(w, h, pixels) {
        Some(turned) => turned,
        None => vstd::pervasive::unreached(),
    }
}

/// The image turned `rot` quarters clockwise.
pub fn rotate_image(image: &Image, rot: usize) -> (turned: Image)
    requires
        image.wf(),
    ensures
        turned.wf(),
        turned@ == rotations(image@, rot as nat),
{
    let mut turned = image.copy();
    let mut done: usize = 0;
    while done < rot
        invariant
            done <= rot,
            turned.wf(),
            turned@ == rotations(image@, done as nat),
        decreases rot - done,
    {
        turned = rotate_quarter(&turned);
        done = done + 1;
    }
    turned
}

} // verus!
