//! The solver: a grid of cells that is filled step by step, each step
//! observing, collapsing and propagating, or unwinding after a contradiction.

use crate::board::{
    all_cells, forbid, ints, lemma_narrowing_twice, lemma_propagated_starts, lemma_restore,
    lemma_sweep, lemma_sweep_settles, memo_of, narrower, narrowing, other_than, propagated, relax, relax_upto,
    remembered, restore, shrinks, supported, supports, sweep, unsettled, unwound, visit, woken,
    woken_upto,
    Board, CellState, Memo, SavedState, Sweep,
};
use crate::image::{lemma_index_position, lemma_position_index};
use crate::utils::{copy_ids, xy_from_index, AdjacencyData};
use crate::Drawable;
use vstd::prelude::*;

verus! {

/// The number of steps that a grid made by `Grid::new` can unwind.
pub const HISTORY_LENGTH: usize = 20;

/// The earlier state of one cell, as kept for unwinding.
#[derive(Debug)]
pub struct SavedCell {
    index: usize,
    domain: Vec<usize>,
    collapsed: Option<usize>,
}

/// What the history keeps of one step.
#[derive(Debug)]
pub struct Snapshot {
    pattern: usize,
    target: usize,
    saved: Vec<SavedCell>,
}

/// A grid of cells under one adjacency table, with a bounded history of its
/// latest steps.
#[derive(Debug)]
pub struct Grid {
    width: usize,
    height: usize,
    cells: Vec<Option<usize>>,
    options: Vec<Vec<usize>>,
    adjacency_rules: AdjacencyData,
    history: Vec<Snapshot>,
    capacity: usize,
    weights: Option<Vec<u32>>,
}

/// The model of a grid: its board, its history, oldest first, the number of
/// steps that the history can hold, and the weights of the patterns where
/// the grid has them.
pub struct GridView {
    pub board: Board,
    pub history: Seq<Memo>,
    pub capacity: nat,
    pub weights: Option<Seq<u32>>,
}

/// The grid after the step that commits `pattern` at cell `target`,
/// propagates from there and remembers what it found.
pub open spec fn advanced(rules: &AdjacencyData, g: GridView, target: int, pattern: usize) -> GridView {
    let pass = propagated(rules, g.board.commit(target, pattern), target);
    GridView {
        board: pass.board,
        history: remembered(
            g.history,
            memo_of(g.board, target, pattern, pass.touched),
            g.capacity,
        ),
        capacity: g.capacity,
        weights: g.weights,
    }
}

/// The grid after its latest remembered step has been unwound; with an empty
/// history, the grid itself.
pub open spec fn backtracked(g: GridView) -> GridView {
    if g.history.len() == 0 {
        g
    } else {
        GridView {
            board: unwound(g.board, g.history.last()),
            history: g.history.drop_last(),
            capacity: g.capacity,
            weights: g.weights,
        }
    }
}

/// `after` and `moved` are what a step of `g` gives that observes cell
/// `target` and, where a pattern is left there, picks `pattern`: with none
/// left the step unwinds, and has moved if there was a step to unwind.
pub open spec fn stepped(
    rules: &AdjacencyData,
    g: GridView,
    target: int,
    pattern: usize,
    after: GridView,
    moved: bool,
) -> bool {
    &&& g.board.lowest(target)
    &&& if g.board.cells[target].domain.len() == 0 {
        after == backtracked(g) && moved == (g.history.len() > 0)
    } else {
        g.board.cells[target].domain.contains(pattern) && after == advanced(
            rules,
            g,
            target,
            pattern,
        ) && moved
    }
}

/// There is one weight per pattern, and each is positive.
pub open spec fn weights_fit(weights: Seq<u32>, count: nat) -> bool {
    &&& weights.len() == count
    &&& forall|p: int| 0 <= p < weights.len() ==> (#[trigger] weights[p]) >= 1
}

/// The weight of the first `upto` patterns of `domain`, taken together.
pub open spec fn weight_upto(weights: Seq<u32>, domain: Seq<usize>, upto: nat) -> nat
    decreases upto,
{
    if upto == 0 {
        0
    } else {
        weight_upto(weights, domain, (upto - 1) as nat) + weights[domain[upto - 1] as int] as nat
    }
}

/// `k` is the place in `domain` at which the running weight first reaches
/// `draw`.
pub open spec fn reaches(weights: Seq<u32>, domain: Seq<usize>, draw: nat, k: int) -> bool {
    &&& 0 <= k < domain.len()
    &&& weight_upto(weights, domain, (k + 1) as nat) >= draw
    &&& forall|j: nat| 1 <= j <= k ==> #[trigger] weight_upto(weights, domain, j) < draw
}

impl View for SavedCell {
    type V = SavedState;

    closed spec fn view(&self) -> SavedState {
        SavedState {
            index: self.index as int,
            state: CellState { domain: self.domain@, collapsed: self.collapsed },
        }
    }
}

impl View for Snapshot {
    type V = Memo;

    closed spec fn view(&self) -> Memo {
        Memo {
            pattern: self.pattern,
            target: self.target as int,
            saved: Seq::new(self.saved@.len(), |k: int| self.saved@[k]@),
        }
    }
}

impl View for Grid {
    type V = GridView;

    closed spec fn view(&self) -> GridView {
        GridView {
            board: Board {
                width: self.width as nat,
                height: self.height as nat,
                cells: Seq::new(
                    self.cells@.len(),
                    |i: int| CellState { domain: self.options@[i]@, collapsed: self.cells@[i] },
                ),
            },
            history: Seq::new(self.history@.len(), |k: int| self.history@[k]@),
            capacity: self.capacity as nat,
            weights: match self.weights {
                Some(w) => Some(w@),
                None => None,
            },
        }
    }
}

impl Grid {
    /// The adjacency table that the grid is filled under.
    pub closed spec fn rules(&self) -> &AdjacencyData {
        &self.adjacency_rules
    }

    /// The table is well-formed, the board has one well-formed cell per
    /// position, the history is within its capacity and well-formed, and
    /// weights, where the grid has them, are positive, one per pattern.
    pub closed spec fn wf(&self) -> bool {
        &&& self.adjacency_rules.wf()
        &&& self.cells@.len() == self.options@.len()
        &&& self@.board.wf(self.adjacency_rules.count())
        &&& self@.history.len() <= self@.capacity
        &&& forall|k: int|
            0 <= k < self@.history.len() ==> (#[trigger] self@.history[k]).wf(
                self@.board.cells.len(),
                self.adjacency_rules.count(),
            )
        &&& self@.weights matches Some(w) ==> weights_fit(w, self.adjacency_rules.count())
    }

    /// A grid of the given size in which every cell admits every pattern of
    /// `patterns`, with room for `HISTORY_LENGTH` steps in its history.
    pub fn new<P: Drawable>(
        width: usize,
        height: usize,
        adjacency_rules: &AdjacencyData,
        patterns: &P,
    ) -> (grid: Grid)
        requires
            adjacency_rules.wf(),
            adjacency_rules.count() == patterns.count(),
            width * height <= usize::MAX,
        ensures
            grid.wf(),
            grid@.board == Board::fresh(width as nat, height as nat, patterns.count()),
            grid@.history == Seq::<Memo>::empty(),
            grid@.capacity == HISTORY_LENGTH,
            grid@.weights is None,
            grid.rules().count() == adjacency_rules.count(),
            forall|a: int, dir: int|
                0 <= a < adjacency_rules.count() && 0 <= dir < 4 ==> #[trigger] grid.rules().row(
                    a,
                    dir,
                ) == adjacency_rules.row(a, dir),
    {
        Self::with_history(width, height, adjacency_rules, patterns, HISTORY_LENGTH)
    }

    /// A grid as `new` makes it, with room for `capacity` steps in its
    /// history.
    pub fn with_history<P: Drawable>(
        width: usize,
        height: usize,
        adjacency_rules: &AdjacencyData,
        patterns: &P,
        capacity: usize,
    ) -> (grid: Grid)
        requires
            adjacency_rules.wf(),
            adjacency_rules.count() == patterns.count(),
            width * height <= usize::MAX,
        ensures
            grid.wf(),
            grid@.board == Board::fresh(width as nat, height as nat, patterns.count()),
            grid@.history == Seq::<Memo>::empty(),
            grid@.capacity == capacity,
            grid@.weights is None,
            grid.rules().count() == adjacency_rules.count(),
            forall|a: int, dir: int|
                0 <= a < adjacency_rules.count() && 0 <= dir < 4 ==> #[trigger] grid.rules().row(
                    a,
                    dir,
                ) == adjacency_rules.row(a, dir),
    {
        let count: usize = patterns.len();
        let mut grid = Grid {
            width,
            height,
            cells: Vec::new(),
            options: Vec::new(),
            adjacency_rules: adjacency_rules.copy(),
            history: Vec::new(),
            capacity,
            weights: None,
        };
        grid.fill(count);
        proof {
            assert(grid@.board.cells =~= Board::fresh(
                width as nat,
                height as nat,
                count as nat,
            ).cells);
            assert(grid@.history =~= Seq::<Memo>::empty());
        }
        grid
    }

    /// Makes every cell admit every pattern below `count`, with none
    /// committed; the history is not touched.
    fn fill(&mut self, count: usize)
        requires
            old(self).width * old(self).height <= usize::MAX,
        ensures
            final(self).width == old(self).width,
            final(self).height == old(self).height,
            final(self).adjacency_rules == old(self).adjacency_rules,
            final(self).history == old(self).history,
            final(self).capacity == old(self).capacity,
            final(self).weights == old(self).weights,
            final(self).cells@.len() == old(self).width * old(self).height,
            final(self).options@.len() == old(self).width * old(self).height,
            forall|i: int|
                0 <= i < final(self).cells@.len() ==> (#[trigger] final(self).cells@[i]) is None,
            forall|i: int|
                0 <= i < final(self).options@.len() ==> (#[trigger] final(self).options@[i])@
                    == CellState::full(count as nat).domain,
    {
        let total: usize = self.width * self.height;
        let mut cells: Vec<Option<usize>> = Vec::new();
        let mut options: Vec<Vec<usize>> = Vec::new();
        let mut i: usize = 0;
        while i < total
            invariant
                i <= total,
                cells@.len() == i,
                options@.len() == i,
                forall|j: int| 0 <= j < i ==> (#[trigger] cells@[j]) is None,
                forall|j: int|
                    0 <= j < i ==> (#[trigger] options@[j])@ == CellState::full(
                        count as nat,
                    ).domain,
            decreases total - i,
        {
            let mut all: Vec<usize> = Vec::new();
            let mut p: usize = 0;
            while p < count
                invariant
                    p <= count,
                    all@.len() == p,
                    forall|k: int| 0 <= k < p ==> all@[k] == k,
                decreases count - p,
            {
                all.push(p);
                p = p + 1;
            }
            assert(all@ =~= CellState::full(count as nat).domain);
            cells.push(None);
            options.push(all);
            i = i + 1;
        }
        self.cells = cells;
        self.options = options;
    }

    /// Puts the grid back to its first state: every cell admits every
    /// pattern of `patterns`, none is committed, and the history is empty.
    pub fn reset<P: Drawable>(&mut self, patterns: &P)
        requires
            old(self).wf(),
            patterns.count() == old(self).rules().count(),
        ensures
            final(self).wf(),
            final(self).rules() == old(self).rules(),
            final(self)@.board == Board::fresh(
                old(self)@.board.width,
                old(self)@.board.height,
                patterns.count(),
            ),
            final(self)@.history == Seq::<Memo>::empty(),
            final(self)@.capacity == old(self)@.capacity,
            final(self)@.weights == old(self)@.weights,
    {
        let count: usize = patterns.len();
        let cells: usize = self.cells.len();
        assert(self.width * self.height == cells);
        self.fill(count);
        self.history = Vec::new();
        proof {
            assert(self@.board.cells =~= Board::fresh(
                old(self)@.board.width,
                old(self)@.board.height,
                count as nat,
            ).cells);
            assert(self@.history =~= Seq::<Memo>::empty());
        }
    }

    /// Whether every cell is committed.
    pub fn is_finished(&self) -> (done: bool)
        requires
            self.wf(),
        ensures
            done == self@.board.finished(),
    {
        let mut i: usize = 0;
        while i < self.cells.len()
            invariant
                i <= self.cells@.len(),
                forall|j: int| 0 <= j < i ==> (#[trigger] self@.board.cells[j]).collapsed is Some,
            decreases self.cells@.len() - i,
        {
            if self.cells[i].is_none() {
                assert(self@.board.cells[i as int].collapsed is None);
                return false;
            }
            assert(self@.board.cells[i as int].collapsed is Some);
            i = i + 1;
        }
        true
    }

    /// The index of the neighbour of cell `idx` in direction `dir`, if the
    /// grid has one.
    pub fn neighbour(&self, idx: usize, dir: usize) -> (out: Option<usize>)
        requires
            self.wf(),
            idx < self@.board.cells.len(),
            dir < 4,
        ensures
            out matches Some(n) ==> n < self@.board.cells.len(),
            out is Some <==> self@.board.neighbour(idx as int, dir as int) is Some,
            out matches Some(n) ==> self@.board.neighbour(idx as int, dir as int) == Some(n as int),
    {
        let w: usize = self.width;
        let h: usize = self.height;
        let n: usize = self.cells.len();
        assert(n == w * h);
        assert(w > 0) by (nonlinear_arith)
            requires
                idx < w * h,
        ;
        let (x, y) = xy_from_index(idx, w);
        proof {
            lemma_index_position(idx as int, w as int, h as int);
        }
        if dir == 0 {
            if y == 0 {
                None
            } else {
                proof {
                    lemma_position_index(x as int, y - 1, w as int, h as int);
                    assert((y - 1) * w + x == idx - w) by (nonlinear_arith)
                        requires
                            y * w + x == idx,
                    ;
                }
                Some(idx - w)
            }
        } else if dir == 1 {
            if x + 1 >= w {
                None
            } else {
                proof {
                    lemma_position_index(x + 1, y as int, w as int, h as int);
                }
                Some(idx + 1)
            }
        } else if dir == 2 {
            if y + 1 >= h {
                None
            } else {
                proof {
                    lemma_position_index(x as int, y + 1, w as int, h as int);
                    assert((y + 1) * w + x == idx + w) by (nonlinear_arith)
                        requires
                            y * w + x == idx,
                    ;
                }
                Some(idx + w)
            }
        } else {
            if x == 0 {
                None
            } else {
                proof {
                    lemma_position_index(x - 1, y as int, w as int, h as int);
                }
                Some(idx - 1)
            }
        }
    }

    /// For every pattern, whether some pattern admissible at cell `src`
    /// admits it as its neighbour in direction `dir`.
    fn support_mask(&self, src: usize, dir: usize) -> (mask: Vec<bool>)
        requires
            self.wf(),
            src < self@.board.cells.len(),
            dir < 4,
        ensures
            mask@.len() == self.rules().count(),
            forall|b: int|
                0 <= b < mask@.len() ==> #[trigger] mask@[b] == supports(
                    self.rules(),
                    self@.board.cells[src as int].domain,
                    dir as int,
                    b as usize,
                ),
    {
        let count: usize = self.adjacency_rules.len();
        let ghost dom = self@.board.cells[src as int].domain;
        let ghost rules = self.rules();
        assert(self@.board.cells[src as int].wf(rules.count()));
        let mut mask: Vec<bool> = Vec::new();
        let mut b: usize = 0;
        while b < count
            invariant
                b <= count,
                mask@.len() == b,
                forall|j: int| 0 <= j < b ==> !mask@[j],
            decreases count - b,
        {
            mask.push(false);
            b = b + 1;
        }
        let source = &self.options[src];
        let mut k: usize = 0;
        while k < source.len()
            invariant
                self.wf(),
                rules == self.rules(),
                rules.wf(),
                count == rules.count(),
                dir < 4,
                source@ == dom,
                forall|i: int| 0 <= i < dom.len() ==> (#[trigger] dom[i]) < count,
                k <= dom.len(),
                mask@.len() == count,
                forall|b: int|
                    0 <= b < count ==> #[trigger] mask@[b] == supports(
                        rules,
                        dom.subrange(0, k as int),
                        dir as int,
                        b as usize,
                    ),
            decreases dom.len() - k,
        {
            let q: usize = source[k];
            let row = self.adjacency_rules.get(q, dir);
            let ghost before = mask@;
            let mut j: usize = 0;
            while j < row.len()
                invariant
                    rules.wf(),
                    count == rules.count(),
                    dir < 4,
                    q < count,
                    row@ == rules.row(q as int, dir as int),
                    j <= row@.len(),
                    mask@.len() == count,
                    forall|b: int|
                        0 <= b < count ==> #[trigger] mask@[b] == (before[b] || exists|i: int|
                            0 <= i < j && row@[i] == b),
                decreases row@.len() - j,
            {
                let b: usize = row[j];
                assert(rules.row(q as int, dir as int)[j as int] < count);
                mask.set(b, true);
                j = j + 1;
            }
            proof {
                let shorter = dom.subrange(0, k as int);
                let longer = dom.subrange(0, k + 1);
                assert forall|b: int| 0 <= b < count implies #[trigger] mask@[b] == supports(
                    rules,
                    longer,
                    dir as int,
                    b as usize,
                ) by {
                    if supports(rules, longer, dir as int, b as usize) {
                        let i = choose|i: int|
                            0 <= i < longer.len() && rules.admits(
                                #[trigger] longer[i] as int,
                                dir as int,
                                b as usize as int,
                            );
                        if i < k {
                            assert(shorter[i] == longer[i]);
                            assert(supports(rules, shorter, dir as int, b as usize));
                        } else {
                            assert(longer[i] == q);
                        }
                    }
                    if before[b] {
                        let i = choose|i: int|
                            0 <= i < shorter.len() && rules.admits(
                                #[trigger] shorter[i] as int,
                                dir as int,
                                b as usize as int,
                            );
                        assert(longer[i] == shorter[i]);
                    }
                    if rules.admits(q as int, dir as int, b) {
                        assert(longer[k as int] == q);
                    }
                }
            }
            k = k + 1;
        }
        assert(dom.subrange(0, dom.len() as int) =~= dom);
        mask
    }

    /// What a well-formed grid is made of: a well-formed table, a
    /// well-formed board under it, and a history within its capacity.
    pub proof fn lemma_wf(&self)
        requires
            self.wf(),
        ensures
            self.rules().wf(),
            self@.board.wf(self.rules().count()),
            self@.history.len() <= self@.capacity,
            forall|k: int|
                0 <= k < self@.history.len() ==> (#[trigger] self@.history[k]).wf(
                    self@.board.cells.len(),
                    self.rules().count(),
                ),
            self@.weights matches Some(w) ==> weights_fit(w, self.rules().count()),
    {
    }

    /// The grid has the table, the size, the history, the capacity and the
    /// weights of `before`: at most its cells differ.
    pub open spec fn keeps(&self, before: &Grid) -> bool {
        &&& self.rules() == before.rules()
        &&& self@.board.width == before@.board.width
        &&& self@.board.height == before@.board.height
        &&& self@.board.cells.len() == before@.board.cells.len()
        &&& self@.history == before@.history
        &&& self@.capacity == before@.capacity
        &&& self@.weights == before@.weights
    }

    /// Commits cell `idx` if exactly one pattern is left there.
    fn settle(&mut self, idx: usize)
        requires
            old(self).wf(),
            idx < old(self)@.board.cells.len(),
        ensures
            final(self).wf(),
            final(self).keeps(old(self)),
            final(self)@.board == old(self)@.board.settle(idx as int),
    {
        assert(self@.board.cells[idx as int].wf(self.rules().count()));
        if self.options[idx].len() == 1 {
            let p: usize = self.options[idx][0];
            self.cells.set(idx, Some(p));
            proof {
                assert(self.options@[idx as int]@ =~= seq![p]);
                assert(self@.board.cells =~= old(self)@.board.settle(idx as int).cells);
                assert(self@.history =~= old(self)@.history);
                assert forall|i: int| 0 <= i < self@.board.cells.len() implies (
                #[trigger] self@.board.cells[i]).wf(self.rules().count()) by {
                    if i != idx {
                        assert(self@.board.cells[i] == old(self)@.board.cells[i]);
                    }
                }
            }
        }
    }

    /// Commits pattern `p` at cell `idx`.
    fn commit(&mut self, idx: usize, p: usize)
        requires
            old(self).wf(),
            idx < old(self)@.board.cells.len(),
            p < old(self).rules().count(),
        ensures
            final(self).wf(),
            final(self).keeps(old(self)),
            final(self)@.board == old(self)@.board.commit(idx as int, p),
    {
        let mut only: Vec<usize> = Vec::new();
        only.push(p);
        self.options.set(idx, only);
        self.cells.set(idx, Some(p));
        proof {
            assert(self.options@[idx as int]@ =~= seq![p]);
            assert(self@.board.cells =~= old(self)@.board.commit(idx as int, p).cells);
            assert(self@.history =~= old(self)@.history);
            assert forall|i: int| 0 <= i < self@.board.cells.len() implies (
            #[trigger] self@.board.cells[i]).wf(self.rules().count()) by {
                if i != idx {
                    assert(self@.board.cells[i] == old(self)@.board.cells[i]);
                }
            }
        }
    }

    /// Narrows the uncommitted neighbour `nb` of cell `src` in direction
    /// `dir`, and tells whether it lost a pattern.
    fn narrow(&mut self, src: usize, dir: usize, nb: usize) -> (shrunk: bool)
        requires
            old(self).wf(),
            src < old(self)@.board.cells.len(),
            nb < old(self)@.board.cells.len(),
            dir < 4,
            old(self)@.board.neighbour(src as int, dir as int) == Some(nb as int),
            old(self)@.board.cells[nb as int].collapsed is None,
        ensures
            final(self).wf(),
            final(self).keeps(old(self)),
            final(self)@.board == relax(old(self).rules(), old(self)@.board, src as int, dir as int),
            shrunk == shrinks(old(self).rules(), old(self)@.board, src as int, dir as int),
    {
        let mask = self.support_mask(src, dir);
        let ghost rules = self.rules();
        let ghost count = rules.count();
        let ghost dom = self@.board.cells[nb as int].domain;
        let ghost pred = supported(rules, self@.board.cells[src as int].domain, dir as int);
        assert(self@.board.cells[nb as int].wf(count));
        let len: usize = self.options[nb].len();
        let mut kept: Vec<usize> = Vec::new();
        let mut i: usize = 0;
        assert(dom.subrange(0, 0) =~= Seq::<usize>::empty());
        while i < len
            invariant
                i <= len,
                len == dom.len(),
                nb < self.options@.len(),
                self.options@[nb as int]@ == dom,
                mask@.len() == count,
                forall|k: int| 0 <= k < dom.len() ==> (#[trigger] dom[k]) < count,
                forall|b: int| 0 <= b < count ==> #[trigger] mask@[b] == pred(b as usize),
                kept@ == dom.subrange(0, i as int).filter(pred),
                forall|k: int| 0 <= k < kept@.len() ==> (#[trigger] kept@[k]) < count,
            decreases len - i,
        {
            let b: usize = self.options[nb][i];
            proof {
                assert(dom[i as int] < count);
                assert(dom.subrange(0, i + 1) =~= dom.subrange(0, i as int).push(b));
                dom.subrange(0, i as int).lemma_filter_push(b, pred);
            }
            if mask[b] {
                kept.push(b);
            }
            i = i + 1;
        }
        assert(dom.subrange(0, len as int) =~= dom);
        let shrunk: bool = kept.len() < len;
        self.options.set(nb, kept);
        proof {
            let goal = relax(rules, old(self)@.board, src as int, dir as int);
            assert(self@.board.cells =~= goal.cells);
            assert(self@.history =~= old(self)@.history);
            assert forall|j: int| 0 <= j < self@.board.cells.len() implies (
            #[trigger] self@.board.cells[j]).wf(count) by {
                if j != nb {
                    assert(self@.board.cells[j] == old(self)@.board.cells[j]);
                }
            }
        }
        shrunk
    }

    /// Visits cell `cur`: settles it, narrows its four neighbours, and puts
    /// each one that lost a pattern at the end of `queue`.
    fn visit_cell(&mut self, cur: usize, queue: &mut Vec<usize>)
        requires
            old(self).wf(),
            cur < old(self)@.board.cells.len(),
        ensures
            final(self).wf(),
            final(self).keeps(old(self)),
            final(self)@.board == visit(old(self).rules(), old(self)@.board, cur as int),
            ints(final(queue)@) == ints(old(queue)@) + woken(
                old(self).rules(),
                old(self)@.board,
                cur as int,
            ),
            forall|k: int|
                old(queue)@.len() <= k < final(queue)@.len() ==> (#[trigger] final(queue)@[k])
                    < old(self)@.board.cells.len(),
            forall|k: int| 0 <= k < old(queue)@.len() ==> final(queue)@[k] == old(queue)@[k],
            final(queue)@.len() >= old(queue)@.len(),
    {
        let ghost rules = self.rules();
        let ghost start = self@.board;
        let ghost first = queue@;
        self.settle(cur);
        assert(ints(queue@) =~= ints(first) + woken_upto(rules, start, cur as int, 0));
        let mut dir: usize = 0;
        while dir < 4
            invariant
                dir <= 4,
                self.wf(),
                self.keeps(old(self)),
                rules == old(self).rules(),
                start == old(self)@.board,
                first == old(queue)@,
                cur < start.cells.len(),
                self@.board == relax_upto(rules, start, cur as int, dir as nat),
                ints(queue@) == ints(first) + woken_upto(rules, start, cur as int, dir as nat),
                queue@.len() >= first.len(),
                forall|k: int|
                    first.len() <= k < queue@.len() ==> (#[trigger] queue@[k]) < start.cells.len(),
                forall|k: int| 0 <= k < first.len() ==> queue@[k] == first[k],
            decreases 4 - dir,
        {
            let ghost before = self@.board;
            let ghost line = queue@;
            match self.neighbour(cur, dir) {
                Some(nb) => {
                    if self.cells[nb].is_none() {
                        assert(self@.board.cells[nb as int].collapsed is None);
                        let shrunk = self.narrow(cur, dir, nb);
                        if shrunk {
                            queue.push(nb);
                            assert(ints(queue@) =~= ints(line).push(nb as int));
                        }
                    } else {
                        assert(self@.board.cells[nb as int].collapsed is Some);
                    }
                },
                None => {},
            }
            assert(self@.board == relax(rules, before, cur as int, dir as int));
            assert(ints(queue@) =~= ints(first) + woken_upto(
                rules,
                start,
                cur as int,
                (dir + 1) as nat,
            ));
            dir = dir + 1;
        }
    }

    /// Propagates from cell `idx` until no cell waits in the worklist, and
    /// returns the cells visited, in the order of their visits. A visit
    /// commits the cell if one pattern is left there and narrows its four
    /// neighbours; a cell that has lost a pattern joins the worklist, is
    /// visited if it was not yet, and is committed if it has come down to
    /// one pattern.
    pub fn propagate(&mut self, idx: usize) -> (touched: Vec<usize>)
        requires
            old(self).wf(),
            idx < old(self)@.board.cells.len(),
        ensures
            final(self).wf(),
            final(self).keeps(old(self)),
            final(self)@.board == propagated(old(self).rules(), old(self)@.board, idx as int).board,
            ints(touched@) == propagated(old(self).rules(), old(self)@.board, idx as int).touched,
            forall|k: int| 0 <= k < touched@.len() ==> (#[trigger] touched@[k]) < old(
                self,
            )@.board.cells.len(),
    {
        let n: usize = self.cells.len();
        let ghost rules = self.rules();
        let ghost start = self@.board;
        let ghost goal = propagated(rules, start, idx as int);
        let mut visited: Vec<bool> = Vec::new();
        let mut i: usize = 0;
        while i < n
            invariant
                i <= n,
                visited@.len() == i,
                forall|j: int| 0 <= j < i ==> !visited@[j],
            decreases n - i,
        {
            visited.push(false);
            i = i + 1;
        }
        let mut queue: Vec<usize> = Vec::new();
        queue.push(idx);
        let mut head: usize = 0;
        let mut touched: Vec<usize> = Vec::new();
        let ghost mut todo: Set<int> = all_cells(n as nat);
        proof {
            vstd::set_lib::lemma_int_range(0, n as int);
            assert(todo =~= vstd::set_lib::set_int_range(0, n as int));
            assert(ints(queue@).subrange(0, 1) =~= seq![idx as int]);
            assert(ints(touched@) + goal.touched =~= goal.touched);
        }
        while head < queue.len()
            invariant
                self.wf(),
                self.keeps(old(self)),
                rules == old(self).rules(),
                n == self@.board.cells.len(),
                visited@.len() == n,
                head <= queue@.len(),
                forall|k: int| 0 <= k < queue@.len() ==> (#[trigger] queue@[k]) < n,
                forall|k: int| 0 <= k < touched@.len() ==> (#[trigger] touched@[k]) < n,
                todo.finite(),
                forall|c: int| todo.contains(c) <==> 0 <= c < n && !visited@[c],
                goal.board == sweep(
                    rules,
                    self@.board,
                    ints(queue@).subrange(head as int, queue@.len() as int),
                    todo,
                ).board,
                goal.touched == ints(touched@) + sweep(
                    rules,
                    self@.board,
                    ints(queue@).subrange(head as int, queue@.len() as int),
                    todo,
                ).touched,
            decreases todo.len(), queue@.len() - head,
        {
            let cur: usize = queue[head];
            let ghost board = self@.board;
            let ghost line = ints(queue@).subrange(head as int, queue@.len() as int);
            let ghost seen = ints(touched@);
            assert(line[0] == cur);
            if visited[cur] {
                assert(!todo.contains(cur as int));
                assert(line.drop_first() =~= ints(queue@).subrange(head + 1, queue@.len() as int));
                self.settle(cur);
                head = head + 1;
            } else {
                assert(todo.contains(cur as int));
                let ghost rest = sweep(
                    rules,
                    visit(rules, board, cur as int),
                    line.drop_first() + woken(rules, board, cur as int),
                    todo.remove(cur as int),
                );
                assert(sweep(rules, board, line, todo) == (Sweep {
                    board: rest.board,
                    touched: seq![cur as int] + rest.touched,
                }));
                visited.set(cur, true);
                touched.push(cur);
                let ghost waiting = queue@;
                self.visit_cell(cur, &mut queue);
                head = head + 1;
                proof {
                    todo = todo.remove(cur as int);
                    let more = woken(rules, board, cur as int);
                    let now = ints(queue@);
                    assert(now == ints(waiting) + more);
                    assert(now.len() == queue@.len());
                    assert(ints(waiting).len() == waiting.len());
                    assert(line.drop_first() =~= ints(waiting).subrange(
                        head as int,
                        waiting.len() as int,
                    ));
                    assert(now.subrange(head as int, queue@.len() as int) =~= line.drop_first()
                        + more);
                    assert(ints(touched@) =~= seen.push(cur as int));
                    assert(ints(touched@) + rest.touched =~= seen + (seq![cur as int]
                        + rest.touched));
                }
            }
        }
        proof {
            assert(ints(queue@).subrange(head as int, queue@.len() as int).len() == 0);
        }
        touched
    }

    /// The uncommitted cells with the fewest admissible patterns, in
    /// increasing order; there is none exactly when the grid is finished.
    pub fn candidates(&self) -> (found: Vec<usize>)
        requires
            self.wf(),
        ensures
            forall|k: int| 0 <= k < found@.len() ==> self@.board.lowest(#[trigger] found@[k] as int),
            forall|i: int| self@.board.lowest(i) ==> found@.contains(i as usize),
            forall|j: int, k: int| 0 <= j < k < found@.len() ==> found@[j] < found@[k],
            found@.len() == 0 <==> self@.board.finished(),
    {
        let n: usize = self.cells.len();
        let ghost board = self@.board;
        let mut found: Vec<usize> = Vec::new();
        let mut least: usize = usize::MAX;
        let mut i: usize = 0;
        while i < n
            invariant
                self.wf(),
                board == self@.board,
                n == board.cells.len(),
                n == self.cells@.len(),
                i <= n,
                forall|j: int|
                    0 <= j < i && (#[trigger] board.cells[j]).collapsed is None ==> least
                        <= board.cells[j].domain.len(),
                forall|k: int|
                    0 <= k < found@.len() ==> 0 <= (#[trigger] found@[k]) < i
                        && board.cells[found@[k] as int].collapsed is None
                        && board.cells[found@[k] as int].domain.len() == least,
                forall|j: int|
                    0 <= j < i && (#[trigger] board.cells[j]).collapsed is None
                        && board.cells[j].domain.len() == least ==> found@.contains(j as usize),
                forall|j: int, k: int| 0 <= j < k < found@.len() ==> found@[j] < found@[k],
                found@.len() == 0 ==> least == usize::MAX && forall|j: int|
                    0 <= j < i ==> (#[trigger] board.cells[j]).collapsed is Some,
            decreases n - i,
        {
            let ghost earlier = found@;
            if self.cells[i].is_none() {
                assert(board.cells[i as int].collapsed is None);
                let size: usize = self.options[i].len();
                assert(size == board.cells[i as int].domain.len());
                if size < least {
                    least = size;
                    found.clear();
                    found.push(i);
                    assert(found@[0] == i);
                    assert forall|j: int|
                        0 <= j < i + 1 && (#[trigger] board.cells[j]).collapsed is None
                            && board.cells[j].domain.len() == least implies found@.contains(
                        j as usize,
                    ) by {
                        assert(j == i);
                    }
                } else if size == least {
                    found.push(i);
                    assert forall|j: int|
                        0 <= j < i + 1 && (#[trigger] board.cells[j]).collapsed is None
                            && board.cells[j].domain.len() == least implies found@.contains(
                        j as usize,
                    ) by {
                        if j < i {
                            let k = choose|k: int| 0 <= k < earlier.len() && earlier[k] == j as usize;
                            assert(found@[k] == j as usize);
                        } else {
                            assert(found@[earlier.len() as int] == i);
                        }
                    }
                }
            } else {
                assert(board.cells[i as int].collapsed is Some);
            }
            i = i + 1;
        }
        proof {
            assert forall|c: int| board.lowest(c) implies found@.contains(c as usize) by {
                if found@.len() > 0 {
                    let f = found@[0] as int;
                    assert(board.cells[f].collapsed is None);
                    assert(board.cells[c].domain.len() <= board.cells[f].domain.len());
                } else {
                    assert(board.cells[c].collapsed is Some);
                }
            }
            if found@.len() > 0 {
                assert(board.cells[found@[0] as int].collapsed is None);
            }
        }
        found
    }

    /// Observes the grid: picks at random one of the uncommitted cells with
    /// the fewest admissible patterns; there is none exactly when the grid
    /// is finished.
    pub fn observe(&self) -> (picked: Option<usize>)
        requires
            self.wf(),
        ensures
            picked is None <==> self@.board.finished(),
            picked matches Some(idx) ==> self@.board.lowest(idx as int),
    {
        let found = self.candidates();
        let picked = pick(&found);
        proof {
            if let Some(idx) = picked {
                let k = choose|k: int| 0 <= k < found@.len() && found@[k] == idx;
                assert(self@.board.lowest(found@[k] as int));
            }
        }
        picked
    }

    /// Gives every pattern its weight for the random choice among the
    /// patterns of a cell; refused, with nothing changed, unless there is one
    /// weight per pattern and each is positive.
    pub fn set_weights(&mut self, weights: Vec<u32>) -> (taken: bool)
        requires
            old(self).wf(),
        ensures
            final(self).wf(),
            final(self).rules() == old(self).rules(),
            taken == weights_fit(weights@, old(self).rules().count()),
            taken ==> final(self)@ == (GridView { weights: Some(weights@), ..old(self)@ }),
            !taken ==> final(self)@ == old(self)@,
    {
        if weights.len() != self.adjacency_rules.len() {
            return false;
        }
        let mut p: usize = 0;
        while p < weights.len()
            invariant
                self.wf(),
                self.rules() == old(self).rules(),
                self@ == old(self)@,
                p <= weights@.len(),
                forall|q: int| 0 <= q < p ==> (#[trigger] weights@[q]) >= 1,
            decreases weights@.len() - p,
        {
            if weights[p] == 0 {
                return false;
            }
            p = p + 1;
        }
        self.weights = Some(weights);
        proof {
            assert(self@.board.cells =~= old(self)@.board.cells);
            assert(self@.history =~= old(self)@.history);
        }
        true
    }

    /// Takes the weights away: the choice among the patterns of a cell is
    /// uniform again.
    pub fn clear_weights(&mut self)
        requires
            old(self).wf(),
        ensures
            final(self).wf(),
            final(self).rules() == old(self).rules(),
            final(self)@ == (GridView { weights: None, ..old(self)@ }),
    {
        self.weights = None;
        proof {
            assert(self@.board.cells =~= old(self)@.board.cells);
            assert(self@.history =~= old(self)@.history);
        }
    }

    /// One of the patterns admissible at cell `idx`, picked at random: by
    /// weight where the grid has weights, else uniformly. `None` exactly
    /// when none is admissible.
    pub fn choose_pattern(&self, idx: usize) -> (picked: Option<usize>)
        requires
            self.wf(),
            idx < self@.board.cells.len(),
        ensures
            picked is None <==> self@.board.cells[idx as int].domain.len() == 0,
            picked matches Some(p) ==> self@.board.cells[idx as int].domain.contains(p),
    {
        let domain = &self.options[idx];
        assert(self@.board.cells[idx as int].wf(self.rules().count()));
        match &self.weights {
            None => pick(domain),
            Some(w) => {
                if domain.len() == 0 {
                    return None;
                }
                let total: u128 = total_weight(domain, w);
                let high: u64 = if total > u64::MAX as u128 {
                    u64::MAX
                } else {
                    total as u64
                };
                let draw: u64 = draw_upto(high);
                match pick_weighted(domain, w, draw) {
                    Some(p) => Some(p),
                    None => vstd::pervasive::unreached(),
                }
            },
        }
    }

    /// Collapses cell `idx`: commits a pattern picked at random among those
    /// admissible there, and returns it; with none admissible the grid stays
    /// as it is.
    pub fn collapse(&mut self, idx: usize) -> (chosen: Option<usize>)
        requires
            old(self).wf(),
            idx < old(self)@.board.cells.len(),
        ensures
            final(self).wf(),
            final(self).keeps(old(self)),
            chosen is None <==> old(self)@.board.cells[idx as int].domain.len() == 0,
            chosen is None ==> final(self)@.board == old(self)@.board,
            chosen matches Some(p) ==> old(self)@.board.cells[idx as int].domain.contains(p)
                && final(self)@.board == old(self)@.board.commit(idx as int, p),
    {
        let chosen = self.choose_pattern(idx);
        if let Some(p) = chosen {
            assert(self@.board.cells[idx as int].wf(self.rules().count()));
            self.commit(idx, p);
        }
        chosen
    }

    /// Commits `pattern` at the uncommitted cell `target`, propagates from
    /// there, and remembers the step in the history.
    pub fn advance(&mut self, target: usize, pattern: usize)
        requires
            old(self).wf(),
            target < old(self)@.board.cells.len(),
            old(self)@.board.cells[target as int].collapsed is None,
            old(self)@.board.cells[target as int].domain.contains(pattern),
        ensures
            final(self).wf(),
            final(self).rules() == old(self).rules(),
            final(self)@ == advanced(old(self).rules(), old(self)@, target as int, pattern),
    {
        let ghost rules = self.rules();
        let ghost start = self@;
        let ghost count = rules.count();
        let n: usize = self.cells.len();
        assert(start.board.cells[target as int].wf(count));
        let keep: bool = self.capacity > 0;
        let mut domains: Vec<Vec<usize>> = Vec::new();
        let mut commits: Vec<Option<usize>> = Vec::new();
        if keep {
            let mut i: usize = 0;
            while i < n
                invariant
                    self.wf(),
                    self@ == start,
                    n == self.cells@.len(),
                    n == start.board.cells.len(),
                    i <= n,
                    domains@.len() == i,
                    commits@.len() == i,
                    forall|j: int|
                        0 <= j < i ==> (#[trigger] domains@[j])@ == start.board.cells[j].domain,
                    forall|j: int|
                        0 <= j < i ==> (#[trigger] commits@[j]) == start.board.cells[j].collapsed,
                decreases n - i,
            {
                assert(start.board.cells[i as int].domain == self.options@[i as int]@);
                assert(start.board.cells[i as int].collapsed == self.cells@[i as int]);
                domains.push(copy_ids(&self.options[i]));
                commits.push(self.cells[i]);
                i = i + 1;
            }
        }
        self.commit(target, pattern);
        let touched = self.propagate(target);
        let ghost pass = propagated(rules, start.board.commit(target as int, pattern), target as int);
        let ghost memo = memo_of(start.board, target as int, pattern, pass.touched);
        proof {
            lemma_propagated_starts(rules, start.board.commit(target as int, pattern), target as int);
            assert(self@.history == start.history);
        }
        if keep {
            let mut saved: Vec<SavedCell> = Vec::new();
            let mut k: usize = 0;
            while k < touched.len()
                invariant
                    n == start.board.cells.len(),
                    domains@.len() == n,
                    commits@.len() == n,
                    forall|j: int|
                        0 <= j < n ==> (#[trigger] domains@[j])@ == start.board.cells[j].domain,
                    forall|j: int|
                        0 <= j < n ==> (#[trigger] commits@[j]) == start.board.cells[j].collapsed,
                    forall|j: int| 0 <= j < touched@.len() ==> (#[trigger] touched@[j]) < n,
                    k <= touched@.len(),
                    saved@.len() == k,
                    forall|j: int|
                        0 <= j < k ==> (#[trigger] saved@[j])@ == (SavedState {
                            index: touched@[j] as int,
                            state: start.board.cells[touched@[j] as int],
                        }),
                decreases touched@.len() - k,
            {
                let idx: usize = touched[k];
                saved.push(
                    SavedCell { index: idx, domain: copy_ids(&domains[idx]), collapsed: commits[idx] },
                );
                k = k + 1;
            }
            let snapshot = Snapshot { pattern, target, saved };
            proof {
                assert(ints(touched@) == pass.touched);
                assert(snapshot@.saved =~= memo.saved) by {
                    assert forall|j: int| 0 <= j < touched@.len() implies snapshot@.saved[j]
                        == memo.saved[j] by {
                        assert(ints(touched@)[j] == touched@[j] as int);
                    }
                }
                assert(snapshot@ == memo);
                assert(memo.wf(n as nat, count)) by {
                    assert(memo.saved[0].index == target);
                    assert forall|j: int| 0 <= j < memo.saved.len() implies 0 <= (
                    #[trigger] memo.saved[j]).index < n && memo.saved[j].state.wf(count) && (
                    memo.saved[j].index == memo.target ==> memo.saved[j].state.collapsed is None) by {
                        assert(ints(touched@)[j] == touched@[j] as int);
                        assert(start.board.cells[touched@[j] as int].wf(count));
                    }
                }
            }
            let ghost earlier = self.history@;
            if self.history.len() >= self.capacity {
                self.history.remove(0);
                assert(self.history@ =~= earlier.drop_first());
            }
            let ghost middle = self.history@;
            self.history.push(snapshot);
            proof {
                assert(self@.history =~= remembered(start.history, memo, start.capacity)) by {
                    assert forall|j: int| 0 <= j < self@.history.len() implies self@.history[j]
                        == remembered(start.history, memo, start.capacity)[j] by {
                        if j < middle.len() {
                            assert(self.history@[j] == middle[j]);
                            if earlier.len() >= self.capacity {
                                assert(middle[j] == earlier[j + 1]);
                                assert(start.history[j + 1] == earlier[j + 1]@);
                            } else {
                                assert(middle[j] == earlier[j]);
                                assert(start.history[j] == earlier[j]@);
                            }
                        }
                    }
                }
                assert(self@.board == pass.board);
                assert forall|j: int| 0 <= j < self@.history.len() implies (
                #[trigger] self@.history[j]).wf(self@.board.cells.len(), count) by {
                    if j < middle.len() {
                        if earlier.len() >= self.capacity {
                            assert(self@.history[j] == start.history[j + 1]);
                        } else {
                            assert(self@.history[j] == start.history[j]);
                        }
                    }
                }
            }
        } else {
            assert(self@.history =~= remembered(start.history, memo, start.capacity));
        }
    }

    /// Unwinds the latest remembered step: every cell that it visited is put
    /// back as the step found it, and the pattern that it tried is struck at
    /// its target. With an empty history nothing changes.
    pub fn unwind(&mut self)
        requires
            old(self).wf(),
        ensures
            final(self).wf(),
            final(self).rules() == old(self).rules(),
            final(self)@ == backtracked(old(self)@),
    {
        let ghost rules = self.rules();
        let ghost count = rules.count();
        let ghost start = self@;
        let n: usize = self.cells.len();
        match self.history.pop() {
            None => {
                assert(self@.history =~= start.history);
                assert(self@.board.cells =~= start.board.cells);
            },
            Some(snapshot) => {
                let ghost memo = snapshot@;
                proof {
                    assert(memo == start.history.last());
                    assert(self@.history =~= start.history.drop_last());
                    assert(self@.board.cells =~= start.board.cells);
                    assert(memo.wf(n as nat, count));
                    assert(memo.saved.subrange(0, 0) =~= Seq::<SavedState>::empty());
                    assert forall|j: int| 0 <= j < self@.history.len() implies (
                    #[trigger] self@.history[j]).wf(n as nat, count) by {
                        assert(self@.history[j] == start.history[j]);
                    }
                }
                let mut k: usize = 0;
                while k < snapshot.saved.len()
                    invariant
                        self.wf(),
                        rules == self.rules(),
                        count == rules.count(),
                        n == self.cells@.len(),
                        n == start.board.cells.len(),
                        memo == snapshot@,
                        memo.wf(n as nat, count),
                        k <= snapshot.saved@.len(),
                        start.history.len() > 0,
                        self@.history == start.history.drop_last(),
                        self@.capacity == start.capacity,
                        self@.weights == start.weights,
                        self@.board == restore(start.board, memo.saved.subrange(0, k as int)),
                    decreases snapshot.saved@.len() - k,
                {
                    let ghost before = self@;
                    let cell = &snapshot.saved[k];
                    assert(memo.saved[k as int] == cell@);
                    assert(cell@.index < n && cell@.state.wf(count));
                    let idx: usize = cell.index;
                    self.options.set(idx, copy_ids(&cell.domain));
                    self.cells.set(idx, cell.collapsed);
                    proof {
                        let upto = memo.saved.subrange(0, k + 1);
                        assert(upto.drop_last() =~= memo.saved.subrange(0, k as int));
                        assert(upto.last() == cell@);
                        assert(self@.board.cells =~= restore(start.board, upto).cells);
                        assert(self@.history =~= before.history);
                        assert forall|j: int| 0 <= j < self@.board.cells.len() implies (
                        #[trigger] self@.board.cells[j]).wf(count) by {
                            if j != idx {
                                assert(self@.board.cells[j] == before.board.cells[j]);
                            }
                        }
                    }
                    k = k + 1;
                }
                let target: usize = snapshot.target;
                let ghost restored = self@;
                proof {
                    assert(memo.saved.subrange(0, k as int) =~= memo.saved);
                    lemma_restore(start.board, memo.saved, target as int);
                    assert(restored.board.cells[target as int].collapsed is None);
                    assert(restored.board.cells[target as int].wf(count));
                }
                let kept = without(&self.options[target], snapshot.pattern);
                self.options.set(target, kept);
                proof {
                    assert(self@.board.cells =~= unwound(start.board, memo).cells);
                    assert(self@.history =~= restored.history);
                    assert forall|j: int| 0 <= j < self@.board.cells.len() implies (
                    #[trigger] self@.board.cells[j]).wf(count) by {
                        if j != target {
                            assert(self@.board.cells[j] == restored.board.cells[j]);
                        } else {
                            let old_dom = restored.board.cells[j].domain;
                            let new_dom = self@.board.cells[j].domain;
                            assert forall|i: int| 0 <= i < new_dom.len() implies (
                            #[trigger] new_dom[i]) < count by {
                                assert(new_dom.contains(new_dom[i]));
                                old_dom.lemma_filter_contains_rev(
                                    other_than(memo.pattern),
                                    new_dom[i],
                                );
                            }
                        }
                    }
                }
            },
        }
    }

    /// One step for the observed cell `target` and the picked pattern
    /// `pattern`: with no pattern left at the cell the latest remembered step
    /// is unwound, else `pattern` is committed there and propagated. Tells
    /// whether the grid has moved.
    pub fn step_at(&mut self, target: usize, pattern: usize) -> (moved: bool)
        requires
            old(self).wf(),
            old(self)@.board.lowest(target as int),
            old(self)@.board.cells[target as int].domain.len() > 0 ==> old(
                self,
            )@.board.cells[target as int].domain.contains(pattern),
        ensures
            final(self).wf(),
            final(self).rules() == old(self).rules(),
            stepped(old(self).rules(), old(self)@, target as int, pattern, final(self)@, moved),
    {
        if self.options[target].len() == 0 {
            let moved: bool = self.history.len() > 0;
            self.unwind();
            moved
        } else {
            self.advance(target, pattern);
            true
        }
    }

    /// One step: observes a cell and collapses it to a pattern, both picked
    /// at random, and propagates; or unwinds the latest remembered step where
    /// the observed cell has no pattern left. Returns `false` when nothing
    /// could be done: the grid is finished, or it is stuck on a
    /// contradiction with an empty history.
    pub fn step(&mut self) -> (moved: bool)
        requires
            old(self).wf(),
        ensures
            final(self).wf(),
            final(self).rules() == old(self).rules(),
            old(self)@.board.finished() ==> !moved && final(self)@ == old(self)@,
            !old(self)@.board.finished() ==> exists|target: int, pattern: usize|
                stepped(old(self).rules(), old(self)@, target, pattern, final(self)@, moved),
    {
        match self.observe() {
            None => false,
            Some(target) => {
                let pattern: usize = match self.choose_pattern(target) {
                    Some(p) => p,
                    None => 0,
                };
                let moved = self.step_at(target, pattern);
                assert(stepped(old(self).rules(), old(self)@, target as int, pattern, self@, moved));
                moved
            },
        }
    }

    /// The number of columns.
    pub fn width(&self) -> (w: usize)
        ensures
            w == self@.board.width,
    {
        self.width
    }

    /// The number of rows.
    pub fn height(&self) -> (h: usize)
        ensures
            h == self@.board.height,
    {
        self.height
    }

    /// The number of cells.
    pub fn cell_count(&self) -> (n: usize)
        ensures
            n == self@.board.cells.len(),
    {
        self.cells.len()
    }

    /// The pattern committed at cell `idx`, if any.
    pub fn collapsed(&self, idx: usize) -> (p: Option<usize>)
        requires
            idx < self@.board.cells.len(),
        ensures
            p == self@.board.cells[idx as int].collapsed,
    {
        self.cells[idx]
    }

    /// The number of patterns still admissible at cell `idx`.
    pub fn domain_size(&self, idx: usize) -> (n: usize)
        requires
            self.wf(),
            idx < self@.board.cells.len(),
        ensures
            n == self@.board.cells[idx as int].domain.len(),
    {
        self.options[idx].len()
    }

    /// The patterns still admissible at cell `idx`.
    pub fn domain(&self, idx: usize) -> (ids: Vec<usize>)
        requires
            self.wf(),
            idx < self@.board.cells.len(),
        ensures
            ids@ == self@.board.cells[idx as int].domain,
    {
        copy_ids(&self.options[idx])
    }

    /// The number of steps that the history holds.
    pub fn history_len(&self) -> (n: usize)
        ensures
            n == self@.history.len(),
    {
        self.history.len()
    }
}

/// The ids of `ids` other than `pattern`, in their order.
pub fn without(ids: &Vec<usize>, pattern: usize) -> (kept: Vec<usize>)
    ensures
        kept@ == ids@.filter(other_than(pattern)),
{
    let mut kept: Vec<usize> = Vec::new();
    let mut i: usize = 0;
    assert(ids@.subrange(0, 0) =~= Seq::<usize>::empty());
    while i < ids.len()
        invariant
            i <= ids@.len(),
            kept@ == ids@.subrange(0, i as int).filter(other_than(pattern)),
        decreases ids@.len() - i,
    {
        let p: usize = ids[i];
        proof {
            assert(ids@.subrange(0, i + 1) =~= ids@.subrange(0, i as int).push(p));
            ids@.subrange(0, i as int).lemma_filter_push(p, other_than(pattern));
        }
        if p != pattern {
            kept.push(p);
        }
        i = i + 1;
    }
    assert(ids@.subrange(0, ids@.len() as int) =~= ids@);
    kept
}

/// The weight of all the patterns of `domain`, taken together.
pub fn total_weight(domain: &Vec<usize>, weights: &Vec<u32>) -> (total: u128)
    requires
        forall|k: int| 0 <= k < domain@.len() ==> (#[trigger] domain@[k]) < weights@.len(),
    ensures
        total == weight_upto(weights@, domain@, domain@.len()),
{
    let mut total: u128 = 0;
    let mut k: usize = 0;
    while k < domain.len()
        invariant
            forall|j: int| 0 <= j < domain@.len() ==> (#[trigger] domain@[j]) < weights@.len(),
            k <= domain@.len(),
            total == weight_upto(weights@, domain@, k as nat),
            total <= k * 0xffff_ffff,
        decreases domain@.len() - k,
    {
        assert(domain@[k as int] < weights@.len());
        assert((k + 1) * 0xffff_ffff == k * 0xffff_ffff + 0xffff_ffff) by (nonlinear_arith);
        assert(k * 0xffff_ffff + 0xffff_ffff <= u128::MAX) by (nonlinear_arith)
            requires
                k <= 0xffff_ffff_ffff_ffff,
        ;
        total = total + weights[domain[k]] as u128;
        k = k + 1;
    }
    total
}

/// The pattern of `domain` at which the running weight first reaches
/// `draw`, walking from the front; `None` where the weight of all its
/// patterns stays below `draw`, or there is no pattern.
pub fn pick_weighted(domain: &Vec<usize>, weights: &Vec<u32>, draw: u64) -> (picked: Option<usize>)
    requires
        forall|k: int| 0 <= k < domain@.len() ==> (#[trigger] domain@[k]) < weights@.len(),
    ensures
        picked is Some <==> domain@.len() > 0 && weight_upto(weights@, domain@, domain@.len())
            >= draw,
        picked matches Some(p) ==> exists|k: int|
            reaches(weights@, domain@, draw as nat, k) && #[trigger] domain@[k] == p,
{
    let mut running: u128 = 0;
    let mut k: usize = 0;
    while k < domain.len()
        invariant
            forall|j: int| 0 <= j < domain@.len() ==> (#[trigger] domain@[j]) < weights@.len(),
            k <= domain@.len(),
            running == weight_upto(weights@, domain@, k as nat),
            running <= k * 0xffff_ffff,
            forall|j: nat| 1 <= j <= k ==> #[trigger] weight_upto(weights@, domain@, j) < draw,
        decreases domain@.len() - k,
    {
        assert(domain@[k as int] < weights@.len());
        assert((k + 1) * 0xffff_ffff == k * 0xffff_ffff + 0xffff_ffff) by (nonlinear_arith);
        assert(k * 0xffff_ffff + 0xffff_ffff <= u128::MAX) by (nonlinear_arith)
            requires
                k <= 0xffff_ffff_ffff_ffff,
        ;
        running = running + weights[domain[k]] as u128;
        if running >= draw as u128 {
            proof {
                assert(reaches(weights@, domain@, draw as nat, k as int));
                lemma_weight_grows(weights@, domain@, (k + 1) as nat, domain@.len());
            }
            return Some(domain[k]);
        }
        k = k + 1;
    }
    None
}

/// The running weight never falls.
pub proof fn lemma_weight_grows(weights: Seq<u32>, domain: Seq<usize>, from: nat, to: nat)
    requires
        from <= to,
    ensures
        weight_upto(weights, domain, from) <= weight_upto(weights, domain, to),
    decreases to,
{
    if from < to {
        lemma_weight_grows(weights, domain, from, (to - 1) as nat);
    }
}

/// A number from 0 to `high`, drawn at random: the generator is asked for a
/// number below `draw_bound(high)`, and what it gives is capped at `high`.
pub fn draw_upto(high: u64) -> (draw: u64)
    ensures
        draw <= high,
{
    let raw: u64 = random_number(draw_bound(high));
    cap_draw(raw, high)
}

/// The bound that the generator is given for a draw from 0 to `high`: the
/// number after `high`, or `high` itself where there is none.
pub fn draw_bound(high: u64) -> (bound: u64)
    ensures
        bound == if high < u64::MAX {
            high + 1
        } else {
            high as int
        },
{
    if high < u64::MAX {
        high + 1
    } else {
        high
    }
}

/// The draw that the number `raw` of the generator stands for: `raw` itself,
/// or `high` where `raw` lies beyond it.
pub fn cap_draw(raw: u64, high: u64) -> (draw: u64)
    ensures
        draw == if raw > high {
            high
        } else {
            raw
        },
{
    if raw > high {
        high
    } else {
        raw
    }
}

/// Calls `gen_range` of `macroquad::rand` with 0 and `bound`. Nothing is
/// claimed of the number that comes back: it depends on the state of the
/// process-wide generator, and it is rounded on its way.
#[verifier::external_body]
fn random_number(bound: u64) -> u64 {
    macroquad::rand::gen_range(0u64, bound)
}

/// One of `items`, picked at random; `None` exactly when there is none.
pub fn pick(items: &Vec<usize>) -> (picked: Option<usize>)
    ensures
        picked is None <==> items@.len() == 0,
        picked matches Some(x) ==> items@.contains(x),
{
    if items.len() == 0 {
        return None;
    }
    match choose_random(items) {
        Some(x) => Some(x),
        None => {
            assert(items@[0] == items@[0]);
            Some(items[0])
        },
    }
}

/// Calls `choose` of `macroquad::rand::ChooseRandom` on the items. The
/// contract claims no more than that what comes back is one of them; which
/// one depends on the state of the process-wide generator.
#[verifier::external_body]
fn choose_random(items: &Vec<usize>) -> (picked: Option<usize>)
    ensures
        picked matches Some(x) ==> items@.contains(x),
{
    macroquad::rand::ChooseRandom::choose(items.as_slice()).copied()
}

/// Within a step that commits a pattern, no cell gains a pattern and no
/// committed cell changes. After it every cell is well-formed, so that a
/// committed cell admits its pattern and no other; the target is committed
/// to the pattern picked; and every cell that the step has visited is
/// committed, or has no pattern left, or more than one.
pub proof fn lemma_advance_narrows(
    rules: &AdjacencyData,
    g: GridView,
    target: int,
    pattern: usize,
    count: nat,
)
    requires
        g.board.wf(count),
        0 <= target < g.board.cells.len(),
        g.board.cells[target].collapsed is None,
        g.board.cells[target].domain.contains(pattern),
    ensures
        advanced(rules, g, target, pattern).board.wf(count),
        narrowing(advanced(rules, g, target, pattern).board, g.board),
        advanced(rules, g, target, pattern).board.cells[target] == (CellState {
            domain: seq![pattern],
            collapsed: Some(pattern),
        }),
        forall|i: int|
            0 <= i < g.board.cells.len() && propagated(
                rules,
                g.board.commit(target, pattern),
                target,
            ).touched.contains(i) ==> !unsettled(
                #[trigger] advanced(rules, g, target, pattern).board.cells[i],
            ),
{
    let n = g.board.cells.len();
    let start = g.board.commit(target, pattern);
    let after = advanced(rules, g, target, pattern).board;
    assert(g.board.cells[target].wf(count));
    assert(start.wf(count) && narrowing(start, g.board)) by {
        assert forall|i: int| 0 <= i < n implies (#[trigger] start.cells[i]).wf(count) && narrower(
            start.cells[i],
            g.board.cells[i],
        ) by {
            assert(g.board.cells[i].wf(count));
            if i == target {
                let k = choose|k: int|
                    0 <= k < g.board.cells[target].domain.len() && g.board.cells[target].domain[k]
                        == pattern;
                assert(g.board.cells[target].domain[k] < count);
                assert forall|p: usize| start.cells[i].domain.contains(p) implies p == pattern by {
                    let j = choose|j: int| 0 <= j < 1 && seq![pattern][j] == p;
                }
            }
        }
    }
    vstd::set_lib::lemma_int_range(0, n as int);
    assert(all_cells(n) =~= vstd::set_lib::set_int_range(0, n as int));
    assert(seq![target][0] == target);
    lemma_sweep(rules, start, seq![target], all_cells(start.cells.len()), count);
    lemma_sweep_settles(rules, start, seq![target], all_cells(start.cells.len()), count);
    lemma_narrowing_twice(after, start, g.board);
    assert(narrower(after.cells[target], start.cells[target]));
}

/// Unwinding a step right after it gives back the board that the step
/// found, but for the pattern tried: it is struck at the target. Every
/// other cell is exactly as before the step.
pub proof fn lemma_unwind_restores(
    rules: &AdjacencyData,
    g: GridView,
    target: int,
    pattern: usize,
    count: nat,
)
    requires
        g.board.wf(count),
        0 <= target < g.board.cells.len(),
        g.board.cells[target].collapsed is None,
        g.board.cells[target].domain.contains(pattern),
        g.capacity >= 1,
    ensures
        backtracked(advanced(rules, g, target, pattern)).board == forbid(g.board, target, pattern),
        !backtracked(advanced(rules, g, target, pattern)).board.cells[target].domain.contains(
            pattern,
        ),
        forall|i: int|
            0 <= i < g.board.cells.len() && i != target ==> backtracked(
                advanced(rules, g, target, pattern),
            ).board.cells[i] == g.board.cells[i],
{
    let n = g.board.cells.len();
    let start = g.board.commit(target, pattern);
    let pass = propagated(rules, start, target);
    let a = advanced(rules, g, target, pattern);
    let memo = memo_of(g.board, target, pattern, pass.touched);
    assert(a.history.len() > 0 && a.history.last() == memo);
    lemma_advance_narrows(rules, g, target, pattern, count);
    vstd::set_lib::lemma_int_range(0, n as int);
    assert(all_cells(n) =~= vstd::set_lib::set_int_range(0, n as int));
    assert(seq![target][0] == target);
    lemma_sweep(rules, start, seq![target], all_cells(start.cells.len()), count);
    lemma_propagated_starts(rules, start, target);
    let back = restore(a.board, memo.saved);
    assert(back.cells =~= g.board.cells) by {
        assert forall|i: int| 0 <= i < n implies back.cells[i] == g.board.cells[i] by {
            lemma_restore(a.board, memo.saved, i);
            if exists|k: int| 0 <= k < memo.saved.len() && (#[trigger] memo.saved[k]).index == i {
            } else {
                assert(!pass.touched.contains(i)) by {
                    if pass.touched.contains(i) {
                        let k = choose|k: int| 0 <= k < pass.touched.len() && pass.touched[k] == i;
                        assert(memo.saved[k].index == i);
                    }
                }
                assert(i != target) by {
                    assert(pass.touched.contains(pass.touched[0]));
                }
                assert(all_cells(n).contains(i));
                assert(pass.board.cells[i] == start.cells[i]);
            }
        }
        lemma_restore(a.board, memo.saved, 0);
    }
    lemma_restore(a.board, memo.saved, target);
    assert(back == g.board);
    let struck = g.board.cells[target].domain.filter(other_than(pattern));
    assert(!struck.contains(pattern)) by {
        if struck.contains(pattern) {
            let k = choose|k: int| 0 <= k < struck.len() && struck[k] == pattern;
            g.board.cells[target].domain.lemma_filter_pred(other_than(pattern), k);
        }
    }
}

/// A step is a function of the grid, the cell observed and the pattern
/// picked: the same three give the same grid and the same answer.
pub proof fn lemma_step_deterministic(
    rules: &AdjacencyData,
    g: GridView,
    target: int,
    pattern: usize,
    first: GridView,
    first_moved: bool,
    second: GridView,
    second_moved: bool,
)
    requires
        stepped(rules, g, target, pattern, first, first_moved),
        stepped(rules, g, target, pattern, second, second_moved),
    ensures
        first == second,
        first_moved == second_moved,
{
}

} // verus!
