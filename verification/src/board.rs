//! The mathematical model of the solver: the board of cells, what one pass of
//! propagation does to it, and what unwinding a remembered step restores.

use crate::utils::{dir_dx, dir_dy, AdjacencyData};
use vstd::prelude::*;

verus! {

/// One cell: the patterns still admissible, and the committed one if any.
pub struct CellState {
    pub domain: Seq<usize>,
    pub collapsed: Option<usize>,
}

/// A `width` by `height` board of cells, row by row.
pub struct Board {
    pub width: nat,
    pub height: nat,
    pub cells: Seq<CellState>,
}

impl CellState {
    /// The cell with every pattern below `count` admissible and none
    /// committed.
    pub open spec fn full(count: nat) -> CellState {
        CellState { domain: Seq::new(count, |p: int| p as usize), collapsed: None }
    }

    /// Every admissible id is below `count`, and a committed cell admits its
    /// pattern and no other.
    pub open spec fn wf(self, count: nat) -> bool {
        &&& forall|k: int| 0 <= k < self.domain.len() ==> (#[trigger] self.domain[k]) < count
        &&& self.collapsed matches Some(p) ==> self.domain == seq![p]
    }
}

impl Board {
    /// The board of the given size with every cell full.
    pub open spec fn fresh(width: nat, height: nat, count: nat) -> Board {
        Board { width, height, cells: Seq::new(width * height, |i: int| CellState::full(count)) }
    }

    /// There is one cell per position, and each is well-formed.
    pub open spec fn wf(self, count: nat) -> bool {
        &&& self.cells.len() == self.width * self.height
        &&& forall|i: int| 0 <= i < self.cells.len() ==> (#[trigger] self.cells[i]).wf(count)
    }

    /// Every cell is committed.
    pub open spec fn finished(self) -> bool {
        forall|i: int| 0 <= i < self.cells.len() ==> (#[trigger] self.cells[i]).collapsed is Some
    }

    /// Cell `idx` is not committed, and no uncommitted cell has fewer
    /// admissible patterns.
    pub open spec fn lowest(self, idx: int) -> bool {
        &&& 0 <= idx < self.cells.len()
        &&& self.cells[idx].collapsed is None
        &&& forall|j: int|
            0 <= j < self.cells.len() && (#[trigger] self.cells[j]).collapsed is None
                ==> self.cells[idx].domain.len() <= self.cells[j].domain.len()
    }

    /// The index of the neighbour of cell `idx` in direction `dir`, if the
    /// board has one.
    pub open spec fn neighbour(self, idx: int, dir: int) -> Option<int> {
        if self.width == 0 {
            None
        } else {
            let nx = idx % (self.width as int) + dir_dx(dir);
            let ny = idx / (self.width as int) + dir_dy(dir);
            if 0 <= nx < self.width && 0 <= ny < self.height {
                Some(ny * self.width + nx)
            } else {
                None
            }
        }
    }

    /// The board with cell `idx` replaced.
    pub open spec fn put(self, idx: int, cell: CellState) -> Board {
        Board { cells: self.cells.update(idx, cell), ..self }
    }

    /// The board with pattern `p` committed at cell `idx`.
    pub open spec fn commit(self, idx: int, p: usize) -> Board {
        self.put(idx, CellState { domain: seq![p], collapsed: Some(p) })
    }

    /// The board with cell `idx` committed if exactly one pattern is left
    /// there.
    pub open spec fn settle(self, idx: int) -> Board {
        if self.cells[idx].domain.len() == 1 {
            self.commit(idx, self.cells[idx].domain[0])
        } else {
            self
        }
    }
}

/// Some pattern of `src` admits `b` as its neighbour in direction `dir`.
pub open spec fn supports(rules: &AdjacencyData, src: Seq<usize>, dir: int, b: usize) -> bool {
    exists|k: int| 0 <= k < src.len() && rules.admits(#[trigger] src[k] as int, dir, b as int)
}

/// The test that a pattern passes if some pattern of `src` admits it as its
/// neighbour in direction `dir`.
pub open spec fn supported(rules: &AdjacencyData, src: Seq<usize>, dir: int) -> spec_fn(
    usize,
) -> bool {
    |b: usize| supports(rules, src, dir, b)
}

/// What is left of the domain `dom` of a cell whose neighbour, against
/// direction `dir`, has the domain `src`.
pub open spec fn narrowed(rules: &AdjacencyData, src: Seq<usize>, dir: int, dom: Seq<usize>) -> Seq<
    usize,
> {
    dom.filter(supported(rules, src, dir))
}

/// Whether cell `idx` narrows its neighbour in direction `dir`: there is
/// one, it is not committed, and it loses a pattern.
pub open spec fn shrinks(rules: &AdjacencyData, b: Board, idx: int, dir: int) -> bool {
    match b.neighbour(idx, dir) {
        Some(n) => b.cells[n].collapsed is None && narrowed(
            rules,
            b.cells[idx].domain,
            dir,
            b.cells[n].domain,
        ).len() < b.cells[n].domain.len(),
        None => false,
    }
}

/// The board after cell `idx` has narrowed its neighbour in direction `dir`.
pub open spec fn relax(rules: &AdjacencyData, b: Board, idx: int, dir: int) -> Board {
    match b.neighbour(idx, dir) {
        Some(n) => if b.cells[n].collapsed is None {
            b.put(
                n,
                CellState {
                    domain: narrowed(rules, b.cells[idx].domain, dir, b.cells[n].domain),
                    collapsed: None,
                },
            )
        } else {
            b
        },
        None => b,
    }
}

/// The board after cell `idx` has been settled and has narrowed its
/// neighbours in the first `dirs` directions.
pub open spec fn relax_upto(rules: &AdjacencyData, b: Board, idx: int, dirs: nat) -> Board
    decreases dirs,
{
    if dirs == 0 {
        b.settle(idx)
    } else {
        relax(rules, relax_upto(rules, b, idx, (dirs - 1) as nat), idx, dirs - 1)
    }
}

/// The neighbours that cell `idx` has narrowed in the first `dirs`
/// directions, in that order.
pub open spec fn woken_upto(rules: &AdjacencyData, b: Board, idx: int, dirs: nat) -> Seq<int>
    decreases dirs,
{
    if dirs == 0 {
        Seq::empty()
    } else {
        let before = relax_upto(rules, b, idx, (dirs - 1) as nat);
        let earlier = woken_upto(rules, b, idx, (dirs - 1) as nat);
        if shrinks(rules, before, idx, dirs - 1) {
            earlier.push(before.neighbour(idx, dirs - 1).unwrap())
        } else {
            earlier
        }
    }
}

/// The board after a visit of cell `idx`: the cell is settled, then narrows
/// its four neighbours.
pub open spec fn visit(rules: &AdjacencyData, b: Board, idx: int) -> Board {
    relax_upto(rules, b, idx, 4)
}

/// The neighbours that a visit of cell `idx` narrows.
pub open spec fn woken(rules: &AdjacencyData, b: Board, idx: int) -> Seq<int> {
    woken_upto(rules, b, idx, 4)
}

/// The outcome of a pass of propagation: the board, and the cells visited, in
/// the order of their visits.
pub struct Sweep {
    pub board: Board,
    pub touched: Seq<int>,
}

/// The cells of a board with `n` cells.
pub open spec fn all_cells(n: nat) -> Set<int> {
    Set::new(|i: int| 0 <= i < n)
}

/// Propagation from the worklist `queue`, first in first out, over the cells
/// `todo` that no visit has reached yet: a cell is visited once, and each
/// neighbour that a visit narrows joins the worklist. A cell that comes up
/// again after its visit is settled, and narrows no neighbour again.
pub open spec fn sweep(rules: &AdjacencyData, b: Board, queue: Seq<int>, todo: Set<int>) -> Sweep
    decreases todo.len(), queue.len(),
{
    if queue.len() == 0 || !todo.finite() {
        Sweep { board: b, touched: Seq::empty() }
    } else if !todo.contains(queue[0]) {
        sweep(rules, b.settle(queue[0]), queue.drop_first(), todo)
    } else {
        let rest = sweep(
            rules,
            visit(rules, b, queue[0]),
            queue.drop_first() + woken(rules, b, queue[0]),
            todo.remove(queue[0]),
        );
        Sweep { board: rest.board, touched: seq![queue[0]] + rest.touched }
    }
}

/// Propagation that starts at cell `idx`.
pub open spec fn propagated(rules: &AdjacencyData, b: Board, idx: int) -> Sweep {
    sweep(rules, b, seq![idx], all_cells(b.cells.len()))
}

/// The ids of a list of cells, as integers.
pub open spec fn ints(cells: Seq<usize>) -> Seq<int> {
    Seq::new(cells.len(), |k: int| cells[k] as int)
}

/// The state of one cell as a step found it.
pub struct SavedState {
    pub index: int,
    pub state: CellState,
}

/// What the history keeps of one step: the pattern tried, the cell it was
/// tried at, and the earlier state of every cell that the step visited.
pub struct Memo {
    pub pattern: usize,
    pub target: int,
    pub saved: Seq<SavedState>,
}

impl Memo {
    /// The saved cells are cells of a board of `n` cells, well-formed, and the
    /// target is among them, uncommitted.
    pub open spec fn wf(self, n: nat, count: nat) -> bool {
        &&& 0 <= self.target < n
        &&& exists|k: int| 0 <= k < self.saved.len() && (#[trigger] self.saved[k]).index == self.target
        &&& forall|k: int|
            0 <= k < self.saved.len() ==> 0 <= (#[trigger] self.saved[k]).index < n
                && self.saved[k].state.wf(count) && (self.saved[k].index == self.target
                ==> self.saved[k].state.collapsed is None)
    }
}

/// What a step that tries `pattern` at `target` and visits `touched` keeps
/// of the board `b` that it found.
pub open spec fn memo_of(b: Board, target: int, pattern: usize, touched: Seq<int>) -> Memo {
    Memo {
        pattern,
        target,
        saved: Seq::new(touched.len(), |k: int| SavedState { index: touched[k], state: b.cells[touched[k]] }),
    }
}

/// The board with the saved cells put back, the first first.
pub open spec fn restore(b: Board, saved: Seq<SavedState>) -> Board
    decreases saved.len(),
{
    if saved.len() == 0 {
        b
    } else {
        restore(b, saved.drop_last()).put(saved.last().index, saved.last().state)
    }
}

/// The test that every pattern but `pattern` passes.
pub open spec fn other_than(pattern: usize) -> spec_fn(usize) -> bool {
    |p: usize| p != pattern
}

/// The board with `pattern` struck from the domain of cell `target`.
pub open spec fn forbid(b: Board, target: int, pattern: usize) -> Board {
    b.put(
        target,
        CellState {
            domain: b.cells[target].domain.filter(other_than(pattern)),
            collapsed: b.cells[target].collapsed,
        },
    )
}

/// The board after the step that `memo` remembers has been unwound: the
/// saved cells are put back, and the pattern tried is struck at the target.
pub open spec fn unwound(b: Board, memo: Memo) -> Board {
    forbid(restore(b, memo.saved), memo.target, memo.pattern)
}

/// The history after `memo` has joined it under the given capacity: the
/// oldest entry leaves when there is no room.
pub open spec fn remembered(history: Seq<Memo>, memo: Memo, capacity: nat) -> Seq<Memo> {
    if capacity == 0 {
        history
    } else if history.len() >= capacity {
        history.drop_first().push(memo)
    } else {
        history.push(memo)
    }
}

/// Propagation from a cell of the board visits that cell first.
pub proof fn lemma_propagated_starts(rules: &AdjacencyData, b: Board, idx: int)
    requires
        0 <= idx < b.cells.len(),
    ensures
        propagated(rules, b, idx).touched.len() > 0,
        propagated(rules, b, idx).touched[0] == idx,
{
    let n = b.cells.len();
    vstd::set_lib::lemma_int_range(0, n as int);
    assert(all_cells(n) =~= vstd::set_lib::set_int_range(0, n as int));
    assert(all_cells(n).contains(idx));
    assert(seq![idx][0] == idx);
}

/// Putting saved cells back changes no other cell, and leaves at each saved
/// index one of the states saved for it.
pub proof fn lemma_restore(b: Board, saved: Seq<SavedState>, i: int)
    requires
        forall|k: int| 0 <= k < saved.len() ==> 0 <= (#[trigger] saved[k]).index < b.cells.len(),
        0 <= i < b.cells.len(),
    ensures
        restore(b, saved).width == b.width,
        restore(b, saved).height == b.height,
        restore(b, saved).cells.len() == b.cells.len(),
        (forall|k: int| 0 <= k < saved.len() ==> (#[trigger] saved[k]).index != i) ==> restore(
            b,
            saved,
        ).cells[i] == b.cells[i],
        (exists|k: int| 0 <= k < saved.len() && (#[trigger] saved[k]).index == i) ==> exists|k: int|
            0 <= k < saved.len() && (#[trigger] saved[k]).index == i && restore(b, saved).cells[i]
                == saved[k].state,
    decreases saved.len(),
{
    if saved.len() > 0 {
        let front = saved.drop_last();
        let last = saved.last();
        assert forall|k: int| 0 <= k < front.len() implies 0 <= (#[trigger] front[k]).index
            < b.cells.len() by {
            assert(front[k] == saved[k]);
        }
        lemma_restore(b, front, i);
        if last.index == i {
            assert(saved[saved.len() - 1].index == i);
        } else {
            if exists|k: int| 0 <= k < saved.len() && (#[trigger] saved[k]).index == i {
                let k = choose|k: int| 0 <= k < saved.len() && (#[trigger] saved[k]).index == i;
                assert(front[k] == saved[k]);
                let j = choose|j: int|
                    0 <= j < front.len() && (#[trigger] front[j]).index == i && restore(
                        b,
                        front,
                    ).cells[i] == front[j].state;
                assert(saved[j] == front[j]);
            } else {
                assert forall|k: int| 0 <= k < front.len() implies (#[trigger] front[k]).index
                    != i by {
                    assert(front[k] == saved[k]);
                }
            }
        }
    }
}

/// A filter that drops no item leaves the list as it is.
pub proof fn lemma_filter_full<T>(s: Seq<T>, pred: spec_fn(T) -> bool)
    requires
        s.filter(pred).len() == s.len(),
    ensures
        s.filter(pred) == s,
    decreases s.len(),
{
    reveal(Seq::filter);
    if s.len() > 0 {
        let front = s.drop_last();
        front.lemma_filter_len(pred);
        if pred(s.last()) {
            lemma_filter_full(front, pred);
            assert(front.push(s.last()) =~= s);
        }
    }
}

/// The cell `after` has come from the cell `before` by narrowing: it has
/// lost patterns at most, and a committed cell has not changed.
pub open spec fn narrower(after: CellState, before: CellState) -> bool {
    &&& after.domain.len() <= before.domain.len()
    &&& forall|p: usize| after.domain.contains(p) ==> before.domain.contains(p)
    &&& before.collapsed is Some ==> after == before
}

/// Every cell of `after` has come from its cell of `before` by narrowing,
/// on boards of one shape.
pub open spec fn narrowing(after: Board, before: Board) -> bool {
    &&& after.width == before.width
    &&& after.height == before.height
    &&& after.cells.len() == before.cells.len()
    &&& forall|i: int|
        0 <= i < before.cells.len() ==> narrower(#[trigger] after.cells[i], before.cells[i])
}

/// Narrowing after narrowing is narrowing.
pub proof fn lemma_narrowing_twice(last: Board, middle: Board, first: Board)
    requires
        narrowing(last, middle),
        narrowing(middle, first),
    ensures
        narrowing(last, first),
{
    assert forall|i: int| 0 <= i < first.cells.len() implies narrower(
        #[trigger] last.cells[i],
        first.cells[i],
    ) by {
        assert(narrower(last.cells[i], middle.cells[i]));
        assert(narrower(middle.cells[i], first.cells[i]));
    }
}

/// A neighbour of a cell of a well-formed board is another cell of the
/// board.
pub proof fn lemma_neighbour(b: Board, idx: int, dir: int)
    requires
        b.cells.len() == b.width * b.height,
        0 <= idx < b.cells.len(),
    ensures
        b.neighbour(idx, dir) matches Some(n) ==> 0 <= n < b.cells.len(),
        0 <= dir < 4 ==> b.neighbour(idx, dir) != Some(idx),
{
    if let Some(n) = b.neighbour(idx, dir) {
        let nx = idx % (b.width as int) + dir_dx(dir);
        let ny = idx / (b.width as int) + dir_dy(dir);
        crate::image::lemma_position_index(nx, ny, b.width as int, b.height as int);
    }
}

/// Settling a cell of a well-formed board narrows the board, changes no
/// other cell, and leaves the domain of the cell as it was.
pub proof fn lemma_settle(b: Board, idx: int, count: nat)
    requires
        b.wf(count),
        0 <= idx < b.cells.len(),
    ensures
        b.settle(idx).wf(count),
        narrowing(b.settle(idx), b),
        forall|i: int| 0 <= i < b.cells.len() && i != idx ==> b.settle(idx).cells[i] == b.cells[i],
        b.cells[idx].collapsed is Some || b.cells[idx].domain.len() != 1 ==> b.settle(idx) == b,
{
    let cell = b.cells[idx];
    let after = b.settle(idx);
    assert(cell.wf(count));
    if cell.domain.len() == 1 {
        assert(seq![cell.domain[0]] =~= cell.domain);
        assert(after.cells[idx].domain == cell.domain);
        if cell.collapsed is Some {
            assert(after.cells =~= b.cells);
        }
    }
    assert forall|i: int| 0 <= i < b.cells.len() implies narrower(
        #[trigger] after.cells[i],
        b.cells[i],
    ) && after.cells[i].wf(count) by {
        assert(b.cells[i].wf(count));
    }
}

/// Letting a cell narrow one neighbour narrows the board and changes that
/// neighbour at most, and only if it loses a pattern.
pub proof fn lemma_relax(rules: &AdjacencyData, b: Board, idx: int, dir: int, count: nat)
    requires
        b.wf(count),
        0 <= idx < b.cells.len(),
    ensures
        relax(rules, b, idx, dir).wf(count),
        narrowing(relax(rules, b, idx, dir), b),
        forall|i: int|
            0 <= i < b.cells.len() && relax(rules, b, idx, dir).cells[i] != b.cells[i] ==> shrinks(
                rules,
                b,
                idx,
                dir,
            ) && b.neighbour(idx, dir) == Some(i),
        shrinks(rules, b, idx, dir) ==> 0 <= b.neighbour(idx, dir).unwrap() < b.cells.len(),
        !shrinks(rules, b, idx, dir) ==> relax(rules, b, idx, dir) == b,
{
    let after = relax(rules, b, idx, dir);
    lemma_neighbour(b, idx, dir);
    if let Some(n) = b.neighbour(idx, dir) {
        let old = b.cells[n];
        assert(old.wf(count));
        if old.collapsed is None {
            let pred = supported(rules, b.cells[idx].domain, dir);
            let kept = old.domain.filter(pred);
            old.domain.lemma_filter_len(pred);
            assert forall|p: usize| kept.contains(p) implies old.domain.contains(p) by {
                old.domain.lemma_filter_contains_rev(pred, p);
            }
            assert forall|k: int| 0 <= k < kept.len() implies (#[trigger] kept[k]) < count by {
                assert(kept.contains(kept[k]));
                let j = choose|j: int| 0 <= j < old.domain.len() && old.domain[j] == kept[k];
                assert(old.domain[j] < count);
            }
            if kept.len() == old.domain.len() {
                lemma_filter_full(old.domain, pred);
                assert(after.cells =~= b.cells);
            }
        }
    }
    assert forall|i: int| 0 <= i < b.cells.len() implies narrower(
        #[trigger] after.cells[i],
        b.cells[i],
    ) && after.cells[i].wf(count) by {
        assert(b.cells[i].wf(count));
    }
}

/// A visit, as far as it has come after `dirs` directions, narrows the
/// board, wakes cells of the board only, and changes no cell but the visited
/// one and those that it wakes.
pub proof fn lemma_relax_upto(rules: &AdjacencyData, b: Board, idx: int, dirs: nat, count: nat)
    requires
        b.wf(count),
        0 <= idx < b.cells.len(),
    ensures
        relax_upto(rules, b, idx, dirs).wf(count),
        narrowing(relax_upto(rules, b, idx, dirs), b),
        forall|k: int|
            0 <= k < woken_upto(rules, b, idx, dirs).len() ==> 0 <= (#[trigger] woken_upto(
                rules,
                b,
                idx,
                dirs,
            )[k]) < b.cells.len(),
        forall|i: int|
            0 <= i < b.cells.len() && relax_upto(rules, b, idx, dirs).cells[i] != b.cells[i] ==> i
                == idx || woken_upto(rules, b, idx, dirs).contains(i),
    decreases dirs,
{
    if dirs == 0 {
        lemma_settle(b, idx, count);
    } else {
        let before = relax_upto(rules, b, idx, (dirs - 1) as nat);
        let earlier = woken_upto(rules, b, idx, (dirs - 1) as nat);
        let after = relax_upto(rules, b, idx, dirs);
        let now = woken_upto(rules, b, idx, dirs);
        lemma_relax_upto(rules, b, idx, (dirs - 1) as nat, count);
        lemma_relax(rules, before, idx, dirs - 1, count);
        lemma_narrowing_twice(after, before, b);
        assert forall|k: int| 0 <= k < earlier.len() implies now.contains(#[trigger] earlier[k]) by {
            assert(now[k] == earlier[k]);
        }
        assert forall|i: int| 0 <= i < b.cells.len() && after.cells[i] != b.cells[i] implies i
            == idx || now.contains(i) by {
            if before.cells[i] != b.cells[i] {
                if i != idx {
                    let k = choose|k: int| 0 <= k < earlier.len() && earlier[k] == i;
                    assert(now.contains(earlier[k]));
                }
            } else {
                assert(after.cells[i] != before.cells[i]);
                assert(now[earlier.len() as int] == i);
            }
        }
    }
}

/// The cell has exactly one pattern left and is not committed to it.
pub open spec fn unsettled(cell: CellState) -> bool {
    cell.collapsed is None && cell.domain.len() == 1
}

/// A visit leaves the visited cell settled.
pub proof fn lemma_visit_settles(rules: &AdjacencyData, b: Board, idx: int, dirs: nat, count: nat)
    requires
        b.wf(count),
        0 <= idx < b.cells.len(),
        dirs <= 4,
    ensures
        !unsettled(relax_upto(rules, b, idx, dirs).cells[idx]),
    decreases dirs,
{
    if dirs > 0 {
        let before = relax_upto(rules, b, idx, (dirs - 1) as nat);
        lemma_visit_settles(rules, b, idx, (dirs - 1) as nat, count);
        lemma_relax_upto(rules, b, idx, (dirs - 1) as nat, count);
        lemma_neighbour(before, idx, dirs - 1);
        lemma_relax(rules, before, idx, dirs - 1, count);
    }
}

/// Where every cell that was visited and is unsettled waits in the worklist,
/// a pass of propagation leaves no visited cell unsettled: a cell that comes
/// down to one pattern is committed before the pass ends.
pub proof fn lemma_sweep_settles(
    rules: &AdjacencyData,
    b: Board,
    queue: Seq<int>,
    todo: Set<int>,
    count: nat,
)
    requires
        b.wf(count),
        todo.finite(),
        forall|k: int| 0 <= k < queue.len() ==> 0 <= (#[trigger] queue[k]) < b.cells.len(),
        forall|i: int|
            0 <= i < b.cells.len() && !todo.contains(i) && unsettled(#[trigger] b.cells[i])
                ==> queue.contains(i),
    ensures
        forall|i: int|
            0 <= i < b.cells.len() && (!todo.contains(i) || sweep(
                rules,
                b,
                queue,
                todo,
            ).touched.contains(i)) ==> !unsettled(
                #[trigger] sweep(rules, b, queue, todo).board.cells[i],
            ),
    decreases todo.len(), queue.len(),
{
    let pass = sweep(rules, b, queue, todo);
    if queue.len() == 0 {
        assert forall|i: int|
            0 <= i < b.cells.len() && (!todo.contains(i) || pass.touched.contains(
                i,
            )) implies !unsettled(#[trigger] pass.board.cells[i]) by {
            if unsettled(b.cells[i]) && !todo.contains(i) {
                assert(queue.contains(i));
            }
        }
    } else if !todo.contains(queue[0]) {
        let idx = queue[0];
        let rest = queue.drop_first();
        let settled = b.settle(idx);
        lemma_settle(b, idx, count);
        assert forall|i: int|
            0 <= i < settled.cells.len() && !todo.contains(i) && unsettled(
                #[trigger] settled.cells[i],
            ) implies rest.contains(i) by {
            assert(i != idx);
            assert(settled.cells[i] == b.cells[i]);
            assert(queue.contains(i));
            let k = choose|k: int| 0 <= k < queue.len() && queue[k] == i;
            assert(rest[k - 1] == i);
        }
        lemma_sweep_settles(rules, settled, rest, todo, count);
        assert(pass == sweep(rules, settled, rest, todo));
        assert forall|i: int|
            0 <= i < b.cells.len() && (!todo.contains(i) || pass.touched.contains(
                i,
            )) implies !unsettled(#[trigger] pass.board.cells[i]) by {
            assert(!unsettled(sweep(rules, settled, rest, todo).board.cells[i]));
        }
    } else {
        let idx = queue[0];
        let seen = visit(rules, b, idx);
        let more = woken(rules, b, idx);
        let line = queue.drop_first() + more;
        let left = todo.remove(idx);
        let rest = sweep(rules, seen, line, left);
        lemma_relax_upto(rules, b, idx, 4, count);
        lemma_visit_settles(rules, b, idx, 4, count);
        assert forall|k: int| 0 <= k < line.len() implies 0 <= (#[trigger] line[k])
            < seen.cells.len() by {
            if k < queue.len() - 1 {
                assert(line[k] == queue[k + 1]);
            } else {
                assert(line[k] == more[k - (queue.len() - 1)]);
            }
        }
        assert forall|i: int|
            0 <= i < seen.cells.len() && !left.contains(i) && unsettled(
                #[trigger] seen.cells[i],
            ) implies line.contains(i) by {
            assert(i != idx);
            if seen.cells[i] != b.cells[i] {
                assert(more.contains(i));
                let k = choose|k: int| 0 <= k < more.len() && more[k] == i;
                assert(line[queue.len() - 1 + k] == i);
            } else {
                assert(queue.contains(i));
                let k = choose|k: int| 0 <= k < queue.len() && queue[k] == i;
                assert(line[k - 1] == i);
            }
        }
        lemma_sweep_settles(rules, seen, line, left, count);
        assert(pass.touched == seq![idx] + rest.touched);
        assert(pass.board == rest.board);
        assert forall|i: int|
            0 <= i < b.cells.len() && (!todo.contains(i) || pass.touched.contains(
                i,
            )) implies !unsettled(#[trigger] pass.board.cells[i]) by {
            if pass.touched.contains(i) && i != idx {
                let k = choose|k: int| 0 <= k < pass.touched.len() && pass.touched[k] == i;
                assert(rest.touched[k - 1] == i);
                assert(rest.touched.contains(i));
            }
            assert(!left.contains(i) || rest.touched.contains(i));
            assert(!unsettled(rest.board.cells[i]));
        }
    }
}

/// A stable board: no cell would narrow a neighbour.
pub open spec fn stable(rules: &AdjacencyData, b: Board) -> bool {
    forall|idx: int, dir: int|
        0 <= idx < b.cells.len() && 0 <= dir < 4 ==> !#[trigger] shrinks(rules, b, idx, dir)
}

/// On a stable board a visit of a cell that needs no settling changes
/// nothing and wakes no cell.
pub proof fn lemma_visit_stable(rules: &AdjacencyData, b: Board, idx: int, dirs: nat, count: nat)
    requires
        b.wf(count),
        stable(rules, b),
        0 <= idx < b.cells.len(),
        b.cells[idx].collapsed is Some || b.cells[idx].domain.len() != 1,
        dirs <= 4,
    ensures
        relax_upto(rules, b, idx, dirs) == b,
        woken_upto(rules, b, idx, dirs) == Seq::<int>::empty(),
    decreases dirs,
{
    if dirs == 0 {
        lemma_settle(b, idx, count);
    } else {
        lemma_visit_stable(rules, b, idx, (dirs - 1) as nat, count);
        assert(!shrinks(rules, b, idx, dirs - 1));
        lemma_relax(rules, b, idx, dirs - 1, count);
    }
}

/// Propagation on a stable board, from a cell that needs no settling,
/// changes nothing: it visits that cell and stops.
pub proof fn lemma_propagate_stable(rules: &AdjacencyData, b: Board, idx: int, count: nat)
    requires
        b.wf(count),
        stable(rules, b),
        0 <= idx < b.cells.len(),
        b.cells[idx].collapsed is Some || b.cells[idx].domain.len() != 1,
    ensures
        propagated(rules, b, idx).board == b,
        propagated(rules, b, idx).touched == seq![idx],
{
    let n = b.cells.len();
    let todo = all_cells(n);
    vstd::set_lib::lemma_int_range(0, n as int);
    assert(todo =~= vstd::set_lib::set_int_range(0, n as int));
    lemma_visit_stable(rules, b, idx, 4, count);
    let queue = seq![idx];
    assert(queue[0] == idx);
    assert(queue.drop_first() + Seq::<int>::empty() =~= Seq::<int>::empty());
    let rest = sweep(rules, b, Seq::<int>::empty(), todo.remove(idx));
    assert(rest.board == b && rest.touched == Seq::<int>::empty());
    assert(seq![idx] + Seq::<int>::empty() =~= seq![idx]);
}

/// A pass of propagation narrows the board, visits every waiting cell that
/// no visit had reached, and changes no cell but those that it visits.
pub proof fn lemma_sweep(rules: &AdjacencyData, b: Board, queue: Seq<int>, todo: Set<int>, count: nat)
    requires
        b.wf(count),
        todo.finite(),
        forall|k: int| 0 <= k < queue.len() ==> 0 <= (#[trigger] queue[k]) < b.cells.len(),
    ensures
        sweep(rules, b, queue, todo).board.wf(count),
        narrowing(sweep(rules, b, queue, todo).board, b),
        forall|k: int|
            0 <= k < queue.len() && todo.contains(#[trigger] queue[k]) ==> sweep(
                rules,
                b,
                queue,
                todo,
            ).touched.contains(queue[k]),
        forall|k: int|
            0 <= k < sweep(rules, b, queue, todo).touched.len() ==> todo.contains(
                #[trigger] sweep(rules, b, queue, todo).touched[k],
            ) && 0 <= sweep(rules, b, queue, todo).touched[k] < b.cells.len(),
        forall|i: int|
            0 <= i < b.cells.len() && todo.contains(i) && !sweep(
                rules,
                b,
                queue,
                todo,
            ).touched.contains(i) ==> (#[trigger] sweep(rules, b, queue, todo).board.cells[i])
                == b.cells[i],
    decreases todo.len(), queue.len(),
{
    let pass = sweep(rules, b, queue, todo);
    if queue.len() == 0 {
        assert forall|i: int| 0 <= i < b.cells.len() implies narrower(
            #[trigger] pass.board.cells[i],
            b.cells[i],
        ) by {}
    } else if !todo.contains(queue[0]) {
        let rest = queue.drop_first();
        let settled = b.settle(queue[0]);
        lemma_settle(b, queue[0], count);
        lemma_sweep(rules, settled, rest, todo, count);
        lemma_narrowing_twice(pass.board, settled, b);
        assert forall|k: int| 0 <= k < queue.len() && todo.contains(
            #[trigger] queue[k],
        ) implies pass.touched.contains(queue[k]) by {
            assert(rest[k - 1] == queue[k]);
        }
    } else {
        let idx = queue[0];
        let seen = visit(rules, b, idx);
        let more = woken(rules, b, idx);
        let line = queue.drop_first() + more;
        let left = todo.remove(idx);
        let rest = sweep(rules, seen, line, left);
        lemma_relax_upto(rules, b, idx, 4, count);
        assert forall|k: int| 0 <= k < line.len() implies 0 <= (#[trigger] line[k])
            < seen.cells.len() by {
            if k < queue.len() - 1 {
                assert(line[k] == queue[k + 1]);
            } else {
                assert(line[k] == more[k - (queue.len() - 1)]);
            }
        }
        lemma_sweep(rules, seen, line, left, count);
        lemma_narrowing_twice(rest.board, seen, b);
        assert(pass.touched == seq![idx] + rest.touched);
        assert(pass.touched[0] == idx);
        assert forall|k: int| 0 <= k < rest.touched.len() implies pass.touched.contains(
            #[trigger] rest.touched[k],
        ) by {
            assert(pass.touched[k + 1] == rest.touched[k]);
        }
        assert forall|k: int| 0 <= k < queue.len() && todo.contains(
            #[trigger] queue[k],
        ) implies pass.touched.contains(queue[k]) by {
            if queue[k] != idx {
                assert(line[k - 1] == queue[k]);
                assert(left.contains(line[k - 1]));
                assert(rest.touched.contains(line[k - 1]));
                let j = choose|j: int| 0 <= j < rest.touched.len() && rest.touched[j] == queue[k];
                assert(pass.touched.contains(rest.touched[j]));
            }
        }
        assert forall|k: int| 0 <= k < pass.touched.len() implies todo.contains(
            #[trigger] pass.touched[k],
        ) && 0 <= pass.touched[k] < b.cells.len() by {
            if k > 0 {
                assert(pass.touched[k] == rest.touched[k - 1]);
                assert(left.contains(rest.touched[k - 1]));
            }
        }
        assert forall|i: int|
            0 <= i < b.cells.len() && todo.contains(i) && !pass.touched.contains(
                i,
            ) implies (#[trigger] pass.board.cells[i]) == b.cells[i] by {
            assert(i != idx);
            assert(left.contains(i));
            if rest.touched.contains(i) {
                let j = choose|j: int| 0 <= j < rest.touched.len() && rest.touched[j] == i;
                assert(pass.touched.contains(rest.touched[j]));
            }
            assert(rest.board.cells[i] == seen.cells[i]);
            if seen.cells[i] != b.cells[i] {
                assert(more.contains(i));
                let k = choose|k: int| 0 <= k < more.len() && more[k] == i;
                assert(line[queue.len() - 1 + k] == i);
                assert(rest.touched.contains(line[queue.len() - 1 + k]));
            }
        }
    }
}

} // verus!
