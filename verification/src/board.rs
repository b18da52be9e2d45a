use vstd::prelude::*;

use crate::types::{Cell, CellState, GameError, RevealResult, FlagResult};

verus! {

/// The owned grid. Cells are stored row by row: the cell at `(x, y)` sits at
/// index `x + y * width`. `mines` lists the mine coordinates, for reference
/// and testing; the adjacency value 9 inside `cells` is the authoritative
/// runtime marker. `num_mines` is the configured mine count.
pub struct Board {
    pub width: usize,
    pub height: usize,
    pub num_mines: usize,
    pub cells: Vec<Cell>,
    pub mines: Vec<(usize, usize)>,
}

/// Relies on rand::random_range over `0..bound`: it returns a uniformly
/// sampled value of that range and panics only when the range is empty,
/// which the precondition rules out.
#[verifier::external_body]
fn random_below(bound: usize) -> (r: usize)
    requires
        1 <= bound,
    ensures
        r < bound,
{
    rand::random_range(0..bound)
}

/// True of cells that carry the mine marker.
pub open spec fn cell_is_mine(c: Cell) -> bool {
    c.adjacency == 9
}

/// True of cells that are not yet revealed.
pub open spec fn cell_unrevealed(c: Cell) -> bool {
    c.state != CellState::Revealed
}

/// How many cells of `s` satisfy `p`.
pub open spec fn count_where(s: Seq<Cell>, p: spec_fn(Cell) -> bool) -> int
    decreases s.len(),
{
    if s.len() == 0 {
        0
    } else {
        count_where(s.drop_last(), p) + if p(s.last()) { 1int } else { 0int }
    }
}

pub proof fn lemma_count_where_bounds(s: Seq<Cell>, p: spec_fn(Cell) -> bool)
    ensures
        0 <= count_where(s, p) <= s.len(),
    decreases s.len(),
{
    if s.len() > 0 {
        lemma_count_where_bounds(s.drop_last(), p);
    }
}

pub proof fn lemma_count_where_update(s: Seq<Cell>, p: spec_fn(Cell) -> bool, i: int, c: Cell)
    requires
        0 <= i < s.len(),
    ensures
        count_where(s.update(i, c), p) == count_where(s, p)
            - (if p(s[i]) { 1int } else { 0int }) + (if p(c) { 1int } else { 0int }),
    decreases s.len(),
{
    let t = s.update(i, c);
    if i == s.len() - 1 {
        assert(t.drop_last() =~= s.drop_last());
    } else {
        assert(t.drop_last() =~= s.drop_last().update(i, c));
        lemma_count_where_update(s.drop_last(), p, i, c);
    }
}

pub proof fn lemma_count_where_zero(s: Seq<Cell>, p: spec_fn(Cell) -> bool)
    requires
        forall|i: int| 0 <= i < s.len() ==> !p(#[trigger] s[i]),
    ensures
        count_where(s, p) == 0,
    decreases s.len(),
{
    if s.len() > 0 {
        lemma_count_where_zero(s.drop_last(), p);
    }
}

/// If fewer than all cells satisfy `p`, some cell does not.
pub proof fn lemma_count_where_partial(s: Seq<Cell>, p: spec_fn(Cell) -> bool)
    requires
        count_where(s, p) < s.len(),
    ensures
        exists|i: int| 0 <= i < s.len() && !p(s[i]),
    decreases s.len(),
{
    if s.len() > 0 {
        if p(s.last()) {
            lemma_count_where_partial(s.drop_last(), p);
            let j = choose|j: int| 0 <= j < s.drop_last().len() && !p(s.drop_last()[j]);
            assert(!p(s[j]));
        } else {
            assert(!p(s[s.len() - 1]));
        }
    }
}

/// The number of mine cells in `s`.
pub open spec fn count_mines(s: Seq<Cell>) -> int {
    count_where(s, |c: Cell| cell_is_mine(c))
}

/// The number of cells of `s` that are not revealed.
pub open spec fn count_unrevealed(s: Seq<Cell>) -> int {
    count_where(s, |c: Cell| cell_unrevealed(c))
}

/// The number of non-mine cells in `s`.
pub open spec fn count_free(s: Seq<Cell>) -> int {
    count_where(s, |c: Cell| !cell_is_mine(c))
}

/// Mine cells and free cells partition the board.
pub proof fn lemma_count_complement(s: Seq<Cell>)
    ensures
        count_mines(s) + count_free(s) == s.len(),
    decreases s.len(),
{
    if s.len() > 0 {
        lemma_count_complement(s.drop_last());
    }
}

/// A usable mine list for a `width` by `height` board: it leaves at least one
/// cell free, stays on the grid, and names no coordinate twice.
pub open spec fn valid_mine_list(width: int, height: int, ms: Seq<(usize, usize)>) -> bool {
    &&& ms.len() < width * height
    &&& (forall|i: int| 0 <= i < ms.len() ==> (#[trigger] ms[i]).0 < width && ms[i].1 < height)
    &&& (forall|i: int, j: int| 0 <= i < j < ms.len() ==> #[trigger] ms[i] != #[trigger] ms[j])
}

/// Row-major indexing stays inside the cell array.
pub proof fn lemma_idx_bounds(w: int, h: int, x: int, y: int)
    by (nonlinear_arith)
    requires
        0 <= x < w,
        0 <= y < h,
    ensures
        0 <= x + y * w < w * h,
{
}

/// Row-major indexing is injective over in-bounds coordinates.
pub proof fn lemma_idx_injective(w: int, x1: int, y1: int, x2: int, y2: int)
    by (nonlinear_arith)
    requires
        0 <= x1 < w,
        0 <= x2 < w,
        x1 + y1 * w == x2 + y2 * w,
    ensures
        x1 == x2 && y1 == y2,
{
}

/// Every index of the cell array names an in-bounds coordinate.
pub proof fn lemma_idx_decompose(w: int, h: int, i: int)
    by (nonlinear_arith)
    requires
        1 <= w,
        0 <= h,
        0 <= i < w * h,
    ensures
        0 <= i % w < w,
        0 <= i / w < h,
        i == (i % w) + (i / w) * w,
{
}

/// Two distinct coordinates are neighbors: they differ by at most one in
/// each direction.
pub open spec fn adjacent8(x1: int, y1: int, x2: int, y2: int) -> bool {
    &&& (x1, y1) != (x2, y2)
    &&& -1 <= x2 - x1 <= 1
    &&& -1 <= y2 - y1 <= 1
}

/// The neighbor of `(x, y)` for direction `d` (0 through 7).
pub open spec fn nb_offset(x: int, y: int, d: int) -> (int, int) {
    if d == 0 {
        (x - 1, y - 1)
    } else if d == 1 {
        (x, y - 1)
    } else if d == 2 {
        (x + 1, y - 1)
    } else if d == 3 {
        (x - 1, y)
    } else if d == 4 {
        (x + 1, y)
    } else if d == 5 {
        (x - 1, y + 1)
    } else if d == 6 {
        (x, y + 1)
    } else {
        (x + 1, y + 1)
    }
}

/// Every neighbor is reached by one of the eight directions.
pub proof fn lemma_adjacent8_cases(x: int, y: int, u: int, v: int)
    requires
        adjacent8(x, y, u, v),
    ensures
        exists|d: int| 0 <= d < 8 && #[trigger] nb_offset(x, y, d) == (u, v),
{
    if v == y - 1 {
        if u == x - 1 {
            assert(nb_offset(x, y, 0) == (u, v));
        } else if u == x {
            assert(nb_offset(x, y, 1) == (u, v));
        } else {
            assert(nb_offset(x, y, 2) == (u, v));
        }
    } else if v == y {
        if u == x - 1 {
            assert(nb_offset(x, y, 3) == (u, v));
        } else {
            assert(nb_offset(x, y, 4) == (u, v));
        }
    } else {
        if u == x - 1 {
            assert(nb_offset(x, y, 5) == (u, v));
        } else if u == x {
            assert(nb_offset(x, y, 6) == (u, v));
        } else {
            assert(nb_offset(x, y, 7) == (u, v));
        }
    }
}

/// A path along which a flood reveal started at `(sx, sy)` propagates on
/// board `b`: every step moves to a neighbor, every cell before the last has
/// adjacency 0, and every cell after the first is unrevealed and not a mine.
pub open spec fn is_flood_path(b: Board, sx: int, sy: int, p: Seq<(int, int)>) -> bool {
    &&& p.len() >= 1
    &&& p[0] == (sx, sy)
    &&& (forall|i: int| 0 <= i < p.len() ==> b.in_bounds((#[trigger] p[i]).0, p[i].1))
    &&& (forall|i: int| 0 <= i < p.len() - 1
            ==> adjacent8((#[trigger] p[i]).0, p[i].1, p[i + 1].0, p[i + 1].1))
    &&& (forall|i: int| 0 <= i < p.len() - 1 ==> b.cell((#[trigger] p[i]).0, p[i].1).adjacency
            == 0)
    &&& (forall|i: int| 1 <= i < p.len()
            ==> !b.revealed((#[trigger] p[i]).0, p[i].1) && !b.is_mine(p[i].0, p[i].1))
}

/// A flood reveal started at `(sx, sy)` on board `b` reaches `(tx, ty)`.
pub open spec fn flood_reaches(b: Board, sx: int, sy: int, tx: int, ty: int) -> bool {
    exists|p: Seq<(int, int)>| is_flood_path(b, sx, sy, p) && p.last() == (tx, ty)
}

/// The flood reaches its own start.
pub proof fn lemma_reach_self(b: Board, sx: int, sy: int)
    requires
        b.in_bounds(sx, sy),
    ensures
        flood_reaches(b, sx, sy, sx, sy),
{
    let p = seq![(sx, sy)];
    assert(is_flood_path(b, sx, sy, p));
    assert(p.last() == (sx, sy));
}

/// The flood extends from a reached zero-adjacency cell to any unrevealed
/// non-mine neighbor.
pub proof fn lemma_reach_step(b: Board, sx: int, sy: int, cx: int, cy: int, nx: int, ny: int)
    requires
        flood_reaches(b, sx, sy, cx, cy),
        b.cell(cx, cy).adjacency == 0,
        adjacent8(cx, cy, nx, ny),
        b.in_bounds(nx, ny),
        !b.revealed(nx, ny),
        !b.is_mine(nx, ny),
    ensures
        flood_reaches(b, sx, sy, nx, ny),
{
    let p = choose|p: Seq<(int, int)>| is_flood_path(b, sx, sy, p) && p.last() == (cx, cy);
    let q = p.push((nx, ny));
    assert(q.last() == (nx, ny));
    assert forall|i: int| 0 <= i < q.len() - 1 implies adjacent8(
        (#[trigger] q[i]).0,
        q[i].1,
        q[i + 1].0,
        q[i + 1].1,
    ) by {
        if i < p.len() - 1 {
            assert(q[i] == p[i] && q[i + 1] == p[i + 1]);
        } else {
            assert(q[i] == (cx, cy) && q[i + 1] == (nx, ny));
        }
    }
    assert(is_flood_path(b, sx, sy, q));
}

/// Law: whatever a flood reaches beyond its start is an unrevealed non-mine
/// cell next to a reached zero-adjacency cell — that is, the reachable set is
/// the start's connected zero-adjacency region plus that region's immediate
/// border of numbered cells.
pub proof fn lemma_flood_reach_shape(b: Board, sx: int, sy: int, tx: int, ty: int)
    requires
        flood_reaches(b, sx, sy, tx, ty),
        (tx, ty) != (sx, sy),
    ensures
        b.in_bounds(tx, ty),
        !b.is_mine(tx, ty),
        !b.revealed(tx, ty),
        exists|cx: int, cy: int|
            flood_reaches(b, sx, sy, cx, cy) && b.cell(cx, cy).adjacency == 0 && #[trigger] adjacent8(
                cx,
                cy,
                tx,
                ty,
            ),
{
    let p = choose|p: Seq<(int, int)>| is_flood_path(b, sx, sy, p) && p.last() == (tx, ty);
    let n = p.len() as int;
    if n == 1 {
        assert(p.last() == (sx, sy));
        assert(false);
    }
    let q = p.take(n - 1);
    assert(is_flood_path(b, sx, sy, q)) by {
        assert forall|i: int| 0 <= i < q.len() implies b.in_bounds((#[trigger] q[i]).0, q[i].1) by {
            assert(q[i] == p[i]);
        }
        assert forall|i: int| 0 <= i < q.len() - 1 implies adjacent8(
            (#[trigger] q[i]).0,
            q[i].1,
            q[i + 1].0,
            q[i + 1].1,
        ) && b.cell(q[i].0, q[i].1).adjacency == 0 by {
            assert(q[i] == p[i] && q[i + 1] == p[i + 1]);
        }
        assert forall|i: int| 1 <= i < q.len() implies !b.revealed((#[trigger] q[i]).0, q[i].1)
            && !b.is_mine(q[i].0, q[i].1) by {
            assert(q[i] == p[i]);
        }
    }
    let c = p[n - 2];
    assert(q.last() == c);
    assert(flood_reaches(b, sx, sy, c.0, c.1));
    assert(b.cell(c.0, c.1).adjacency == 0);
    assert(adjacent8(c.0, c.1, tx, ty));
}

/// After the flood's work list runs dry, every cell its paths can reach is
/// revealed: by induction over the path, each cell on it is revealed because
/// its predecessor is a revealed zero-adjacency cell whose neighbors are all
/// handled.
pub proof fn lemma_flood_complete(b0: Board, st: Board, sx: int, sy: int, p: Seq<(int, int)>)
    requires
        st.width == b0.width,
        st.height == b0.height,
        is_flood_path(b0, sx, sy, p),
        st.revealed(sx, sy),
        forall|a: int, b: int, u: int, v: int|
            b0.in_bounds(a, b) && st.revealed(a, b) && b0.cell(a, b).adjacency == 0 && ((a, b)
                == (sx, sy) || !b0.revealed(a, b)) && b0.in_bounds(u, v) && #[trigger] adjacent8(
                a,
                b,
                u,
                v,
            ) && !b0.is_mine(u, v) ==> st.revealed(u, v),
    ensures
        st.revealed(p.last().0, p.last().1),
    decreases p.len(),
{
    if p.len() == 1 {
        assert(p.last() == (sx, sy));
    } else {
        let n = p.len() as int;
        let q = p.take(n - 1);
        assert forall|i: int| 0 <= i < q.len() implies b0.in_bounds(
            (#[trigger] q[i]).0,
            q[i].1,
        ) by {
            assert(q[i] == p[i]);
        }
        assert forall|i: int| 0 <= i < q.len() - 1 implies adjacent8(
            (#[trigger] q[i]).0,
            q[i].1,
            q[i + 1].0,
            q[i + 1].1,
        ) && b0.cell(q[i].0, q[i].1).adjacency == 0 by {
            assert(q[i] == p[i] && q[i + 1] == p[i + 1]);
        }
        assert forall|i: int| 0 <= i < q.len() - 1 implies b0.cell(
            (#[trigger] q[i]).0,
            q[i].1,
        ).adjacency == 0 by {
            assert(q[i] == p[i]);
        }
        assert forall|i: int| 1 <= i < q.len() implies !b0.revealed((#[trigger] q[i]).0, q[i].1)
            && !b0.is_mine(q[i].0, q[i].1) by {
            assert(q[i] == p[i]);
        }
        assert(is_flood_path(b0, sx, sy, q));
        lemma_flood_complete(b0, st, sx, sy, q);
        let c = p[n - 2];
        let t = p[n - 1];
        assert(q.last() == c);
        assert(st.revealed(c.0, c.1));
        assert(b0.cell(c.0, c.1).adjacency == 0);
        assert(adjacent8(c.0, c.1, t.0, t.1));
        assert(!b0.revealed(t.0, t.1) && !b0.is_mine(t.0, t.1));
        if n - 2 >= 1 {
            assert(!b0.revealed(c.0, c.1));
        } else {
            assert(c == (sx, sy));
        }
        assert(st.revealed(t.0, t.1));
        assert(p.last() == t);
    }
}

/// Two boards of the same dimensions whose cells agree on every adjacency
/// value have the same mine layout and the same adjacency counts.
pub proof fn lemma_adj_preserved(b0: Board, b1: Board)
    requires
        b1.width == b0.width,
        b1.height == b0.height,
        forall|a: int, b: int| b0.in_bounds(a, b)
            ==> (#[trigger] b1.cell(a, b)).adjacency == b0.cell(a, b).adjacency,
    ensures
        forall|a: int, b: int| b0.in_bounds(a, b)
            ==> ((#[trigger] b1.is_mine(a, b)) <==> b0.is_mine(a, b)),
        forall|a: int, b: int| #[trigger] b1.adj_count(a, b) == b0.adj_count(a, b),
{
    assert forall|a: int, b: int| b0.in_bounds(a, b) implies ((#[trigger] b1.is_mine(a, b))
        <==> b0.is_mine(a, b)) by {
        assert(b1.cell(a, b).adjacency == b0.cell(a, b).adjacency);
    }
    assert forall|a: int, b: int| #[trigger] b1.mine_nb(a, b) == b0.mine_nb(a, b) by {
        if b0.in_bounds(a, b) {
            assert(b1.cell(a, b).adjacency == b0.cell(a, b).adjacency);
        }
    }
    assert forall|a: int, b: int| #[trigger] b1.adj_count(a, b) == b0.adj_count(a, b) by {
        assert(b1.mine_nb(a - 1, b - 1) == b0.mine_nb(a - 1, b - 1));
        assert(b1.mine_nb(a, b - 1) == b0.mine_nb(a, b - 1));
        assert(b1.mine_nb(a + 1, b - 1) == b0.mine_nb(a + 1, b - 1));
        assert(b1.mine_nb(a - 1, b) == b0.mine_nb(a - 1, b));
        assert(b1.mine_nb(a + 1, b) == b0.mine_nb(a + 1, b));
        assert(b1.mine_nb(a - 1, b + 1) == b0.mine_nb(a - 1, b + 1));
        assert(b1.mine_nb(a, b + 1) == b0.mine_nb(a, b + 1));
        assert(b1.mine_nb(a + 1, b + 1) == b0.mine_nb(a + 1, b + 1));
    }
}

/// A board that differs from a well-formed one only in cell states is itself
/// well-formed: well-formedness speaks of mine markers and adjacency values
/// only.
pub proof fn lemma_wf_states_only(b0: Board, b1: Board)
    requires
        b0.wf(),
        b1.width == b0.width,
        b1.height == b0.height,
        b1.num_mines == b0.num_mines,
        b1.mines@ == b0.mines@,
        b1.wf_dims(),
        count_mines(b1.cells@) == count_mines(b0.cells@),
        forall|a: int, b: int| b0.in_bounds(a, b)
            ==> (#[trigger] b1.cell(a, b)).adjacency == b0.cell(a, b).adjacency,
    ensures
        b1.wf(),
{
    lemma_adj_preserved(b0, b1);
    assert forall|i: int| 0 <= i < b1.mines@.len() implies b1.in_bounds(
        #[trigger] b1.mines@[i].0 as int,
        b1.mines@[i].1 as int,
    ) && b1.is_mine(b1.mines@[i].0 as int, b1.mines@[i].1 as int) by {
        assert(b0.is_mine(b0.mines@[i].0 as int, b0.mines@[i].1 as int));
    }
    assert forall|x: int, y: int| b1.in_bounds(x, y) implies (#[trigger] b1.cell(x, y)).adjacency
        <= 9 by {
        assert(b1.cell(x, y).adjacency == b0.cell(x, y).adjacency);
    }
    assert forall|x: int, y: int| b1.in_bounds(x, y) && !b1.is_mine(x, y) implies (
    #[trigger] b1.cell(x, y)).adjacency == b1.adj_count(x, y) by {
        assert(b1.cell(x, y).adjacency == b0.cell(x, y).adjacency);
        assert(b1.adj_count(x, y) == b0.adj_count(x, y));
    }
}

/// Law: a well-formed board carries exactly its configured number of mine
/// markers, and its mine list never repeats a coordinate.
pub proof fn lemma_mine_count_consistent(b: Board)
    requires
        b.wf(),
    ensures
        count_mines(b.cells@) == b.num_mines as int,
        b.mines@.len() == b.num_mines as int,
        forall|i: int, j: int| 0 <= i < j < b.mines@.len()
            ==> #[trigger] b.mines@[i] != #[trigger] b.mines@[j],
{
}

/// Law: on a well-formed board, every non-mine cell's adjacency value is the
/// exact number of mines among its up-to-8 neighbors.
pub proof fn lemma_adjacency_exact(b: Board, x: int, y: int)
    requires
        b.wf(),
        b.in_bounds(x, y),
        !b.is_mine(x, y),
    ensures
        b.cell(x, y).adjacency == b.adj_count(x, y),
{
}

/// What a reveal at `(x, y)` does, relating the board before (`b0`) and
/// after (`b1`) and the returned value: out-of-bounds, already-revealed and
/// flagged targets leave the board untouched; a hidden mine is revealed
/// alone and reported; a hidden zero-adjacency cell reveals exactly what the
/// flood reaches; any other hidden cell is revealed alone. No reveal ever
/// changes dimensions, the mine list, or any adjacency value.
pub open spec fn reveal_rel(
    b0: Board,
    b1: Board,
    x: int,
    y: int,
    r: Result<RevealResult, GameError>,
) -> bool {
    if !b0.in_bounds(x, y) {
        &&& r == Err::<RevealResult, GameError>(GameError::OutOfBounds)
        &&& b1 == b0
    } else if b0.revealed(x, y) {
        &&& r == Ok::<RevealResult, GameError>(RevealResult::Unchanged)
        &&& b1 == b0
    } else if b0.cell(x, y).state == CellState::Flagged {
        &&& r == Ok::<RevealResult, GameError>(RevealResult::Blocked)
        &&& b1 == b0
    } else {
        &&& b1.width == b0.width
        &&& b1.height == b0.height
        &&& b1.num_mines == b0.num_mines
        &&& b1.mines@ == b0.mines@
        &&& b1.wf_dims()
        &&& (forall|a: int, b: int| b0.in_bounds(a, b)
                ==> (#[trigger] b1.cell(a, b)).adjacency == b0.cell(a, b).adjacency)
        &&& (forall|a: int, b: int| b0.in_bounds(a, b) && !b1.revealed(a, b)
                ==> #[trigger] b1.cell(a, b) == b0.cell(a, b))
        &&& (if b0.is_mine(x, y) {
            &&& r == Ok::<RevealResult, GameError>(RevealResult::HitMine)
            &&& (forall|a: int, b: int| b0.in_bounds(a, b)
                    ==> ((#[trigger] b1.revealed(a, b)) <==> b0.revealed(a, b) || (a, b) == (
                    x,
                    y,
                )))
        } else if b0.cell(x, y).adjacency == 0 {
            &&& r == Ok::<RevealResult, GameError>(RevealResult::Revealed(0))
            &&& (forall|a: int, b: int| b0.in_bounds(a, b)
                    ==> ((#[trigger] b1.revealed(a, b)) <==> b0.revealed(a, b) || flood_reaches(
                        b0,
                        x,
                        y,
                        a,
                        b,
                    )))
        } else {
            &&& r == Ok::<RevealResult, GameError>(
                RevealResult::Revealed(b0.cell(x, y).adjacency),
            )
            &&& (forall|a: int, b: int| b0.in_bounds(a, b)
                    ==> ((#[trigger] b1.revealed(a, b)) <==> b0.revealed(a, b) || (a, b) == (
                    x,
                    y,
                )))
        })
    }
}

/// A coordinate occurs in the flood work list.
pub open spec fn in_queue(q: Seq<(usize, usize)>, x: int, y: int) -> bool {
    exists|i: int| 0 <= i < q.len() && #[trigger] q[i] == (x as usize, y as usize)
}

/// What one in-bounds cell write does to the board model: the written cell
/// takes the new value, every other cell keeps its old one, and when the
/// write does not move the mine marker, the mine layout and with it every
/// adjacency count is untouched.
pub proof fn lemma_cell_update(b0: Board, b1: Board, x: int, y: int, c: Cell)
    requires
        b0.wf_dims(),
        b1.width == b0.width,
        b1.height == b0.height,
        b0.in_bounds(x, y),
        b1.cells@ == b0.cells@.update(x + y * (b0.width as int), c),
    ensures
        b1.wf_dims(),
        b1.cell(x, y) == c,
        forall|a: int, b: int| b1.in_bounds(a, b) && (a, b) != (x, y)
            ==> #[trigger] b1.cell(a, b) == b0.cell(a, b),
        cell_is_mine(c) == cell_is_mine(b0.cell(x, y)) ==> {
            &&& (forall|a: int, b: int| b1.in_bounds(a, b)
                    ==> (#[trigger] b1.is_mine(a, b) <==> b0.is_mine(a, b)))
            &&& (forall|a: int, b: int| #[trigger] b1.adj_count(a, b) == b0.adj_count(a, b))
        },
{
    let w = b0.width as int;
    let h = b0.height as int;
    lemma_idx_bounds(w, h, x, y);
    assert forall|a: int, b: int| b1.in_bounds(a, b) && (a, b) != (x, y)
        implies #[trigger] b1.cell(a, b) == b0.cell(a, b) by {
        lemma_idx_bounds(w, h, a, b);
        if a + b * w == x + y * w {
            lemma_idx_injective(w, a, b, x, y);
        }
    }
    if cell_is_mine(c) == cell_is_mine(b0.cell(x, y)) {
        assert forall|a: int, b: int| b1.in_bounds(a, b)
            implies (#[trigger] b1.is_mine(a, b) <==> b0.is_mine(a, b)) by {
            if (a, b) != (x, y) {
                assert(b1.cell(a, b) == b0.cell(a, b));
            }
        }
        assert forall|a: int, b: int| #[trigger] b1.mine_nb(a, b) == b0.mine_nb(a, b) by {
            if b1.in_bounds(a, b) {
                assert(b1.is_mine(a, b) <==> b0.is_mine(a, b));
            }
        }
        assert forall|a: int, b: int| #[trigger] b1.adj_count(a, b) == b0.adj_count(a, b) by {
            assert(b1.mine_nb(a - 1, b - 1) == b0.mine_nb(a - 1, b - 1));
            assert(b1.mine_nb(a, b - 1) == b0.mine_nb(a, b - 1));
            assert(b1.mine_nb(a + 1, b - 1) == b0.mine_nb(a + 1, b - 1));
            assert(b1.mine_nb(a - 1, b) == b0.mine_nb(a - 1, b));
            assert(b1.mine_nb(a + 1, b) == b0.mine_nb(a + 1, b));
            assert(b1.mine_nb(a - 1, b + 1) == b0.mine_nb(a - 1, b + 1));
            assert(b1.mine_nb(a, b + 1) == b0.mine_nb(a, b + 1));
            assert(b1.mine_nb(a + 1, b + 1) == b0.mine_nb(a + 1, b + 1));
        }
    }
}

/// Finds the index of the `k`-th non-mine cell of `cells`, in storage order.
fn pick_kth_free(cells: &Vec<Cell>, k: usize) -> (r: usize)
    requires
        (k as int) < count_free(cells@),
    ensures
        (r as int) < cells@.len(),
        !cell_is_mine(cells@[r as int]),
{
    let mut i: usize = 0;
    let mut seen: usize = 0;
    while i < cells.len()
        invariant
            0 <= i <= cells@.len(),
            seen as int == count_free(cells@.take(i as int)),
            seen <= k,
            (k as int) < count_free(cells@),
        decreases cells@.len() - i,
    {
        proof {
            assert(cells@.take(i as int + 1).drop_last() =~= cells@.take(i as int));
            assert(cells@.take(i as int + 1).last() == cells@[i as int]);
        }
        if cells[i].adjacency != 9 {
            if seen == k {
                return i;
            }
            seen += 1;
        }
        i += 1;
    }
    proof {
        assert(cells@.take(cells@.len() as int) =~= cells@);
        assert(false);
    }
    0
}

impl Board {
    /// The coordinate lies on the grid.
    pub open spec fn in_bounds(self, x: int, y: int) -> bool {
        0 <= x < self.width as int && 0 <= y < self.height as int
    }

    /// The storage index of `(x, y)`.
    pub open spec fn idx(self, x: int, y: int) -> int {
        x + y * (self.width as int)
    }

    /// The cell at `(x, y)`.
    pub open spec fn cell(self, x: int, y: int) -> Cell {
        self.cells@[self.idx(x, y)]
    }

    /// The cell at `(x, y)` is a mine.
    pub open spec fn is_mine(self, x: int, y: int) -> bool {
        cell_is_mine(self.cell(x, y))
    }

    /// The cell at `(x, y)` is revealed.
    pub open spec fn revealed(self, x: int, y: int) -> bool {
        self.cell(x, y).state == CellState::Revealed
    }

    /// 1 if `(x, y)` is an in-bounds mine, else 0: one term of an adjacency count.
    pub open spec fn mine_nb(self, x: int, y: int) -> int {
        if self.in_bounds(x, y) && self.is_mine(x, y) {
            1
        } else {
            0
        }
    }

    /// The exact number of mines among the up-to-8 neighbors of `(x, y)`.
    pub open spec fn adj_count(self, x: int, y: int) -> int {
        self.mine_nb(x - 1, y - 1) + self.mine_nb(x, y - 1) + self.mine_nb(x + 1, y - 1)
            + self.mine_nb(x - 1, y) + self.mine_nb(x + 1, y)
            + self.mine_nb(x - 1, y + 1) + self.mine_nb(x, y + 1) + self.mine_nb(x + 1, y + 1)
    }

    /// The cell array matches the dimensions.
    pub open spec fn wf_dims(self) -> bool {
        self.cells@.len() == (self.width as int) * (self.height as int)
    }

    /// Well-formedness: dimensions match the storage, the configured mine
    /// count is feasible and equals the number of mine markers, the mine list
    /// is duplicate-free and points at exactly in-bounds mine cells, and every
    /// non-mine cell carries the exact count of its mine neighbors.
    pub open spec fn wf(self) -> bool {
        &&& self.wf_dims()
        &&& (self.num_mines as int) < (self.width as int) * (self.height as int)
        &&& count_mines(self.cells@) == self.num_mines as int
        &&& self.mines@.len() == self.num_mines as int
        &&& (forall|i: int, j: int| 0 <= i < j < self.mines@.len()
                ==> #[trigger] self.mines@[i] != #[trigger] self.mines@[j])
        &&& (forall|i: int| 0 <= i < self.mines@.len()
                ==> self.in_bounds(#[trigger] self.mines@[i].0 as int, self.mines@[i].1 as int)
                    && self.is_mine(self.mines@[i].0 as int, self.mines@[i].1 as int))
        &&& (forall|x: int, y: int| self.in_bounds(x, y)
                ==> (#[trigger] self.cell(x, y)).adjacency <= 9)
        &&& (forall|x: int, y: int| self.in_bounds(x, y) && !self.is_mine(x, y)
                ==> (#[trigger] self.cell(x, y)).adjacency == self.adj_count(x, y))
    }

    /// The game is won when every non-mine cell has been revealed.
    pub open spec fn spec_is_won(self) -> bool {
        forall|x: int, y: int| self.in_bounds(x, y) && !self.is_mine(x, y)
            ==> #[trigger] self.revealed(x, y)
    }

    /// Builds a board with the given mine coordinates: every listed cell gets
    /// the mine marker, every other cell the exact count of its mine
    /// neighbors, and every cell starts hidden. Fails with `InvalidConfig`
    /// when the list does not fit the grid, repeats a coordinate, or names
    /// one off the grid.
    pub fn with_mines(width: usize, height: usize, mines: Vec<(usize, usize)>) -> (r: Result<
        Board,
        GameError,
    >)
        requires
            (width as int) * (height as int) <= usize::MAX as int,
        ensures
            match r {
                Ok(b) => {
                    &&& valid_mine_list(width as int, height as int, mines@)
                    &&& b.wf()
                    &&& b.width == width
                    &&& b.height == height
                    &&& b.num_mines == mines@.len()
                    &&& b.mines@ == mines@
                    &&& (forall|x: int, y: int| b.in_bounds(x, y)
                            ==> (#[trigger] b.cell(x, y)).state == CellState::Hidden)
                    &&& (forall|x: int, y: int| b.in_bounds(x, y)
                            ==> ((#[trigger] b.is_mine(x, y)) <==> exists|j: int|
                                    0 <= j < mines@.len() && #[trigger] mines@[j]
                                        == (x as usize, y as usize)))
                },
                Err(e) => e == GameError::InvalidConfig && !valid_mine_list(
                    width as int,
                    height as int,
                    mines@,
                ),
            },
    {
        let area = width * height;
        if mines.len() >= area {
            return Err(GameError::InvalidConfig);
        }
        let m = mines.len();
        let mut i: usize = 0;
        while i < m
            invariant
                0 <= i <= m,
                m == mines@.len(),
                forall|j: int| 0 <= j < i as int
                    ==> (#[trigger] mines@[j]).0 < width && mines@[j].1 < height,
            decreases m - i,
        {
            if mines[i].0 >= width || mines[i].1 >= height {
                return Err(GameError::InvalidConfig);
            }
            i += 1;
        }
        let mut i: usize = 0;
        while i < m
            invariant
                0 <= i <= m,
                m == mines@.len(),
                forall|a: int, b: int| 0 <= a < b < i as int
                    ==> #[trigger] mines@[a] != #[trigger] mines@[b],
            decreases m - i,
        {
            let mut j: usize = 0;
            while j < i
                invariant
                    0 <= j <= i < m,
                    m == mines@.len(),
                    forall|a: int, b: int| 0 <= a < b < i as int
                        ==> #[trigger] mines@[a] != #[trigger] mines@[b],
                    forall|a: int| 0 <= a < j as int ==> #[trigger] mines@[a] != mines@[i as int],
                decreases i - j,
            {
                if mines[j].0 == mines[i].0 && mines[j].1 == mines[i].1 {
                    return Err(GameError::InvalidConfig);
                }
                j += 1;
            }
            i += 1;
        }
        let cells: Vec<Cell> = vec![Cell { state: CellState::Hidden, adjacency: 0 }; area];
        let mut b = Board { width, height, num_mines: m, cells, mines };
        proof {
            lemma_count_where_zero(b.cells@, |cc: Cell| cell_is_mine(cc));
            assert forall|x: int, y: int| b.in_bounds(x, y)
                implies #[trigger] b.cell(x, y) == (Cell {
                state: CellState::Hidden,
                adjacency: 0,
            }) by {
                lemma_idx_bounds(width as int, height as int, x, y);
            }
        }
        let mut k: usize = 0;
        while k < m
            invariant
                0 <= k <= m,
                b.width == width,
                b.height == height,
                b.num_mines == m,
                b.mines@ == mines@,
                m == b.mines@.len(),
                b.mines@.len() < (width as int) * (height as int),
                b.wf_dims(),
                forall|j: int| 0 <= j < m as int
                    ==> (#[trigger] b.mines@[j]).0 < width && b.mines@[j].1 < height,
                forall|a: int, c: int| 0 <= a < c < m as int
                    ==> #[trigger] b.mines@[a] != #[trigger] b.mines@[c],
                count_mines(b.cells@) == k as int,
                forall|x: int, y: int| b.in_bounds(x, y)
                    ==> (#[trigger] b.cell(x, y)).state == CellState::Hidden,
                forall|x: int, y: int| b.in_bounds(x, y)
                    ==> (#[trigger] b.cell(x, y)).adjacency == 0 || b.cell(x, y).adjacency == 9,
                forall|x: int, y: int| b.in_bounds(x, y)
                    ==> ((#[trigger] b.is_mine(x, y)) <==> exists|j: int|
                            0 <= j < k as int && #[trigger] b.mines@[j] == (x as usize, y as usize)),
            decreases m - k,
        {
            let (mx, my) = (b.mines[k].0, b.mines[k].1);
            let n = b.cells.len();
            proof {
                lemma_idx_bounds(width as int, height as int, mx as int, my as int);
            }
            let i = mx + my * width;
            let new_cell = Cell { state: CellState::Hidden, adjacency: 9 };
            let ghost prev = b;
            proof {
                // the coordinate is not yet a mine: it would need an earlier
                // duplicate in the list
                if b.is_mine(mx as int, my as int) {
                    let j = choose|j: int|
                        0 <= j < k as int && #[trigger] b.mines@[j] == (mx, my);
                    assert(b.mines@[j] == b.mines@[k as int]);
                }
            }
            b.cells[i] = new_cell;
            proof {
                lemma_cell_update(prev, b, mx as int, my as int, new_cell);
                lemma_count_where_update(prev.cells@, |cc: Cell| cell_is_mine(cc), i as int,
                    new_cell);
                assert(b.mines@[k as int] == (mx, my));
                assert forall|x: int, y: int| b.in_bounds(x, y)
                    implies ((#[trigger] b.is_mine(x, y)) <==> exists|j: int|
                        0 <= j < (k + 1) as int && #[trigger] b.mines@[j]
                            == (x as usize, y as usize)) by {
                    let xu = x as usize;
                    let yu = y as usize;
                    if (x, y) == (mx as int, my as int) {
                        assert(b.is_mine(x, y));
                        assert(0 <= k as int && (k as int) < ((k + 1) as int) && b.mines@[k as int]
                            == (xu, yu));
                    } else {
                        assert(b.cell(x, y) == prev.cell(x, y));
                        if b.is_mine(x, y) {
                            assert(prev.is_mine(x, y));
                            let j = choose|j: int|
                                0 <= j < k as int && #[trigger] prev.mines@[j] == (xu, yu);
                            assert(0 <= j < (k + 1) as int && b.mines@[j] == (xu, yu));
                        }
                        if exists|j: int| 0 <= j < (k + 1) as int && #[trigger] b.mines@[j]
                            == (xu, yu) {
                            let j = choose|j: int|
                                0 <= j < (k + 1) as int && #[trigger] b.mines@[j] == (xu, yu);
                            if j == k as int {
                                assert(xu == mx && yu == my);
                                assert(false);
                            }
                            assert(0 <= j < k as int && prev.mines@[j] == (xu, yu));
                            assert(prev.is_mine(x, y));
                            assert(b.is_mine(x, y));
                        }
                    }
                }
            }
            k += 1;
        }
        proof {
            assert forall|j: int| 0 <= j < b.mines@.len()
                implies b.in_bounds(#[trigger] b.mines@[j].0 as int, b.mines@[j].1 as int)
                    && b.is_mine(b.mines@[j].0 as int, b.mines@[j].1 as int) by {
                assert(b.mines@[j] == (b.mines@[j].0, b.mines@[j].1));
            }
        }
        b.fill_adjacency();
        Ok(b)
    }

    /// Builds a board of the given dimensions with `mine_count` mines placed
    /// uniformly at random, without replacement: each mine goes to a cell
    /// drawn among the cells that are still free. Fails with `InvalidConfig`
    /// exactly when `mine_count` does not leave at least one free cell.
    pub fn new(width: usize, height: usize, mine_count: usize) -> (r: Result<Board, GameError>)
        requires
            (width as int) * (height as int) <= usize::MAX as int,
        ensures
            match r {
                Ok(b) => {
                    &&& (mine_count as int) < (width as int) * (height as int)
                    &&& b.wf()
                    &&& b.width == width
                    &&& b.height == height
                    &&& b.num_mines == mine_count
                    &&& (forall|x: int, y: int| b.in_bounds(x, y)
                            ==> (#[trigger] b.cell(x, y)).state == CellState::Hidden)
                },
                Err(e) => e == GameError::InvalidConfig && !((mine_count as int) < (width as int)
                    * (height as int)),
            },
    {
        let area = width * height;
        if mine_count >= area {
            return Err(GameError::InvalidConfig);
        }
        let cells: Vec<Cell> = vec![Cell { state: CellState::Hidden, adjacency: 0 }; area];
        let mut b = Board {
            width,
            height,
            num_mines: mine_count,
            cells,
            mines: Vec::new(),
        };
        proof {
            lemma_count_where_zero(b.cells@, |cc: Cell| cell_is_mine(cc));
            assert forall|x: int, y: int| b.in_bounds(x, y)
                implies #[trigger] b.cell(x, y) == (Cell {
                state: CellState::Hidden,
                adjacency: 0,
            }) by {
                lemma_idx_bounds(width as int, height as int, x, y);
            }
        }
        let mut placed: usize = 0;
        while placed < mine_count
            invariant
                0 <= placed <= mine_count,
                (mine_count as int) < (width as int) * (height as int),
                area as int == (width as int) * (height as int),
                b.width == width,
                b.height == height,
                b.num_mines == mine_count,
                b.wf_dims(),
                b.mines@.len() == placed as int,
                count_mines(b.cells@) == placed as int,
                forall|x: int, y: int| b.in_bounds(x, y)
                    ==> (#[trigger] b.cell(x, y)).state == CellState::Hidden,
                forall|x: int, y: int| b.in_bounds(x, y)
                    ==> (#[trigger] b.cell(x, y)).adjacency == 0 || b.cell(x, y).adjacency == 9,
                forall|x: int, y: int| b.in_bounds(x, y)
                    ==> ((#[trigger] b.is_mine(x, y)) <==> exists|j: int|
                            0 <= j < placed as int && #[trigger] b.mines@[j]
                                == (x as usize, y as usize)),
                forall|j: int| 0 <= j < placed as int
                    ==> b.in_bounds(#[trigger] b.mines@[j].0 as int, b.mines@[j].1 as int)
                        && b.is_mine(b.mines@[j].0 as int, b.mines@[j].1 as int),
                forall|a: int, c: int| 0 <= a < c < placed as int
                    ==> #[trigger] b.mines@[a] != #[trigger] b.mines@[c],
            decreases mine_count - placed,
        {
            proof {
                lemma_count_complement(b.cells@);
            }
            let free = area - placed;
            let kth = random_below(free);
            let i = pick_kth_free(&b.cells, kth);
            let x = i % width;
            let y = i / width;
            proof {
                lemma_idx_decompose(width as int, height as int, i as int);
            }
            let new_cell = Cell { state: CellState::Hidden, adjacency: 9 };
            let ghost prev = b;
            b.cells[i] = new_cell;
            b.mines.push((x, y));
            proof {
                lemma_cell_update(prev, b, x as int, y as int, new_cell);
                lemma_count_where_update(prev.cells@, |cc: Cell| cell_is_mine(cc), i as int,
                    new_cell);
                assert(b.mines@ == prev.mines@.push((x, y)));
                assert(b.mines@[placed as int] == (x, y));
                assert(!prev.is_mine(x as int, y as int));
                assert forall|a: int, c: int| 0 <= a < c < (placed + 1) as int
                    implies #[trigger] b.mines@[a] != #[trigger] b.mines@[c] by {
                    if c == placed as int {
                        assert(prev.is_mine(prev.mines@[a].0 as int, prev.mines@[a].1 as int));
                    }
                }
                assert forall|x2: int, y2: int| b.in_bounds(x2, y2)
                    implies ((#[trigger] b.is_mine(x2, y2)) <==> exists|j: int|
                        0 <= j < (placed + 1) as int && #[trigger] b.mines@[j]
                            == (x2 as usize, y2 as usize)) by {
                    let xu = x2 as usize;
                    let yu = y2 as usize;
                    if (x2, y2) == (x as int, y as int) {
                        assert(b.is_mine(x2, y2));
                        assert(0 <= placed as int && (placed as int) < ((placed + 1) as int)
                            && b.mines@[placed as int] == (xu, yu));
                    } else {
                        assert(b.cell(x2, y2) == prev.cell(x2, y2));
                        if b.is_mine(x2, y2) {
                            assert(prev.is_mine(x2, y2));
                            let j = choose|j: int|
                                0 <= j < placed as int && #[trigger] prev.mines@[j] == (xu, yu);
                            assert(0 <= j < (placed + 1) as int && b.mines@[j] == (xu, yu));
                        }
                        if exists|j: int| 0 <= j < (placed + 1) as int && #[trigger] b.mines@[j]
                            == (xu, yu) {
                            let j = choose|j: int|
                                0 <= j < (placed + 1) as int && #[trigger] b.mines@[j] == (xu, yu);
                            if j == placed as int {
                                assert(xu == x && yu == y);
                                assert(false);
                            }
                            assert(0 <= j < placed as int && prev.mines@[j] == (xu, yu));
                            assert(prev.is_mine(x2, y2));
                            assert(b.is_mine(x2, y2));
                        }
                    }
                }
            }
            placed += 1;
        }
        b.fill_adjacency();
        Ok(b)
    }

    /// Computes and stores the adjacency count of every non-mine cell,
    /// leaving mine markers, cell states and the mine list untouched.
    fn fill_adjacency(&mut self)
        requires
            old(self).wf_dims(),
            (old(self).num_mines as int) < (old(self).width as int) * (old(self).height as int),
            count_mines(old(self).cells@) == old(self).num_mines as int,
            old(self).mines@.len() == old(self).num_mines as int,
            forall|i: int, j: int| 0 <= i < j < old(self).mines@.len()
                ==> #[trigger] old(self).mines@[i] != #[trigger] old(self).mines@[j],
            forall|i: int| 0 <= i < old(self).mines@.len()
                ==> old(self).in_bounds(#[trigger] old(self).mines@[i].0 as int,
                        old(self).mines@[i].1 as int)
                    && old(self).is_mine(old(self).mines@[i].0 as int,
                        old(self).mines@[i].1 as int),
            forall|x: int, y: int| old(self).in_bounds(x, y)
                ==> (#[trigger] old(self).cell(x, y)).adjacency == 0
                    || old(self).cell(x, y).adjacency == 9,
        ensures
            final(self).wf(),
            final(self).width == old(self).width,
            final(self).height == old(self).height,
            final(self).num_mines == old(self).num_mines,
            final(self).mines == old(self).mines,
            forall|x: int, y: int| old(self).in_bounds(x, y)
                ==> (#[trigger] final(self).cell(x, y)).state == old(self).cell(x, y).state,
            forall|x: int, y: int| old(self).in_bounds(x, y)
                ==> (#[trigger] final(self).is_mine(x, y) <==> old(self).is_mine(x, y)),
    {
        let w = self.width;
        let h = self.height;
        let mut y: usize = 0;
        while y < h
            invariant
                0 <= y <= h,
                self.width == w,
                self.height == h,
                w == old(self).width,
                h == old(self).height,
                self.num_mines == old(self).num_mines,
                self.mines == old(self).mines,
                self.wf_dims(),
                (self.num_mines as int) < (w as int) * (h as int),
                count_mines(self.cells@) == self.num_mines as int,
                forall|a: int, b: int| self.in_bounds(a, b)
                    ==> ((#[trigger] self.is_mine(a, b)) <==> old(self).is_mine(a, b)),
                forall|a: int, b: int| self.in_bounds(a, b)
                    ==> (#[trigger] self.cell(a, b)).state == old(self).cell(a, b).state,
                forall|a: int, b: int| self.in_bounds(a, b) && b >= y as int
                    ==> #[trigger] self.cell(a, b) == old(self).cell(a, b),
                forall|a: int, b: int| self.in_bounds(a, b) && self.is_mine(a, b)
                    ==> #[trigger] self.cell(a, b) == old(self).cell(a, b),
                forall|a: int, b: int| self.in_bounds(a, b) && b < y as int && !self.is_mine(a, b)
                    ==> (#[trigger] self.cell(a, b)).adjacency == self.adj_count(a, b)
                        && self.cell(a, b).adjacency <= 8,
            decreases h - y,
        {
            let mut x: usize = 0;
            while x < w
                invariant
                    0 <= y < h,
                    0 <= x <= w,
                    self.width == w,
                    self.height == h,
                    w == old(self).width,
                    h == old(self).height,
                    self.num_mines == old(self).num_mines,
                    self.mines == old(self).mines,
                    self.wf_dims(),
                    (self.num_mines as int) < (w as int) * (h as int),
                    count_mines(self.cells@) == self.num_mines as int,
                    forall|a: int, b: int| self.in_bounds(a, b)
                        ==> ((#[trigger] self.is_mine(a, b)) <==> old(self).is_mine(a, b)),
                    forall|a: int, b: int| self.in_bounds(a, b)
                        ==> (#[trigger] self.cell(a, b)).state == old(self).cell(a, b).state,
                    forall|a: int, b: int| self.in_bounds(a, b)
                            && (b > y as int || (b == y as int && a >= x as int))
                        ==> #[trigger] self.cell(a, b) == old(self).cell(a, b),
                    forall|a: int, b: int| self.in_bounds(a, b) && self.is_mine(a, b)
                        ==> #[trigger] self.cell(a, b) == old(self).cell(a, b),
                    forall|a: int, b: int| self.in_bounds(a, b)
                            && (b < y as int || (b == y as int && a < x as int))
                            && !self.is_mine(a, b)
                        ==> (#[trigger] self.cell(a, b)).adjacency == self.adj_count(a, b)
                            && self.cell(a, b).adjacency <= 8,
                decreases w - x,
            {
                let n = self.cells.len();
                proof {
                    lemma_idx_bounds(w as int, h as int, x as int, y as int);
                }
                let i = x + y * w;
                let c = self.cells[i];
                if c.adjacency != 9 {
                    let a = self.count_adjacent(x, y);
                    let new_cell = Cell { state: c.state, adjacency: a };
                    let ghost prev = *self;
                    self.cells[i] = new_cell;
                    proof {
                        lemma_cell_update(prev, *self, x as int, y as int, new_cell);
                        lemma_count_where_update(
                            prev.cells@,
                            |cc: Cell| cell_is_mine(cc),
                            i as int,
                            new_cell,
                        );
                    }
                }
                x += 1;
            }
            y += 1;
        }
        proof {
            assert forall|x: int, y2: int| self.in_bounds(x, y2) && !self.is_mine(x, y2)
                implies (#[trigger] self.cell(x, y2)).adjacency == self.adj_count(x, y2) by {}
            assert forall|x: int, y2: int| self.in_bounds(x, y2)
                implies (#[trigger] self.cell(x, y2)).adjacency <= 9 by {
                if !self.is_mine(x, y2) {
                    assert(self.cell(x, y2).adjacency <= 8);
                }
            }
        }
    }

    /// One flood step: reveals the in-bounds neighbor `(nx, ny)` of the
    /// zero-adjacency cell `(cx, cy)` unless it is a mine or already
    /// revealed, and appends it to the work list when it propagates further.
    fn flood_visit(
        &mut self,
        queue: &mut Vec<(usize, usize)>,
        nx: usize,
        ny: usize,
        Ghost(b0): Ghost<Board>,
        Ghost(sx): Ghost<int>,
        Ghost(sy): Ghost<int>,
        Ghost(cx): Ghost<int>,
        Ghost(cy): Ghost<int>,
    )
        requires
            old(self).wf_dims(),
            old(self).width == b0.width,
            old(self).height == b0.height,
            old(self).in_bounds(nx as int, ny as int),
            forall|a: int, b: int| b0.in_bounds(a, b)
                ==> (#[trigger] old(self).cell(a, b)).adjacency == b0.cell(a, b).adjacency,
            forall|a: int, b: int| b0.in_bounds(a, b) && b0.revealed(a, b)
                ==> #[trigger] old(self).revealed(a, b),
            flood_reaches(b0, sx, sy, cx, cy),
            b0.in_bounds(cx, cy),
            b0.cell(cx, cy).adjacency == 0,
            adjacent8(cx, cy, nx as int, ny as int),
        ensures
            final(self).width == old(self).width,
            final(self).height == old(self).height,
            final(self).num_mines == old(self).num_mines,
            final(self).mines@ == old(self).mines@,
            final(self).wf_dims(),
            count_mines(final(self).cells@) == count_mines(old(self).cells@),
            forall|a: int, b: int| old(self).in_bounds(a, b) && (a, b) != (nx as int, ny as int)
                ==> #[trigger] final(self).cell(a, b) == old(self).cell(a, b),
            final(self).cell(nx as int, ny as int).adjacency == old(self).cell(
                nx as int,
                ny as int,
            ).adjacency,
            forall|a: int, b: int| old(self).in_bounds(a, b) && old(self).revealed(a, b)
                ==> #[trigger] final(self).revealed(a, b),
            !old(self).is_mine(nx as int, ny as int) ==> final(self).revealed(
                nx as int,
                ny as int,
            ),
            (old(self).revealed(nx as int, ny as int) || old(self).is_mine(nx as int, ny as int))
                ==> final(self).cell(nx as int, ny as int) == old(self).cell(nx as int, ny as int)
                && final(queue)@ == old(queue)@ && count_unrevealed(final(self).cells@)
                == count_unrevealed(old(self).cells@),
            (!old(self).revealed(nx as int, ny as int) && !old(self).is_mine(
                nx as int,
                ny as int,
            )) ==> {
                &&& final(self).revealed(nx as int, ny as int)
                &&& count_unrevealed(final(self).cells@) == count_unrevealed(old(self).cells@) - 1
                &&& flood_reaches(b0, sx, sy, nx as int, ny as int)
                &&& (if old(self).cell(nx as int, ny as int).adjacency == 0 {
                    final(queue)@ == old(queue)@.push((nx, ny))
                } else {
                    final(queue)@ == old(queue)@
                })
            },
    {
        let n = self.cells.len();
        proof {
            lemma_idx_bounds(self.width as int, self.height as int, nx as int, ny as int);
        }
        let i = nx + ny * self.width;
        let c = self.cells[i];
        if c.state != CellState::Revealed && c.adjacency != 9 {
            let new_cell = Cell { state: CellState::Revealed, adjacency: c.adjacency };
            let ghost prev = *self;
            self.cells[i] = new_cell;
            proof {
                lemma_cell_update(prev, *self, nx as int, ny as int, new_cell);
                lemma_count_where_update(prev.cells@, |cc: Cell| cell_is_mine(cc), i as int,
                    new_cell);
                lemma_count_where_update(prev.cells@, |cc: Cell| cell_unrevealed(cc), i as int,
                    new_cell);
                assert(prev.cell(nx as int, ny as int) == c);
                assert(!prev.revealed(nx as int, ny as int));
                assert(b0.in_bounds(nx as int, ny as int));
                if b0.revealed(nx as int, ny as int) {
                    assert(prev.revealed(nx as int, ny as int));
                }
                assert(!b0.revealed(nx as int, ny as int));
                assert(!b0.is_mine(nx as int, ny as int));
                lemma_reach_step(b0, sx, sy, cx, cy, nx as int, ny as int);
            }
            if c.adjacency == 0 {
                queue.push((nx, ny));
            }
        }
    }

    /// Reveals everything the flood reaches from the freshly revealed
    /// zero-adjacency start cell, using an explicit work list so that no
    /// recursion depth is involved; the work list shrinks or the number of
    /// unrevealed cells drops on every round, so the loop terminates even on
    /// a board of nothing but zero-adjacency cells.
    fn flood_fill(&mut self, sx: usize, sy: usize, Ghost(b0): Ghost<Board>)
        requires
            b0.wf_dims(),
            b0.in_bounds(sx as int, sy as int),
            b0.cell(sx as int, sy as int).adjacency == 0,
            !b0.revealed(sx as int, sy as int),
            old(self).width == b0.width,
            old(self).height == b0.height,
            old(self).num_mines == b0.num_mines,
            old(self).mines@ == b0.mines@,
            old(self).cells@ == b0.cells@.update(
                sx as int + (sy as int) * (b0.width as int),
                Cell { state: CellState::Revealed, adjacency: 0 },
            ),
        ensures
            final(self).width == b0.width,
            final(self).height == b0.height,
            final(self).num_mines == b0.num_mines,
            final(self).mines@ == b0.mines@,
            final(self).wf_dims(),
            count_mines(final(self).cells@) == count_mines(b0.cells@),
            forall|a: int, b: int| b0.in_bounds(a, b)
                ==> (#[trigger] final(self).cell(a, b)).adjacency == b0.cell(a, b).adjacency,
            forall|a: int, b: int| b0.in_bounds(a, b)
                ==> ((#[trigger] final(self).revealed(a, b)) <==> b0.revealed(a, b)
                    || flood_reaches(b0, sx as int, sy as int, a, b)),
            forall|a: int, b: int| b0.in_bounds(a, b) && !final(self).revealed(a, b)
                ==> #[trigger] final(self).cell(a, b) == b0.cell(a, b),
    {
        let ghost sxi = sx as int;
        let ghost syi = sy as int;
        let start_cell = Cell { state: CellState::Revealed, adjacency: 0 };
        let mut queue: Vec<(usize, usize)> = Vec::new();
        queue.push((sx, sy));
        proof {
            lemma_idx_bounds(b0.width as int, b0.height as int, sxi, syi);
            lemma_reach_self(b0, sxi, syi);
            lemma_cell_update(b0, *self, sxi, syi, start_cell);
            lemma_count_where_update(b0.cells@, |cc: Cell| cell_is_mine(cc),
                sxi + syi * (b0.width as int), start_cell);
            lemma_count_where_update(b0.cells@, |cc: Cell| cell_unrevealed(cc),
                sxi + syi * (b0.width as int), start_cell);
            assert(queue@[0] == (sx, sy));
            assert forall|a: int, b: int, u: int, v: int|
                b0.in_bounds(a, b) && self.revealed(a, b) && b0.cell(a, b).adjacency == 0 && ((
                a,
                b,
            ) == (sxi, syi) || !b0.revealed(a, b)) && !in_queue(queue@, a, b) && b0.in_bounds(u, v)
                && #[trigger] adjacent8(a, b, u, v) && !b0.is_mine(u, v) implies self.revealed(
                u,
                v,
            ) by {
                if (a, b) == (sxi, syi) {
                    assert(in_queue(queue@, a, b));
                } else {
                    assert(self.cell(a, b) == b0.cell(a, b));
                }
            }
        }
        while queue.len() > 0
            invariant
                self.width == b0.width,
                self.height == b0.height,
                self.num_mines == b0.num_mines,
                self.mines@ == b0.mines@,
                self.wf_dims(),
                b0.wf_dims(),
                b0.in_bounds(sxi, syi),
                b0.cell(sxi, syi).adjacency == 0,
                !b0.revealed(sxi, syi),
                count_mines(self.cells@) == count_mines(b0.cells@),
                self.revealed(sxi, syi),
                forall|a: int, b: int| b0.in_bounds(a, b)
                    ==> (#[trigger] self.cell(a, b)).adjacency == b0.cell(a, b).adjacency,
                forall|a: int, b: int| b0.in_bounds(a, b) && b0.revealed(a, b)
                    ==> #[trigger] self.revealed(a, b),
                forall|a: int, b: int| b0.in_bounds(a, b) && !self.revealed(a, b)
                    ==> #[trigger] self.cell(a, b) == b0.cell(a, b),
                forall|qi: int| 0 <= qi < queue@.len() ==> {
                    let q = #[trigger] queue@[qi];
                    &&& b0.in_bounds(q.0 as int, q.1 as int)
                    &&& b0.cell(q.0 as int, q.1 as int).adjacency == 0
                    &&& self.revealed(q.0 as int, q.1 as int)
                    &&& flood_reaches(b0, sxi, syi, q.0 as int, q.1 as int)
                },
                forall|a: int, b: int| b0.in_bounds(a, b) && #[trigger] self.revealed(a, b)
                    ==> b0.revealed(a, b) || flood_reaches(b0, sxi, syi, a, b),
                forall|a: int, b: int, u: int, v: int|
                    b0.in_bounds(a, b) && self.revealed(a, b) && b0.cell(a, b).adjacency == 0 && ((
                    a,
                    b,
                ) == (sxi, syi) || !b0.revealed(a, b)) && !in_queue(queue@, a, b) && b0.in_bounds(
                        u,
                        v,
                    ) && #[trigger] adjacent8(a, b, u, v) && !b0.is_mine(u, v)
                    ==> self.revealed(u, v),
            decreases count_unrevealed(self.cells@), queue@.len(),
        {
            let ghost qpre = queue@;
            let popped = queue.pop();
            let (cx, cy) = match popped {
                Some(p) => p,
                None => {
                    proof {
                        assert(false);
                    }
                    (0, 0)
                },
            };
            let ghost cxi = cx as int;
            let ghost cyi = cy as int;
            let ghost st0 = *self;
            let ghost q0 = queue@;
            proof {
                assert(qpre[qpre.len() - 1] == (cx, cy));
                assert forall|a: int, b: int, u: int, v: int|
                    b0.in_bounds(a, b) && self.revealed(a, b) && b0.cell(a, b).adjacency == 0 && ((
                    a,
                    b,
                ) == (sxi, syi) || !b0.revealed(a, b)) && (a, b) != (cxi, cyi) && !in_queue(
                        queue@,
                        a,
                        b,
                    ) && b0.in_bounds(u, v) && #[trigger] adjacent8(a, b, u, v) && !b0.is_mine(u, v)
                    implies self.revealed(u, v) by {
                    if in_queue(qpre, a, b) {
                        let i = choose|i: int|
                            0 <= i < qpre.len() && #[trigger] qpre[i] == (a as usize, b as usize);
                        if i < q0.len() {
                            assert(q0[i] == qpre[i]);
                            assert(in_queue(q0, a, b));
                        } else {
                            assert(qpre[i] == (cx, cy));
                            assert(a == cxi && b == cyi);
                        }
                        assert(false);
                    }
                }
            }
            let mut d: u8 = 0;
            while d < 8
                invariant
                    0 <= d <= 8,
                    self.width == b0.width,
                    self.height == b0.height,
                    self.num_mines == b0.num_mines,
                    self.mines@ == b0.mines@,
                    self.wf_dims(),
                    b0.wf_dims(),
                    b0.in_bounds(sxi, syi),
                    b0.cell(sxi, syi).adjacency == 0,
                    !b0.revealed(sxi, syi),
                    count_mines(self.cells@) == count_mines(b0.cells@),
                    self.revealed(sxi, syi),
                    b0.in_bounds(cxi, cyi),
                    b0.cell(cxi, cyi).adjacency == 0,
                    flood_reaches(b0, sxi, syi, cxi, cyi),
                    cx as int == cxi,
                    cy as int == cyi,
                    forall|a: int, b: int| b0.in_bounds(a, b)
                        ==> (#[trigger] self.cell(a, b)).adjacency == b0.cell(a, b).adjacency,
                    forall|a: int, b: int| b0.in_bounds(a, b) && b0.revealed(a, b)
                        ==> #[trigger] self.revealed(a, b),
                    forall|a: int, b: int| b0.in_bounds(a, b) && !self.revealed(a, b)
                        ==> #[trigger] self.cell(a, b) == b0.cell(a, b),
                    forall|a: int, b: int| b0.in_bounds(a, b) && st0.revealed(a, b)
                        ==> #[trigger] self.revealed(a, b),
                    forall|qi: int| 0 <= qi < queue@.len() ==> {
                        let q = #[trigger] queue@[qi];
                        &&& b0.in_bounds(q.0 as int, q.1 as int)
                        &&& b0.cell(q.0 as int, q.1 as int).adjacency == 0
                        &&& self.revealed(q.0 as int, q.1 as int)
                        &&& flood_reaches(b0, sxi, syi, q.0 as int, q.1 as int)
                    },
                    queue@.len() >= q0.len(),
                    forall|qi: int| 0 <= qi < q0.len() ==> #[trigger] queue@[qi] == q0[qi],
                    forall|a: int, b: int| b0.in_bounds(a, b) && #[trigger] self.revealed(a, b)
                        ==> b0.revealed(a, b) || flood_reaches(b0, sxi, syi, a, b),
                    forall|a: int, b: int|
                        b0.in_bounds(a, b) && #[trigger] self.revealed(a, b) && !st0.revealed(a, b)
                            && b0.cell(a, b).adjacency == 0 ==> in_queue(queue@, a, b),
                    forall|a: int, b: int, u: int, v: int|
                        b0.in_bounds(a, b) && self.revealed(a, b) && b0.cell(a, b).adjacency == 0
                            && ((a, b) == (sxi, syi) || !b0.revealed(a, b)) && (a, b) != (cxi, cyi)
                            && !in_queue(queue@, a, b) && b0.in_bounds(u, v)
                            && #[trigger] adjacent8(a, b, u, v) && !b0.is_mine(u, v)
                            ==> self.revealed(u, v),
                    forall|d2: int| 0 <= d2 < d as int ==> {
                        let t = #[trigger] nb_offset(cxi, cyi, d2);
                        b0.in_bounds(t.0, t.1) && !b0.is_mine(t.0, t.1) ==> self.revealed(t.0, t.1)
                    },
                    count_unrevealed(self.cells@) <= count_unrevealed(st0.cells@),
                    queue@.len() > q0.len() ==> count_unrevealed(self.cells@) < count_unrevealed(
                        st0.cells@,
                    ),
                decreases 8 - d as int,
            {
                let nb: Option<(usize, usize)> = if d == 0 {
                    if cx > 0 && cy > 0 {
                        Some((cx - 1, cy - 1))
                    } else {
                        None
                    }
                } else if d == 1 {
                    if cy > 0 {
                        Some((cx, cy - 1))
                    } else {
                        None
                    }
                } else if d == 2 {
                    if cx + 1 < self.width && cy > 0 {
                        Some((cx + 1, cy - 1))
                    } else {
                        None
                    }
                } else if d == 3 {
                    if cx > 0 {
                        Some((cx - 1, cy))
                    } else {
                        None
                    }
                } else if d == 4 {
                    if cx + 1 < self.width {
                        Some((cx + 1, cy))
                    } else {
                        None
                    }
                } else if d == 5 {
                    if cx > 0 && cy + 1 < self.height {
                        Some((cx - 1, cy + 1))
                    } else {
                        None
                    }
                } else if d == 6 {
                    if cy + 1 < self.height {
                        Some((cx, cy + 1))
                    } else {
                        None
                    }
                } else {
                    if cx + 1 < self.width && cy + 1 < self.height {
                        Some((cx + 1, cy + 1))
                    } else {
                        None
                    }
                };
                let ghost stp = *self;
                let ghost qp = queue@;
                match nb {
                    Some((nx, ny)) => {
                        let ghost nxi = nx as int;
                        let ghost nyi = ny as int;
                        proof {
                            assert((nxi, nyi) == nb_offset(cxi, cyi, d as int));
                            assert(adjacent8(cxi, cyi, nxi, nyi));
                        }
                        self.flood_visit(&mut queue, nx, ny, Ghost(b0), Ghost(sxi), Ghost(syi),
                            Ghost(cxi), Ghost(cyi));
                        proof {
                            let fresh = !stp.revealed(nxi, nyi) && !stp.is_mine(nxi, nyi);
                            let zero = stp.cell(nxi, nyi).adjacency == 0;
                            if fresh && zero {
                                assert(queue@ == qp.push((nx, ny)));
                                assert(queue@[qp.len() as int] == (nx, ny));
                            } else {
                                assert(queue@ == qp);
                            }
                            assert(queue@.len() >= qp.len());
                            assert(forall|i: int| 0 <= i < qp.len()
                                ==> #[trigger] queue@[i] == qp[i]);
                            assert forall|a: int, b: int|
                                b0.in_bounds(a, b) && #[trigger] self.revealed(a, b)
                                    && !st0.revealed(a, b) && b0.cell(a, b).adjacency == 0
                                implies in_queue(queue@, a, b) by {
                                if stp.revealed(a, b) {
                                    assert(in_queue(qp, a, b));
                                    let i = choose|i: int|
                                        0 <= i < qp.len() && #[trigger] qp[i] == (
                                        a as usize,
                                        b as usize,
                                        );
                                    assert(queue@[i] == qp[i]);
                                    assert(in_queue(queue@, a, b));
                                } else {
                                    if (a, b) != (nxi, nyi) {
                                        assert(self.cell(a, b) == stp.cell(a, b));
                                    }
                                    assert((a, b) == (nxi, nyi));
                                    assert(stp.cell(nxi, nyi).adjacency == b0.cell(
                                        nxi,
                                        nyi,
                                    ).adjacency);
                                    assert(fresh && zero);
                                    assert(queue@[qp.len() as int] == (a as usize, b as usize));
                                    assert(in_queue(queue@, a, b));
                                }
                            }
                            assert forall|a: int, b: int, u: int, v: int|
                                b0.in_bounds(a, b) && self.revealed(a, b) && b0.cell(
                                    a,
                                    b,
                                ).adjacency == 0 && ((a, b) == (sxi, syi) || !b0.revealed(a, b))
                                    && (a, b) != (cxi, cyi) && !in_queue(queue@, a, b)
                                    && b0.in_bounds(u, v) && #[trigger] adjacent8(a, b, u, v)
                                    && !b0.is_mine(u, v) implies self.revealed(u, v) by {
                                if in_queue(qp, a, b) {
                                    let i = choose|i: int|
                                        0 <= i < qp.len() && #[trigger] qp[i] == (
                                        a as usize,
                                        b as usize,
                                        );
                                    assert(queue@[i] == qp[i]);
                                    assert(in_queue(queue@, a, b));
                                    assert(false);
                                }
                                if !stp.revealed(a, b) {
                                    if (a, b) != (nxi, nyi) {
                                        assert(self.cell(a, b) == stp.cell(a, b));
                                    }
                                    assert((a, b) == (nxi, nyi));
                                    assert(stp.cell(nxi, nyi).adjacency == b0.cell(
                                        nxi,
                                        nyi,
                                    ).adjacency);
                                    assert(queue@[qp.len() as int] == (a as usize, b as usize));
                                    assert(in_queue(queue@, a, b));
                                    assert(false);
                                }
                                assert(stp.revealed(u, v));
                            }
                        }
                    },
                    None => {
                        proof {
                            let t = nb_offset(cxi, cyi, d as int);
                            assert(!b0.in_bounds(t.0, t.1));
                        }
                    },
                }
                d += 1;
            }
            proof {
                assert forall|a: int, b: int, u: int, v: int|
                    b0.in_bounds(a, b) && self.revealed(a, b) && b0.cell(a, b).adjacency == 0 && ((
                    a,
                    b,
                ) == (sxi, syi) || !b0.revealed(a, b)) && !in_queue(queue@, a, b) && b0.in_bounds(
                        u,
                        v,
                    ) && #[trigger] adjacent8(a, b, u, v) && !b0.is_mine(u, v)
                    implies self.revealed(u, v) by {
                    if (a, b) == (cxi, cyi) {
                        lemma_adjacent8_cases(a, b, u, v);
                        let d2 = choose|d2: int|
                            0 <= d2 < 8 && #[trigger] nb_offset(a, b, d2) == (u, v);
                        assert(nb_offset(cxi, cyi, d2) == (u, v));
                    }
                }
                assert(qpre.len() == q0.len() + 1);
                lemma_count_where_bounds(self.cells@, |cc: Cell| cell_unrevealed(cc));
                assert(count_unrevealed(self.cells@) >= 0);
                assert(count_unrevealed(self.cells@) <= count_unrevealed(st0.cells@));
                assert(queue@.len() > q0.len() ==> count_unrevealed(self.cells@)
                    < count_unrevealed(st0.cells@));
                assert(count_unrevealed(self.cells@) < count_unrevealed(st0.cells@)
                    || queue@.len() < qpre.len());
            }
        }
        proof {
            assert forall|a: int, b: int| b0.in_bounds(a, b) implies ((#[trigger] self.revealed(
                a,
                b,
            )) <==> b0.revealed(a, b) || flood_reaches(b0, sxi, syi, a, b)) by {
                if !self.revealed(a, b) {
                    if flood_reaches(b0, sxi, syi, a, b) {
                        let p = choose|p: Seq<(int, int)>|
                            is_flood_path(b0, sxi, syi, p) && p.last() == (a, b);
                        lemma_flood_complete(b0, *self, sxi, syi, p);
                    }
                }
            }
        }
    }

    /// Reads the mine marker of an in-bounds cell.
    fn mine_probe(&self, x: usize, y: usize) -> (r: bool)
        requires
            self.wf_dims(),
            self.in_bounds(x as int, y as int),
        ensures
            r == self.is_mine(x as int, y as int),
    {
        let n = self.cells.len();
        proof {
            lemma_idx_bounds(self.width as int, self.height as int, x as int, y as int);
        }
        self.cells[x + y * self.width].adjacency == 9
    }

    /// Counts the mines among the up-to-8 neighbors of an in-bounds cell by
    /// probing each in-bounds neighbor.
    fn count_adjacent(&self, x: usize, y: usize) -> (r: u8)
        requires
            self.wf_dims(),
            self.in_bounds(x as int, y as int),
        ensures
            r as int == self.adj_count(x as int, y as int),
            r <= 8,
    {
        let mut c: u8 = 0;
        if x > 0 && y > 0 && self.mine_probe(x - 1, y - 1) {
            c += 1;
        }
        if y > 0 && self.mine_probe(x, y - 1) {
            c += 1;
        }
        if x + 1 < self.width && y > 0 && self.mine_probe(x + 1, y - 1) {
            c += 1;
        }
        if x > 0 && self.mine_probe(x - 1, y) {
            c += 1;
        }
        if x + 1 < self.width && self.mine_probe(x + 1, y) {
            c += 1;
        }
        if x > 0 && y + 1 < self.height && self.mine_probe(x - 1, y + 1) {
            c += 1;
        }
        if y + 1 < self.height && self.mine_probe(x, y + 1) {
            c += 1;
        }
        if x + 1 < self.width && y + 1 < self.height && self.mine_probe(x + 1, y + 1) {
            c += 1;
        }
        c
    }

    /// A read-only snapshot of one cell, or `None` off the grid.
    pub fn cell_at(&self, x: usize, y: usize) -> (r: Option<Cell>)
        requires
            self.wf(),
        ensures
            match r {
                Some(c) => self.in_bounds(x as int, y as int) && c == self.cell(x as int, y as int),
                None => !self.in_bounds(x as int, y as int),
            },
    {
        if x >= self.width || y >= self.height {
            return None;
        }
        let n = self.cells.len();
        proof {
            lemma_idx_bounds(self.width as int, self.height as int, x as int, y as int);
        }
        Some(self.cells[x + y * self.width])
    }

    /// The game is won exactly when every non-mine cell is revealed.
    pub fn is_won(&self) -> (r: bool)
        requires
            self.wf(),
        ensures
            r == self.spec_is_won(),
    {
        let w = self.width;
        let h = self.height;
        let mut y: usize = 0;
        while y < h
            invariant
                0 <= y <= h,
                w == self.width,
                h == self.height,
                self.wf(),
                forall|a: int, b: int| self.in_bounds(a, b) && b < y as int && !self.is_mine(a, b)
                    ==> #[trigger] self.revealed(a, b),
            decreases h - y,
        {
            let mut x: usize = 0;
            while x < w
                invariant
                    0 <= y < h,
                    0 <= x <= w,
                    w == self.width,
                    h == self.height,
                    self.wf(),
                    forall|a: int, b: int| self.in_bounds(a, b) && (b < y as int || (b == y as int
                        && a < x as int)) && !self.is_mine(a, b) ==> #[trigger] self.revealed(a, b),
                decreases w - x,
            {
                let n = self.cells.len();
                proof {
                    lemma_idx_bounds(w as int, h as int, x as int, y as int);
                }
                let c = self.cells[x + y * w];
                if c.adjacency != 9 && c.state != CellState::Revealed {
                    proof {
                        assert(self.in_bounds(x as int, y as int) && !self.is_mine(x as int,
                            y as int) && !self.revealed(x as int, y as int));
                    }
                    return false;
                }
                x += 1;
            }
            y += 1;
        }
        true
    }

    /// Reveals the cell at `(x, y)`. An off-grid coordinate is rejected with
    /// `OutOfBounds`; an already revealed cell is a no-op (`Unchanged`); a
    /// flagged cell stays covered until unflagged (`Blocked`); a mine is
    /// revealed and reported (`HitMine`); a zero-adjacency cell flood-reveals
    /// its whole zero region and that region's border; any other cell is
    /// revealed alone.
    pub fn reveal_cell(&mut self, x: usize, y: usize) -> (r: Result<RevealResult, GameError>)
        requires
            old(self).wf(),
        ensures
            final(self).wf(),
            reveal_rel(*old(self), *final(self), x as int, y as int, r),
    {
        if x >= self.width || y >= self.height {
            return Err(GameError::OutOfBounds);
        }
        let n = self.cells.len();
        proof {
            lemma_idx_bounds(self.width as int, self.height as int, x as int, y as int);
        }
        let i = x + y * self.width;
        let c = self.cells[i];
        match c.state {
            CellState::Revealed => Ok(RevealResult::Unchanged),
            CellState::Flagged => Ok(RevealResult::Blocked),
            CellState::Hidden => {
                let ghost b0 = *self;
                let new_cell = Cell { state: CellState::Revealed, adjacency: c.adjacency };
                self.cells[i] = new_cell;
                proof {
                    lemma_cell_update(b0, *self, x as int, y as int, new_cell);
                    lemma_count_where_update(b0.cells@, |cc: Cell| cell_is_mine(cc), i as int,
                        new_cell);
                    lemma_wf_states_only(b0, *self);
                    assert forall|a: int, b: int| b0.in_bounds(a, b) implies ((
                    #[trigger] self.revealed(a, b)) <==> b0.revealed(a, b) || (a, b) == (
                    x as int,
                    y as int,
                    )) by {
                        if (a, b) != (x as int, y as int) {
                            assert(self.cell(a, b) == b0.cell(a, b));
                        }
                    }
                    assert forall|a: int, b: int| b0.in_bounds(a, b) && !self.revealed(a, b)
                        implies #[trigger] self.cell(a, b) == b0.cell(a, b) by {
                        if (a, b) != (x as int, y as int) {
                            assert(self.cell(a, b) == b0.cell(a, b));
                        }
                    }
                }
                if c.adjacency == 9 {
                    Ok(RevealResult::HitMine)
                } else if c.adjacency == 0 {
                    self.flood_fill(x, y, Ghost(b0));
                    proof {
                        lemma_wf_states_only(b0, *self);
                    }
                    Ok(RevealResult::Revealed(0))
                } else {
                    Ok(RevealResult::Revealed(c.adjacency))
                }
            },
        }
    }

    /// Reveals every mine, for end-of-game display; no other cell changes.
    pub fn reveal_all_mines(&mut self)
        requires
            old(self).wf(),
        ensures
            final(self).wf(),
            final(self).width == old(self).width,
            final(self).height == old(self).height,
            final(self).num_mines == old(self).num_mines,
            final(self).mines@ == old(self).mines@,
            forall|a: int, b: int| old(self).in_bounds(a, b)
                ==> (#[trigger] final(self).cell(a, b)).adjacency == old(self).cell(a, b).adjacency,
            forall|a: int, b: int| old(self).in_bounds(a, b)
                ==> ((#[trigger] final(self).revealed(a, b)) <==> old(self).revealed(a, b) || old(
                    self,
                ).is_mine(a, b)),
            forall|a: int, b: int| old(self).in_bounds(a, b) && !old(self).is_mine(a, b)
                ==> #[trigger] final(self).cell(a, b) == old(self).cell(a, b),
    {
        let w = self.width;
        let h = self.height;
        let mut y: usize = 0;
        while y < h
            invariant
                0 <= y <= h,
                w == self.width,
                h == self.height,
                self.width == old(self).width,
                self.height == old(self).height,
                self.num_mines == old(self).num_mines,
                self.mines@ == old(self).mines@,
                self.wf_dims(),
                old(self).wf(),
                count_mines(self.cells@) == count_mines(old(self).cells@),
                forall|a: int, b: int| old(self).in_bounds(a, b)
                    ==> (#[trigger] self.cell(a, b)).adjacency == old(self).cell(a, b).adjacency,
                forall|a: int, b: int| old(self).in_bounds(a, b) && !old(self).is_mine(a, b)
                    ==> #[trigger] self.cell(a, b) == old(self).cell(a, b),
                forall|a: int, b: int| old(self).in_bounds(a, b) && b >= y as int
                    ==> #[trigger] self.cell(a, b) == old(self).cell(a, b),
                forall|a: int, b: int| old(self).in_bounds(a, b) && b < y as int
                    ==> ((#[trigger] self.revealed(a, b)) <==> old(self).revealed(a, b) || old(
                        self,
                    ).is_mine(a, b)),
            decreases h - y,
        {
            let mut x: usize = 0;
            while x < w
                invariant
                    0 <= y < h,
                    0 <= x <= w,
                    w == self.width,
                    h == self.height,
                    self.width == old(self).width,
                    self.height == old(self).height,
                    self.num_mines == old(self).num_mines,
                    self.mines@ == old(self).mines@,
                    self.wf_dims(),
                    old(self).wf(),
                    count_mines(self.cells@) == count_mines(old(self).cells@),
                    forall|a: int, b: int| old(self).in_bounds(a, b)
                        ==> (#[trigger] self.cell(a, b)).adjacency == old(self).cell(
                            a,
                            b,
                        ).adjacency,
                    forall|a: int, b: int| old(self).in_bounds(a, b) && !old(self).is_mine(a, b)
                        ==> #[trigger] self.cell(a, b) == old(self).cell(a, b),
                    forall|a: int, b: int| old(self).in_bounds(a, b) && (b > y as int || (b
                        == y as int && a >= x as int)) ==> #[trigger] self.cell(a, b) == old(
                        self,
                    ).cell(a, b),
                    forall|a: int, b: int| old(self).in_bounds(a, b) && (b < y as int || (b
                        == y as int && a < x as int)) ==> ((#[trigger] self.revealed(a, b)) <==> old(
                        self,
                    ).revealed(a, b) || old(self).is_mine(a, b)),
                decreases w - x,
            {
                let n = self.cells.len();
                proof {
                    lemma_idx_bounds(w as int, h as int, x as int, y as int);
                }
                let i = x + y * w;
                let c = self.cells[i];
                let ghost prev = *self;
                if c.adjacency == 9 && c.state != CellState::Revealed {
                    let new_cell = Cell { state: CellState::Revealed, adjacency: 9 };
                    self.cells[i] = new_cell;
                    proof {
                        lemma_cell_update(prev, *self, x as int, y as int, new_cell);
                        lemma_count_where_update(prev.cells@, |cc: Cell| cell_is_mine(cc), i as int,
                            new_cell);
                        assert(prev.cell(x as int, y as int) == c);
                        assert(prev.cell(x as int, y as int) == old(self).cell(x as int, y as int));
                        assert(old(self).is_mine(x as int, y as int));
                        assert(self.revealed(x as int, y as int));
                    }
                } else {
                    proof {
                        assert(self.cell(x as int, y as int) == c);
                        assert(self.cell(x as int, y as int) == old(self).cell(x as int, y as int));
                    }
                }
                proof {
                    assert forall|a: int, b: int| old(self).in_bounds(a, b) && (b < y as int || (b
                        == y as int && a < x as int + 1)) implies ((#[trigger] self.revealed(a, b))
                        <==> old(self).revealed(a, b) || old(self).is_mine(a, b)) by {
                        if (a, b) != (x as int, y as int) {
                            assert(self.cell(a, b) == prev.cell(a, b));
                            assert(prev.revealed(a, b) <==> old(self).revealed(a, b) || old(
                                self,
                            ).is_mine(a, b));
                        }
                    }
                }
                x += 1;
            }
            y += 1;
        }
        proof {
            lemma_wf_states_only(*old(self), *self);
        }
    }

    /// Toggles the flag on the cell at `(x, y)`: a hidden cell becomes
    /// flagged, a flagged cell becomes hidden again, and a revealed cell is
    /// left alone with `Rejected`. Off-grid coordinates fail with
    /// `OutOfBounds`.
    pub fn flag(&mut self, x: usize, y: usize) -> (r: Result<FlagResult, GameError>)
        requires
            old(self).wf(),
        ensures
            final(self).wf(),
            flag_rel(*old(self), *final(self), x as int, y as int, r),
    {
        if x >= self.width || y >= self.height {
            return Err(GameError::OutOfBounds);
        }
        let n = self.cells.len();
        proof {
            lemma_idx_bounds(self.width as int, self.height as int, x as int, y as int);
        }
        let i = x + y * self.width;
        let c = self.cells[i];
        let (new_state, result) = match c.state {
            CellState::Revealed => {
                return Ok(FlagResult::Rejected);
            },
            CellState::Hidden => (CellState::Flagged, FlagResult::Flagged),
            CellState::Flagged => (CellState::Hidden, FlagResult::Unflagged),
        };
        let ghost b0 = *self;
        let new_cell = Cell { state: new_state, adjacency: c.adjacency };
        self.cells[i] = new_cell;
        proof {
            lemma_cell_update(b0, *self, x as int, y as int, new_cell);
            lemma_count_where_update(b0.cells@, |cc: Cell| cell_is_mine(cc), i as int, new_cell);
            lemma_wf_states_only(b0, *self);
            assert forall|a: int, b: int| b0.in_bounds(a, b) && (a, b) != (x as int, y as int)
                implies #[trigger] self.cell(a, b) == b0.cell(a, b) by {}
        }
        Ok(result)
    }
}

/// What a flag toggle at `(x, y)` does: off the grid it is rejected and
/// changes nothing; a revealed cell is left alone; otherwise the cell's
/// state toggles between hidden and flagged and every other cell keeps its
/// value.
pub open spec fn flag_rel(
    b0: Board,
    b1: Board,
    x: int,
    y: int,
    r: Result<FlagResult, GameError>,
) -> bool {
    if !b0.in_bounds(x, y) {
        &&& r == Err::<FlagResult, GameError>(GameError::OutOfBounds)
        &&& b1 == b0
    } else if b0.revealed(x, y) {
        &&& r == Ok::<FlagResult, GameError>(FlagResult::Rejected)
        &&& b1 == b0
    } else {
        &&& b1.width == b0.width
        &&& b1.height == b0.height
        &&& b1.num_mines == b0.num_mines
        &&& b1.mines@ == b0.mines@
        &&& b1.wf_dims()
        &&& (forall|a: int, b: int| b0.in_bounds(a, b) && (a, b) != (x, y)
                ==> #[trigger] b1.cell(a, b) == b0.cell(a, b))
        &&& b1.cell(x, y).adjacency == b0.cell(x, y).adjacency
        &&& (if b0.cell(x, y).state == CellState::Hidden {
            &&& r == Ok::<FlagResult, GameError>(FlagResult::Flagged)
            &&& b1.cell(x, y).state == CellState::Flagged
        } else {
            &&& r == Ok::<FlagResult, GameError>(FlagResult::Unflagged)
            &&& b1.cell(x, y).state == CellState::Hidden
        })
    }
}

} // verus!
