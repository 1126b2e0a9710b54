use vstd::prelude::*;
use vstd::pervasive::VecAdditionalExecFns;

use crate::cell::{Cell, CellState, CellType};

verus! {

/// Row-major flattened index of the cell at `(r, c)` in a grid with `cols`
/// columns.
pub open spec fn flat(cols: int, r: int, c: int) -> int {
    r * cols + c
}

/// Whether `(r, c)` names a cell of a `rows x cols` grid.
pub open spec fn in_bounds(rows: int, cols: int, r: int, c: int) -> bool {
    0 <= r < rows && 0 <= c < cols
}

/// Whether the cell at flattened index `i` holds a mine.
pub open spec fn is_mine(g: Seq<Cell>, i: int) -> bool {
    g[i].cell_type is Mine
}

/// Whether the cell at flattened index `i` has been revealed.
pub open spec fn vis(g: Seq<Cell>, i: int) -> bool {
    g[i].cell_state is Visible
}

/// 1 if `(r, c)` is an in-bounds mine cell, else 0: one summand of the
/// adjacent-mine count.
pub open spec fn mine_ind(g: Seq<Cell>, rows: int, cols: int, r: int, c: int) -> int {
    if in_bounds(rows, cols, r, c) && is_mine(g, flat(cols, r, c)) {
        1int
    } else {
        0int
    }
}

/// The exact number of mines among the up-to-8 neighbors of `(r, c)`
/// (rows +-1, cols +-1, diagonals included).
pub open spec fn adj_mines(g: Seq<Cell>, rows: int, cols: int, r: int, c: int) -> int {
    mine_ind(g, rows, cols, r - 1, c - 1) + mine_ind(g, rows, cols, r - 1, c) + mine_ind(
        g,
        rows,
        cols,
        r - 1,
        c + 1,
    ) + mine_ind(g, rows, cols, r, c - 1) + mine_ind(g, rows, cols, r, c + 1) + mine_ind(
        g,
        rows,
        cols,
        r + 1,
        c - 1,
    ) + mine_ind(g, rows, cols, r + 1, c) + mine_ind(g, rows, cols, r + 1, c + 1)
}

/// The content a non-mine cell must carry for an adjacent-mine count of `n`:
/// a count of zero collapses to `Empty`.
pub open spec fn count_to_type(n: int) -> CellType {
    if n == 0 {
        CellType::Empty
    } else {
        CellType::Number(n as usize)
    }
}

/// The generation invariant: every non-mine cell's content is exactly the
/// count of its 8-connected mine neighbors (zero shown as `Empty`).
pub open spec fn counts_correct(g: Seq<Cell>, rows: int, cols: int) -> bool {
    forall|r: int, c: int|
        in_bounds(rows, cols, r, c) && !is_mine(g, flat(cols, r, c)) ==> #[trigger] g[flat(
            cols,
            r,
            c,
        )].cell_type == count_to_type(adj_mines(g, rows, cols, r, c))
}

/// The mine cells of `g` are exactly the flattened positions listed in `ps`.
pub open spec fn mines_match(g: Seq<Cell>, ps: Seq<usize>) -> bool {
    forall|i: int| 0 <= i < g.len() ==> (#[trigger] is_mine(g, i) <==> ps.contains(i as usize))
}

/// Every cell of `g` is still hidden.
pub open spec fn all_hidden(g: Seq<Cell>) -> bool {
    forall|i: int| 0 <= i < g.len() ==> !(#[trigger] vis(g, i))
}

/// The set of flattened indices of `g`'s mine cells.
pub open spec fn mine_cells(g: Seq<Cell>) -> Set<int> {
    Set::new(|i: int| 0 <= i < g.len() && is_mine(g, i))
}

/// An in-bounds cell's flattened index lies within the grid.
pub proof fn lemma_flat_bound(rows: int, cols: int, r: int, c: int)
    requires
        in_bounds(rows, cols, r, c),
    ensures
        0 <= flat(cols, r, c) < rows * cols,
{
    assert(0 <= r * cols + c < rows * cols) by (nonlinear_arith)
        requires
            0 <= r < rows,
            0 <= c < cols,
    ;
}

/// Distinct in-bounds coordinates have distinct flattened indices.
pub proof fn lemma_flat_injective(cols: int, r1: int, c1: int, r2: int, c2: int)
    requires
        0 <= c1 < cols,
        0 <= c2 < cols,
        0 <= r1,
        0 <= r2,
        flat(cols, r1, c1) == flat(cols, r2, c2),
    ensures
        r1 == r2 && c1 == c2,
{
    assert(r1 == r2 && c1 == c2) by (nonlinear_arith)
        requires
            0 <= c1 < cols,
            0 <= c2 < cols,
            0 <= r1,
            0 <= r2,
            r1 * cols + c1 == r2 * cols + c2,
    ;
}

/// A grid whose mines sit exactly at a duplicate-free list of positions holds
/// exactly as many mines as the list has entries.
pub proof fn lemma_mine_count(g: Seq<Cell>, ps: Seq<usize>)
    requires
        mines_match(g, ps),
        ps.no_duplicates(),
        g.len() <= usize::MAX,
        forall|k: int| 0 <= k < ps.len() ==> (#[trigger] ps[k] as int) < g.len(),
    ensures
        mine_cells(g).finite(),
        mine_cells(g).len() == ps.len(),
{
    broadcast use vstd::seq_lib::seq_to_set_is_finite;

    let f = |p: usize| p as int;
    let psi = ps.map_values(f);
    assert(vstd::relations::injective(f));
    ps.lemma_no_duplicates_injective(f);
    assert(psi.to_set() =~= mine_cells(g)) by {
        assert forall|j: int| psi.to_set().contains(j) implies mine_cells(g).contains(j) by {
            let k = choose|k: int| 0 <= k < psi.len() && psi[k] == j;
            assert(ps.contains(ps[k]));
            assert(is_mine(g, j));
        }
        assert forall|j: int| mine_cells(g).contains(j) implies psi.to_set().contains(j) by {
            assert(is_mine(g, j));
            assert(ps.contains(j as usize));
            let k = choose|k: int| 0 <= k < ps.len() && ps[k] == j as usize;
            assert(psi[k] == (j as usize) as int);
            assert(psi.contains(j));
        }
    }
    psi.unique_seq_to_set();
}

/// Relies on rand::seq::index::sample: it returns exactly `amount` distinct
/// indices drawn uniformly without replacement from `0..length`, and panics
/// if `amount > length`. The draw is random, so nothing beyond the count,
/// the range and distinctness holds of any one outcome.
#[verifier::external_body]
pub(crate) fn sample_mine_positions(length: usize, amount: usize) -> (r: Vec<usize>)
    requires
        amount <= length,
    ensures
        r@.len() == amount,
        forall|k: int| 0 <= k < r@.len() ==> (#[trigger] r@[k]) < length,
        r@.no_duplicates(),
{
    let mut rng = rand::rng();
    rand::seq::index::sample(&mut rng, length, amount).into_vec()
}

/// Two grids with the same mines have the same adjacent-mine counts
/// everywhere.
proof fn lemma_adj_mines_same(g1: Seq<Cell>, g2: Seq<Cell>, rows: int, cols: int)
    requires
        g1.len() == rows * cols,
        g2.len() == rows * cols,
        forall|i: int| 0 <= i < g1.len() ==> (#[trigger] is_mine(g1, i) <==> is_mine(g2, i)),
    ensures
        forall|r: int, c: int|
            #[trigger] adj_mines(g1, rows, cols, r, c) == adj_mines(g2, rows, cols, r, c),
{
    assert forall|r: int, c: int| #[trigger] mine_ind(g1, rows, cols, r, c) == mine_ind(
        g2,
        rows,
        cols,
        r,
        c,
    ) by {
        if in_bounds(rows, cols, r, c) {
            lemma_flat_bound(rows, cols, r, c);
        }
    }
}

/// Counts the mines among the up-to-8 neighbors of `(r, c)`.
#[verifier::rlimit(50)]
fn count_adj(cells: &Vec<Cell>, x_cells: usize, y_cells: usize, r: usize, c: usize) -> (n: usize)
    requires
        cells@.len() == y_cells * x_cells,
        y_cells * x_cells <= usize::MAX,
        r < y_cells,
        c < x_cells,
    ensures
        n == adj_mines(cells@, y_cells as int, x_cells as int, r as int, c as int),
        n <= 8,
{
    let ghost rows = y_cells as int;
    let ghost cols = x_cells as int;
    let ghost m1 = mine_ind(cells@, rows, cols, r - 1, c - 1);
    let ghost m2 = mine_ind(cells@, rows, cols, r - 1, c as int);
    let ghost m3 = mine_ind(cells@, rows, cols, r - 1, c + 1);
    let ghost m4 = mine_ind(cells@, rows, cols, r as int, c - 1);
    let ghost m5 = mine_ind(cells@, rows, cols, r as int, c + 1);
    let ghost m6 = mine_ind(cells@, rows, cols, r + 1, c - 1);
    let ghost m7 = mine_ind(cells@, rows, cols, r + 1, c as int);
    let ghost m8 = mine_ind(cells@, rows, cols, r + 1, c + 1);
    let mut n: usize = 0;
    if r > 0 && c > 0 {
        proof {
            lemma_flat_bound(rows, cols, r - 1, c - 1);
        }
        if matches!(cells[(r - 1) * x_cells + (c - 1)].cell_type, CellType::Mine) {
            n = n + 1;
        }
    }
    assert(n == m1);
    if r > 0 {
        proof {
            lemma_flat_bound(rows, cols, r - 1, c as int);
        }
        if matches!(cells[(r - 1) * x_cells + c].cell_type, CellType::Mine) {
            n = n + 1;
        }
    }
    assert(n == m1 + m2);
    if r > 0 && c + 1 < x_cells {
        proof {
            lemma_flat_bound(rows, cols, r - 1, c + 1);
        }
        if matches!(cells[(r - 1) * x_cells + (c + 1)].cell_type, CellType::Mine) {
            n = n + 1;
        }
    }
    assert(n == m1 + m2 + m3);
    if c > 0 {
        proof {
            lemma_flat_bound(rows, cols, r as int, c - 1);
        }
        if matches!(cells[r * x_cells + (c - 1)].cell_type, CellType::Mine) {
            n = n + 1;
        }
    }
    assert(n == m1 + m2 + m3 + m4);
    if c + 1 < x_cells {
        proof {
            lemma_flat_bound(rows, cols, r as int, c + 1);
        }
        if matches!(cells[r * x_cells + (c + 1)].cell_type, CellType::Mine) {
            n = n + 1;
        }
    }
    assert(n == m1 + m2 + m3 + m4 + m5);
    if r + 1 < y_cells && c > 0 {
        proof {
            lemma_flat_bound(rows, cols, r + 1, c - 1);
        }
        if matches!(cells[(r + 1) * x_cells + (c - 1)].cell_type, CellType::Mine) {
            n = n + 1;
        }
    }
    assert(n == m1 + m2 + m3 + m4 + m5 + m6);
    if r + 1 < y_cells {
        proof {
            lemma_flat_bound(rows, cols, r + 1, c as int);
        }
        if matches!(cells[(r + 1) * x_cells + c].cell_type, CellType::Mine) {
            n = n + 1;
        }
    }
    assert(n == m1 + m2 + m3 + m4 + m5 + m6 + m7);
    if r + 1 < y_cells && c + 1 < x_cells {
        proof {
            lemma_flat_bound(rows, cols, r + 1, c + 1);
        }
        if matches!(cells[(r + 1) * x_cells + (c + 1)].cell_type, CellType::Mine) {
            n = n + 1;
        }
    }
    assert(n == m1 + m2 + m3 + m4 + m5 + m6 + m7 + m8);
    n
}

/// Builds the grid for the given flattened mine positions: mines at exactly
/// those cells, every other cell carrying its exact 8-neighbor mine count
/// (zero shown as `Empty`), and every cell hidden.
#[verifier::loop_isolation(false)]
pub fn build_cells(x_cells: usize, y_cells: usize, positions: &Vec<usize>) -> (cells: Vec<Cell>)
    requires
        0 < x_cells,
        0 < y_cells,
        y_cells * x_cells <= usize::MAX,
        forall|k: int|
            0 <= k < positions@.len() ==> (#[trigger] positions@[k] as int) < y_cells * x_cells,
    ensures
        cells@.len() == y_cells * x_cells,
        mines_match(cells@, positions@),
        counts_correct(cells@, y_cells as int, x_cells as int),
        all_hidden(cells@),
{
    let ghost rows = y_cells as int;
    let ghost cols = x_cells as int;
    let n = y_cells * x_cells;
    let mut cells: Vec<Cell> = Vec::new();
    while cells.len() < n
        invariant
            cells@.len() <= n,
            forall|i: int|
                0 <= i < cells@.len() ==> #[trigger] cells@[i] == (Cell {
                    cell_type: CellType::Empty,
                    cell_state: CellState::Hidden,
                }),
        decreases n - cells@.len(),
    {
        cells.push(Cell::new(CellType::Empty, CellState::Hidden));
    }

    let mut k: usize = 0;
    while k < positions.len()
        invariant
            cells@.len() == n,
            n == y_cells * x_cells,
            k <= positions@.len(),
            forall|k2: int|
                0 <= k2 < positions@.len() ==> (#[trigger] positions@[k2] as int) < n,
            forall|i: int|
                0 <= i < cells@.len() ==> (#[trigger] is_mine(cells@, i) <==> exists|j: int|
                    0 <= j < k && positions@[j] == i as usize),
            forall|i: int|
                0 <= i < cells@.len() && !is_mine(cells@, i) ==> (#[trigger] cells@[i]).cell_type
                    is Empty,
            forall|i: int| 0 <= i < cells@.len() ==> !(#[trigger] vis(cells@, i)),
        decreases positions@.len() - k,
    {
        let p = positions[k];
        let ghost before = cells@;
        cells.set(p, Cell::new(CellType::Mine, CellState::Hidden));
        proof {
            assert forall|i: int| 0 <= i < cells@.len() implies (#[trigger] is_mine(cells@, i)
                <==> exists|j: int| 0 <= j < k + 1 && positions@[j] == i as usize) by {
                if i == p as int {
                    assert(positions@[k as int] == i as usize);
                    assert(is_mine(cells@, i));
                } else {
                    assert(cells@[i] == before[i]);
                    assert(is_mine(cells@, i) <==> is_mine(before, i));
                    if is_mine(before, i) {
                        let j = choose|j: int| 0 <= j < k && positions@[j] == i as usize;
                        assert(0 <= j < k + 1 && positions@[j] == i as usize);
                    }
                    if exists|j: int| 0 <= j < k + 1 && positions@[j] == i as usize {
                        let j = choose|j: int| 0 <= j < k + 1 && positions@[j] == i as usize;
                        assert(positions@[k as int] == p);
                        assert(j < k);
                        assert(is_mine(before, i));
                    }
                }
            }
            assert forall|i: int| 0 <= i < cells@.len() implies !(#[trigger] vis(cells@, i)) by {
                assert(!vis(before, i));
                if i != p as int {
                    assert(cells@[i] == before[i]);
                }
            }
        }
        k = k + 1;
    }
    assert(mines_match(cells@, positions@));

    let ghost marked = cells@;
    let mut r: usize = 0;
    while r < y_cells
        invariant
            cells@.len() == n,
            n == y_cells * x_cells,
            r <= y_cells,
            marked.len() == n,
            forall|i: int| 0 <= i < n ==> (#[trigger] is_mine(cells@, i) <==> is_mine(marked, i)),
            forall|i: int|
                0 <= i < cells@.len() && !is_mine(cells@, i) && i >= r * cols ==> (
                #[trigger] cells@[i]).cell_type is Empty,
            forall|rr: int, cc: int|
                in_bounds(rows, cols, rr, cc) && rr < r && !is_mine(cells@, flat(cols, rr, cc))
                    ==> #[trigger] cells@[flat(cols, rr, cc)].cell_type == count_to_type(
                    adj_mines(cells@, rows, cols, rr, cc),
                ),
            forall|i: int| 0 <= i < cells@.len() ==> !(#[trigger] vis(cells@, i)),
        decreases y_cells - r,
    {
        let mut c: usize = 0;
        while c < x_cells
            invariant
                cells@.len() == n,
                n == y_cells * x_cells,
                r < y_cells,
                c <= x_cells,
                marked.len() == n,
                forall|i: int|
                    0 <= i < n ==> (#[trigger] is_mine(cells@, i) <==> is_mine(marked, i)),
                forall|i: int|
                    0 <= i < cells@.len() && !is_mine(cells@, i) && i >= r * cols + c ==> (
                    #[trigger] cells@[i]).cell_type is Empty,
                forall|rr: int, cc: int|
                    in_bounds(rows, cols, rr, cc) && (rr < r || (rr == r && cc < c)) && !is_mine(
                        cells@,
                        flat(cols, rr, cc),
                    ) ==> #[trigger] cells@[flat(cols, rr, cc)].cell_type == count_to_type(
                        adj_mines(cells@, rows, cols, rr, cc),
                    ),
                forall|i: int| 0 <= i < cells@.len() ==> !(#[trigger] vis(cells@, i)),
            decreases x_cells - c,
        {
            proof {
                lemma_flat_bound(rows, cols, r as int, c as int);
            }
            let i = r * x_cells + c;
            let cnt = count_adj(&cells, x_cells, y_cells, r, c);
            let is_mine_here = matches!(cells[i].cell_type, CellType::Mine);
            if !is_mine_here {
                let ghost before = cells@;
                let t = if cnt == 0 {
                    CellType::Empty
                } else {
                    CellType::Number(cnt)
                };
                cells.set(i, Cell::new(t, CellState::Hidden));
                proof {
                    assert forall|i2: int| 0 <= i2 < n implies (#[trigger] is_mine(cells@, i2)
                        <==> is_mine(marked, i2)) by {
                        assert(is_mine(before, i2) <==> is_mine(marked, i2));
                        if i2 != i as int {
                            assert(cells@[i2] == before[i2]);
                        }
                    }
                    assert forall|i2: int| 0 <= i2 < cells@.len() implies !(#[trigger] vis(
                        cells@,
                        i2,
                    )) by {
                        assert(!vis(before, i2));
                        if i2 != i as int {
                            assert(cells@[i2] == before[i2]);
                        }
                    }
                    lemma_adj_mines_same(before, cells@, rows, cols);
                    assert forall|rr: int, cc: int|
                        in_bounds(rows, cols, rr, cc) && (rr < r || (rr == r && cc < c + 1))
                            && !is_mine(cells@, flat(cols, rr, cc)) implies #[trigger] cells@[flat(
                        cols,
                        rr,
                        cc,
                    )].cell_type == count_to_type(adj_mines(cells@, rows, cols, rr, cc)) by {
                        lemma_flat_bound(rows, cols, rr, cc);
                        if flat(cols, rr, cc) != i as int {
                            assert(cells@[flat(cols, rr, cc)] == before[flat(cols, rr, cc)]);
                        } else {
                            lemma_flat_injective(cols, rr, cc, r as int, c as int);
                        }
                    }
                    assert forall|i2: int|
                        0 <= i2 < cells@.len() && !is_mine(cells@, i2) && i2 >= r * cols + c + 1
                            implies (#[trigger] cells@[i2]).cell_type is Empty by {
                        assert(cells@[i2] == before[i2]);
                    }
                }
            } else {
                proof {
                    assert forall|rr: int, cc: int|
                        in_bounds(rows, cols, rr, cc) && (rr < r || (rr == r && cc < c + 1))
                            && !is_mine(cells@, flat(cols, rr, cc)) implies #[trigger] cells@[flat(
                        cols,
                        rr,
                        cc,
                    )].cell_type == count_to_type(adj_mines(cells@, rows, cols, rr, cc)) by {
                        if rr == r && cc == c {
                            lemma_flat_bound(rows, cols, rr, cc);
                        }
                    }
                }
            }
            c = c + 1;
        }
        proof {
            assert forall|i: int|
                0 <= i < cells@.len() && !is_mine(cells@, i) && i >= (r + 1) * cols implies (
            #[trigger] cells@[i]).cell_type is Empty by {
                assert((r + 1) * cols == r * cols + cols) by (nonlinear_arith);
            }
            assert forall|rr: int, cc: int|
                in_bounds(rows, cols, rr, cc) && rr < r + 1 && !is_mine(cells@, flat(cols, rr, cc))
                    implies #[trigger] cells@[flat(cols, rr, cc)].cell_type == count_to_type(
                adj_mines(cells@, rows, cols, rr, cc),
            ) by {}
        }
        r = r + 1;
    }
    assert(counts_correct(cells@, rows, cols));
    cells
}

} // verus!
