use vstd::prelude::*;
use vstd::arithmetic::div_mod::lemma_fundamental_div_mod_converse;
use vstd::pervasive::VecAdditionalExecFns;

use crate::cell::{Cell, CellState, CellType};
use crate::grid::{
    all_hidden, build_cells, counts_correct, flat, in_bounds, lemma_flat_bound,
    lemma_flat_injective, lemma_mine_count, mine_cells, mines_match, sample_mine_positions, vis,
};
use crate::reach::{
    adj4, empty_at, flood_blocked, flood_visible, lemma_reach_in_closed_set,
    lemma_reaches_self, lemma_reaches_step, mine_at, number_at, reaches,
};

verus! {

/// A queue entry as a pair of mathematical integers.
spec fn pair_int(p: (usize, usize)) -> (int, int) {
    (p.0 as int, p.1 as int)
}

/// The flattened index of an integer coordinate pair.
spec fn fof(cols: int, p: (int, int)) -> int {
    flat(cols, p.0, p.1)
}

/// Whether `p` occurs among the queue entries with index in `[lo, hi)`.
spec fn in_q(queue: Seq<(usize, usize)>, lo: int, hi: int, p: (int, int)) -> bool {
    exists|k: int| lo <= k < hi && pair_int(#[trigger] queue[k]) == p
}

/// The flood-fill loop invariant. `g0` is the grid as the flood began, `g`
/// the current grid, `s` the start cell; entries of `queue` below `h` have
/// been dequeued. Every visible cell was visible before the flood or is
/// justified by a dequeued entry; the converse direction — everything
/// dequeued has taken effect — is `processed_closed`.
spec fn bfs_inv(
    g0: Seq<Cell>,
    rows: int,
    cols: int,
    s: (int, int),
    g: Seq<Cell>,
    visited: Seq<bool>,
    queue: Seq<(usize, usize)>,
    h: int,
) -> bool {
    &&& g.len() == rows * cols
    &&& g0.len() == rows * cols
    &&& visited.len() == rows * cols
    &&& 0 <= h <= queue.len()
    &&& queue.len() <= rows * cols
    &&& queue.len() >= 1
    &&& pair_int(queue[0]) == s
    &&& forall|i: int| 0 <= i < g.len() ==> #[trigger] g[i].cell_type == g0[i].cell_type
    &&& forall|i: int| 0 <= i < g.len() && vis(g0, i) ==> #[trigger] vis(g, i)
    &&& forall|k: int|
        0 <= k < queue.len() ==> {
            &&& empty_at(g0, rows, cols, pair_int(#[trigger] queue[k]))
            &&& reaches(g0, rows, cols, s, pair_int(queue[k]))
            &&& visited[fof(cols, pair_int(queue[k]))]
        }
    &&& forall|k1: int, k2: int|
        0 <= k1 < k2 < queue.len() ==> pair_int(#[trigger] queue[k1]) != pair_int(
            #[trigger] queue[k2],
        )
    &&& forall|i: int|
        0 <= i < visited.len() && #[trigger] visited[i] ==> exists|k: int|
            0 <= k < queue.len() && fof(cols, pair_int(#[trigger] queue[k])) == i
    &&& forall|r2: int, c2: int|
        in_bounds(rows, cols, r2, c2) && #[trigger] vis(g, flat(cols, r2, c2)) ==> {
            ||| vis(g0, flat(cols, r2, c2))
            ||| in_q(queue, 0, h, (r2, c2))
            ||| (g0[flat(cols, r2, c2)].cell_type is Number && exists|k: int|
                0 <= k < h && adj4(pair_int(#[trigger] queue[k]), (r2, c2)))
        }
}

/// The neighborhood of `nb` is settled with respect to the flood: it is no
/// mine, an empty `nb` is enqueued, a number `nb` is visible. Out-of-bounds
/// coordinates are trivially settled.
spec fn nb_settled(
    g0: Seq<Cell>,
    rows: int,
    cols: int,
    g: Seq<Cell>,
    visited: Seq<bool>,
    nb: (int, int),
) -> bool {
    in_bounds(rows, cols, nb.0, nb.1) ==> {
        &&& !(g0[flat(cols, nb.0, nb.1)].cell_type is Mine)
        &&& (g0[flat(cols, nb.0, nb.1)].cell_type is Empty ==> visited[flat(cols, nb.0, nb.1)])
        &&& (g0[flat(cols, nb.0, nb.1)].cell_type is Number ==> vis(g, flat(cols, nb.0, nb.1)))
    }
}

/// The dequeued entries have taken full effect: each is visible, none
/// borders a mine, their empty neighbors are enqueued and their number
/// neighbors are visible.
spec fn processed_closed(
    g0: Seq<Cell>,
    rows: int,
    cols: int,
    g: Seq<Cell>,
    visited: Seq<bool>,
    queue: Seq<(usize, usize)>,
    h: int,
) -> bool {
    &&& forall|k: int| 0 <= k < h ==> vis(g, fof(cols, pair_int(#[trigger] queue[k])))
    &&& forall|k: int, nb: (int, int)|
        #![trigger adj4(pair_int(queue[k]), nb)]
        0 <= k < h && adj4(pair_int(queue[k]), nb) ==> nb_settled(g0, rows, cols, g, visited, nb)
}

/// Settledness survives growing visibility and visited flags.
proof fn lemma_settled_monotone(
    g0: Seq<Cell>,
    rows: int,
    cols: int,
    g1: Seq<Cell>,
    g2: Seq<Cell>,
    v1: Seq<bool>,
    v2: Seq<bool>,
    nb: (int, int),
)
    requires
        nb_settled(g0, rows, cols, g1, v1, nb),
        g1.len() == rows * cols,
        v1.len() == rows * cols,
        g2.len() == g1.len(),
        v2.len() == v1.len(),
        forall|i: int| 0 <= i < g1.len() && vis(g1, i) ==> #[trigger] vis(g2, i),
        forall|i: int| 0 <= i < v1.len() && #[trigger] v1[i] ==> v2[i],
    ensures
        nb_settled(g0, rows, cols, g2, v2, nb),
{
    if in_bounds(rows, cols, nb.0, nb.1) {
        lemma_flat_bound(rows, cols, nb.0, nb.1);
    }
}

/// A queue of pairwise-distinct in-bounds coordinates can hold at most one
/// entry per cell.
proof fn lemma_queue_len_bound(queue: Seq<(usize, usize)>, rows: int, cols: int)
    requires
        forall|k: int|
            0 <= k < queue.len() ==> in_bounds(
                rows,
                cols,
                pair_int(#[trigger] queue[k]).0,
                pair_int(queue[k]).1,
            ),
        forall|k1: int, k2: int|
            0 <= k1 < k2 < queue.len() ==> pair_int(#[trigger] queue[k1]) != pair_int(
                #[trigger] queue[k2],
            ),
        0 <= rows * cols,
    ensures
        queue.len() <= rows * cols,
{
    let f = |p: (usize, usize)| flat(cols, p.0 as int, p.1 as int);
    let fl = queue.map_values(f);
    assert forall|k1: int, k2: int|
        0 <= k1 < fl.len() && 0 <= k2 < fl.len() && k1 != k2 implies fl[k1] != fl[k2] by {
        let p1 = pair_int(queue[k1]);
        let p2 = pair_int(queue[k2]);
        if fl[k1] == fl[k2] {
            lemma_flat_injective(cols, p1.0, p1.1, p2.0, p2.1);
        }
    }
    assert(fl.no_duplicates());
    fl.unique_seq_to_set();
    let rng = vstd::set_lib::set_int_range(0, rows * cols);
    vstd::set_lib::lemma_int_range(0, rows * cols);
    assert forall|j: int| fl.to_set().contains(j) implies rng.contains(j) by {
        let k = choose|k: int| 0 <= k < fl.len() && fl[k] == j;
        let p = pair_int(queue[k]);
        lemma_flat_bound(rows, cols, p.0, p.1);
    }
    vstd::set_lib::lemma_len_subset(fl.to_set(), rng);
}

/// While the flood invariant holds, every visible cell was either visible
/// before the flood or lies in the flood closure of the start cell.
proof fn lemma_inv_vis_subset(
    g0: Seq<Cell>,
    rows: int,
    cols: int,
    s: (int, int),
    g: Seq<Cell>,
    visited: Seq<bool>,
    queue: Seq<(usize, usize)>,
    h: int,
)
    requires
        bfs_inv(g0, rows, cols, s, g, visited, queue, h),
    ensures
        forall|r2: int, c2: int|
            in_bounds(rows, cols, r2, c2) && #[trigger] vis(g, flat(cols, r2, c2)) ==> vis(
                g0,
                flat(cols, r2, c2),
            ) || flood_visible(g0, rows, cols, s, (r2, c2)),
{
    assert forall|r2: int, c2: int|
        in_bounds(rows, cols, r2, c2) && #[trigger] vis(g, flat(cols, r2, c2)) implies vis(
        g0,
        flat(cols, r2, c2),
    ) || flood_visible(g0, rows, cols, s, (r2, c2)) by {
        if !vis(g0, flat(cols, r2, c2)) {
            if in_q(queue, 0, h, (r2, c2)) {
                let k = choose|k: int| 0 <= k < h && pair_int(queue[k]) == (r2, c2);
                assert(reaches(g0, rows, cols, s, pair_int(queue[k])));
            } else {
                let k = choose|k: int| 0 <= k < h && adj4(pair_int(#[trigger] queue[k]), (r2, c2));
                assert(reaches(g0, rows, cols, s, pair_int(queue[k])));
                assert(flood_visible(g0, rows, cols, s, (r2, c2)));
            }
        }
    }
}

/// A vector of `n` cleared flags.
fn falses(n: usize) -> (v: Vec<bool>)
    ensures
        v@.len() == n,
        forall|i: int| 0 <= i < n ==> !(#[trigger] v@[i]),
{
    let mut v: Vec<bool> = Vec::new();
    while v.len() < n
        invariant
            v@.len() <= n,
            forall|i: int| 0 <= i < v@.len() ==> !(#[trigger] v@[i]),
        decreases n - v@.len(),
    {
        v.push(false);
    }
    v
}

/// Handles one 4-neighbor `(nr, nc)` of the just-dequeued cell `queue[h - 1]`:
/// a mine neighbor is the fatal fault, a number neighbor is made visible, an
/// empty neighbor is enqueued once.
#[verifier::loop_isolation(false)]
fn visit_neighbor(
    cells: &mut Vec<Cell>,
    visited: &mut Vec<bool>,
    queue: &mut Vec<(usize, usize)>,
    x_cells: usize,
    y_cells: usize,
    nr: usize,
    nc: usize,
    Ghost(g0): Ghost<Seq<Cell>>,
    Ghost(s): Ghost<(int, int)>,
    Ghost(h): Ghost<int>,
) -> (r: Result<(), FloodFault>)
    requires
        bfs_inv(
            g0,
            y_cells as int,
            x_cells as int,
            s,
            old(cells)@,
            old(visited)@,
            old(queue)@,
            h,
        ),
        processed_closed(
            g0,
            y_cells as int,
            x_cells as int,
            old(cells)@,
            old(visited)@,
            old(queue)@,
            h - 1,
        ),
        1 <= h <= old(queue)@.len(),
        y_cells * x_cells <= usize::MAX,
        nr < y_cells,
        nc < x_cells,
        adj4(pair_int(old(queue)@[h - 1]), (nr as int, nc as int)),
    ensures
        bfs_inv(
            g0,
            y_cells as int,
            x_cells as int,
            s,
            final(cells)@,
            final(visited)@,
            final(queue)@,
            h,
        ),
        processed_closed(
            g0,
            y_cells as int,
            x_cells as int,
            final(cells)@,
            final(visited)@,
            final(queue)@,
            h - 1,
        ),
        final(queue)@.len() >= old(queue)@.len(),
        forall|k: int| 0 <= k < old(queue)@.len() ==> final(queue)@[k] == #[trigger] old(queue)@[k],
        forall|i: int|
            0 <= i < old(visited)@.len() && #[trigger] old(visited)@[i] ==> final(visited)@[i],
        forall|i: int|
            0 <= i < old(cells)@.len() && vis(old(cells)@, i) ==> #[trigger] vis(final(cells)@, i),
        match r {
            Ok(_) => nb_settled(
                g0,
                y_cells as int,
                x_cells as int,
                final(cells)@,
                final(visited)@,
                (nr as int, nc as int),
            ),
            Err(_) => flood_blocked(g0, y_cells as int, x_cells as int, s),
        },
{
    let ghost rows = y_cells as int;
    let ghost cols = x_cells as int;
    let ghost np = (nr as int, nc as int);
    let ghost cur = pair_int(queue@[h - 1]);
    proof {
        lemma_flat_bound(rows, cols, nr as int, nc as int);
    }
    let ni = nr * x_cells + nc;
    let t = cells[ni].cell_type;
    match t {
        CellType::Mine => {
            proof {
                assert(reaches(g0, rows, cols, s, cur));
                assert(mine_at(g0, rows, cols, np));
                assert(flood_blocked(g0, rows, cols, s));
            }
            Err(FloodFault)
        },
        CellType::Number(_) => {
            let ghost before = cells@;
            cells.set(ni, Cell::new(t, CellState::Visible));
            proof {
                assert(number_at(g0, rows, cols, np));
                assert forall|i: int| 0 <= i < cells@.len() && vis(before, i) implies #[trigger] vis(
                    cells@,
                    i,
                ) by {
                    if i != ni as int {
                        assert(cells@[i] == before[i]);
                    }
                }
                assert forall|i: int| 0 <= i < cells@.len() implies #[trigger] cells@[i].cell_type
                    == g0[i].cell_type by {
                    if i != ni as int {
                        assert(cells@[i] == before[i]);
                    }
                    assert(before[i].cell_type == g0[i].cell_type);
                }
                assert forall|i: int| 0 <= i < cells@.len() && vis(g0, i) implies #[trigger] vis(
                    cells@,
                    i,
                ) by {
                    assert(vis(before, i));
                    if i != ni as int {
                        assert(cells@[i] == before[i]);
                    }
                }
                assert forall|r2: int, c2: int|
                    in_bounds(rows, cols, r2, c2) && #[trigger] vis(cells@, flat(cols, r2, c2))
                    implies {
                    ||| vis(g0, flat(cols, r2, c2))
                    ||| in_q(queue@, 0, h, (r2, c2))
                    ||| (g0[flat(cols, r2, c2)].cell_type is Number && exists|k: int|
                        0 <= k < h && adj4(pair_int(#[trigger] queue@[k]), (r2, c2)))
                } by {
                    lemma_flat_bound(rows, cols, r2, c2);
                    if flat(cols, r2, c2) == ni as int {
                        lemma_flat_injective(cols, r2, c2, nr as int, nc as int);
                        assert(adj4(pair_int(queue@[h - 1]), (r2, c2)));
                    } else {
                        assert(cells@[flat(cols, r2, c2)] == before[flat(cols, r2, c2)]);
                        assert(vis(before, flat(cols, r2, c2)));
                    }
                }
                assert forall|k: int| 0 <= k < h - 1 implies vis(
                    cells@,
                    fof(cols, pair_int(#[trigger] queue@[k])),
                ) by {
                    assert(vis(before, fof(cols, pair_int(queue@[k]))));
                    lemma_flat_bound(rows, cols, pair_int(queue@[k]).0, pair_int(queue@[k]).1);
                    if fof(cols, pair_int(queue@[k])) != ni as int {
                        assert(cells@[fof(cols, pair_int(queue@[k]))] == before[fof(
                            cols,
                            pair_int(queue@[k]),
                        )]);
                    }
                }
                assert forall|k: int, nb: (int, int)|
                    #![trigger adj4(pair_int(queue@[k]), nb)]
                    0 <= k < h - 1 && adj4(pair_int(queue@[k]), nb) implies nb_settled(
                    g0,
                    rows,
                    cols,
                    cells@,
                    visited@,
                    nb,
                ) by {
                    assert(nb_settled(g0, rows, cols, before, visited@, nb));
                    lemma_settled_monotone(g0, rows, cols, before, cells@, visited@, visited@, nb);
                }
            }
            Ok(())
        },
        CellType::Empty => {
            proof {
                assert(empty_at(g0, rows, cols, np));
            }
            if !visited[ni] {
                let ghost old_q = queue@;
                let ghost old_v = visited@;
                visited.set(ni, true);
                queue.push((nr, nc));
                proof {
                    lemma_reaches_step(g0, rows, cols, s, cur, np);
                    assert(pair_int(queue@[old_q.len() as int]) == np);
                    // an entry for `np` cannot be in the queue already: its flag was clear
                    assert forall|k1: int, k2: int|
                        0 <= k1 < k2 < queue@.len() implies pair_int(#[trigger] queue@[k1])
                        != pair_int(#[trigger] queue@[k2]) by {
                        if k2 == old_q.len() {
                            if pair_int(queue@[k1]) == np {
                                assert(old_v[fof(cols, pair_int(old_q[k1]))]);
                            }
                        }
                    }
                    lemma_queue_len_bound(queue@, rows, cols);
                    assert forall|k: int| 0 <= k < queue@.len() implies {
                        &&& empty_at(g0, rows, cols, pair_int(#[trigger] queue@[k]))
                        &&& reaches(g0, rows, cols, s, pair_int(queue@[k]))
                        &&& visited@[fof(cols, pair_int(queue@[k]))]
                    } by {
                        if k < old_q.len() {
                            assert(queue@[k] == old_q[k]);
                            assert(old_v[fof(cols, pair_int(old_q[k]))]);
                            lemma_flat_bound(
                                rows,
                                cols,
                                pair_int(old_q[k]).0,
                                pair_int(old_q[k]).1,
                            );
                            if fof(cols, pair_int(old_q[k])) != ni as int {
                                assert(visited@[fof(cols, pair_int(old_q[k]))] == old_v[fof(
                                    cols,
                                    pair_int(old_q[k]),
                                )]);
                            }
                        } else {
                            assert(queue@[k] == (nr, nc));
                            assert(visited@[ni as int]);
                        }
                    }
                    assert forall|k: int| 0 <= k < h - 1 implies vis(
                        cells@,
                        fof(cols, pair_int(#[trigger] queue@[k])),
                    ) by {
                        assert(queue@[k] == old_q[k]);
                        assert(vis(cells@, fof(cols, pair_int(old_q[k]))));
                    }
                    assert forall|k: int, nb: (int, int)|
                        #![trigger adj4(pair_int(queue@[k]), nb)]
                        0 <= k < h - 1 && adj4(pair_int(queue@[k]), nb) implies nb_settled(
                        g0,
                        rows,
                        cols,
                        cells@,
                        visited@,
                        nb,
                    ) by {
                        assert(queue@[k] == old_q[k]);
                        assert(adj4(pair_int(old_q[k]), nb));
                        assert(nb_settled(g0, rows, cols, cells@, old_v, nb));
                        lemma_settled_monotone(
                            g0,
                            rows,
                            cols,
                            cells@,
                            cells@,
                            old_v,
                            visited@,
                            nb,
                        );
                    }
                    assert forall|i: int|
                        0 <= i < visited@.len() && #[trigger] visited@[i] implies exists|k: int|
                        0 <= k < queue@.len() && fof(cols, pair_int(#[trigger] queue@[k])) == i by {
                        if i == ni as int {
                            assert(fof(cols, pair_int(queue@[old_q.len() as int])) == i);
                        } else {
                            assert(old_v[i]);
                            let k = choose|k: int|
                                0 <= k < old_q.len() && fof(cols, pair_int(#[trigger] old_q[k]))
                                    == i;
                            assert(fof(cols, pair_int(queue@[k])) == i);
                        }
                    }
                    assert forall|r2: int, c2: int|
                        in_bounds(rows, cols, r2, c2) && #[trigger] vis(cells@, flat(cols, r2, c2))
                        implies {
                        ||| vis(g0, flat(cols, r2, c2))
                        ||| in_q(queue@, 0, h, (r2, c2))
                        ||| (g0[flat(cols, r2, c2)].cell_type is Number && exists|k: int|
                            0 <= k < h && adj4(pair_int(#[trigger] queue@[k]), (r2, c2)))
                    } by {
                        if in_q(old_q, 0, h, (r2, c2)) {
                            let k = choose|k: int|
                                0 <= k < h && pair_int(#[trigger] old_q[k]) == (r2, c2);
                            assert(pair_int(queue@[k]) == (r2, c2));
                        }
                        if exists|k: int|
                            0 <= k < h && adj4(pair_int(#[trigger] old_q[k]), (r2, c2)) {
                            let k = choose|k: int|
                                0 <= k < h && adj4(pair_int(#[trigger] old_q[k]), (r2, c2));
                            assert(adj4(pair_int(queue@[k]), (r2, c2)));
                        }
                    }
                }
            }
            Ok(())
        },
    }
}

/// One flood-fill iteration: dequeues `queue[head]`, marks it visible, and
/// settles its four neighbors.
#[verifier::loop_isolation(false)]
#[verifier::rlimit(100)]
#[verifier::spinoff_prover]
fn flood_step(
    cells: &mut Vec<Cell>,
    visited: &mut Vec<bool>,
    queue: &mut Vec<(usize, usize)>,
    x_cells: usize,
    y_cells: usize,
    head: usize,
    Ghost(g0): Ghost<Seq<Cell>>,
    Ghost(s): Ghost<(int, int)>,
) -> (r: Result<(), FloodFault>)
    requires
        bfs_inv(
            g0,
            y_cells as int,
            x_cells as int,
            s,
            old(cells)@,
            old(visited)@,
            old(queue)@,
            head as int,
        ),
        processed_closed(
            g0,
            y_cells as int,
            x_cells as int,
            old(cells)@,
            old(visited)@,
            old(queue)@,
            head as int,
        ),
        (head as int) < old(queue)@.len(),
        y_cells * x_cells <= usize::MAX,
    ensures
        bfs_inv(
            g0,
            y_cells as int,
            x_cells as int,
            s,
            final(cells)@,
            final(visited)@,
            final(queue)@,
            head as int + 1,
        ),
        r is Ok ==> processed_closed(
            g0,
            y_cells as int,
            x_cells as int,
            final(cells)@,
            final(visited)@,
            final(queue)@,
            head as int + 1,
        ),
        r is Err ==> flood_blocked(g0, y_cells as int, x_cells as int, s),
{
    let ghost rows = y_cells as int;
    let ghost cols = x_cells as int;
    let pos = queue[head];
    let pr = pos.0;
    let pc = pos.1;
    proof {
        assert(empty_at(g0, rows, cols, pair_int(queue@[head as int])));
        lemma_flat_bound(rows, cols, pr as int, pc as int);
    }
    let pos_i = pr * x_cells + pc;
    let ghost before = cells@;
    let tcur = cells[pos_i].cell_type;
    cells.set(pos_i, Cell::new(tcur, CellState::Visible));
    proof {
        assert forall|i2: int|
            0 <= i2 < cells@.len() && vis(before, i2) implies #[trigger] vis(
            cells@,
            i2,
        ) by {
            if i2 != pos_i as int {
                assert(cells@[i2] == before[i2]);
            }
        }
        assert forall|i2: int| 0 <= i2 < cells@.len() implies #[trigger] cells@[
            i2
        ].cell_type == g0[i2].cell_type by {
            if i2 != pos_i as int {
                assert(cells@[i2] == before[i2]);
            }
            assert(before[i2].cell_type == g0[i2].cell_type);
        }
        assert forall|i2: int|
            0 <= i2 < cells@.len() && vis(g0, i2) implies #[trigger] vis(
            cells@,
            i2,
        ) by {
            assert(vis(before, i2));
            if i2 != pos_i as int {
                assert(cells@[i2] == before[i2]);
            }
        }
        assert forall|r2: int, c2: int|
            in_bounds(rows, cols, r2, c2) && #[trigger] vis(
                cells@,
                flat(cols, r2, c2),
            ) implies {
            ||| vis(g0, flat(cols, r2, c2))
            ||| in_q(queue@, 0, head as int + 1, (r2, c2))
            ||| (g0[flat(cols, r2, c2)].cell_type is Number && exists|k: int|
                0 <= k < head as int + 1 && adj4(pair_int(#[trigger] queue@[k]), (r2, c2)))
        } by {
            lemma_flat_bound(rows, cols, r2, c2);
            if flat(cols, r2, c2) == pos_i as int {
                lemma_flat_injective(cols, r2, c2, pr as int, pc as int);
                assert(pair_int(queue@[head as int]) == (r2, c2));
            } else {
                assert(cells@[flat(cols, r2, c2)] == before[flat(cols, r2, c2)]);
                assert(vis(before, flat(cols, r2, c2)));
                if in_q(queue@, 0, head as int, (r2, c2)) {
                    let k = choose|k: int|
                        0 <= k < head as int && pair_int(#[trigger] queue@[k]) == (r2, c2);
                    assert(0 <= k < head as int + 1 && pair_int(queue@[k]) == (r2, c2));
                }
                if exists|k: int|
                    0 <= k < head as int && adj4(pair_int(#[trigger] queue@[k]), (r2, c2)) {
                    let k = choose|k: int|
                        0 <= k < head as int && adj4(
                            pair_int(#[trigger] queue@[k]),
                            (r2, c2),
                        );
                    assert(0 <= k < head as int + 1 && adj4(
                        pair_int(queue@[k]),
                        (r2, c2),
                    ));
                }
            }
        }
        assert forall|k: int| 0 <= k < head as int implies vis(
            cells@,
            fof(cols, pair_int(#[trigger] queue@[k])),
        ) by {
            assert(vis(before, fof(cols, pair_int(queue@[k]))));
            assert(empty_at(g0, rows, cols, pair_int(queue@[k])));
            lemma_flat_bound(rows, cols, pair_int(queue@[k]).0, pair_int(queue@[k]).1);
            if fof(cols, pair_int(queue@[k])) != pos_i as int {
                assert(cells@[fof(cols, pair_int(queue@[k]))] == before[fof(
                    cols,
                    pair_int(queue@[k]),
                )]);
            }
        }
        assert forall|k: int, nb: (int, int)|
            #![trigger adj4(pair_int(queue@[k]), nb)]
            0 <= k < head as int && adj4(pair_int(queue@[k]), nb) implies nb_settled(
            g0,
            rows,
            cols,
            cells@,
            visited@,
            nb,
        ) by {
            assert(nb_settled(g0, rows, cols, before, visited@, nb));
            lemma_settled_monotone(
                g0,
                rows,
                cols,
                before,
                cells@,
                visited@,
                visited@,
                nb,
            );
        }
        assert(bfs_inv(g0, rows, cols, s, cells@, visited@, queue@, head as int + 1));
        assert(vis(cells@, pos_i as int));
    }
    let ghost nb_up = (pr as int - 1, pc as int);
    let ghost nb_down = (pr as int + 1, pc as int);
    let ghost nb_left = (pr as int, pc as int - 1);
    let ghost nb_right = (pr as int, pc as int + 1);
    if pr > 0 {
        let r1 = visit_neighbor(
            &mut *cells,
            &mut *visited,
            &mut *queue,
            x_cells,
            y_cells,
            pr - 1,
            pc,
            Ghost(g0),
            Ghost(s),
            Ghost(head as int + 1),
        );
        if r1.is_err() {
            return Err(FloodFault);
        }
    }
    proof {
        assert(nb_settled(g0, rows, cols, cells@, visited@, nb_up));
        assert(vis(cells@, pos_i as int));
        assert(queue@[head as int] == pos);
    }
    if pr + 1 < y_cells {
        let ghost s1_cells = cells@;
        let ghost s1_vis = visited@;
        let r2c = visit_neighbor(
            &mut *cells,
            &mut *visited,
            &mut *queue,
            x_cells,
            y_cells,
            pr + 1,
            pc,
            Ghost(g0),
            Ghost(s),
            Ghost(head as int + 1),
        );
        proof {
            lemma_settled_monotone(
                g0,
                rows,
                cols,
                s1_cells,
                cells@,
                s1_vis,
                visited@,
                nb_up,
            );
        }
        if r2c.is_err() {
            return Err(FloodFault);
        }
    }
    proof {
        assert(nb_settled(g0, rows, cols, cells@, visited@, nb_up));
        assert(nb_settled(g0, rows, cols, cells@, visited@, nb_down));
        assert(vis(cells@, pos_i as int));
        assert(queue@[head as int] == pos);
    }
    if pc > 0 {
        let ghost s2_cells = cells@;
        let ghost s2_vis = visited@;
        let r3 = visit_neighbor(
            &mut *cells,
            &mut *visited,
            &mut *queue,
            x_cells,
            y_cells,
            pr,
            pc - 1,
            Ghost(g0),
            Ghost(s),
            Ghost(head as int + 1),
        );
        proof {
            lemma_settled_monotone(
                g0,
                rows,
                cols,
                s2_cells,
                cells@,
                s2_vis,
                visited@,
                nb_up,
            );
            lemma_settled_monotone(
                g0,
                rows,
                cols,
                s2_cells,
                cells@,
                s2_vis,
                visited@,
                nb_down,
            );
        }
        if r3.is_err() {
            return Err(FloodFault);
        }
    }
    proof {
        assert(nb_settled(g0, rows, cols, cells@, visited@, nb_up));
        assert(nb_settled(g0, rows, cols, cells@, visited@, nb_down));
        assert(nb_settled(g0, rows, cols, cells@, visited@, nb_left));
        assert(vis(cells@, pos_i as int));
        assert(queue@[head as int] == pos);
    }
    if pc + 1 < x_cells {
        let ghost s3_cells = cells@;
        let ghost s3_vis = visited@;
        let r4 = visit_neighbor(
            &mut *cells,
            &mut *visited,
            &mut *queue,
            x_cells,
            y_cells,
            pr,
            pc + 1,
            Ghost(g0),
            Ghost(s),
            Ghost(head as int + 1),
        );
        proof {
            lemma_settled_monotone(
                g0,
                rows,
                cols,
                s3_cells,
                cells@,
                s3_vis,
                visited@,
                nb_up,
            );
            lemma_settled_monotone(
                g0,
                rows,
                cols,
                s3_cells,
                cells@,
                s3_vis,
                visited@,
                nb_down,
            );
            lemma_settled_monotone(
                g0,
                rows,
                cols,
                s3_cells,
                cells@,
                s3_vis,
                visited@,
                nb_left,
            );
        }
        if r4.is_err() {
            return Err(FloodFault);
        }
    }
    proof {
        assert(nb_settled(g0, rows, cols, cells@, visited@, nb_up));
        assert(nb_settled(g0, rows, cols, cells@, visited@, nb_down));
        assert(nb_settled(g0, rows, cols, cells@, visited@, nb_left));
        assert(nb_settled(g0, rows, cols, cells@, visited@, nb_right));
        assert(vis(cells@, pos_i as int));
        assert(queue@[head as int] == pos);
        assert forall|k: int| 0 <= k < head as int + 1 implies vis(
            cells@,
            fof(cols, pair_int(#[trigger] queue@[k])),
        ) by {
            if k == head as int {
                assert(fof(cols, pair_int(queue@[k])) == pos_i as int);
            }
        }
        assert forall|k: int, nb: (int, int)|
            #![trigger adj4(pair_int(queue@[k]), nb)]
            0 <= k < head as int + 1 && adj4(pair_int(queue@[k]), nb) implies nb_settled(
            g0,
            rows,
            cols,
            cells@,
            visited@,
            nb,
        ) by {
            if k == head as int {
                assert(nb == nb_up || nb == nb_down || nb == nb_left || nb == nb_right);
            }
        }
        assert(processed_closed(
            g0,
            rows,
            cols,
            cells@,
            visited@,
            queue@,
            head as int + 1,
        ));
    }
    Ok(())
}

/// At flood completion every queue entry is processed: the region is not
/// blocked and the visible cells are exactly the old ones plus the flood
/// closure of `s`.
#[verifier::rlimit(100)]
proof fn lemma_flood_complete(
    g0: Seq<Cell>,
    rows: int,
    cols: int,
    s: (int, int),
    g: Seq<Cell>,
    visited: Seq<bool>,
    queue: Seq<(usize, usize)>,
    h: int,
)
    requires
        bfs_inv(g0, rows, cols, s, g, visited, queue, h),
        processed_closed(g0, rows, cols, g, visited, queue, h),
        h == queue.len(),
    ensures
        !flood_blocked(g0, rows, cols, s),
        forall|r2: int, c2: int|
            in_bounds(rows, cols, r2, c2) ==> (#[trigger] vis(g, flat(cols, r2, c2)) <==> vis(
                g0,
                flat(cols, r2, c2),
            ) || flood_visible(g0, rows, cols, s, (r2, c2))),
{
    let pset = Set::new(|p: (int, int)| in_q(queue, 0, h, p));
    assert(pset.contains(s)) by {
        assert(pair_int(queue[0]) == s);
    }
    assert forall|p: (int, int), q: (int, int)|
        #![trigger pset.contains(p), adj4(p, q)]
        pset.contains(p) && adj4(p, q) && empty_at(g0, rows, cols, q) implies pset.contains(
        q,
    ) by {
        let k = choose|k: int| 0 <= k < h && pair_int(#[trigger] queue[k]) == p;
        assert(adj4(pair_int(queue[k]), q));
        assert(nb_settled(g0, rows, cols, g, visited, q));
        lemma_flat_bound(rows, cols, q.0, q.1);
        assert(visited[flat(cols, q.0, q.1)]);
        let k2 = choose|k2: int|
            0 <= k2 < queue.len() && fof(cols, pair_int(#[trigger] queue[k2])) == flat(
                cols,
                q.0,
                q.1,
            );
        assert(empty_at(g0, rows, cols, pair_int(queue[k2])));
        lemma_flat_injective(
            cols,
            pair_int(queue[k2]).0,
            pair_int(queue[k2]).1,
            q.0,
            q.1,
        );
        assert(pair_int(queue[k2]) == q);
    }
    assert(!flood_blocked(g0, rows, cols, s)) by {
        if flood_blocked(g0, rows, cols, s) {
            let (e, m): ((int, int), (int, int)) = choose|e: (int, int), m: (int, int)|
                reaches(g0, rows, cols, s, e) && adj4(e, m) && mine_at(g0, rows, cols, m);
            lemma_reach_in_closed_set(g0, rows, cols, s, e, pset);
            let k = choose|k: int|
                0 <= k < h && pair_int(#[trigger] queue[k]) == e;
            assert(adj4(pair_int(queue[k]), m));
            assert(nb_settled(g0, rows, cols, g, visited, m));
        }
    }
    lemma_inv_vis_subset(g0, rows, cols, s, g, visited, queue, h);
    assert forall|r2: int, c2: int| in_bounds(rows, cols, r2, c2) implies (#[trigger] vis(
        g,
        flat(cols, r2, c2),
    ) <==> vis(g0, flat(cols, r2, c2)) || flood_visible(
        g0,
        rows,
        cols,
        s,
        (r2, c2),
    )) by {
        lemma_flat_bound(rows, cols, r2, c2);
        if !vis(g0, flat(cols, r2, c2)) && flood_visible(g0, rows, cols, s, (r2, c2)) {
            if reaches(g0, rows, cols, s, (r2, c2)) {
                lemma_reach_in_closed_set(g0, rows, cols, s, (r2, c2), pset);
                let k = choose|k: int|
                    0 <= k < h && pair_int(#[trigger] queue[k]) == (r2, c2);
                assert(vis(g, fof(cols, pair_int(queue[k]))));
            } else {
                let e = choose|e: (int, int)|
                    reaches(g0, rows, cols, s, e) && adj4(e, (r2, c2));
                lemma_reach_in_closed_set(g0, rows, cols, s, e, pset);
                let k = choose|k: int|
                    0 <= k < h && pair_int(#[trigger] queue[k]) == e;
                assert(adj4(pair_int(queue[k]), (r2, c2)));
                assert(nb_settled(g0, rows, cols, g, visited, (r2, c2)));
            }
        }
    }
}

/// The internal-consistency fault of a flood fill: it stepped from an empty
/// cell straight onto a mine, which a correctly generated grid makes
/// impossible (that cell would carry a count instead of being empty).
#[derive(Clone, Copy, Debug, PartialEq, Eq, Structural)]
pub struct FloodFault;

/// One cell as the renderer sees it: its grid position, whether it is
/// revealed, and its content exactly when it is revealed.
pub struct CellView {
    pub row: usize,
    pub col: usize,
    pub visible: bool,
    pub shown: Option<CellType>,
}

/// The board: the cell grid plus the pixel-layout parameters fixed at
/// construction (tile edge length, inter-tile gap, outer padding).
pub struct Board {
    x_cells: usize,
    y_cells: usize,
    gap: u32,
    padding: u32,
    tile_width: u32,
    cells: Vec<Cell>,
}

/// Where a pixel position lands on a grid laid out with the given tile edge
/// length and inter-tile gap: the tile index by floor division of each axis
/// by the tile-plus-gap span, with positions past the span's tile part (in a
/// gap), on a negative coordinate, or beyond the grid rejected.
pub open spec fn map_to_cell(x: int, y: int, tile: int, gap: int, rows: int, cols: int) -> Option<
    (int, int),
> {
    let span = tile + gap;
    if x < 0 || y < 0 || span <= 0 {
        None
    } else {
        let c = x / span;
        let r = y / span;
        if r < rows && c < cols && x % span <= tile && y % span <= tile {
            Some((r, c))
        } else {
            None
        }
    }
}

/// A returned coordinate pair as mathematical integers.
pub open spec fn rc_view(o: Option<(usize, usize)>) -> Option<(int, int)> {
    match o {
        Option::None => Option::None,
        Option::Some(p) => Option::Some((p.0 as int, p.1 as int)),
    }
}

impl Board {
    /// The grid, flattened row-major.
    pub closed spec fn grid(self) -> Seq<Cell> {
        self.cells@
    }

    /// Number of rows.
    pub closed spec fn rows(self) -> int {
        self.y_cells as int
    }

    /// Number of columns.
    pub closed spec fn cols(self) -> int {
        self.x_cells as int
    }

    /// Pixel gap between tiles.
    pub closed spec fn gap_px(self) -> int {
        self.gap as int
    }

    /// Pixel padding before the first tile.
    pub closed spec fn padding_px(self) -> int {
        self.padding as int
    }

    /// Pixel edge length of one tile.
    pub closed spec fn tile_px(self) -> int {
        self.tile_width as int
    }

    /// Structural validity: positive dimensions and a grid of exactly
    /// `rows * cols` cells.
    pub open spec fn wf(self) -> bool {
        &&& 0 < self.rows()
        &&& 0 < self.cols()
        &&& self.rows() * self.cols() <= usize::MAX
        &&& self.grid().len() == self.rows() * self.cols()
    }

    /// The generation invariant: every non-mine cell carries its exact
    /// 8-neighbor mine count.
    pub open spec fn consistent(self) -> bool {
        counts_correct(self.grid(), self.rows(), self.cols())
    }

    /// Layout parameters and dimensions of `b` agree with `self`.
    pub open spec fn same_layout(self, b: Board) -> bool {
        &&& b.rows() == self.rows()
        &&& b.cols() == self.cols()
        &&& b.gap_px() == self.gap_px()
        &&& b.padding_px() == self.padding_px()
        &&& b.tile_px() == self.tile_px()
    }

    /// Builds the board for a fixed list of flattened mine positions: mines
    /// at exactly those cells, exact counts everywhere else, all hidden.
    pub fn from_mine_positions(
        x_cells: usize,
        y_cells: usize,
        gap: u32,
        padding: u32,
        tile_width: u32,
        positions: &Vec<usize>,
    ) -> (b: Board)
        requires
            0 < x_cells,
            0 < y_cells,
            y_cells * x_cells <= usize::MAX,
            forall|k: int|
                0 <= k < positions@.len() ==> (#[trigger] positions@[k] as int) < y_cells * x_cells,
        ensures
            b.wf(),
            b.rows() == y_cells,
            b.cols() == x_cells,
            b.gap_px() == gap,
            b.padding_px() == padding,
            b.tile_px() == tile_width,
            mines_match(b.grid(), positions@),
            b.consistent(),
            all_hidden(b.grid()),
    {
        let cells = build_cells(x_cells, y_cells, positions);
        Board { x_cells, y_cells, gap, padding, tile_width, cells }
    }

    /// Builds a fresh board: `mines` mine positions drawn uniformly without
    /// replacement, exact counts derived for every other cell, all cells
    /// hidden, and the tile edge length computed from the screen width.
    pub fn new(
        x_cells: usize,
        y_cells: usize,
        gap: u32,
        padding: u32,
        mines: usize,
        screen_width: u32,
    ) -> (b: Board)
        requires
            0 < x_cells,
            0 < y_cells,
            y_cells * x_cells <= usize::MAX,
            mines <= y_cells * x_cells,
            padding + gap * x_cells <= screen_width,
        ensures
            b.wf(),
            b.rows() == y_cells,
            b.cols() == x_cells,
            b.gap_px() == gap,
            b.padding_px() == padding,
            b.tile_px() == (screen_width - padding - gap * x_cells) / x_cells as int,
            b.consistent(),
            all_hidden(b.grid()),
            mine_cells(b.grid()).finite(),
            mine_cells(b.grid()).len() == mines,
    {
        let length = y_cells * x_cells;
        let positions = sample_mine_positions(length, mines);
        let gx: u64 = (gap as u64) * (x_cells as u64);
        let t64: u64 = (screen_width as u64 - padding as u64 - gx) / (x_cells as u64);
        proof {
            assert(t64 <= screen_width) by (nonlinear_arith)
                requires
                    t64 == ((screen_width - padding - gap * x_cells) as u64) / (x_cells as u64),
                    x_cells >= 1,
                    padding + gap * x_cells <= screen_width,
            ;
        }
        let tile_width: u32 = t64 as u32;
        let b = Board::from_mine_positions(x_cells, y_cells, gap, padding, tile_width, &positions);
        proof {
            lemma_mine_count(b.grid(), positions@);
        }
        b
    }

    /// Number of columns.
    pub fn x_cells(&self) -> (r: usize)
        ensures
            r == self.cols(),
    {
        self.x_cells
    }

    /// Number of rows.
    pub fn y_cells(&self) -> (r: usize)
        ensures
            r == self.rows(),
    {
        self.y_cells
    }

    /// Pixel edge length of one tile.
    pub fn tile_width(&self) -> (r: u32)
        ensures
            r == self.tile_px(),
    {
        self.tile_width
    }

    /// Pixel gap between tiles.
    pub fn gap(&self) -> (r: u32)
        ensures
            r == self.gap_px(),
    {
        self.gap
    }

    /// Pixel padding before the first tile.
    pub fn padding(&self) -> (r: u32)
        ensures
            r == self.padding_px(),
    {
        self.padding
    }

    /// The cell at `(row, col)`, or nothing when out of range.
    pub fn cell(&self, row: usize, col: usize) -> (r: Option<Cell>)
        requires
            self.wf(),
        ensures
            in_bounds(self.rows(), self.cols(), row as int, col as int) ==> r == Some(
                self.grid()[flat(self.cols(), row as int, col as int)],
            ),
            !in_bounds(self.rows(), self.cols(), row as int, col as int) ==> r is None,
    {
        if row < self.y_cells && col < self.x_cells {
            proof {
                lemma_flat_bound(self.rows(), self.cols(), row as int, col as int);
            }
            Some(self.cells[row * self.x_cells + col])
        } else {
            None
        }
    }

    /// Sets every cell of the grid to `Visible`: the loss condition's
    /// reveal-all.
    #[verifier::loop_isolation(false)]
    pub fn reveal_all(&mut self)
        requires
            old(self).wf(),
        ensures
            final(self).wf(),
            old(self).same_layout(*final(self)),
            final(self).grid().len() == old(self).grid().len(),
            forall|i: int|
                0 <= i < final(self).grid().len() ==> #[trigger] final(self).grid()[i].cell_type
                    == old(self).grid()[i].cell_type,
            forall|i: int| 0 <= i < final(self).grid().len() ==> #[trigger] vis(final(self).grid(), i),
    {
        let n = self.cells.len();
        let mut i: usize = 0;
        while i < n
            invariant
                self.cells@.len() == n,
                self.x_cells == old(self).x_cells,
                self.y_cells == old(self).y_cells,
                self.gap == old(self).gap,
                self.padding == old(self).padding,
                self.tile_width == old(self).tile_width,
                i <= n,
                forall|j: int|
                    0 <= j < n ==> #[trigger] self.cells@[j].cell_type
                        == old(self).cells@[j].cell_type,
                forall|j: int| 0 <= j < i ==> #[trigger] vis(self.cells@, j),
            decreases n - i,
        {
            let ghost before = self.cells@;
            let t = self.cells[i].cell_type;
            self.cells.set(i, Cell::new(t, CellState::Visible));
            proof {
                assert forall|j: int| 0 <= j < i + 1 implies #[trigger] vis(self.cells@, j) by {
                    if j < i {
                        assert(vis(before, j));
                        assert(self.cells@[j] == before[j]);
                    }
                }
            }
            i = i + 1;
        }
    }

    /// Maps a pixel-space pointer position to the grid coordinate it lands
    /// on, or nothing for positions in a gap, in the padding past the last
    /// tile, on a negative coordinate, or beyond the grid.
    pub fn coordinate_for(&self, x: i64, y: i64) -> (r: Option<(usize, usize)>)
        requires
            self.wf(),
        ensures
            rc_view(r) == map_to_cell(
                x as int,
                y as int,
                self.tile_px(),
                self.gap_px(),
                self.rows(),
                self.cols(),
            ),
    {
        let span: u64 = self.tile_width as u64 + self.gap as u64;
        if x < 0 || y < 0 || span == 0 {
            return None;
        }
        let xu = x as u64;
        let yu = y as u64;
        let c64 = xu / span;
        let r64 = yu / span;
        if r64 < self.y_cells as u64 && c64 < self.x_cells as u64 && xu % span
            <= self.tile_width as u64 && yu % span <= self.tile_width as u64 {
            Some((r64 as usize, c64 as usize))
        } else {
            None
        }
    }

    /// Breadth-first flood fill from the hidden-or-visible empty cell
    /// `(row, col)`: reveals exactly its 4-connected empty region and the
    /// number cells bordering that region, or reports the fatal fault when
    /// the region borders a mine directly.
    #[verifier::loop_isolation(false)]
    #[verifier::rlimit(100)]
    #[verifier::spinoff_prover]
    fn flood_reveal(&mut self, row: usize, col: usize) -> (res: Result<(), FloodFault>)
        requires
            old(self).wf(),
            in_bounds(old(self).rows(), old(self).cols(), row as int, col as int),
            old(self).grid()[flat(old(self).cols(), row as int, col as int)].cell_type is Empty,
        ensures
            final(self).wf(),
            old(self).same_layout(*final(self)),
            final(self).grid().len() == old(self).grid().len(),
            forall|i: int|
                0 <= i < final(self).grid().len() ==> #[trigger] final(self).grid()[i].cell_type
                    == old(self).grid()[i].cell_type,
            forall|i: int|
                0 <= i < final(self).grid().len() && vis(old(self).grid(), i)
                    ==> #[trigger] vis(final(self).grid(), i),
            res is Ok <==> !flood_blocked(
                old(self).grid(),
                old(self).rows(),
                old(self).cols(),
                (row as int, col as int),
            ),
            forall|r2: int, c2: int|
                in_bounds(old(self).rows(), old(self).cols(), r2, c2) && #[trigger] vis(
                    final(self).grid(),
                    flat(old(self).cols(), r2, c2),
                ) ==> vis(old(self).grid(), flat(old(self).cols(), r2, c2)) || flood_visible(
                    old(self).grid(),
                    old(self).rows(),
                    old(self).cols(),
                    (row as int, col as int),
                    (r2, c2),
                ),
            res is Ok ==> forall|r2: int, c2: int|
                in_bounds(old(self).rows(), old(self).cols(), r2, c2) ==> (#[trigger] vis(
                    final(self).grid(),
                    flat(old(self).cols(), r2, c2),
                ) <==> vis(old(self).grid(), flat(old(self).cols(), r2, c2)) || flood_visible(
                    old(self).grid(),
                    old(self).rows(),
                    old(self).cols(),
                    (row as int, col as int),
                    (r2, c2),
                )),
    {
        let ghost g0 = self.cells@;
        let ghost rows = self.y_cells as int;
        let ghost cols = self.x_cells as int;
        let ghost s = (row as int, col as int);
        proof {
            lemma_flat_bound(rows, cols, row as int, col as int);
            lemma_reaches_self(g0, rows, cols, s);
        }
        let n = self.cells.len();
        let mut visited = falses(n);
        let mut queue: Vec<(usize, usize)> = Vec::new();
        let si = row * self.x_cells + col;
        visited.set(si, true);
        queue.push((row, col));
        proof {
            assert(pair_int(queue@[0]) == s);
            assert(rows * cols >= 1) by (nonlinear_arith)
                requires
                    rows >= 1,
                    cols >= 1,
            ;
            assert forall|i: int| 0 <= i < visited@.len() && #[trigger] visited@[i] implies exists|
                k: int,
            | 0 <= k < queue@.len() && fof(cols, pair_int(#[trigger] queue@[k])) == i by {
                assert(i == si as int);
                assert(fof(cols, pair_int(queue@[0])) == i);
            }
            assert(bfs_inv(g0, rows, cols, s, self.cells@, visited@, queue@, 0));
            assert(processed_closed(g0, rows, cols, self.cells@, visited@, queue@, 0));
        }
        let mut head: usize = 0;
        while head < queue.len()
            invariant
                self.x_cells == old(self).x_cells,
                self.y_cells == old(self).y_cells,
                self.gap == old(self).gap,
                self.padding == old(self).padding,
                self.tile_width == old(self).tile_width,
                head <= queue@.len(),
                bfs_inv(g0, rows, cols, s, self.cells@, visited@, queue@, head as int),
                processed_closed(g0, rows, cols, self.cells@, visited@, queue@, head as int),
            decreases rows * cols - head,
        {
            let step = flood_step(
                &mut self.cells,
                &mut visited,
                &mut queue,
                self.x_cells,
                self.y_cells,
                head,
                Ghost(g0),
                Ghost(s),
            );
            if step.is_err() {
                proof {
                    lemma_inv_vis_subset(
                        g0,
                        rows,
                        cols,
                        s,
                        self.cells@,
                        visited@,
                        queue@,
                        head as int + 1,
                    );
                }
                return Err(FloodFault);
            }
            head = head + 1;
        }
        proof {
            lemma_flood_complete(g0, rows, cols, s, self.cells@, visited@, queue@, head as int);
            lemma_inv_vis_subset(g0, rows, cols, s, self.cells@, visited@, queue@, head as int);
        }
        Ok(())
    }

    /// Applies the reveal rule to `(row, col)`: a no-op when the coordinate
    /// is out of range or the cell is already visible; otherwise a mine
    /// reveals the whole grid (the loss condition), a number cell reveals
    /// itself alone, and an empty cell flood-fills its region.
    pub fn reveal_cell(&mut self, row: usize, col: usize) -> (res: Result<(), FloodFault>)
        requires
            old(self).wf(),
        ensures
            final(self).wf(),
            reveal_post(*old(self), *final(self), row as int, col as int, res is Ok),
    {
        let ghost rows = self.y_cells as int;
        let ghost cols = self.x_cells as int;
        if row >= self.y_cells || col >= self.x_cells {
            return Ok(());
        }
        proof {
            lemma_flat_bound(rows, cols, row as int, col as int);
        }
        let i = row * self.x_cells + col;
        let here = self.cells[i];
        match here.cell_state {
            CellState::Visible => Ok(()),
            CellState::Hidden => {
                match here.cell_type {
                    CellType::Mine => {
                        self.reveal_all();
                        Ok(())
                    },
                    CellType::Number(_) => {
                        let ghost before = self.cells@;
                        self.cells.set(i, Cell::new(here.cell_type, CellState::Visible));
                        proof {
                            assert forall|i2: int| 0 <= i2 < self.cells@.len() implies (
                            #[trigger] vis(self.cells@, i2) <==> vis(before, i2) || i2 == i as int) by {
                                if i2 != i as int {
                                    assert(self.cells@[i2] == before[i2]);
                                }
                            }
                            assert forall|i2: int|
                                0 <= i2 < self.cells@.len() implies #[trigger] self.cells@[
                                i2
                            ].cell_type == before[i2].cell_type by {
                                if i2 != i as int {
                                    assert(self.cells@[i2] == before[i2]);
                                }
                            }
                        }
                        Ok(())
                    },
                    CellType::Empty => self.flood_reveal(row, col),
                }
            },
        }
    }


    /// Builds a board around a caller-supplied grid, for layouts prepared
    /// cell by cell; the grid is taken as given, its consistency unchecked.
    pub fn from_cells(
        x_cells: usize,
        y_cells: usize,
        gap: u32,
        padding: u32,
        tile_width: u32,
        cells: Vec<Cell>,
    ) -> (b: Board)
        requires
            0 < x_cells,
            0 < y_cells,
            y_cells * x_cells <= usize::MAX,
            cells@.len() == y_cells * x_cells,
        ensures
            b.wf(),
            b.rows() == y_cells,
            b.cols() == x_cells,
            b.gap_px() == gap,
            b.padding_px() == padding,
            b.tile_px() == tile_width,
            b.grid() == cells@,
    {
        Board { x_cells, y_cells, gap, padding, tile_width, cells }
    }

    /// A read-only snapshot for the renderer: one entry per cell, row-major,
    /// reporting position, visibility, and the content of visible cells.
    #[verifier::loop_isolation(false)]
    pub fn render_view(&self) -> (v: Vec<CellView>)
        requires
            self.wf(),
        ensures
            v@.len() == self.grid().len(),
            forall|k: int|
                0 <= k < v@.len() ==> {
                    &&& (#[trigger] v@[k]).row as int == k / self.cols()
                    &&& v@[k].col as int == k % self.cols()
                    &&& v@[k].visible == vis(self.grid(), k)
                    &&& v@[k].shown == (if vis(self.grid(), k) {
                        Some(self.grid()[k].cell_type)
                    } else {
                        None::<CellType>
                    })
                },
    {
        let n = self.cells.len();
        let mut v: Vec<CellView> = Vec::new();
        let mut i: usize = 0;
        while i < n
            invariant
                v@.len() == i,
                i <= n,
                forall|k: int|
                    0 <= k < i ==> {
                        &&& (#[trigger] v@[k]).row as int == k / self.cols()
                        &&& v@[k].col as int == k % self.cols()
                        &&& v@[k].visible == vis(self.grid(), k)
                        &&& v@[k].shown == (if vis(self.grid(), k) {
                            Some(self.grid()[k].cell_type)
                        } else {
                            None::<CellType>
                        })
                    },
            decreases n - i,
        {
            let here = self.cells[i];
            let visible = matches!(here.cell_state, CellState::Visible);
            let shown = if visible {
                Some(here.cell_type)
            } else {
                None
            };
            v.push(CellView { row: i / self.x_cells, col: i % self.x_cells, visible, shown });
            i = i + 1;
        }
        v
    }

    /// Translates a pointer click to a cell and applies the reveal rule to
    /// it; clicks that land on no cell leave the board untouched.
    pub fn update(&mut self, mouse_pos: (i64, i64)) -> (res: Result<(), FloodFault>)
        requires
            old(self).wf(),
        ensures
            final(self).wf(),
            match map_to_cell(
                mouse_pos.0 as int,
                mouse_pos.1 as int,
                old(self).tile_px(),
                old(self).gap_px(),
                old(self).rows(),
                old(self).cols(),
            ) {
                Option::None => *final(self) == *old(self) && res is Ok,
                Option::Some(p) => reveal_post(*old(self), *final(self), p.0, p.1, res is Ok),
            },
    {
        match self.coordinate_for(mouse_pos.0, mouse_pos.1) {
            None => Ok(()),
            Some((row, col)) => self.reveal_cell(row, col),
        }
    }
}

/// What one `reveal` call on `(row, col)` guarantees, relating the board
/// before (`pre`) and after (`post`); `ok` is whether the call succeeded.
/// Cell contents never change and visibility never reverts. A click out of
/// range or on a visible cell changes nothing; a mine reveals everything; a
/// number cell reveals exactly itself; an empty cell reveals exactly its
/// 4-connected empty region plus the bordering number cells, failing exactly
/// when that region borders a mine directly.
pub open spec fn reveal_post(pre: Board, post: Board, row: int, col: int, ok: bool) -> bool {
    let g0 = pre.grid();
    let g = post.grid();
    let rows = pre.rows();
    let cols = pre.cols();
    let t = flat(cols, row, col);
    &&& pre.same_layout(post)
    &&& g.len() == g0.len()
    &&& forall|i: int| 0 <= i < g.len() ==> #[trigger] g[i].cell_type == g0[i].cell_type
    &&& forall|i: int| 0 <= i < g.len() && vis(g0, i) ==> #[trigger] vis(g, i)
    &&& if !in_bounds(rows, cols, row, col) || vis(g0, t) {
        post == pre && ok
    } else {
        match g0[t].cell_type {
            CellType::Mine => ok && forall|i: int| 0 <= i < g.len() ==> #[trigger] vis(g, i),
            CellType::Number(_) => ok && forall|i: int|
                0 <= i < g.len() ==> (#[trigger] vis(g, i) <==> vis(g0, i) || i == t),
            CellType::Empty => {
                &&& (ok <==> !flood_blocked(g0, rows, cols, (row, col)))
                &&& forall|r2: int, c2: int|
                    in_bounds(rows, cols, r2, c2) && #[trigger] vis(g, flat(cols, r2, c2)) ==> vis(
                        g0,
                        flat(cols, r2, c2),
                    ) || flood_visible(g0, rows, cols, (row, col), (r2, c2))
                &&& ok ==> forall|r2: int, c2: int|
                    in_bounds(rows, cols, r2, c2) ==> (#[trigger] vis(g, flat(cols, r2, c2)) <==>
                    vis(g0, flat(cols, r2, c2)) || flood_visible(g0, rows, cols, (row, col), (r2, c2)))
            },
        }
    }
}

/// A pointer exactly at a tile's top-left corner maps to that tile, whenever
/// the padding offset does not carry the corner past the tile part of the
/// next span (padding at most the tile edge, and less than one span).
pub proof fn lemma_corner_maps_to_tile(
    tile: int,
    gap: int,
    padding: int,
    rows: int,
    cols: int,
    r: int,
    c: int,
)
    requires
        0 <= gap,
        0 <= padding <= tile,
        padding < tile + gap,
        0 <= r < rows,
        0 <= c < cols,
    ensures
        map_to_cell(
            padding + c * (tile + gap),
            padding + r * (tile + gap),
            tile,
            gap,
            rows,
            cols,
        ) == Some((r, c)),
{
    let span = tile + gap;
    let x = padding + c * span;
    let y = padding + r * span;
    assert(padding + c * (tile + gap) >= 0) by (nonlinear_arith)
        requires
            0 <= padding,
            0 <= c,
            0 < tile + gap,
    ;
    assert(padding + r * (tile + gap) >= 0) by (nonlinear_arith)
        requires
            0 <= padding,
            0 <= r,
            0 < tile + gap,
    ;
    lemma_fundamental_div_mod_converse(x, span, c, padding);
    lemma_fundamental_div_mod_converse(y, span, r, padding);
}

/// A pointer whose horizontal offset into a span falls past the tile part —
/// in the gap strip right of a tile — maps to no cell, whatever its vertical
/// position.
pub proof fn lemma_gap_x_maps_none(
    tile: int,
    gap: int,
    rows: int,
    cols: int,
    c: int,
    off: int,
    y: int,
)
    requires
        0 <= tile,
        0 <= c,
        tile < off < tile + gap,
    ensures
        map_to_cell(c * (tile + gap) + off, y, tile, gap, rows, cols) is None,
{
    let span = tile + gap;
    let x = c * span + off;
    assert(c * (tile + gap) + off >= 0) by (nonlinear_arith)
        requires
            0 <= c,
            0 < tile + gap,
            0 <= off,
    ;
    if y >= 0 {
        lemma_fundamental_div_mod_converse(x, span, c, off);
    }
}

/// A pointer whose vertical offset into a span falls past the tile part — in
/// the gap strip below a tile — maps to no cell, whatever its horizontal
/// position.
pub proof fn lemma_gap_y_maps_none(
    tile: int,
    gap: int,
    rows: int,
    cols: int,
    r: int,
    off: int,
    x: int,
)
    requires
        0 <= tile,
        0 <= r,
        tile < off < tile + gap,
    ensures
        map_to_cell(x, r * (tile + gap) + off, tile, gap, rows, cols) is None,
{
    let span = tile + gap;
    let y = r * span + off;
    assert(r * (tile + gap) + off >= 0) by (nonlinear_arith)
        requires
            0 <= r,
            0 < tile + gap,
            0 <= off,
    ;
    if x >= 0 {
        lemma_fundamental_div_mod_converse(y, span, r, off);
    }
}

} // verus!

