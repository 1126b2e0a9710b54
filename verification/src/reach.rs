use vstd::prelude::*;

use crate::cell::Cell;
use crate::grid::{flat, in_bounds};

verus! {

/// 4-directional adjacency (up/down/left/right, no diagonals) of two grid
/// coordinates. This is deliberately narrower than the 8-directional
/// neighborhood used for mine counts: flooding never crosses diagonal gaps.
pub open spec fn adj4(a: (int, int), b: (int, int)) -> bool {
    (a.0 == b.0 && (a.1 == b.1 + 1 || a.1 + 1 == b.1)) || (a.1 == b.1 && (a.0 == b.0 + 1 || a.0
        + 1 == b.0))
}

/// Whether `p` is an in-bounds cell holding no mine count and no mine.
pub open spec fn empty_at(g: Seq<Cell>, rows: int, cols: int, p: (int, int)) -> bool {
    in_bounds(rows, cols, p.0, p.1) && g[flat(cols, p.0, p.1)].cell_type is Empty
}

/// Whether `p` is an in-bounds cell holding a mine count.
pub open spec fn number_at(g: Seq<Cell>, rows: int, cols: int, p: (int, int)) -> bool {
    in_bounds(rows, cols, p.0, p.1) && g[flat(cols, p.0, p.1)].cell_type is Number
}

/// Whether `p` is an in-bounds mine cell.
pub open spec fn mine_at(g: Seq<Cell>, rows: int, cols: int, p: (int, int)) -> bool {
    in_bounds(rows, cols, p.0, p.1) && g[flat(cols, p.0, p.1)].cell_type is Mine
}

/// A non-empty walk through empty cells: every step is in bounds and empty,
/// and consecutive steps are 4-adjacent.
pub open spec fn empty_path(g: Seq<Cell>, rows: int, cols: int, path: Seq<(int, int)>) -> bool {
    &&& path.len() > 0
    &&& forall|k: int| 0 <= k < path.len() ==> empty_at(g, rows, cols, #[trigger] path[k])
    &&& forall|k: int| 0 <= k < path.len() - 1 ==> adj4(#[trigger] path[k], path[k + 1])
}

/// Whether `t` lies in the maximal 4-connected empty region of `s`.
pub open spec fn reaches(g: Seq<Cell>, rows: int, cols: int, s: (int, int), t: (int, int)) -> bool {
    exists|path: Seq<(int, int)>|
        empty_path(g, rows, cols, path) && path.first() == s && path.last() == t
}

/// The flood-fill closure of `s`: the 4-connected empty region reachable from
/// `s`, plus every number cell 4-adjacent to that region.
pub open spec fn flood_visible(
    g: Seq<Cell>,
    rows: int,
    cols: int,
    s: (int, int),
    p: (int, int),
) -> bool {
    reaches(g, rows, cols, s, p) || (number_at(g, rows, cols, p) && exists|e: (int, int)|
        reaches(g, rows, cols, s, e) && adj4(e, p))
}

/// The internal-consistency fault a flood fill can run into: some empty cell
/// reachable from `s` has a mine as a direct 4-neighbor. A correctly
/// generated grid never has this (such a cell would carry a count instead).
pub open spec fn flood_blocked(g: Seq<Cell>, rows: int, cols: int, s: (int, int)) -> bool {
    exists|e: (int, int), m: (int, int)|
        reaches(g, rows, cols, s, e) && adj4(e, m) && mine_at(g, rows, cols, m)
}

/// An empty cell reaches itself.
pub proof fn lemma_reaches_self(g: Seq<Cell>, rows: int, cols: int, s: (int, int))
    requires
        empty_at(g, rows, cols, s),
    ensures
        reaches(g, rows, cols, s, s),
{
    let path = seq![s];
    assert(empty_path(g, rows, cols, path));
    assert(path.first() == s && path.last() == s);
}

/// Reachability extends across one step to an adjacent empty cell.
pub proof fn lemma_reaches_step(
    g: Seq<Cell>,
    rows: int,
    cols: int,
    s: (int, int),
    e: (int, int),
    n: (int, int),
)
    requires
        reaches(g, rows, cols, s, e),
        adj4(e, n),
        empty_at(g, rows, cols, n),
    ensures
        reaches(g, rows, cols, s, n),
{
    let path = choose|path: Seq<(int, int)>|
        empty_path(g, rows, cols, path) && path.first() == s && path.last() == e;
    let path2 = path.push(n);
    assert(empty_path(g, rows, cols, path2)) by {
        assert forall|k: int| 0 <= k < path2.len() implies empty_at(
            g,
            rows,
            cols,
            #[trigger] path2[k],
        ) by {
            if k < path.len() {
                assert(path2[k] == path[k]);
            }
        }
        assert forall|k: int| 0 <= k < path2.len() - 1 implies adj4(
            #[trigger] path2[k],
            path2[k + 1],
        ) by {
            if k < path.len() - 1 {
                assert(path2[k] == path[k] && path2[k + 1] == path[k + 1]);
            } else {
                assert(path2[k] == path.last() && path2[k + 1] == n);
            }
        }
    }
    assert(path2.first() == s && path2.last() == n);
}

/// The last cell of an empty path from a cell of `pset` stays in `pset`,
/// provided `pset` is closed under stepping to adjacent empty cells.
proof fn lemma_path_in_closed_set(
    g: Seq<Cell>,
    rows: int,
    cols: int,
    path: Seq<(int, int)>,
    pset: Set<(int, int)>,
)
    requires
        empty_path(g, rows, cols, path),
        pset.contains(path.first()),
        forall|p: (int, int), q: (int, int)|
            #![trigger pset.contains(p), adj4(p, q)]
            pset.contains(p) && adj4(p, q) && empty_at(g, rows, cols, q) ==> pset.contains(q),
    ensures
        pset.contains(path.last()),
    decreases path.len(),
{
    if path.len() > 1 {
        let pre = path.drop_last();
        assert(empty_path(g, rows, cols, pre)) by {
            assert forall|k: int| 0 <= k < pre.len() implies empty_at(
                g,
                rows,
                cols,
                #[trigger] pre[k],
            ) by {
                assert(pre[k] == path[k]);
            }
            assert forall|k: int| 0 <= k < pre.len() - 1 implies adj4(
                #[trigger] pre[k],
                pre[k + 1],
            ) by {
                assert(pre[k] == path[k] && pre[k + 1] == path[k + 1]);
            }
        }
        assert(pre.first() == path.first());
        lemma_path_in_closed_set(g, rows, cols, pre, pset);
        assert(pre.last() == path[path.len() - 2]);
        assert(adj4(path[path.len() - 2], path[path.len() - 1]));
        assert(empty_at(g, rows, cols, path[path.len() - 1]));
    }
}

/// Every cell of the 4-connected empty region of `s` lies in any set that
/// holds `s` and is closed under stepping to adjacent empty cells.
pub proof fn lemma_reach_in_closed_set(
    g: Seq<Cell>,
    rows: int,
    cols: int,
    s: (int, int),
    t: (int, int),
    pset: Set<(int, int)>,
)
    requires
        reaches(g, rows, cols, s, t),
        pset.contains(s),
        forall|p: (int, int), q: (int, int)|
            #![trigger pset.contains(p), adj4(p, q)]
            pset.contains(p) && adj4(p, q) && empty_at(g, rows, cols, q) ==> pset.contains(q),
    ensures
        pset.contains(t),
{
    let path = choose|path: Seq<(int, int)>|
        empty_path(g, rows, cols, path) && path.first() == s && path.last() == t;
    lemma_path_in_closed_set(g, rows, cols, path, pset);
}

} // verus!
