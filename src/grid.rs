//! The grid model: rows of region ids, `0` for wall, indexed as `g[y][x]`.
use vstd::prelude::*;

verus! {

/// The grid has `h` rows of `w` cells each.
pub open spec fn grid_wf(g: Seq<Vec<u16>>, w: int, h: int) -> bool {
    &&& g.len() == h
    &&& forall|y: int| 0 <= y < h ==> (#[trigger] g[y])@.len() == w
}

/// The id held by cell `(x, y)`.
pub open spec fn cell(g: Seq<Vec<u16>>, x: int, y: int) -> u16 {
    g[y]@[x]
}

/// `(x, y)` lies on the grid.
pub open spec fn in_grid(w: int, h: int, x: int, y: int) -> bool {
    0 <= x < w && 0 <= y < h
}

/// `(x, y)` lies on the grid and off its outermost rows and columns.
pub open spec fn interior(w: int, h: int, x: int, y: int) -> bool {
    1 <= x < w - 1 && 1 <= y < h - 1
}

/// Every cell of the outermost rows and columns is wall.
pub open spec fn border_walls(g: Seq<Vec<u16>>, w: int, h: int) -> bool {
    forall|x: int, y: int|
        in_grid(w, h, x, y) && !interior(w, h, x, y) ==> #[trigger] cell(g, x, y) == 0
}

/// 1 for a floor cell, 0 for a wall.
pub open spec fn floor_bit(v: u16) -> int {
    if v != 0 { 1 } else { 0 }
}

/// How many of the four cells next to `(x, y)` are floor.
pub open spec fn floor_neighbors(g: Seq<Vec<u16>>, x: int, y: int) -> int {
    floor_bit(cell(g, x + 1, y)) + floor_bit(cell(g, x, y + 1)) + floor_bit(cell(g, x - 1, y))
        + floor_bit(cell(g, x, y - 1))
}

/// A floor cell with exactly one floor cell next to it.
pub open spec fn is_dead_end(g: Seq<Vec<u16>>, w: int, h: int, x: int, y: int) -> bool {
    interior(w, h, x, y) && cell(g, x, y) != 0 && floor_neighbors(g, x, y) == 1
}

/// The grid holds at least one floor cell.
pub open spec fn has_floor(g: Seq<Vec<u16>>, w: int, h: int) -> bool {
    exists|x: int, y: int| in_grid(w, h, x, y) && #[trigger] cell(g, x, y) != 0
}

/// 1 when `(x, y)` is in `s`, else 0.
pub open spec fn member_bit(s: Set<(int, int)>, x: int, y: int) -> int {
    if s.contains((x, y)) { 1 } else { 0 }
}

/// How many of the four cells next to `(x, y)` are in `s`.
pub open spec fn neighbors_in(s: Set<(int, int)>, x: int, y: int) -> int {
    member_bit(s, x + 1, y) + member_bit(s, x, y + 1) + member_bit(s, x - 1, y) + member_bit(s, x, y - 1)
}

/// `s` is a set of interior floor cells of `g` in which every cell has at least
/// two neighbours in `s`: a cycle, for one.
pub open spec fn well_linked(g: Seq<Vec<u16>>, w: int, h: int, s: Set<(int, int)>) -> bool {
    forall|p: (int, int)|
        #[trigger] s.contains(p) ==> interior(w, h, p.0, p.1) && cell(g, p.0, p.1) != 0
            && neighbors_in(s, p.0, p.1) >= 2
}

/// Every cell of `s` is floor in `g`.
pub open spec fn all_floor(g: Seq<Vec<u16>>, s: Set<(int, int)>) -> bool {
    forall|p: (int, int)| #[trigger] s.contains(p) ==> cell(g, p.0, p.1) != 0
}

/// Cell `p` lies on the grid and is floor.
pub open spec fn floor_at(g: Seq<Vec<u16>>, w: int, h: int, p: (int, int)) -> bool {
    in_grid(w, h, p.0, p.1) && cell(g, p.0, p.1) != 0
}

/// `p` and `q` are next to each other along a row or a column.
pub open spec fn adjacent(p: (int, int), q: (int, int)) -> bool {
    (p.0 == q.0 && (p.1 == q.1 + 1 || q.1 == p.1 + 1)) || (p.1 == q.1 && (p.0 == q.0 + 1 || q.0
        == p.0 + 1))
}

/// `s` is a walk over floor cells, each next to the one before.
pub open spec fn floor_path(g: Seq<Vec<u16>>, w: int, h: int, s: Seq<(int, int)>) -> bool {
    &&& s.len() >= 1
    &&& forall|i: int| 0 <= i < s.len() ==> floor_at(g, w, h, #[trigger] s[i])
    &&& forall|i: int| 0 <= i < s.len() - 1 ==> adjacent(#[trigger] s[i], s[i + 1])
}

/// A walk over floor cells leads from `a` to `b`.
pub open spec fn joined(g: Seq<Vec<u16>>, w: int, h: int, a: (int, int), b: (int, int)) -> bool {
    exists|s: Seq<(int, int)>| #[trigger] floor_path(g, w, h, s) && s[0] == a && s.last() == b
}

/// Every two floor cells are joined by a walk over floor cells.
pub open spec fn floor_connected(g: Seq<Vec<u16>>, w: int, h: int) -> bool {
    forall|a: (int, int), b: (int, int)|
        #[trigger] floor_at(g, w, h, a) && #[trigger] floor_at(g, w, h, b) ==> joined(g, w, h, a, b)
}

/// `nb` is the one floor cell next to the floor cell `c`.
pub open spec fn only_floor_neighbor(g: Seq<Vec<u16>>, w: int, h: int, c: (int, int), nb: (int, int)) -> bool {
    &&& floor_at(g, w, h, c)
    &&& adjacent(nb, c)
    &&& floor_at(g, w, h, nb)
    &&& forall|m: (int, int)| adjacent(m, c) && #[trigger] floor_at(g, w, h, m) ==> m == nb
}

/// Walling the floor cell `c`, whose one floor neighbour is `nb`, keeps every
/// walk between two other cells: each pass through `c` goes `nb, c, nb` and is cut out.
pub proof fn lemma_walk_without_leaf(
    g: Seq<Vec<u16>>,
    g2: Seq<Vec<u16>>,
    w: int,
    h: int,
    c: (int, int),
    nb: (int, int),
    s: Seq<(int, int)>,
)
    requires
        only_floor_neighbor(g, w, h, c, nb),
        forall|p: (int, int)| p != c ==> #[trigger] floor_at(g2, w, h, p) == floor_at(g, w, h, p),
        floor_path(g, w, h, s),
        s[0] != c,
        s.last() != c,
    ensures
        joined(g2, w, h, s[0], s.last()),
    decreases s.len(),
{
    if exists|i: int| 0 <= i < s.len() && s[i] == c {
        let i = choose|i: int| 0 <= i < s.len() && s[i] == c;
        assert(0 < i < s.len() - 1);
        assert(adjacent(s[i - 1], s[i]));
        assert(adjacent(s[i], s[i + 1]));
        assert(floor_at(g, w, h, s[i - 1]) && floor_at(g, w, h, s[i + 1]));
        assert(s[i - 1] == nb);
        assert(s[i + 1] == nb);
        let t = s.subrange(0, i) + s.subrange(i + 2, s.len() as int);
        assert forall|j: int| 0 <= j < t.len() implies floor_at(g, w, h, #[trigger] t[j]) by {
            if j < i {
                assert(t[j] == s[j]);
            } else {
                assert(t[j] == s[j + 2]);
            }
        }
        assert forall|j: int| 0 <= j < t.len() - 1 implies adjacent(#[trigger] t[j], t[j + 1]) by {
            if j < i - 1 {
                assert(t[j] == s[j] && t[j + 1] == s[j + 1]);
            } else if j == i - 1 {
                assert(t[j] == s[i - 1] && t[j + 1] == s[i + 2]);
                assert(adjacent(s[i + 1], s[i + 2]));
            } else {
                assert(t[j] == s[j + 2] && t[j + 1] == s[j + 3]);
            }
        }
        assert(t[0] == s[0]);
        assert(t.last() == s.last());
        lemma_walk_without_leaf(g, g2, w, h, c, nb, t);
    } else {
        assert forall|j: int| 0 <= j < s.len() implies floor_at(g2, w, h, #[trigger] s[j]) by {
            assert(s[j] != c);
            assert(floor_at(g, w, h, s[j]));
        }
        assert(floor_path(g2, w, h, s));
    }
}

/// A dead end has one floor neighbour.
pub proof fn lemma_dead_end_neighbor(g: Seq<Vec<u16>>, w: int, h: int, x: int, y: int) -> (nb: (int, int))
    requires
        grid_wf(g, w, h),
        is_dead_end(g, w, h, x, y),
    ensures
        only_floor_neighbor(g, w, h, (x, y), nb),
{
    let nb = if cell(g, x + 1, y) != 0 {
        (x + 1, y)
    } else if cell(g, x, y + 1) != 0 {
        (x, y + 1)
    } else if cell(g, x - 1, y) != 0 {
        (x - 1, y)
    } else {
        (x, y - 1)
    };
    assert forall|m: (int, int)| adjacent(m, (x, y)) && #[trigger] floor_at(g, w, h, m) implies m == nb by {
        assert(m == (x + 1, y) || m == (x, y + 1) || m == (x - 1, y) || m == (x, y - 1));
    }
    nb
}

/// `s` is a walk over cells that all hold id `v`, each next to the one before.
pub open spec fn id_path(g: Seq<Vec<u16>>, w: int, h: int, v: u16, s: Seq<(int, int)>) -> bool {
    &&& s.len() >= 1
    &&& forall|i: int|
        0 <= i < s.len() ==> in_grid(w, h, (#[trigger] s[i]).0, s[i].1) && cell(g, s[i].0, s[i].1) == v
    &&& forall|i: int| 0 <= i < s.len() - 1 ==> adjacent(#[trigger] s[i], s[i + 1])
}

/// A walk over cells holding id `v` leads from `a` to `b`.
pub open spec fn joined_in(g: Seq<Vec<u16>>, w: int, h: int, v: u16, a: (int, int), b: (int, int)) -> bool {
    exists|s: Seq<(int, int)>| #[trigger] id_path(g, w, h, v, s) && s[0] == a && s.last() == b
}

/// Walks over cells holding `v` survive changes that keep every such cell.
pub proof fn lemma_joined_in_kept(
    g: Seq<Vec<u16>>,
    g2: Seq<Vec<u16>>,
    w: int,
    h: int,
    v: u16,
    a: (int, int),
    b: (int, int),
)
    requires
        joined_in(g, w, h, v, a, b),
        forall|x: int, y: int| in_grid(w, h, x, y) && cell(g, x, y) == v ==> #[trigger] cell(g2, x, y) == v,
    ensures
        joined_in(g2, w, h, v, a, b),
{
    let s = choose|s: Seq<(int, int)>| #[trigger] id_path(g, w, h, v, s) && s[0] == a && s.last() == b;
    assert forall|i: int| 0 <= i < s.len() implies in_grid(w, h, (#[trigger] s[i]).0, s[i].1) && cell(
        g2,
        s[i].0,
        s[i].1,
    ) == v by {
        assert(cell(g, s[i].0, s[i].1) == v);
    }
    assert(id_path(g2, w, h, v, s));
}

/// A walk over cells holding `v` extends by one step onto a next cell holding `v`.
pub proof fn lemma_joined_in_step(
    g: Seq<Vec<u16>>,
    w: int,
    h: int,
    v: u16,
    a: (int, int),
    b: (int, int),
    d: (int, int),
)
    requires
        joined_in(g, w, h, v, a, b),
        adjacent(b, d),
        in_grid(w, h, d.0, d.1),
        cell(g, d.0, d.1) == v,
    ensures
        joined_in(g, w, h, v, a, d),
{
    let s = choose|s: Seq<(int, int)>| #[trigger] id_path(g, w, h, v, s) && s[0] == a && s.last() == b;
    let t = s.push(d);
    assert forall|i: int| 0 <= i < t.len() implies in_grid(w, h, (#[trigger] t[i]).0, t[i].1) && cell(
        g,
        t[i].0,
        t[i].1,
    ) == v by {
        if i < s.len() {
            assert(t[i] == s[i]);
        }
    }
    assert forall|i: int| 0 <= i < t.len() - 1 implies adjacent(#[trigger] t[i], t[i + 1]) by {
        if i < s.len() - 1 {
            assert(t[i] == s[i] && t[i + 1] == s[i + 1]);
        } else {
            assert(t[i] == b && t[i + 1] == d);
        }
    }
    assert(id_path(g, w, h, v, t) && t[0] == a && t.last() == d);
}

/// Every floor cell on an even column and odd row has floor to its left and
/// right, and every one on an odd column and even row has floor above and below:
/// passages only run between floor cells.
#[verifier::opaque]
pub open spec fn passages_joined(g: Seq<Vec<u16>>, w: int, h: int) -> bool {
    forall|x: int, y: int|
        interior(w, h, x, y) && #[trigger] cell(g, x, y) != 0 ==> (x % 2 == 0 && y % 2 == 1 ==> cell(
            g,
            x - 1,
            y,
        ) != 0 && cell(g, x + 1, y) != 0) && (x % 2 == 1 && y % 2 == 0 ==> cell(g, x, y - 1) != 0
            && cell(g, x, y + 1) != 0)
}

/// The cell between an odd cell and a wall two steps away is wall.
pub proof fn lemma_passage_is_wall(
    g: Seq<Vec<u16>>,
    w: int,
    h: int,
    c: (int, int),
    a: (int, int),
    b: (int, int),
)
    requires
        passages_joined(g, w, h),
        interior(w, h, a.0, a.1),
        adjacent(c, a),
        a.0 - c.0 == b.0 - a.0 && a.1 - c.1 == b.1 - a.1,
        cell(g, b.0, b.1) == 0,
        c.0 % 2 == 1 && c.1 % 2 == 1,
    ensures
        cell(g, a.0, a.1) == 0,
{
    reveal(passages_joined);
    if cell(g, a.0, a.1) != 0 {
        if a.1 == c.1 {
            assert(a.0 % 2 == 0 && a.1 % 2 == 1);
        } else {
            assert(a.0 % 2 == 1 && a.1 % 2 == 0);
        }
    }
}

/// Carving the passage `a` between the floor cell `c` and the cell `b` beyond it
/// keeps passages running between floor cells.
pub proof fn lemma_passage_carved(
    g_prev: Seq<Vec<u16>>,
    g: Seq<Vec<u16>>,
    w: int,
    h: int,
    c: (int, int),
    a: (int, int),
    b: (int, int),
)
    requires
        passages_joined(g_prev, w, h),
        adjacent(c, a),
        a.0 - c.0 == b.0 - a.0 && a.1 - c.1 == b.1 - a.1,
        cell(g, c.0, c.1) != 0,
        cell(g, a.0, a.1) != 0,
        cell(g, b.0, b.1) != 0,
        forall|x: int, y: int|
            in_grid(w, h, x, y) && (x, y) != a && (x, y) != b ==> #[trigger] cell(g, x, y) == cell(g_prev, x, y),
        forall|x: int, y: int|
            in_grid(w, h, x, y) && cell(g_prev, x, y) != 0 ==> #[trigger] cell(g, x, y) != 0,
        b.0 % 2 == 1 && b.1 % 2 == 1,
    ensures
        passages_joined(g, w, h),
{
    reveal(passages_joined);
    assert forall|x: int, y: int|
        interior(w, h, x, y) && #[trigger] cell(g, x, y) != 0 implies (x % 2 == 0 && y % 2 == 1 ==> cell(
            g,
            x - 1,
            y,
        ) != 0 && cell(g, x + 1, y) != 0) && (x % 2 == 1 && y % 2 == 0 ==> cell(g, x, y - 1) != 0
            && cell(g, x, y + 1) != 0) by {
        if (x, y) != a && (x, y) != b {
            assert(cell(g_prev, x, y) != 0);
            if cell(g_prev, x - 1, y) != 0 {
                assert(cell(g, x - 1, y) != 0);
            }
            if cell(g_prev, x + 1, y) != 0 {
                assert(cell(g, x + 1, y) != 0);
            }
            if cell(g_prev, x, y - 1) != 0 {
                assert(cell(g, x, y - 1) != 0);
            }
            if cell(g_prev, x, y + 1) != 0 {
                assert(cell(g, x, y + 1) != 0);
            }
        }
    }
}

/// Setting an odd-odd cell to floor keeps passages running between floor cells.
pub proof fn lemma_passage_odd_carved(g_prev: Seq<Vec<u16>>, g: Seq<Vec<u16>>, w: int, h: int, p: (int, int))
    requires
        passages_joined(g_prev, w, h),
        p.0 % 2 == 1 && p.1 % 2 == 1,
        forall|x: int, y: int|
            in_grid(w, h, x, y) && (x, y) != p ==> #[trigger] cell(g, x, y) == cell(g_prev, x, y),
        forall|x: int, y: int|
            in_grid(w, h, x, y) && cell(g_prev, x, y) != 0 ==> #[trigger] cell(g, x, y) != 0,
    ensures
        passages_joined(g, w, h),
{
    reveal(passages_joined);
    assert forall|x: int, y: int|
        interior(w, h, x, y) && #[trigger] cell(g, x, y) != 0 implies (x % 2 == 0 && y % 2 == 1 ==> cell(
            g,
            x - 1,
            y,
        ) != 0 && cell(g, x + 1, y) != 0) && (x % 2 == 1 && y % 2 == 0 ==> cell(g, x, y - 1) != 0
            && cell(g, x, y + 1) != 0) by {
        if (x, y) != p {
            assert(cell(g_prev, x, y) != 0);
            if cell(g_prev, x - 1, y) != 0 {
                assert(cell(g, x - 1, y) != 0);
            }
            if cell(g_prev, x + 1, y) != 0 {
                assert(cell(g, x + 1, y) != 0);
            }
            if cell(g_prev, x, y - 1) != 0 {
                assert(cell(g, x, y - 1) != 0);
            }
            if cell(g_prev, x, y + 1) != 0 {
                assert(cell(g, x, y + 1) != 0);
            }
        }
    }
}

/// No cell of the grid is a dead end.
pub open spec fn no_dead_ends(g: Seq<Vec<u16>>, w: int, h: int) -> bool {
    forall|x: int, y: int| !#[trigger] is_dead_end(g, w, h, x, y)
}

/// Wall on the left-right axis between two different regions.
pub open spec fn joins_across(g: Seq<Vec<u16>>, w: int, x: int, y: int) -> bool {
    0 < x < w - 1 && cell(g, x - 1, y) != 0 && cell(g, x + 1, y) != 0 && cell(g, x - 1, y)
        != cell(g, x + 1, y)
}

/// Wall on the up-down axis between two different regions.
pub open spec fn joins_down(g: Seq<Vec<u16>>, h: int, x: int, y: int) -> bool {
    0 < y < h - 1 && cell(g, x, y - 1) != 0 && cell(g, x, y + 1) != 0 && cell(g, x, y - 1)
        != cell(g, x, y + 1)
}

/// A wall cell whose opposite neighbours along one axis are two different regions.
pub open spec fn is_connector(g: Seq<Vec<u16>>, w: int, h: int, x: int, y: int) -> bool {
    &&& in_grid(w, h, x, y)
    &&& cell(g, x, y) == 0
    &&& joins_across(g, w, x, y) || joins_down(g, h, x, y)
}

/// The two regions a connector separates: the left-right pair where that axis
/// joins two regions, else the up-down pair.
pub open spec fn connector_regions(g: Seq<Vec<u16>>, w: int, x: int, y: int) -> (u16, u16) {
    if joins_across(g, w, x, y) {
        (cell(g, x - 1, y), cell(g, x + 1, y))
    } else {
        (cell(g, x, y - 1), cell(g, x, y + 1))
    }
}

/// Number of cells of a row that are wall (`wall`) or floor (`!wall`).
pub open spec fn row_count(r: Seq<u16>, wall: bool) -> nat
    decreases r.len(),
{
    if r.len() == 0 {
        0
    } else {
        row_count(r.drop_last(), wall) + if (r.last() == 0) == wall { 1nat } else { 0nat }
    }
}

/// Number of cells of the grid that are wall (`wall`) or floor (`!wall`).
pub open spec fn grid_count(g: Seq<Vec<u16>>, wall: bool) -> nat
    decreases g.len(),
{
    if g.len() == 0 {
        0
    } else {
        grid_count(g.drop_last(), wall) + row_count(g.last()@, wall)
    }
}

/// The count of a row after one cell is set.
pub proof fn lemma_row_count_update(r: Seq<u16>, i: int, v: u16, wall: bool)
    requires
        0 <= i < r.len(),
    ensures
        row_count(r.update(i, v), wall) + (if (r[i] == 0) == wall { 1int } else { 0int })
            == row_count(r, wall) + (if (v == 0) == wall { 1int } else { 0int }),
    decreases r.len(),
{
    let s = r.update(i, v);
    if i == r.len() - 1 {
        assert(s.drop_last() =~= r.drop_last());
    } else {
        assert(s.drop_last() =~= r.drop_last().update(i, v));
        lemma_row_count_update(r.drop_last(), i, v, wall);
    }
}

/// The count of the grid after one row is replaced.
pub proof fn lemma_grid_count_update(g: Seq<Vec<u16>>, y: int, row: Vec<u16>, wall: bool)
    requires
        0 <= y < g.len(),
    ensures
        grid_count(g.update(y, row), wall) + row_count(g[y]@, wall) == grid_count(g, wall)
            + row_count(row@, wall),
    decreases g.len(),
{
    let s = g.update(y, row);
    if y == g.len() - 1 {
        assert(s.drop_last() =~= g.drop_last());
    } else {
        assert(s.drop_last() =~= g.drop_last().update(y, row));
        lemma_grid_count_update(g.drop_last(), y, row, wall);
    }
}

/// Setting a wall cell of the grid to floor lowers the wall count by one.
pub proof fn lemma_carve_lowers_walls(g: Seq<Vec<u16>>, x: int, y: int, row: Vec<u16>, v: u16)
    requires
        0 <= y < g.len(),
        0 <= x < g[y]@.len(),
        row@ == g[y]@.update(x, v),
    ensures
        cell(g, x, y) == 0 && v != 0 ==> grid_count(g.update(y, row), true) + 1 == grid_count(
            g,
            true,
        ),
        cell(g, x, y) != 0 && v != 0 ==> grid_count(g.update(y, row), true) == grid_count(g, true),
        cell(g, x, y) != 0 && v == 0 ==> grid_count(g.update(y, row), false) + 1 == grid_count(
            g,
            false,
        ),
{
    lemma_row_count_update(g[y]@, x, v, true);
    lemma_row_count_update(g[y]@, x, v, false);
    lemma_grid_count_update(g, y, row, true);
    lemma_grid_count_update(g, y, row, false);
}

} // verus!
