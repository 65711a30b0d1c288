//! The generator: room placement, maze carving, region merging and dead-end pruning.
use vstd::prelude::*;
use crate::grid::{
    border_walls, cell, connector_regions, floor_neighbors, grid_count, grid_wf,
    all_floor, floor_at, floor_connected, floor_path, has_floor, joined, passages_joined, lemma_passage_is_wall, lemma_passage_carved, lemma_passage_odd_carved, joined_in, lemma_joined_in_kept, lemma_joined_in_step, id_path, adjacent, lemma_dead_end_neighbor, lemma_walk_without_leaf, in_grid, interior, neighbors_in, well_linked, is_connector, is_dead_end, joins_across,
    lemma_carve_lowers_walls, no_dead_ends,
};
use crate::rect::{lemma_apart_rects_share_no_cell, rect_contains, rects_overlap, URect};
use crate::rng::{choose_item, gen_range, DRAW_LIMIT};

verus! {

const DUNGEON_WIDTH: usize = 64;
const DUNGEON_HEIGHT: usize = 36;
const MAX_ROOM_SIZE: usize = 11;
const ROOM_ATTEMPTS: u16 = 600;
const WINDING_CHANCE: u8 = 50;
const CONNECTIVITY_CHANCE: u8 = 10;

/// Largest number of cells a generator is run with, so that every count of
/// cells stays within the random draws' range.
pub const MAX_CELLS: usize = 0x1_0000;

/// Column step of direction `d`: right, down, left, up for 0 to 3.
pub open spec fn dx(d: usize) -> int {
    if d == 0 {
        1
    } else if d == 2 {
        -1
    } else {
        0
    }
}

/// Row step of direction `d`.
pub open spec fn dy(d: usize) -> int {
    if d == 1 {
        1
    } else if d == 3 {
        -1
    } else {
        0
    }
}

/// From `(x, y)` the maze may extend two cells in direction `d`: the target is
/// still wall and one more cell beyond it lies on the grid.
pub open spec fn carveable(g: Seq<Vec<u16>>, w: int, h: int, x: int, y: int, d: usize) -> bool {
    in_grid(w, h, x + 3 * dx(d), y + 3 * dy(d)) && cell(g, x + 2 * dx(d), y + 2 * dy(d)) == 0
}

/// No direction is open from `(x, y)`: the maze cannot grow from there.
pub open spec fn exhausted(g: Seq<Vec<u16>>, w: int, h: int, x: int, y: int) -> bool {
    forall|d: usize| d < 4 ==> !#[trigger] carveable(g, w, h, x, y, d)
}

/// `(x, y)` is an even number of cells away from `(sx, sy)` on each axis.
pub open spec fn even_offset(x: int, y: int, sx: int, sy: int) -> bool {
    (x - sx) % 2 == 0 && (y - sy) % 2 == 0
}

/// Cell `(x, y)` is on the stack.
pub open spec fn on_stack(cells: Seq<(usize, usize)>, x: int, y: int) -> bool {
    exists|k: int| 0 <= k < cells.len() && (#[trigger] cells[k]).0 == x && cells[k].1 == y
}

/// The cell `k` steps from `(x, y)` in direction `d`.
fn step(x: usize, y: usize, d: usize, k: usize) -> (r: (usize, usize))
    requires
        d < 4,
        0 <= x + k * dx(d) <= usize::MAX,
        0 <= y + k * dy(d) <= usize::MAX,
    ensures
        r.0 == x + k * dx(d),
        r.1 == y + k * dy(d),
{
    if d == 0 {
        (x + k, y)
    } else if d == 1 {
        (x, y + k)
    } else if d == 2 {
        (x - k, y)
    } else {
        (x, y - k)
    }
}

/// A room as placed: odd origin and odd sides of at least 3, inside the one-cell
/// margin of a `w` by `h` grid.
pub open spec fn room_fits(r: URect, w: int, h: int) -> bool {
    &&& r.x % 2 == 1 && r.y % 2 == 1
    &&& r.w % 2 == 1 && r.h % 2 == 1
    &&& r.w >= 3 && r.h >= 3
    &&& r.x + r.w <= w - 1 && r.y + r.h <= h - 1
}

/// The rooms fit the grid, no two overlap, and the `k`-th room's cells hold id `k + 1`.
pub open spec fn rooms_stamped(g: Seq<Vec<u16>>, w: int, h: int, rooms: Seq<URect>) -> bool {
    &&& forall|k: int| 0 <= k < rooms.len() ==> room_fits(#[trigger] rooms[k], w, h)
    &&& forall|k: int, l: int|
        0 <= k < l < rooms.len() ==> !rects_overlap(#[trigger] rooms[k], #[trigger] rooms[l])
    &&& forall|k: int, x: int, y: int|
        0 <= k < rooms.len() && rect_contains(#[trigger] rooms[k], x, y) ==> #[trigger] cell(g, x, y)
            == k + 1
}

/// Each listed entry `(x, y, a, b)` is an interior connector of `g` and of `g0`
/// with `(a, b)` the regions it separates in `g0`, and no cell is listed twice.
pub open spec fn connectors_listed(
    g: Seq<Vec<u16>>,
    g0: Seq<Vec<u16>>,
    w: int,
    h: int,
    list: Seq<(usize, usize, u16, u16)>,
) -> bool {
    &&& forall|k: int|
        0 <= k < list.len() ==> interior(w, h, (#[trigger] list[k]).0 as int, list[k].1 as int)
            && is_connector(g, w, h, list[k].0 as int, list[k].1 as int) && is_connector(
            g0,
            w,
            h,
            list[k].0 as int,
            list[k].1 as int,
        ) && connector_regions(g0, w, list[k].0 as int, list[k].1 as int) == (list[k].2, list[k].3)
    &&& forall|k: int, l: int|
        0 <= k < l < list.len() ==> (#[trigger] list[k]).0 != (#[trigger] list[l]).0 || list[k].1
            != list[l].1
}

/// Cell `(x, y)` has an entry in `list`.
pub open spec fn listed_at(list: Seq<(usize, usize, u16, u16)>, x: int, y: int) -> bool {
    exists|k: int| 0 <= k < list.len() && (#[trigger] list[k]).0 == x && list[k].1 == y
}

/// Both regions of the pair are in `m`.
pub open spec fn both_merged(m: Seq<u16>, r: (u16, u16)) -> bool {
    m.contains(r.0) && m.contains(r.1)
}

/// Cell `(x, y)` was a connector of `g0` between regions `a` and `b` and is
/// floor in `g`.
pub open spec fn joined_by(
    g: Seq<Vec<u16>>,
    g0: Seq<Vec<u16>>,
    w: int,
    h: int,
    x: int,
    y: int,
    a: u16,
    b: u16,
) -> bool {
    &&& is_connector(g0, w, h, x, y)
    &&& cell(g, x, y) != 0
    &&& connector_regions(g0, w, x, y) == (a, b) || connector_regions(g0, w, x, y) == (b, a)
}

/// Region `m[k]` was joined to a region before it in `m` through a connector of
/// `g0` that is open in `g`.
pub open spec fn joined_earlier(
    g: Seq<Vec<u16>>,
    g0: Seq<Vec<u16>>,
    w: int,
    h: int,
    m: Seq<u16>,
    k: int,
) -> bool {
    exists|j: int, x: int, y: int| 0 <= j < k && #[trigger] joined_by(g, g0, w, h, x, y, m[k], m[j])
}

/// Each region of `m` after the first was joined to one before it through a
/// connector of `g0` that is open in `g`.
pub open spec fn merged_through_opened(
    g: Seq<Vec<u16>>,
    g0: Seq<Vec<u16>>,
    w: int,
    h: int,
    m: Seq<u16>,
) -> bool {
    forall|k: int| 1 <= k < m.len() ==> #[trigger] joined_earlier(g, g0, w, h, m, k)
}

/// No connector of `g0` joins a region of `m` to a region outside it.
pub open spec fn merged_closed(g0: Seq<Vec<u16>>, w: int, h: int, m: Seq<u16>) -> bool {
    forall|x: int, y: int|
        #[trigger] is_connector(g0, w, h, x, y) && (m.contains(connector_regions(g0, w, x, y).0)
            || m.contains(connector_regions(g0, w, x, y).1)) ==> both_merged(
            m,
            connector_regions(g0, w, x, y),
        )
}

/// From `g0` to `g` floor stayed as it was, and each wall cell that became
/// floor was a connector of `g0` and took the id of one of the two regions it
/// separated there.
pub open spec fn opened_connectors_only(g: Seq<Vec<u16>>, g0: Seq<Vec<u16>>, w: int, h: int) -> bool {
    forall|x: int, y: int|
        in_grid(w, h, x, y) && #[trigger] cell(g, x, y) != cell(g0, x, y) ==> cell(g0, x, y) == 0
            && cell(g, x, y) != 0 && is_connector(g0, w, h, x, y) && (cell(g, x, y)
            == connector_regions(g0, w, x, y).0 || cell(g, x, y) == connector_regions(g0, w, x, y).1)
}

/// A cell on odd coordinates off the border: where rooms and maze blobs lie.
pub open spec fn odd_cell(w: int, h: int, x: int, y: int) -> bool {
    interior(w, h, x, y) && x % 2 == 1 && y % 2 == 1
}

/// The configuration of one dungeon: its size and the knobs of each stage.
pub struct Generator {
    pub dungeon_width: usize,
    pub dungeon_height: usize,
    pub max_room_size: usize,
    pub room_attempts: u16,
    pub winding_chance: u8,
    pub connectivity_chance: u8,
}

impl Generator {
    pub open spec fn w(&self) -> int {
        self.dungeon_width as int
    }

    pub open spec fn h(&self) -> int {
        self.dungeon_height as int
    }

    /// Width, height and area within the supported range.
    pub open spec fn bounded(&self) -> bool {
        &&& self.dungeon_width <= MAX_CELLS
        &&& self.dungeon_height <= MAX_CELLS
        &&& self.dungeon_width * self.dungeon_height <= MAX_CELLS
    }

    /// A grid of this generator's size.
    pub open spec fn sized(&self, g: Seq<Vec<u16>>) -> bool {
        grid_wf(g, self.w(), self.h())
    }

    pub fn new() -> (r: Self)
        ensures
            r.dungeon_width == 64,
            r.dungeon_height == 36,
            r.max_room_size == 11,
            r.room_attempts == 600,
            r.winding_chance == 50,
            r.connectivity_chance == 10,
    {
        Generator {
            dungeon_width: DUNGEON_WIDTH,
            dungeon_height: DUNGEON_HEIGHT,
            max_room_size: MAX_ROOM_SIZE,
            room_attempts: ROOM_ATTEMPTS,
            winding_chance: WINDING_CHANCE,
            connectivity_chance: CONNECTIVITY_CHANCE,
        }
    }

    /// Sets cell `(x, y)` to `value`, leaving every other cell as it was.
    fn carve(&self, map: &mut Vec<Vec<u16>>, x: usize, y: usize, value: u16)
        requires
            self.sized(old(map)@),
            in_grid(self.w(), self.h(), x as int, y as int),
        ensures
            self.sized(final(map)@),
            cell(final(map)@, x as int, y as int) == value,
            forall|i: int, j: int|
                in_grid(self.w(), self.h(), i, j) && (i != x || j != y) ==> #[trigger] cell(
                    final(map)@,
                    i,
                    j,
                ) == cell(old(map)@, i, j),
            cell(old(map)@, x as int, y as int) == 0 && value != 0 ==> grid_count(final(map)@, true)
                + 1 == grid_count(old(map)@, true),
            cell(old(map)@, x as int, y as int) != 0 && value != 0 ==> grid_count(final(map)@, true)
                == grid_count(old(map)@, true),
            cell(old(map)@, x as int, y as int) != 0 && value == 0 ==> grid_count(
                final(map)@,
                false,
            ) + 1 == grid_count(old(map)@, false),
    {
        map[y][x] = value;
        proof {
            lemma_carve_lowers_walls(old(map)@, x as int, y as int, map@[y as int], value);
            assert(map@ =~= old(map)@.update(y as int, map@[y as int]));
        }
    }
    /// Number of floor cells next to the interior cell `(x, y)`.
    fn exits(&self, map: &Vec<Vec<u16>>, x: usize, y: usize) -> (r: u8)
        requires
            self.sized(map@),
            interior(self.w(), self.h(), x as int, y as int),
        ensures
            r as int == floor_neighbors(map@, x as int, y as int),
    {
        let mut n: u8 = 0;
        if map[y][x + 1] != 0 {
            n = n + 1;
        }
        if map[y + 1][x] != 0 {
            n = n + 1;
        }
        if map[y][x - 1] != 0 {
            n = n + 1;
        }
        if map[y - 1][x] != 0 {
            n = n + 1;
        }
        n
    }

    /// The first dead end in row order, if there is one.
    fn find_dead_end(&self, map: &Vec<Vec<u16>>) -> (r: Option<(usize, usize)>)
        requires
            self.sized(map@),
        ensures
            r is None ==> no_dead_ends(map@, self.w(), self.h()),
            r matches Some(p) ==> is_dead_end(map@, self.w(), self.h(), p.0 as int, p.1 as int),
    {
        let w = self.dungeon_width;
        let h = self.dungeon_height;
        if w < 3 || h < 3 {
            return None;
        }
        let mut y: usize = 1;
        while y < h - 1
            invariant
                self.sized(map@),
                w == self.dungeon_width,
                h == self.dungeon_height,
                3 <= w && 3 <= h,
                1 <= y <= h - 1,
                forall|i: int, j: int| j < y ==> !#[trigger] is_dead_end(map@, w as int, h as int, i, j),
            decreases h - y,
        {
            let mut x: usize = 1;
            while x < w - 1
                invariant
                    self.sized(map@),
                    w == self.dungeon_width,
                    h == self.dungeon_height,
                    1 <= y < h - 1,
                    3 <= w,
                    1 <= x <= w - 1,
                    forall|i: int, j: int|
                        j < y || (j == y && i < x) ==> !#[trigger] is_dead_end(map@, w as int, h as int, i, j),
                decreases w - x,
            {
                if map[y][x] != 0 && self.exits(map, x, y) == 1 {
                    return Some((x, y));
                }
                x = x + 1;
            }
            y = y + 1;
        }
        None
    }

    /// Turns dead ends back into wall, one at a time, until none is left.
    pub fn remove_dead_ends(&self, map: &mut Vec<Vec<u16>>)
        requires
            self.sized(old(map)@),
        ensures
            self.sized(final(map)@),
            no_dead_ends(final(map)@, self.w(), self.h()),
            no_dead_ends(old(map)@, self.w(), self.h()) ==> final(map)@ == old(map)@,
            has_floor(old(map)@, self.w(), self.h()) ==> has_floor(final(map)@, self.w(), self.h()),
            floor_connected(old(map)@, self.w(), self.h()) ==> floor_connected(
                final(map)@,
                self.w(),
                self.h(),
            ),
            forall|s: Set<(int, int)>|
                #[trigger] well_linked(old(map)@, self.w(), self.h(), s) ==> all_floor(final(map)@, s),
            forall|x: int, y: int|
                in_grid(self.w(), self.h(), x, y) ==> #[trigger] cell(final(map)@, x, y) == cell(
                    old(map)@,
                    x,
                    y,
                ) || cell(final(map)@, x, y) == 0,
            border_walls(old(map)@, self.w(), self.h()) ==> border_walls(
                final(map)@,
                self.w(),
                self.h(),
            ),
    {
        let mut found = self.find_dead_end(map);
        while found.is_some()
            invariant
                self.sized(map@),
                found is None ==> no_dead_ends(map@, self.w(), self.h()),
                found matches Some(p) ==> is_dead_end(map@, self.w(), self.h(), p.0 as int, p.1 as int),
                no_dead_ends(old(map)@, self.w(), self.h()) ==> map@ == old(map)@,
                has_floor(old(map)@, self.w(), self.h()) ==> has_floor(map@, self.w(), self.h()),
                floor_connected(old(map)@, self.w(), self.h()) ==> floor_connected(map@, self.w(), self.h()),
                forall|s: Set<(int, int)>|
                    #[trigger] well_linked(old(map)@, self.w(), self.h(), s) ==> all_floor(map@, s),
                forall|x: int, y: int|
                    in_grid(self.w(), self.h(), x, y) ==> #[trigger] cell(map@, x, y) == cell(
                        old(map)@,
                        x,
                        y,
                    ) || cell(map@, x, y) == 0,
                border_walls(old(map)@, self.w(), self.h()) ==> border_walls(map@, self.w(), self.h()),
            decreases grid_count(map@, false),
        {
            if let Some((x, y)) = found {
                proof {
                    if no_dead_ends(old(map)@, self.w(), self.h()) {
                        assert(!is_dead_end(old(map)@, self.w(), self.h(), x as int, y as int));
                    }
                }
                let ghost prev = map@;
                self.carve(map, x, y, 0);
                proof {
                    if floor_connected(old(map)@, self.w(), self.h()) {
                        let c = (x as int, y as int);
                        let nb = lemma_dead_end_neighbor(prev, self.w(), self.h(), x as int, y as int);
                        assert forall|p: (int, int)| p != c implies #[trigger] floor_at(map@, self.w(), self.h(), p)
                            == floor_at(prev, self.w(), self.h(), p) by {
                            if in_grid(self.w(), self.h(), p.0, p.1) {
                                assert(cell(map@, p.0, p.1) == cell(prev, p.0, p.1));
                            }
                        }
                        assert forall|a: (int, int), b: (int, int)|
                            #[trigger] floor_at(map@, self.w(), self.h(), a) && #[trigger] floor_at(
                                map@,
                                self.w(),
                                self.h(),
                                b,
                            ) implies joined(map@, self.w(), self.h(), a, b) by {
                            assert(a != c && b != c);
                            assert(floor_at(prev, self.w(), self.h(), a) && floor_at(prev, self.w(), self.h(), b));
                            let sp = choose|sp: Seq<(int, int)>|
                                #[trigger] floor_path(prev, self.w(), self.h(), sp) && sp[0] == a && sp.last() == b;
                            lemma_walk_without_leaf(prev, map@, self.w(), self.h(), c, nb, sp);
                        }
                    }
                    assert forall|s: Set<(int, int)>|
                        #[trigger] well_linked(old(map)@, self.w(), self.h(), s) implies all_floor(map@, s) by {
                        assert(all_floor(prev, s));
                        if s.contains((x as int, y as int)) {
                            let cx = x as int;
                            let cy = y as int;
                            if s.contains((cx + 1, cy)) {
                                assert(cell(prev, cx + 1, cy) != 0);
                            }
                            if s.contains((cx, cy + 1)) {
                                assert(cell(prev, cx, cy + 1) != 0);
                            }
                            if s.contains((cx - 1, cy)) {
                                assert(cell(prev, cx - 1, cy) != 0);
                            }
                            if s.contains((cx, cy - 1)) {
                                assert(cell(prev, cx, cy - 1) != 0);
                            }
                            assert(false);
                        }
                        assert forall|p: (int, int)| #[trigger] s.contains(p) implies cell(map@, p.0, p.1) != 0 by {
                            assert(cell(prev, p.0, p.1) != 0);
                            assert(in_grid(self.w(), self.h(), p.0, p.1));
                        }
                    }
                    if has_floor(old(map)@, self.w(), self.h()) {
                        let (fx, fy) = choose|fx: int, fy: int|
                            in_grid(self.w(), self.h(), fx, fy) && #[trigger] cell(prev, fx, fy) != 0;
                        if fx != x || fy != y {
                            assert(cell(map@, fx, fy) != 0);
                        } else if cell(prev, x + 1, y as int) != 0 {
                            assert(cell(map@, x + 1, y as int) != 0);
                        } else if cell(prev, x as int, y + 1) != 0 {
                            assert(cell(map@, x as int, y + 1) != 0);
                        } else if cell(prev, x - 1, y as int) != 0 {
                            assert(cell(map@, x - 1, y as int) != 0);
                        } else {
                            assert(cell(map@, x as int, y - 1) != 0);
                        }
                    }
                }
            }
            found = self.find_dead_end(map);
        }
    }
    /// Whether the maze may extend two cells from `(x, y)` in direction `d`.
    fn can_carve(&self, map: &Vec<Vec<u16>>, x: usize, y: usize, d: usize) -> (r: bool)
        requires
            self.sized(map@),
            in_grid(self.w(), self.h(), x as int, y as int),
            d < 4,
        ensures
            r == carveable(map@, self.w(), self.h(), x as int, y as int, d),
    {
        let inside = if d == 0 {
            self.dungeon_width >= 3 && x < self.dungeon_width - 3
        } else if d == 1 {
            self.dungeon_height >= 3 && y < self.dungeon_height - 3
        } else if d == 2 {
            x >= 3
        } else {
            y >= 3
        };
        if !inside {
            return false;
        }
        let (nx, ny) = step(x, y, d, 2);
        map[ny][nx] == 0
    }

    /// Grows one maze blob with id `id` from the interior cell `(sx, sy)`:
    /// a depth-first walk that moves two cells at a time into wall, keeps its
    /// last direction unless a draw below `winding_chance` says otherwise, and
    /// backtracks when no direction is open. When it returns, no cell of the blob
    /// that the walk stood on can grow any further.
    #[verifier::rlimit(100)]
    pub fn make_maze(&self, map: &mut Vec<Vec<u16>>, sx: usize, sy: usize, id: u16)
        requires
            self.sized(old(map)@),
            self.bounded(),
            interior(self.w(), self.h(), sx as int, sy as int),
            cell(old(map)@, sx as int, sy as int) == 0,
            sx % 2 == 1 && sy % 2 == 1,
            passages_joined(old(map)@, self.w(), self.h()),
            id != 0,
        ensures
            self.sized(final(map)@),
            cell(final(map)@, sx as int, sy as int) == id,
            passages_joined(final(map)@, self.w(), self.h()),
            forall|x: int, y: int|
                in_grid(self.w(), self.h(), x, y) && #[trigger] cell(final(map)@, x, y) != cell(
                    old(map)@,
                    x,
                    y,
                ) ==> cell(old(map)@, x, y) == 0,
            forall|x: int, y: int|
                in_grid(self.w(), self.h(), x, y) && #[trigger] cell(final(map)@, x, y) != cell(
                    old(map)@,
                    x,
                    y,
                ) ==> joined_in(final(map)@, self.w(), self.h(), id, (sx as int, sy as int), (x, y)),
            forall|x: int, y: int|
                in_grid(self.w(), self.h(), x, y) && #[trigger] cell(final(map)@, x, y) != cell(
                    old(map)@,
                    x,
                    y,
                ) ==> ((x - sx) % 2 == 0 || (y - sy) % 2 == 0) && (even_offset(x, y, sx as int, sy as int)
                    ==> cell(old(map)@, x, y) == 0),
            forall|x: int, y: int|
                in_grid(self.w(), self.h(), x, y) && #[trigger] cell(final(map)@, x, y) != cell(
                    old(map)@,
                    x,
                    y,
                ) ==> interior(self.w(), self.h(), x, y) && cell(final(map)@, x, y) == id,
            forall|x: int, y: int|
                in_grid(self.w(), self.h(), x, y) && (#[trigger] cell(final(map)@, x, y) != cell(
                    old(map)@,
                    x,
                    y,
                ) || (x == sx && y == sy)) && even_offset(x, y, sx as int, sy as int) ==> exhausted(
                    final(map)@,
                    self.w(),
                    self.h(),
                    x,
                    y,
                ),
    {
        let ghost w = self.w();
        let ghost h = self.h();
        let ghost mut visited: Set<(int, int)> = Set::empty().insert((sx as int, sy as int));
        let mut last_dir: usize = 0;
        let mut cells: Vec<(usize, usize)> = Vec::new();
        cells.push((sx, sy));
        self.carve(map, sx, sy, id);
        proof {
            lemma_passage_odd_carved(old(map)@, map@, w, h, (sx as int, sy as int));
        }
        assert(cells@[0] == (sx, sy));
        assert(on_stack(cells@, sx as int, sy as int));
        proof {
            let s0 = seq![(sx as int, sy as int)];
            assert(id_path(map@, w, h, id, s0));
            assert(joined_in(map@, w, h, id, (sx as int, sy as int), (sx as int, sy as int)));
        }
        while cells.len() > 0
            invariant
                self.sized(map@),
                self.bounded(),
                w == self.w(),
                h == self.h(),
                id != 0,
                last_dir < 4,
                cell(map@, sx as int, sy as int) == id,
                interior(w, h, sx as int, sy as int),
                forall|k: int|
                    0 <= k < cells@.len() ==> interior(w, h, (#[trigger] cells@[k]).0 as int, cells@[k].1 as int),
                forall|x: int, y: int|
                    in_grid(w, h, x, y) && #[trigger] cell(map@, x, y) != cell(old(map)@, x, y)
                        ==> interior(w, h, x, y) && cell(map@, x, y) == id,
                forall|x: int, y: int|
                    in_grid(w, h, x, y) && #[trigger] cell(map@, x, y) != cell(old(map)@, x, y)
                        ==> joined_in(map@, w, h, id, (sx as int, sy as int), (x, y)),
                sx % 2 == 1 && sy % 2 == 1,
                passages_joined(map@, w, h),
                forall|x: int, y: int|
                    in_grid(w, h, x, y) && #[trigger] cell(map@, x, y) != cell(old(map)@, x, y)
                        ==> cell(old(map)@, x, y) == 0,
                forall|k: int|
                    0 <= k < cells@.len() ==> cell(map@, (#[trigger] cells@[k]).0 as int, cells@[k].1 as int)
                        != 0 && cells@[k].0 % 2 == 1 && cells@[k].1 % 2 == 1,
                forall|k: int|
                    0 <= k < cells@.len() ==> joined_in(
                        map@,
                        w,
                        h,
                        id,
                        (sx as int, sy as int),
                        ((#[trigger] cells@[k]).0 as int, cells@[k].1 as int),
                    ),
                cell(old(map)@, sx as int, sy as int) == 0,
                forall|x: int, y: int|
                    in_grid(w, h, x, y) && #[trigger] cell(map@, x, y) != cell(old(map)@, x, y) ==> ((x
                        - sx) % 2 == 0 || (y - sy) % 2 == 0) && (even_offset(x, y, sx as int, sy as int)
                        ==> cell(old(map)@, x, y) == 0),
                forall|k: int|
                    0 <= k < cells@.len() ==> even_offset(
                        (#[trigger] cells@[k]).0 as int,
                        cells@[k].1 as int,
                        sx as int,
                        sy as int,
                    ) && visited.contains((cells@[k].0 as int, cells@[k].1 as int)),
                forall|p: (int, int)| #[trigger] visited.contains(p) ==> interior(w, h, p.0, p.1),
                forall|p: (int, int)|
                    #[trigger] visited.contains(p) && !on_stack(cells@, p.0, p.1) ==> exhausted(
                        map@,
                        w,
                        h,
                        p.0,
                        p.1,
                    ),
                forall|x: int, y: int|
                    in_grid(w, h, x, y) && (#[trigger] cell(map@, x, y) != cell(old(map)@, x, y) || (x
                        == sx && y == sy)) && even_offset(x, y, sx as int, sy as int) ==> visited.contains(
                        (x, y),
                    ),
            decreases 2 * grid_count(map@, true) + cells@.len(),
        {
            let (cx, cy) = cells[cells.len() - 1];
            assert(interior(w, h, cx as int, cy as int)) by {
                assert(cells@[cells@.len() - 1] == (cx, cy));
            }
            let mut open_dirs: Vec<usize> = Vec::new();
            let mut last_open = false;
            let mut d: usize = 0;
            let ghost before = map@;
            while d < 4
                invariant
                    map@ == before,
                    self.sized(map@),
                    self.bounded(),
                    interior(w, h, cx as int, cy as int),
                    w == self.w(),
                    h == self.h(),
                    d <= 4,
                    last_dir < 4,
                    open_dirs@.len() <= d,
                    forall|k: int|
                        0 <= k < open_dirs@.len() ==> #[trigger] open_dirs@[k] < 4 && carveable(
                            map@,
                            w,
                            h,
                            cx as int,
                            cy as int,
                            open_dirs@[k],
                        ),
                    last_open ==> carveable(map@, w, h, cx as int, cy as int, last_dir),
                    open_dirs@.len() == 0 ==> !last_open,
                    forall|dd: usize|
                        dd < d && #[trigger] carveable(map@, w, h, cx as int, cy as int, dd)
                            ==> open_dirs@.contains(dd),
                decreases 4 - d,
            {
                let ghost prev_dirs = open_dirs@;
                if self.can_carve(map, cx, cy, d) {
                    open_dirs.push(d);
                    if d == last_dir {
                        last_open = true;
                    }
                }
                proof {
                    assert forall|dd: usize|
                        dd < d + 1 && #[trigger] carveable(map@, w, h, cx as int, cy as int, dd)
                            implies open_dirs@.contains(dd) by {
                        if dd < d {
                            let q = choose|q: int| 0 <= q < prev_dirs.len() && prev_dirs[q] == dd;
                            assert(open_dirs@[q] == dd);
                        } else {
                            assert(open_dirs@[open_dirs@.len() - 1] == dd);
                        }
                    }
                }
                d = d + 1;
            }
            match choose_item(&open_dirs) {
                Some(picked) => {
                    let dir = if last_open && gen_range(0, 100) >= self.winding_chance as usize {
                        last_dir
                    } else {
                        picked
                    };
                    assert(carveable(map@, w, h, cx as int, cy as int, dir)) by {
                        assert(open_dirs@.contains(picked));
                    }
                    let (ax, ay) = step(cx, cy, dir, 1);
                    let (bx, by) = step(cx, cy, dir, 2);
                    let ghost prev_map = map@;
                    let ghost prev_cells = cells@;
                    proof {
                        assert(cells@[cells@.len() - 1] == (cx, cy));
                        lemma_passage_is_wall(map@, w, h, (cx as int, cy as int), (ax as int, ay as int), (bx as int, by as int));
                    }
                    self.carve(map, ax, ay, id);
                    self.carve(map, bx, by, id);
                    proof {
                        lemma_step_parity(cx as int, cy as int, sx as int, sy as int, dir);
                        assert(bx % 2 == 1 && by % 2 == 1);
                        lemma_passage_carved(prev_map, map@, w, h, (cx as int, cy as int), (ax as int, ay as int), (bx as int, by as int));
                        let seed = (sx as int, sy as int);
                        assert forall|x: int, y: int| in_grid(w, h, x, y) && cell(prev_map, x, y) == id implies #[trigger] cell(
                            map@,
                            x,
                            y,
                        ) == id by {}
                        assert(cells@[cells@.len() - 1] == (cx, cy));
                        lemma_joined_in_kept(prev_map, map@, w, h, id, seed, (cx as int, cy as int));
                        assert(adjacent((cx as int, cy as int), (ax as int, ay as int)));
                        lemma_joined_in_step(map@, w, h, id, seed, (cx as int, cy as int), (ax as int, ay as int));
                        assert(adjacent((ax as int, ay as int), (bx as int, by as int)));
                        lemma_joined_in_step(map@, w, h, id, seed, (ax as int, ay as int), (bx as int, by as int));
                        assert forall|k: int| 0 <= k < prev_cells.len() implies joined_in(
                            map@,
                            w,
                            h,
                            id,
                            seed,
                            ((#[trigger] prev_cells[k]).0 as int, prev_cells[k].1 as int),
                        ) by {
                            lemma_joined_in_kept(prev_map, map@, w, h, id, seed, (prev_cells[k].0 as int, prev_cells[k].1 as int));
                        }
                        assert forall|x: int, y: int|
                            in_grid(w, h, x, y) && #[trigger] cell(map@, x, y) != cell(old(map)@, x, y)
                                implies joined_in(map@, w, h, id, seed, (x, y)) by {
                            if (x, y) != (ax as int, ay as int) && (x, y) != (bx as int, by as int) {
                                assert(cell(map@, x, y) == cell(prev_map, x, y));
                                lemma_joined_in_kept(prev_map, map@, w, h, id, seed, (x, y));
                            }
                        }
                    }
                    cells.push((bx, by));
                    last_dir = dir;
                    proof {
                        lemma_step_parity(cx as int, cy as int, sx as int, sy as int, dir);
                        visited = visited.insert((bx as int, by as int));
                        assert forall|k: int|
                            0 <= k < cells@.len() implies cell(map@, (#[trigger] cells@[k]).0 as int, cells@[k].1 as int)
                                != 0 && cells@[k].0 % 2 == 1 && cells@[k].1 % 2 == 1 by {
                            if k < prev_cells.len() {
                                assert(cells@[k] == prev_cells[k]);
                                assert(in_grid(w, h, prev_cells[k].0 as int, prev_cells[k].1 as int));
                                assert(cell(prev_map, prev_cells[k].0 as int, prev_cells[k].1 as int) != 0);
                            }
                        }
                        assert(cells@[cells@.len() - 1] == (bx, by));
                        assert forall|k: int| 0 <= k < prev_cells.len() implies cells@[k] == prev_cells[k] by {}
                        assert forall|p: (int, int)|
                            #[trigger] visited.contains(p) && !on_stack(cells@, p.0, p.1) implies exhausted(
                                map@,
                                w,
                                h,
                                p.0,
                                p.1,
                            ) by {
                            if on_stack(prev_cells, p.0, p.1) {
                                let k = choose|k: int|
                                    0 <= k < prev_cells.len() && (#[trigger] prev_cells[k]).0 == p.0
                                        && prev_cells[k].1 == p.1;
                                assert(cells@[k] == prev_cells[k]);
                            }
                            lemma_exhausted_kept(prev_map, map@, w, h, p.0, p.1);
                        }
                    }
                },
                None => {
                    let ghost prev_cells = cells@;
                    cells.pop();
                    proof {
                        assert forall|dd: usize| dd < 4 implies !#[trigger] carveable(
                            map@,
                            w,
                            h,
                            cx as int,
                            cy as int,
                            dd,
                        ) by {
                            if carveable(map@, w, h, cx as int, cy as int, dd) {
                                assert(open_dirs@.contains(dd));
                            }
                        }
                        assert forall|p: (int, int)|
                            #[trigger] visited.contains(p) && !on_stack(cells@, p.0, p.1) implies exhausted(
                                map@,
                                w,
                                h,
                                p.0,
                                p.1,
                            ) by {
                            if on_stack(prev_cells, p.0, p.1) {
                                let k = choose|k: int|
                                    0 <= k < prev_cells.len() && (#[trigger] prev_cells[k]).0 == p.0
                                        && prev_cells[k].1 == p.1;
                                if k < prev_cells.len() - 1 {
                                    assert(cells@[k] == prev_cells[k]);
                                } else {
                                    assert(prev_cells[k] == (cx, cy));
                                }
                            }
                        }
                    }
                },
            }
        }
    }
    /// Stamps every cell of `r` with `id`.
    fn stamp_room(&self, map: &mut Vec<Vec<u16>>, r: &URect, id: u16)
        requires
            self.sized(old(map)@),
            room_fits(*r, self.w(), self.h()),
        ensures
            self.sized(final(map)@),
            forall|x: int, y: int|
                in_grid(self.w(), self.h(), x, y) ==> #[trigger] cell(final(map)@, x, y) == if rect_contains(
                    *r,
                    x,
                    y,
                ) {
                    id
                } else {
                    cell(old(map)@, x, y)
                },
    {
        let ghost w = self.w();
        let ghost h = self.h();
        let mut y: usize = r.y;
        while y < r.y + r.h
            invariant
                self.sized(map@),
                room_fits(*r, w, h),
                w == self.w(),
                h == self.h(),
                r.y <= y <= r.y + r.h,
                forall|i: int, j: int|
                    in_grid(w, h, i, j) ==> #[trigger] cell(map@, i, j) == if rect_contains(*r, i, j)
                        && j < y {
                        id
                    } else {
                        cell(old(map)@, i, j)
                    },
            decreases r.y + r.h - y,
        {
            let mut x: usize = r.x;
            while x < r.x + r.w
                invariant
                    self.sized(map@),
                    room_fits(*r, w, h),
                    w == self.w(),
                    h == self.h(),
                    r.y <= y < r.y + r.h,
                    r.x <= x <= r.x + r.w,
                    forall|i: int, j: int|
                        in_grid(w, h, i, j) ==> #[trigger] cell(map@, i, j) == if rect_contains(
                            *r,
                            i,
                            j,
                        ) && (j < y || (j == y && i < x)) {
                            id
                        } else {
                            cell(old(map)@, i, j)
                        },
                decreases r.x + r.w - x,
            {
                self.carve(map, x, y, id);
                x = x + 1;
            }
            y = y + 1;
        }
    }

    /// Keeps the candidate room when it overlaps none of `rooms`: stamps its cells
    /// with the next id and appends it. Otherwise changes nothing.
    pub fn place_room(&self, map: &mut Vec<Vec<u16>>, rooms: &mut Vec<URect>, candidate: URect) -> (placed: bool)
        requires
            self.sized(old(map)@),
            self.bounded(),
            room_fits(candidate, self.w(), self.h()),
            rooms_stamped(old(map)@, self.w(), self.h(), old(rooms)@),
            old(rooms)@.len() + 1 < u16::MAX,
        ensures
            placed == forall|k: int|
                0 <= k < old(rooms)@.len() ==> !rects_overlap(#[trigger] old(rooms)@[k], candidate),
            placed ==> final(rooms)@ == old(rooms)@.push(candidate),
            !placed ==> final(rooms)@ == old(rooms)@,
            self.sized(final(map)@),
            rooms_stamped(final(map)@, self.w(), self.h(), final(rooms)@),
            forall|x: int, y: int|
                in_grid(self.w(), self.h(), x, y) ==> #[trigger] cell(final(map)@, x, y) == if placed
                    && rect_contains(candidate, x, y) {
                    (old(rooms)@.len() + 1) as u16
                } else {
                    cell(old(map)@, x, y)
                },
    {
        let ghost w = self.w();
        let ghost h = self.h();
        let mut overlaps = false;
        let mut i: usize = 0;
        while i < rooms.len() && !overlaps
            invariant
                0 <= i <= rooms@.len(),
                room_fits(candidate, w, h),
                w <= MAX_CELLS,
                h <= MAX_CELLS,
                forall|k: int| 0 <= k < rooms@.len() ==> room_fits(#[trigger] rooms@[k], w, h),
                !overlaps ==> forall|k: int| 0 <= k < i ==> !rects_overlap(#[trigger] rooms@[k], candidate),
                overlaps ==> exists|k: int| 0 <= k < rooms@.len() && #[trigger] rects_overlap(rooms@[k], candidate),
            decreases rooms@.len() - i + if overlaps { 0int } else { 1int },
        {
            if candidate.overlaps(&rooms[i]) {
                assert(rects_overlap(rooms@[i as int], candidate));
                overlaps = true;
            } else {
                i = i + 1;
            }
        }
        if overlaps {
            return false;
        }
        let id = (rooms.len() + 1) as u16;
        let ghost before = map@;
        self.stamp_room(map, &candidate, id);
        proof {
            assert forall|k: int, x: int, y: int|
                0 <= k < rooms@.len() && rect_contains(#[trigger] rooms@[k], x, y) implies #[trigger] cell(
                    map@,
                    x,
                    y,
                ) == k + 1 by {
                lemma_apart_rects_share_no_cell(rooms@[k], candidate, x, y);
                assert(cell(before, x, y) == k + 1);
            }
        }
        let ghost kept = rooms@;
        rooms.push(candidate);
        proof {
            assert(rooms@[rooms@.len() - 1] == candidate);
            assert forall|k: int, l: int|
                0 <= k < l < rooms@.len() implies !rects_overlap(#[trigger] rooms@[k], #[trigger] rooms@[l]) by {
                if l == rooms@.len() - 1 {
                    assert(!rects_overlap(rooms@[k], candidate));
                }
            }
            assert forall|k: int, x: int, y: int|
                0 <= k < rooms@.len() && rect_contains(#[trigger] rooms@[k], x, y) implies #[trigger] cell(
                    map@,
                    x,
                    y,
                ) == k + 1 by {
                if k < kept.len() {
                    assert(rooms@[k] == kept[k]);
                }
            }
        }
        true
    }

    /// Draws up to `room_attempts` candidate rooms and keeps each that overlaps
    /// no room kept before, stamping the `k`-th kept room with id `k + 1`.
    pub fn fill_rooms(&self, map: &mut Vec<Vec<u16>>) -> (rooms: Vec<URect>)
        requires
            self.sized(old(map)@),
            self.bounded(),
        ensures
            self.sized(final(map)@),
            rooms@.len() <= self.room_attempts,
            rooms@.len() + 1 < u16::MAX,
            self.room_attempts >= 1 && 3 <= self.max_room_size && self.max_room_size + 2
                <= self.dungeon_width && self.max_room_size + 2 <= self.dungeon_height ==> rooms@.len()
                >= 1,
            forall|k: int| 0 <= k < rooms@.len() ==> room_fits(#[trigger] rooms@[k], self.w(), self.h()),
            forall|k: int|
                0 <= k < rooms@.len() ==> (#[trigger] rooms@[k]).w <= self.max_room_size
                    && rooms@[k].h <= self.max_room_size,
            forall|k: int, l: int|
                0 <= k < l < rooms@.len() ==> !rects_overlap(#[trigger] rooms@[k], #[trigger] rooms@[l]),
            forall|k: int, x: int, y: int|
                0 <= k < rooms@.len() && rect_contains(#[trigger] rooms@[k], x, y) ==> #[trigger] cell(
                    final(map)@,
                    x,
                    y,
                ) == k + 1,
            forall|x: int, y: int|
                in_grid(self.w(), self.h(), x, y) && #[trigger] cell(final(map)@, x, y) != cell(
                    old(map)@,
                    x,
                    y,
                ) ==> exists|k: int| 0 <= k < rooms@.len() && #[trigger] rect_contains(rooms@[k], x, y),
    {
        let ghost w = self.w();
        let ghost h = self.h();
        let width = self.dungeon_width;
        let height = self.dungeon_height;
        let max_size = if self.max_room_size > MAX_CELLS {
            MAX_CELLS
        } else {
            self.max_room_size
        };
        let mut rooms: Vec<URect> = Vec::new();
        let mut attempts: u16 = 0;
        while attempts < self.room_attempts
            invariant
                self.sized(map@),
                self.bounded(),
                w == self.w(),
                h == self.h(),
                width == self.dungeon_width,
                height == self.dungeon_height,
                max_size <= MAX_CELLS,
                max_size <= self.max_room_size,
                self.max_room_size <= MAX_CELLS ==> max_size == self.max_room_size,
                rooms@.len() <= attempts <= self.room_attempts,
                rooms@.len() + 1 < u16::MAX,
                attempts >= 1 && 3 <= self.max_room_size && self.max_room_size + 2 <= width
                    && self.max_room_size + 2 <= height ==> rooms@.len() >= 1,
                rooms_stamped(map@, w, h, rooms@),
                forall|k: int|
                    0 <= k < rooms@.len() ==> (#[trigger] rooms@[k]).w <= self.max_room_size
                        && rooms@[k].h <= self.max_room_size,
                forall|x: int, y: int|
                    in_grid(w, h, x, y) && #[trigger] cell(map@, x, y) != cell(old(map)@, x, y)
                        ==> exists|k: int| 0 <= k < rooms@.len() && #[trigger] rect_contains(rooms@[k], x, y),
            decreases self.room_attempts - attempts,
        {
            attempts = attempts + 1;
            if max_size < 3 || rooms.len() + 2 >= u16::MAX as usize {
                continue;
            }
            let half_w = gen_range(1, (max_size - 1) / 2 + 1);
            let half_h = gen_range(1, (max_size - 1) / 2 + 1);
            assert(half_w * 2 + 1 <= max_size && half_h * 2 + 1 <= max_size);
            let room_w = half_w * 2 + 1;
            let room_h = half_h * 2 + 1;
            if room_w + 2 > width || room_h + 2 > height {
                continue;
            }
            let room_x = gen_range(0, (width - room_w - 2) / 2 + 1) * 2 + 1;
            let room_y = gen_range(0, (height - room_h - 2) / 2 + 1) * 2 + 1;
            let new_room = URect::new(room_x, room_y, room_w, room_h);
            let ghost before = map@;
            let ghost kept = rooms@;
            let placed = self.place_room(map, &mut rooms, new_room);
            proof {
                if placed {
                    assert(rooms@[rooms@.len() - 1] == new_room);
                    assert forall|x: int, y: int|
                        in_grid(w, h, x, y) && #[trigger] cell(map@, x, y) != cell(old(map)@, x, y) implies exists|
                            k: int,
                        | 0 <= k < rooms@.len() && #[trigger] rect_contains(rooms@[k], x, y) by {
                        if rect_contains(new_room, x, y) {
                            assert(rect_contains(rooms@[rooms@.len() - 1], x, y));
                        } else {
                            assert(cell(before, x, y) != cell(old(map)@, x, y));
                            let k = choose|k: int| 0 <= k < kept.len() && #[trigger] rect_contains(kept[k], x, y);
                            assert(rooms@[k] == kept[k]);
                        }
                    }
                }
            }
        }
        rooms
    }
    /// Whether wall cell `(x, y)` separates two different regions along one axis.
    pub fn is_connector(&self, map: &Vec<Vec<u16>>, x: usize, y: usize) -> (r: bool)
        requires
            self.sized(map@),
            in_grid(self.w(), self.h(), x as int, y as int),
        ensures
            r == is_connector(map@, self.w(), self.h(), x as int, y as int),
    {
        if map[y][x] != 0 {
            return false;
        }
        if x > 0 && x < self.dungeon_width - 1 && map[y][x - 1] != 0 && map[y][x + 1] != 0
            && map[y][x - 1] != map[y][x + 1] {
            return true;
        }
        if y > 0 && y < self.dungeon_height - 1 && map[y - 1][x] != 0 && map[y + 1][x] != 0
            && map[y - 1][x] != map[y + 1][x] {
            return true;
        }
        false
    }

    /// The two regions that cell `(x, y)` separates when it is a connector, else `(0, 0)`.
    fn get_connector_regions(&self, map: &Vec<Vec<u16>>, x: usize, y: usize) -> (r: (u16, u16))
        requires
            self.sized(map@),
            in_grid(self.w(), self.h(), x as int, y as int),
        ensures
            r == if is_connector(map@, self.w(), self.h(), x as int, y as int) {
                connector_regions(map@, self.w(), x as int, y as int)
            } else {
                (0u16, 0u16)
            },
    {
        if !self.is_connector(map, x, y) {
            return (0, 0);
        }
        if x > 0 && x < self.dungeon_width - 1 && map[y][x - 1] != 0 && map[y][x + 1] != 0
            && map[y][x - 1] != map[y][x + 1] {
            (map[y][x - 1], map[y][x + 1])
        } else {
            (map[y - 1][x], map[y + 1][x])
        }
    }

    /// Every connector of the grid, in row order.
    fn find_connectors(&self, map: &Vec<Vec<u16>>) -> (r: Vec<(usize, usize, u16, u16)>)
        requires
            self.sized(map@),
            self.bounded(),
            border_walls(map@, self.w(), self.h()),
        ensures
            connectors_listed(map@, map@, self.w(), self.h(), r@),
            r@.len() <= DRAW_LIMIT,
            forall|x: int, y: int|
                #[trigger] is_connector(map@, self.w(), self.h(), x, y) ==> listed_at(r@, x, y),
    {
        let w = self.dungeon_width;
        let h = self.dungeon_height;
        let mut list: Vec<(usize, usize, u16, u16)> = Vec::new();
        let mut y: usize = 0;
        while y < h
            invariant
                self.sized(map@),
                self.bounded(),
                border_walls(map@, w as int, h as int),
                w == self.dungeon_width,
                h == self.dungeon_height,
                y <= h,
                list@.len() <= y * w,
                connectors_listed(map@, map@, w as int, h as int, list@),
                forall|k: int| 0 <= k < list@.len() ==> (#[trigger] list@[k]).1 < y,
                forall|i: int, j: int|
                    j < y && #[trigger] is_connector(map@, w as int, h as int, i, j) ==> listed_at(list@, i, j),
            decreases h - y,
        {
            let mut x: usize = 0;
            while x < w
                invariant
                    self.sized(map@),
                    self.bounded(),
                    border_walls(map@, w as int, h as int),
                    w == self.dungeon_width,
                    h == self.dungeon_height,
                    y < h,
                    x <= w,
                    list@.len() <= y * w + x,
                    connectors_listed(map@, map@, w as int, h as int, list@),
                    forall|k: int|
                        0 <= k < list@.len() ==> (#[trigger] list@[k]).1 < y || (list@[k].1 == y
                            && list@[k].0 < x),
                    forall|i: int, j: int|
                        (j < y || (j == y && i < x)) && #[trigger] is_connector(map@, w as int, h as int, i, j)
                            ==> listed_at(list@, i, j),
                decreases w - x,
            {
                if self.is_connector(map, x, y) {
                    proof {
                        if !interior(w as int, h as int, x as int, y as int) {
                            assert(cell(map@, x as int, y as int) == 0);
                            if joins_across(map@, w as int, x as int, y as int) {
                                assert(cell(map@, x - 1, y as int) != 0);
                            } else {
                                assert(cell(map@, x as int, y - 1) != 0);
                            }
                        }
                    }
                    let regions = self.get_connector_regions(map, x, y);
                    let ghost prev = list@;
                    list.push((x, y, regions.0, regions.1));
                    proof {
                        assert(list@[list@.len() - 1].0 == x && list@[list@.len() - 1].1 == y);
                        assert forall|i: int, j: int|
                            (j < y || (j == y && i < x + 1)) && #[trigger] is_connector(
                                map@,
                                w as int,
                                h as int,
                                i,
                                j,
                            ) implies listed_at(list@, i, j) by {
                            if j < y || (j == y && i < x) {
                                let k = choose|k: int| 0 <= k < prev.len() && (#[trigger] prev[k]).0 == i && prev[k].1 == j;
                                assert(list@[k] == prev[k]);
                            }
                        }
                    }
                }
                x = x + 1;
            }
            assert(y * w + w == (y + 1) * w) by (nonlinear_arith);
            y = y + 1;
        }
        assert(h * w <= MAX_CELLS) by (nonlinear_arith)
            requires
                w * h <= MAX_CELLS,
        ;
        list
    }
    /// Merges the regions `1..=last_region` by opening connectors: from one region
    /// drawn at random, repeatedly opens a connector drawn among those that touch
    /// the merged set, giving it the id of the region it brings in; each other
    /// connector between that region and the merged set is then dropped, and
    /// opened as well when a draw below `connectivity_chance` comes up. Stops
    /// when no connector touches the merged set, and returns the merged regions
    /// in the order they joined.
    pub fn connect_regions(&self, map: &mut Vec<Vec<u16>>, last_region: u16) -> (merged: Vec<u16>)
        requires
            self.sized(old(map)@),
            self.bounded(),
            border_walls(old(map)@, self.w(), self.h()),
        ensures
            self.sized(final(map)@),
            border_walls(final(map)@, self.w(), self.h()),
            opened_connectors_only(final(map)@, old(map)@, self.w(), self.h()),
            last_region >= 1 ==> merged@.len() >= 1 && 1 <= merged@[0] <= last_region,
            merged_closed(old(map)@, self.w(), self.h(), merged@),
            merged_through_opened(final(map)@, old(map)@, self.w(), self.h(), merged@),
            self.connectivity_chance >= 100 ==> forall|x: int, y: int|
                #[trigger] is_connector(old(map)@, self.w(), self.h(), x, y) && both_merged(
                    merged@,
                    connector_regions(old(map)@, self.w(), x, y),
                ) ==> cell(final(map)@, x, y) != 0,
    {
        let ghost w = self.w();
        let ghost h = self.h();
        let mut connectors = self.find_connectors(map);
        let mut main: Vec<u16> = Vec::new();
        if last_region >= 1 {
            main.push(gen_range(1, last_region as usize + 1) as u16);
        }
        let mut done = false;
        while connectors.len() > 0 && !done
            invariant
                done ==> merged_closed(old(map)@, w, h, main@),
                forall|k: int|
                    0 <= k < connectors@.len() ==> !both_merged(
                        main@,
                        ((#[trigger] connectors@[k]).2, connectors@[k].3),
                    ),
                self.sized(map@),
                self.bounded(),
                w == self.w(),
                h == self.h(),
                border_walls(map@, w, h),
                connectors_listed(map@, old(map)@, w, h, connectors@),
                connectors@.len() <= DRAW_LIMIT,
                opened_connectors_only(map@, old(map)@, w, h),
                last_region >= 1 ==> main@.len() >= 1 && 1 <= main@[0] <= last_region,
                forall|x: int, y: int|
                    #[trigger] is_connector(old(map)@, w, h, x, y) ==> listed_at(connectors@, x, y)
                        || both_merged(main@, connector_regions(old(map)@, w, x, y)),
                merged_through_opened(map@, old(map)@, w, h, main@),
                self.connectivity_chance >= 100 ==> forall|x: int, y: int|
                    #[trigger] is_connector(old(map)@, w, h, x, y) && !listed_at(connectors@, x, y)
                        ==> cell(map@, x, y) != 0,
            decreases connectors@.len() + if done { 0int } else { 1int },
        {
            let mut valid: Vec<usize> = Vec::new();
            let mut i: usize = 0;
            while i < connectors.len()
                invariant
                    connectors@.len() <= DRAW_LIMIT,
                    i <= connectors@.len(),
                    valid@.len() <= i,
                    forall|k: int|
                        0 <= k < valid@.len() ==> #[trigger] valid@[k] < connectors@.len() && (main@.contains(
                            connectors@[valid@[k] as int].2,
                        ) || main@.contains(connectors@[valid@[k] as int].3)),
                    forall|k: int|
                        0 <= k < i && (main@.contains((#[trigger] connectors@[k]).2) || main@.contains(
                            connectors@[k].3,
                        )) ==> valid@.contains(k as usize),
                decreases connectors@.len() - i,
            {
                let entry = connectors[i];
                let ghost prev = valid@;
                if contains_id(&main, entry.2) || contains_id(&main, entry.3) {
                    valid.push(i);
                    proof {
                        assert(valid@[valid@.len() - 1] == i);
                    }
                }
                proof {
                    assert forall|k: int|
                        0 <= k < i + 1 && (main@.contains((#[trigger] connectors@[k]).2) || main@.contains(
                            connectors@[k].3,
                        )) implies valid@.contains(k as usize) by {
                        if k < i {
                            let q = choose|q: int| 0 <= q < prev.len() && prev[q] == k as usize;
                            assert(valid@[q] == prev[q]);
                        } else {
                            assert(connectors@[k] == entry);
                            assert(valid@[valid@.len() - 1] == i);
                        }
                    }
                }
                i = i + 1;
            }
            let picked = choose_item(&valid);
            if picked.is_none() {
                proof {
                    assert forall|x: int, y: int|
                        #[trigger] is_connector(old(map)@, w, h, x, y) && (main@.contains(
                            connector_regions(old(map)@, w, x, y).0,
                        ) || main@.contains(connector_regions(old(map)@, w, x, y).1)) implies both_merged(
                        main@,
                        connector_regions(old(map)@, w, x, y),
                    ) by {
                        if listed_at(connectors@, x, y) {
                            let k = choose|k: int|
                                0 <= k < connectors@.len() && (#[trigger] connectors@[k]).0 == x
                                    && connectors@[k].1 == y;
                            assert(!valid@.contains(k as usize));
                        }
                    }
                }
                done = true;
            } else {
                let current = picked.unwrap();
                let ghost pos = choose|k: int| 0 <= k < valid@.len() && valid@[k] == current;
                let entry = connectors[current];
                let (cx, cy) = (entry.0, entry.1);
                let joins_a = contains_id(&main, entry.2);
                let new_region = if joins_a {
                    entry.3
                } else {
                    entry.2
                };
                let ghost other = if joins_a {
                    entry.2
                } else {
                    entry.3
                };
                proof {
                    assert(connectors@[current as int] == entry);
                    assert(main@.contains(entry.2) || main@.contains(entry.3)) by {
                        assert(valid@[pos] == current);
                    }
                    assert(is_connector(old(map)@, w, h, cx as int, cy as int));
                }
                let ghost before_open = map@;
                self.carve(map, cx, cy, new_region);
                let ghost listed = connectors@;
                connectors.remove(current);
                let ghost grown = main@.push(new_region);
                proof {
                    lemma_listed_after_open(before_open, map@, old(map)@, w, h, listed, current as int);
                    lemma_joins_kept(before_open, map@, old(map)@, w, h, main@);
                    lemma_unsettled_after_drop(listed, current as int, main@);
                    assert(!main@.contains(new_region));
                    assert(main@.contains(other));
                    let j = choose|j: int| 0 <= j < main@.len() && main@[j] == other;
                    assert(grown[main@.len() as int] == new_region && grown[j] == other);
                    assert(forall|v: u16| main@.contains(v) ==> grown.contains(v)) by {
                        assert forall|v: u16| main@.contains(v) implies grown.contains(v) by {
                            let q = choose|q: int| 0 <= q < main@.len() && main@[q] == v;
                            assert(grown[q] == v);
                        }
                    }
                    lemma_closure_after_drop(old(map)@, w, h, listed, current as int, main@, grown);
                    lemma_opened_after_drop(before_open, map@, old(map)@, w, h, listed, current as int, self.connectivity_chance >= 100);
                    assert(joined_by(map@, old(map)@, w, h, cx as int, cy as int, new_region, main@[j]));
                    lemma_joins_push(map@, old(map)@, w, h, main@, new_region, j, cx as int, cy as int);
                }
                let mut j: usize = connectors.len();
                while j > 0
                    invariant
                        self.sized(map@),
                        self.bounded(),
                        w == self.w(),
                        h == self.h(),
                        border_walls(map@, w, h),
                        connectors_listed(map@, old(map)@, w, h, connectors@),
                        connectors@.len() <= DRAW_LIMIT,
                        opened_connectors_only(map@, old(map)@, w, h),
                        j <= connectors@.len(),
                        connectors@.len() < listed.len(),
                        new_region != 0,
                        grown == main@.push(new_region),
                        !main@.contains(new_region),
                        forall|k: int|
                            0 <= k < connectors@.len() ==> !both_merged(
                                main@,
                                ((#[trigger] connectors@[k]).2, connectors@[k].3),
                            ),
                        forall|k: int|
                            j <= k < connectors@.len() ==> !both_merged(
                                grown,
                                ((#[trigger] connectors@[k]).2, connectors@[k].3),
                            ),
                        forall|x: int, y: int|
                            #[trigger] is_connector(old(map)@, w, h, x, y) ==> listed_at(connectors@, x, y)
                                || both_merged(grown, connector_regions(old(map)@, w, x, y)),
                        merged_through_opened(map@, old(map)@, w, h, grown),
                        self.connectivity_chance >= 100 ==> forall|x: int, y: int|
                            #[trigger] is_connector(old(map)@, w, h, x, y) && !listed_at(connectors@, x, y)
                                ==> cell(map@, x, y) != 0,
                    decreases j,
                {
                    j = j - 1;
                    let test = connectors[j];
                    proof {
                        assert(connectors@[j as int] == test);
                        assert(is_connector(old(map)@, w, h, test.0 as int, test.1 as int));
                        assert(test.2 != test.3);
                    }
                    if (test.2 == new_region || test.3 == new_region) && (contains_id(&main, test.2)
                        || contains_id(&main, test.3)) {
                        let ghost before_punch = map@;
                        if gen_range(0, 100) < self.connectivity_chance as usize {
                            self.carve(map, test.0, test.1, new_region);
                        }
                        let ghost listed_now = connectors@;
                        connectors.remove(j);
                        proof {
                            assert(connectors_listed(before_punch, old(map)@, w, h, listed_now));
                            lemma_listed_after_open(before_punch, map@, old(map)@, w, h, listed_now, j as int);
                            lemma_joins_kept(before_punch, map@, old(map)@, w, h, grown);
                            lemma_unsettled_after_drop(listed_now, j as int, main@);
                            assert forall|k: int| j <= k < connectors@.len() implies !both_merged(
                                grown,
                                ((#[trigger] connectors@[k]).2, connectors@[k].3),
                            ) by {
                                assert(connectors@[k] == listed_now[k + 1]);
                            }
                            assert(grown.contains(test.2) && grown.contains(test.3)) by {
                                assert(grown[main@.len() as int] == new_region);
                                if test.2 == new_region {
                                    assert(grown[main@.len() as int] == test.2);
                                }
                                if test.3 == new_region {
                                    assert(grown[main@.len() as int] == test.3);
                                }
                                if main@.contains(test.2) {
                                    let q = choose|q: int| 0 <= q < main@.len() && main@[q] == test.2;
                                    assert(grown[q] == test.2);
                                }
                                if main@.contains(test.3) {
                                    let q = choose|q: int| 0 <= q < main@.len() && main@[q] == test.3;
                                    assert(grown[q] == test.3);
                                }
                            }
                            assert(listed_now[j as int] == test);
                            lemma_closure_after_drop(old(map)@, w, h, listed_now, j as int, grown, grown);
                            lemma_opened_after_drop(before_punch, map@, old(map)@, w, h, listed_now, j as int, self.connectivity_chance >= 100);
                        }
                    }
                }
                main.push(new_region);
            }
        }
        proof {
            if self.connectivity_chance >= 100 {
                assert forall|x: int, y: int|
                    #[trigger] is_connector(old(map)@, w, h, x, y) && both_merged(
                        main@,
                        connector_regions(old(map)@, w, x, y),
                    ) implies cell(map@, x, y) != 0 by {
                    if listed_at(connectors@, x, y) {
                        let k = choose|k: int|
                            0 <= k < connectors@.len() && (#[trigger] connectors@[k]).0 == x
                                && connectors@[k].1 == y;
                        assert(!both_merged(main@, (connectors@[k].2, connectors@[k].3)));
                    }
                }
            }
        }
        main
    }

    /// A grid of `dungeon_height` rows of `dungeon_width` walls.
    fn empty_map(&self) -> (map: Vec<Vec<u16>>)
        ensures
            self.sized(map@),
            forall|x: int, y: int| in_grid(self.w(), self.h(), x, y) ==> #[trigger] cell(map@, x, y) == 0,
    {
        let mut map: Vec<Vec<u16>> = Vec::new();
        let mut y: usize = 0;
        while y < self.dungeon_height
            invariant
                y <= self.dungeon_height,
                map@.len() == y,
                forall|j: int| 0 <= j < y ==> (#[trigger] map@[j])@.len() == self.w(),
                forall|i: int, j: int| 0 <= j < y && 0 <= i < self.w() ==> #[trigger] cell(map@, i, j) == 0,
            decreases self.dungeon_height - y,
        {
            let mut row: Vec<u16> = Vec::new();
            let mut x: usize = 0;
            while x < self.dungeon_width
                invariant
                    x <= self.dungeon_width,
                    row@.len() == x,
                    forall|i: int| 0 <= i < x ==> #[trigger] row@[i] == 0,
                decreases self.dungeon_width - x,
            {
                row.push(0);
                x = x + 1;
            }
            let ghost prev = map@;
            map.push(row);
            proof {
                assert forall|i: int, j: int| 0 <= j < y + 1 && 0 <= i < self.w() implies #[trigger] cell(
                    map@,
                    i,
                    j,
                ) == 0 by {
                    if j < y {
                        assert(map@[j] == prev[j]);
                        assert(cell(prev, i, j) == 0);
                    } else {
                        assert(map@[j] == row);
                        assert(row@[i] == 0);
                    }
                }
            }
            y = y + 1;
        }
        map
    }

    /// Seeds a maze blob at every odd interior cell that is still wall, in row
    /// order, with ids from `first_id` on; returns the id after the last one used.
    /// A blob is seeded only while an id below `u16::MAX` is free.
    pub fn carve_mazes(&self, map: &mut Vec<Vec<u16>>, first_id: u16) -> (next: u16)
        requires
            self.sized(old(map)@),
            self.bounded(),
            first_id >= 1,
            passages_joined(old(map)@, self.w(), self.h()),
        ensures
            self.sized(final(map)@),
            next >= first_id,
            passages_joined(final(map)@, self.w(), self.h()),
            border_walls(old(map)@, self.w(), self.h()) ==> border_walls(
                final(map)@,
                self.w(),
                self.h(),
            ),
            forall|x: int, y: int|
                in_grid(self.w(), self.h(), x, y) && #[trigger] cell(final(map)@, x, y) != cell(
                    old(map)@,
                    x,
                    y,
                ) ==> interior(self.w(), self.h(), x, y) && first_id <= cell(final(map)@, x, y) < next,
            next < u16::MAX ==> forall|x: int, y: int|
                odd_cell(self.w(), self.h(), x, y) ==> #[trigger] cell(final(map)@, x, y) != 0,
            next as int <= first_id as int + (self.w() / 2) * (self.h() / 2),
            first_id < u16::MAX && self.w() >= 3 && self.h() >= 3 ==> cell(final(map)@, 1, 1) != 0,
    {
        let ghost w = self.w();
        let ghost h = self.h();
        let mut id: u16 = first_id;
        let mut y: usize = 1;
        while y + 1 < self.dungeon_height
            invariant
                self.sized(map@),
                self.bounded(),
                w == self.w(),
                h == self.h(),
                y % 2 == 1,
                y <= h + 1,
                passages_joined(map@, w, h),
                1 <= first_id <= id,
                id as int <= first_id as int + (y as int / 2) * (w / 2),
                y > 1 && first_id < u16::MAX && w >= 3 && h >= 3 ==> cell(map@, 1, 1) != 0,
                forall|i: int, j: int|
                    in_grid(w, h, i, j) && #[trigger] cell(map@, i, j) != cell(old(map)@, i, j)
                        ==> interior(w, h, i, j) && first_id <= cell(map@, i, j) < id,
                id < u16::MAX ==> forall|i: int, j: int|
                    odd_cell(w, h, i, j) && j < y ==> #[trigger] cell(map@, i, j) != 0,
            decreases self.dungeon_height - y,
        {
            let mut x: usize = 1;
            while x + 1 < self.dungeon_width
                invariant
                    self.sized(map@),
                    self.bounded(),
                    w == self.w(),
                    h == self.h(),
                    y % 2 == 1,
                    x % 2 == 1,
                    y + 1 < h,
                    x <= w + 1,
                    passages_joined(map@, w, h),
                    1 <= first_id <= id,
                    y >= 1,
                    id as int <= first_id as int + (y as int / 2) * (w / 2) + x as int / 2,
                    (y > 1 || x > 1) && first_id < u16::MAX && w >= 3 ==> cell(map@, 1, 1) != 0,
                    forall|i: int, j: int|
                        in_grid(w, h, i, j) && #[trigger] cell(map@, i, j) != cell(old(map)@, i, j)
                            ==> interior(w, h, i, j) && first_id <= cell(map@, i, j) < id,
                    id < u16::MAX ==> forall|i: int, j: int|
                        odd_cell(w, h, i, j) && (j < y || (j == y && i < x)) ==> #[trigger] cell(
                            map@,
                            i,
                            j,
                        ) != 0,
                decreases self.dungeon_width - x,
            {
                proof {
                    if x == 1 && y == 1 {
                        assert(y as int / 2 == 0 && x as int / 2 == 0);
                        let b = w / 2;
                        assert(0 * b == 0) by (nonlinear_arith);
                        assert(id == first_id);
                    }
                }
                if map[y][x] == 0 && id < u16::MAX {
                    let ghost before = map@;
                    self.make_maze(map, x, y, id);
                    proof {
                        if w >= 3 {
                            assert(in_grid(w, h, 1, 1));
                            if cell(map@, 1, 1) != cell(before, 1, 1) {
                                assert(cell(map@, 1, 1) == id);
                            }
                        }
                        assert forall|i: int, j: int|
                            in_grid(w, h, i, j) && #[trigger] cell(map@, i, j) != cell(old(map)@, i, j)
                                implies interior(w, h, i, j) && first_id <= cell(map@, i, j) < id + 1 by {
                            if cell(map@, i, j) == cell(before, i, j) {
                                assert(cell(before, i, j) != cell(old(map)@, i, j));
                            }
                        }
                        assert forall|i: int, j: int|
                            odd_cell(w, h, i, j) && (j < y || (j == y && i < x + 2)) implies #[trigger] cell(
                                map@,
                                i,
                                j,
                            ) != 0 by {
                            if i == x + 1 {
                                assert(i % 2 == 0);
                            }
                            if !(i == x && j == y) && cell(map@, i, j) == cell(before, i, j) {
                                assert(cell(before, i, j) != 0);
                            }
                        }
                    }
                    id = id + 1;
                }
                proof {
                    if first_id < u16::MAX && w >= 3 {
                        assert(cell(map@, 1, 1) != 0);
                    }
                    if id < u16::MAX {
                        assert forall|i: int, j: int|
                            odd_cell(w, h, i, j) && (j < y || (j == y && i < x + 2)) implies #[trigger] cell(
                                map@,
                                i,
                                j,
                            ) != 0 by {
                            if i == x + 1 {
                                assert(i % 2 == 0);
                            }
                        }
                    }
                }
                x = x + 2;
            }
            proof {
                let a = y as int / 2;
                let b = w / 2;
                assert((a + 1) * b == a * b + b) by (nonlinear_arith);
                assert((y as int + 2) / 2 == a + 1);
                if id < u16::MAX {
                    assert forall|i: int, j: int| odd_cell(w, h, i, j) && j < y + 2 implies #[trigger] cell(
                        map@,
                        i,
                        j,
                    ) != 0 by {
                        if j == y + 1 {
                            assert(j % 2 == 0);
                        }
                    }
                }
            }
            y = y + 2;
        }
        proof {
            let a = y as int / 2;
            let b = w / 2;
            let c = h / 2;
            assert(a <= c);
            assert(a * b <= c * b) by (nonlinear_arith)
                requires
                    0 <= a <= c,
                    0 <= b,
            ;
        }
        id
    }

    /// Builds a dungeon: rooms, then mazes in the space left, then the regions
    /// merged through connectors, then dead ends pruned away. The grid is
    /// indexed `[y][x]`, `0` is wall and any other value a region id.
    pub fn generate(&self) -> (map: Vec<Vec<u16>>)
        requires
            self.bounded(),
        ensures
            self.sized(map@),
            border_walls(map@, self.w(), self.h()),
            no_dead_ends(map@, self.w(), self.h()),
            self.w() >= 3 && self.h() >= 3 ==> has_floor(map@, self.w(), self.h()),
            self.room_attempts >= 1 && 3 <= self.max_room_size && self.max_room_size + 2
                <= self.dungeon_width && self.max_room_size + 2 <= self.dungeon_height ==> exists|
                r: URect,
            |
                room_fits(r, self.w(), self.h()) && forall|x: int, y: int|
                    #[trigger] rect_contains(r, x, y) ==> cell(map@, x, y) != 0,
    {
        let ghost w = self.w();
        let ghost h = self.h();
        let mut map = self.empty_map();
        let ghost blank = map@;
        let rooms = self.fill_rooms(&mut map);
        proof {
            assert forall|x: int, y: int| in_grid(w, h, x, y) && !interior(w, h, x, y) implies #[trigger] cell(
                map@,
                x,
                y,
            ) == 0 by {
                if cell(map@, x, y) != cell(blank, x, y) {
                    let k = choose|k: int| 0 <= k < rooms@.len() && #[trigger] rect_contains(rooms@[k], x, y);
                    assert(room_fits(rooms@[k], w, h));
                }
            }
        }
        proof {
            reveal(passages_joined);
            assert forall|x: int, y: int|
                interior(w, h, x, y) && #[trigger] cell(map@, x, y) != 0 implies (x % 2 == 0 && y % 2 == 1
                    ==> cell(map@, x - 1, y) != 0 && cell(map@, x + 1, y) != 0) && (x % 2 == 1 && y % 2
                    == 0 ==> cell(map@, x, y - 1) != 0 && cell(map@, x, y + 1) != 0) by {
                assert(cell(blank, x, y) == 0);
                let k = choose|k: int| 0 <= k < rooms@.len() && #[trigger] rect_contains(rooms@[k], x, y);
                let r = rooms@[k];
                assert(room_fits(r, w, h));
                if x % 2 == 0 && y % 2 == 1 {
                    assert(rect_contains(r, x - 1, y) && rect_contains(r, x + 1, y));
                }
                if x % 2 == 1 && y % 2 == 0 {
                    assert(rect_contains(r, x, y - 1) && rect_contains(r, x, y + 1));
                }
            }
        }
        let ghost blank_rooms = map@;
        let next = self.carve_mazes(&mut map, (rooms.len() + 1) as u16);
        let ghost mazes = map@;
        self.connect_regions(&mut map, next - 1);
        proof {
            if w >= 3 && h >= 3 {
                assert(cell(mazes, 1, 1) != 0);
                assert(cell(map@, 1, 1) != 0);
                assert(has_floor(map@, w, h));
            }
        }
        let ghost linked = map@;
        self.remove_dead_ends(&mut map);
        proof {
            if rooms@.len() >= 1 {
                let r = rooms@[0];
                let cells = Set::new(|p: (int, int)| rect_contains(r, p.0, p.1));
                assert forall|x: int, y: int| #[trigger] rect_contains(r, x, y) implies cell(linked, x, y) != 0 by {
                    assert(room_fits(r, w, h));
                    assert(cell(blank_rooms, x, y) == 1);
                    assert(in_grid(w, h, x, y));
                    assert(cell(mazes, x, y) != 0);
                }
                assert(well_linked(linked, w, h, cells)) by {
                    assert forall|p: (int, int)| #[trigger] cells.contains(p) implies interior(w, h, p.0, p.1)
                        && cell(linked, p.0, p.1) != 0 && neighbors_in(cells, p.0, p.1) >= 2 by {
                        assert(room_fits(r, w, h));
                        assert(rect_contains(r, p.0, p.1));
                        if p.0 + 1 < r.x + r.w {
                            assert(cells.contains((p.0 + 1, p.1)));
                        } else {
                            assert(cells.contains((p.0 - 1, p.1)));
                        }
                        if p.1 + 1 < r.y + r.h {
                            assert(cells.contains((p.0, p.1 + 1)));
                        } else {
                            assert(cells.contains((p.0, p.1 - 1)));
                        }
                    }
                }
                assert(all_floor(map@, cells));
                assert(room_fits(r, w, h));
                assert forall|x: int, y: int| #[trigger] rect_contains(r, x, y) implies cell(map@, x, y) != 0 by {
                    assert(cells.contains((x, y)));
                }
            }
        }
        map
    }
}

/// One step from a cell an even offset from the seed lands an odd offset away;
/// two steps land an even offset away.
proof fn lemma_step_parity(cx: int, cy: int, sx: int, sy: int, d: usize)
    requires
        even_offset(cx, cy, sx, sy),
        d < 4,
    ensures
        !even_offset(cx + dx(d), cy + dy(d), sx, sy),
        even_offset(cx + 2 * dx(d), cy + 2 * dy(d), sx, sy),
{
}

/// A cell from which the maze cannot grow stays so while no floor turns to wall.
proof fn lemma_exhausted_kept(g_prev: Seq<Vec<u16>>, g: Seq<Vec<u16>>, w: int, h: int, x: int, y: int)
    requires
        exhausted(g_prev, w, h, x, y),
        interior(w, h, x, y),
        forall|i: int, j: int| in_grid(w, h, i, j) && cell(g_prev, i, j) != 0 ==> #[trigger] cell(g, i, j) != 0,
    ensures
        exhausted(g, w, h, x, y),
{
    assert forall|d: usize| d < 4 implies !#[trigger] carveable(g, w, h, x, y, d) by {
        if carveable(g, w, h, x, y, d) {
            assert(in_grid(w, h, x + 2 * dx(d), y + 2 * dy(d)));
            assert(!carveable(g_prev, w, h, x, y, d));
        }
    }
}

/// Whether `id` is among `ids`.
fn contains_id(ids: &Vec<u16>, id: u16) -> (r: bool)
    ensures
        r == ids@.contains(id),
{
    let mut i: usize = 0;
    while i < ids.len()
        invariant
            i <= ids@.len(),
            forall|k: int| 0 <= k < i ==> ids@[k] != id,
        decreases ids@.len() - i,
    {
        if ids[i] == id {
            return true;
        }
        i = i + 1;
    }
    false
}

/// Opening the listed connector at index `k` (or leaving it shut), and dropping
/// it from the list, keeps the rest of the list made of connectors and keeps the
/// grid's changes to opened connectors.
proof fn lemma_listed_after_open(
    g_prev: Seq<Vec<u16>>,
    g: Seq<Vec<u16>>,
    g0: Seq<Vec<u16>>,
    w: int,
    h: int,
    list: Seq<(usize, usize, u16, u16)>,
    k: int,
)
    requires
        0 <= k < list.len(),
        grid_wf(g_prev, w, h),
        grid_wf(g, w, h),
        connectors_listed(g_prev, g0, w, h, list),
        opened_connectors_only(g_prev, g0, w, h),
        border_walls(g_prev, w, h),
        cell(g, list[k].0 as int, list[k].1 as int) == 0 ==> g == g_prev,
        cell(g, list[k].0 as int, list[k].1 as int) == list[k].2 || cell(
            g,
            list[k].0 as int,
            list[k].1 as int,
        ) == list[k].3 || g == g_prev,
        forall|x: int, y: int|
            in_grid(w, h, x, y) && (x != list[k].0 || y != list[k].1) ==> #[trigger] cell(g, x, y)
                == cell(g_prev, x, y),
    ensures
        connectors_listed(g, g0, w, h, list.remove(k)),
        opened_connectors_only(g, g0, w, h),
        border_walls(g, w, h),
        forall|x: int, y: int|
            in_grid(w, h, x, y) && cell(g_prev, x, y) != 0 ==> #[trigger] cell(g, x, y) != 0,
{
    let rest = list.remove(k);
    let c = list[k];
    assert(interior(w, h, c.0 as int, c.1 as int) && is_connector(g0, w, h, c.0 as int, c.1 as int));
    assert(is_connector(g_prev, w, h, c.0 as int, c.1 as int));
    assert forall|l: int| 0 <= l < rest.len() implies interior(
        w,
        h,
        (#[trigger] rest[l]).0 as int,
        rest[l].1 as int,
    ) && is_connector(g, w, h, rest[l].0 as int, rest[l].1 as int) && is_connector(
        g0,
        w,
        h,
        rest[l].0 as int,
        rest[l].1 as int,
    ) && connector_regions(g0, w, rest[l].0 as int, rest[l].1 as int) == (rest[l].2, rest[l].3) by {
        let m = if l < k { l } else { l + 1 };
        assert(rest[l] == list[m]);
        assert(list[m].0 != c.0 || list[m].1 != c.1);
        let x = list[m].0 as int;
        let y = list[m].1 as int;
        assert(is_connector(g_prev, w, h, x, y));
        assert(cell(g, x, y) == cell(g_prev, x, y));
        if joins_across(g_prev, w, x, y) {
            assert(cell(g, x - 1, y) == cell(g_prev, x - 1, y));
            assert(cell(g, x + 1, y) == cell(g_prev, x + 1, y));
        } else {
            assert(cell(g, x, y - 1) == cell(g_prev, x, y - 1));
            assert(cell(g, x, y + 1) == cell(g_prev, x, y + 1));
        }
    }
    assert forall|l: int, m: int| 0 <= l < m < rest.len() implies (#[trigger] rest[l]).0 != (
    #[trigger] rest[m]).0 || rest[l].1 != rest[m].1 by {
        let l2 = if l < k { l } else { l + 1 };
        let m2 = if m < k { m } else { m + 1 };
        assert(rest[l] == list[l2] && rest[m] == list[m2]);
    }
    assert forall|x: int, y: int|
        in_grid(w, h, x, y) && #[trigger] cell(g, x, y) != cell(g0, x, y) implies cell(g0, x, y) == 0
        && cell(g, x, y) != 0 && is_connector(g0, w, h, x, y) by {
        if x == c.0 && y == c.1 {
            if cell(g, x, y) == 0 {
                assert(g == g_prev);
            }
        } else {
            assert(cell(g, x, y) == cell(g_prev, x, y));
        }
    }
    assert forall|x: int, y: int|
        in_grid(w, h, x, y) && !interior(w, h, x, y) implies #[trigger] cell(g, x, y) == 0 by {
        assert(cell(g_prev, x, y) == 0);
    }
    assert forall|x: int, y: int| in_grid(w, h, x, y) && cell(g_prev, x, y) != 0 implies #[trigger] cell(
        g,
        x,
        y,
    ) != 0 by {
        if x == c.0 && y == c.1 {
            assert(cell(g_prev, x, y) == 0);
        }
    }
}

/// Connectors open in `g_prev` stay open in `g` when no floor turned to wall, so
/// the merged regions keep their joins.
proof fn lemma_joins_kept(
    g_prev: Seq<Vec<u16>>,
    g: Seq<Vec<u16>>,
    g0: Seq<Vec<u16>>,
    w: int,
    h: int,
    m: Seq<u16>,
)
    requires
        merged_through_opened(g_prev, g0, w, h, m),
        forall|x: int, y: int|
            in_grid(w, h, x, y) && cell(g_prev, x, y) != 0 ==> #[trigger] cell(g, x, y) != 0,
    ensures
        merged_through_opened(g, g0, w, h, m),
{
    assert forall|k: int| 1 <= k < m.len() implies #[trigger] joined_earlier(g, g0, w, h, m, k) by {
        assert(joined_earlier(g_prev, g0, w, h, m, k));
        let (j, x, y) = choose|j: int, x: int, y: int|
            0 <= j < k && #[trigger] joined_by(g_prev, g0, w, h, x, y, m[k], m[j]);
        assert(in_grid(w, h, x, y));
        assert(cell(g, x, y) != 0);
        assert(joined_by(g, g0, w, h, x, y, m[k], m[j]));
    }
}

/// A region joined through an open connector to a merged region may be
/// appended to the merged regions.
proof fn lemma_joins_push(
    g: Seq<Vec<u16>>,
    g0: Seq<Vec<u16>>,
    w: int,
    h: int,
    m: Seq<u16>,
    n: u16,
    j: int,
    x: int,
    y: int,
)
    requires
        merged_through_opened(g, g0, w, h, m),
        0 <= j < m.len(),
        joined_by(g, g0, w, h, x, y, n, m[j]),
    ensures
        merged_through_opened(g, g0, w, h, m.push(n)),
{
    let m2 = m.push(n);
    assert forall|k: int| 1 <= k < m2.len() implies #[trigger] joined_earlier(g, g0, w, h, m2, k) by {
        if k == m.len() {
            assert(m2[k] == n && m2[j] == m[j]);
            assert(joined_by(g, g0, w, h, x, y, m2[k], m2[j]));
        } else {
            assert(m[k] == m2[k]);
            assert(joined_earlier(g, g0, w, h, m, k));
            let (i, a, b) = choose|i: int, a: int, b: int|
                0 <= i < k && #[trigger] joined_by(g, g0, w, h, a, b, m[k], m[i]);
            assert(m2[i] == m[i]);
            assert(joined_by(g, g0, w, h, a, b, m2[k], m2[i]));
        }
    }
}

/// Under `always_open`, an entry dropped from the list is open in `g`, and so
/// every connector of `g0` missing from the list stays open.
proof fn lemma_opened_after_drop(
    g_prev: Seq<Vec<u16>>,
    g: Seq<Vec<u16>>,
    g0: Seq<Vec<u16>>,
    w: int,
    h: int,
    list: Seq<(usize, usize, u16, u16)>,
    k: int,
    always_open: bool,
)
    requires
        0 <= k < list.len(),
        always_open ==> cell(g, list[k].0 as int, list[k].1 as int) != 0,
        always_open ==> forall|x: int, y: int|
            #[trigger] is_connector(g0, w, h, x, y) && !listed_at(list, x, y) ==> cell(g_prev, x, y) != 0,
        forall|x: int, y: int|
            in_grid(w, h, x, y) && cell(g_prev, x, y) != 0 ==> #[trigger] cell(g, x, y) != 0,
    ensures
        always_open ==> forall|x: int, y: int|
            #[trigger] is_connector(g0, w, h, x, y) && !listed_at(list.remove(k), x, y) ==> cell(g, x, y)
                != 0,
{
    if always_open {
        let rest = list.remove(k);
        assert forall|x: int, y: int|
            #[trigger] is_connector(g0, w, h, x, y) && !listed_at(rest, x, y) implies cell(g, x, y) != 0 by {
            if listed_at(list, x, y) {
                let l = choose|l: int| 0 <= l < list.len() && (#[trigger] list[l]).0 == x && list[l].1 == y;
                if l < k {
                    assert(rest[l] == list[l]);
                } else if l > k {
                    assert(rest[l - 1] == list[l]);
                }
            } else {
                assert(cell(g_prev, x, y) != 0);
            }
        }
    }
}

/// Dropping an entry keeps every other entry's regions apart from `m`.
proof fn lemma_unsettled_after_drop(list: Seq<(usize, usize, u16, u16)>, k: int, m: Seq<u16>)
    requires
        0 <= k < list.len(),
        forall|l: int| 0 <= l < list.len() ==> !both_merged(m, ((#[trigger] list[l]).2, list[l].3)),
    ensures
        forall|l: int|
            0 <= l < list.remove(k).len() ==> !both_merged(
                m,
                ((#[trigger] list.remove(k)[l]).2, list.remove(k)[l].3),
            ),
{
    let rest = list.remove(k);
    assert forall|l: int| 0 <= l < rest.len() implies !both_merged(m, ((#[trigger] rest[l]).2, rest[l].3)) by {
        if l < k {
            assert(rest[l] == list[l]);
        } else {
            assert(rest[l] == list[l + 1]);
        }
    }
}

/// Dropping the entry at index `k`, whose regions are both in `m2`, from a list
/// that held every connector of `g0` not settled in `m` (a part of `m2`) leaves a
/// list that holds every connector not settled in `m2`.
proof fn lemma_closure_after_drop(
    g0: Seq<Vec<u16>>,
    w: int,
    h: int,
    list: Seq<(usize, usize, u16, u16)>,
    k: int,
    m: Seq<u16>,
    m2: Seq<u16>,
)
    requires
        0 <= k < list.len(),
        forall|l: int, q: int|
            0 <= l < q < list.len() ==> (#[trigger] list[l]).0 != (#[trigger] list[q]).0 || list[l].1
                != list[q].1,
        is_connector(g0, w, h, list[k].0 as int, list[k].1 as int),
        connector_regions(g0, w, list[k].0 as int, list[k].1 as int) == (list[k].2, list[k].3),
        m2.contains(list[k].2) && m2.contains(list[k].3),
        forall|v: u16| m.contains(v) ==> m2.contains(v),
        forall|x: int, y: int|
            #[trigger] is_connector(g0, w, h, x, y) ==> listed_at(list, x, y) || both_merged(
                m,
                connector_regions(g0, w, x, y),
            ),
    ensures
        forall|x: int, y: int|
            #[trigger] is_connector(g0, w, h, x, y) ==> listed_at(list.remove(k), x, y)
                || both_merged(m2, connector_regions(g0, w, x, y)),
{
    let rest = list.remove(k);
    assert forall|x: int, y: int| #[trigger] is_connector(g0, w, h, x, y) implies listed_at(rest, x, y)
        || both_merged(m2, connector_regions(g0, w, x, y)) by {
        if listed_at(list, x, y) {
            let l = choose|l: int| 0 <= l < list.len() && (#[trigger] list[l]).0 == x && list[l].1 == y;
            if l < k {
                assert(rest[l] == list[l]);
            } else if l > k {
                assert(rest[l - 1] == list[l]);
            }
        } else {
            let r = connector_regions(g0, w, x, y);
            assert(m.contains(r.0) && m.contains(r.1));
        }
    }
}

} // verus!
