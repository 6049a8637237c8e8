use vstd::prelude::*;
use crate::counting::count_true;
use crate::random::random_range;
use crate::counting::lemma_count_true_bounds;
use crate::counting::lemma_count_true_update;
use crate::counting::lemma_count_true_disjoint;
use crate::counting::lemma_count_true_take_step;
use crate::counting::lemma_count_true_take_all;
use crate::counting::lemma_count_true_cover;

verus! {

/// A cell coordinate: column `x` first, then row `y`, both zero-based.
pub type Position = (usize, usize);

/// What `open` reports when it reveals a fresh cell: a mine was hit, or the
/// cell is safe and carries its neighboring-mine count.
#[derive(Debug, PartialEq, Eq, Structural, Clone, Copy)]
pub enum OpenResult {
    Mine,
    NoMine(u8),
}

/// Presentation data for one cell of the row-major snapshot.
#[derive(Debug, PartialEq, Eq, Structural, Clone, Copy)]
pub enum CellState {
    /// Not yet revealed, not flagged, and (unless the game is lost) possibly a mine.
    Hidden,
    /// Not yet revealed, marked as a suspected mine.
    Flagged,
    /// A mine: either revealed by opening it, or shown because the game is lost.
    Mine,
    /// Revealed and safe; carries the neighboring-mine count.
    Open(u8),
}

/// Why construction was refused.
#[derive(Debug, PartialEq, Eq, Structural, Clone, Copy)]
pub enum GameError {
    /// Zero-sized board, a board whose area overflows, or a mine count that
    /// does not leave at least one free cell.
    InvalidConfiguration,
}

/// The board. Each of the three cell sets (mines, open fields, flagged
/// fields) is a row-major grid of booleans of length `width * height`;
/// the cell `(x, y)` sits at index `y * width + x`.
#[derive(Debug)]
pub struct Minesweeper {
    pub width: usize,
    pub height: usize,
    pub mines: Vec<bool>,
    pub open_fields: Vec<bool>,
    pub flagged_fields: Vec<bool>,
    pub open_count: usize,
    pub flag_count: usize,
    pub lost: bool,
}

/// How many columns (or rows) the neighborhood window of coordinate `c`
/// covers on an axis of extent `limit`: the coordinate itself plus, where
/// present, one to each side.
pub open spec fn sp_span(c: int, limit: int) -> int {
    1 + (if c > 0 {
        1int
    } else {
        0int
    }) + (if c + 1 < limit {
        1int
    } else {
        0int
    })
}

proof fn lemma_idx_bounds(w: int, h: int, x: int, y: int)
    by (nonlinear_arith)
    requires
        1 <= w,
        0 <= x < w,
        0 <= y < h,
    ensures
        0 <= y * w,
        y * w + x < w * h,
{
}

proof fn lemma_idx_injective(w: int, x1: int, y1: int, x2: int, y2: int)
    by (nonlinear_arith)
    requires
        1 <= w,
        0 <= x1 < w,
        0 <= x2 < w,
        0 <= y1,
        0 <= y2,
        y1 * w + x1 == y2 * w + x2,
    ensures
        x1 == x2,
        y1 == y2,
{
}

/// A grid of `n` cells, all unset.
fn make_grid(n: usize) -> (v: Vec<bool>)
    ensures
        v@.len() == n,
        forall|i: int| 0 <= i < n ==> !v@[i],
        count_true(v@) == 0,
{
    let mut v: Vec<bool> = Vec::new();
    while v.len() < n
        invariant
            v@.len() <= n,
            forall|i: int| 0 <= i < v@.len() ==> !v@[i],
            count_true(v@) == 0,
        decreases n - v@.len(),
    {
        let ghost prev = v@;
        v.push(false);
        proof {
            assert(v@.drop_last() =~= prev);
        }
    }
    v
}

/// The index of the `r`-th unset cell of `g`, in index order.
fn nth_unset(g: &Vec<bool>, r: usize) -> (idx: usize)
    requires
        count_true(g@) + r < g@.len(),
    ensures
        idx < g@.len(),
        !g@[idx as int],
{
    let n = g.len();
    let mut i: usize = 0;
    let mut seen: usize = 0;
    while i < n
        invariant
            n == g@.len(),
            i <= n,
            seen <= r,
            seen == i - count_true(g@.take(i as int)),
            count_true(g@) + r < n,
        decreases n - i,
    {
        proof {
            lemma_count_true_take_step(g@, i as int);
            lemma_count_true_bounds(g@.take(i as int));
            lemma_count_true_bounds(g@.take(i + 1));
        }
        if !g[i] {
            if seen == r {
                return i;
            }
            seen = seen + 1;
        }
        i = i + 1;
    }
    proof {
        lemma_count_true_take_all(g@);
        assert(false);
    }
    0
}

/// Distinct in-bounds positions occupy distinct grid indices.
proof fn lemma_sp_idx_distinct(b: Minesweeper, p: Position, q: Position)
    requires
        b.wf(),
        b.sp_in_bounds(p),
        b.sp_in_bounds(q),
        p != q,
    ensures
        b.sp_idx(p) != b.sp_idx(q),
        0 <= b.sp_idx(p) < b.area(),
        0 <= b.sp_idx(q) < b.area(),
{
    lemma_idx_bounds(b.width as int, b.height as int, p.0 as int, p.1 as int);
    lemma_idx_bounds(b.width as int, b.height as int, q.0 as int, q.1 as int);
    if b.sp_idx(p) == b.sp_idx(q) {
        lemma_idx_injective(
            b.width as int,
            p.0 as int,
            p.1 as int,
            q.0 as int,
            q.1 as int,
        );
    }
}

proof fn lemma_idx_lt(w: int, xlim: int, ylim: int, x: int, y: int)
    by (nonlinear_arith)
    requires
        1 <= w,
        0 <= x < w,
        0 <= y,
        0 <= xlim <= w,
        y < ylim || (y == ylim && x < xlim),
    ensures
        y * w + x < ylim * w + xlim,
{
}

impl Minesweeper {
    /// The number of cells on the board.
    pub open spec fn area(self) -> int {
        self.width * self.height
    }

    /// The row-major index of a position.
    pub open spec fn sp_idx(self, p: Position) -> int {
        p.1 * self.width + p.0
    }

    pub open spec fn sp_in_bounds(self, p: Position) -> bool {
        p.0 < self.width && p.1 < self.height
    }

    pub open spec fn sp_mine(self, p: Position) -> bool {
        self.mines@[self.sp_idx(p)]
    }

    pub open spec fn sp_open(self, p: Position) -> bool {
        self.open_fields@[self.sp_idx(p)]
    }

    pub open spec fn sp_flagged(self, p: Position) -> bool {
        self.flagged_fields@[self.sp_idx(p)]
    }

    /// `q` is one of the at most eight cells adjacent to `p`, diagonals
    /// included, within the board and distinct from `p`.
    pub open spec fn sp_neighbors(self, p: Position, q: Position) -> bool {
        &&& self.sp_in_bounds(q)
        &&& q != p
        &&& p.0 <= q.0 + 1
        &&& q.0 <= p.0 + 1
        &&& p.1 <= q.1 + 1
        &&& q.1 <= p.1 + 1
    }

    /// How many neighbors a position has: 3 at a corner, 5 on an edge, 8 in
    /// the interior (for boards with both extents at least 3).
    pub open spec fn sp_neighbor_total(self, p: Position) -> int {
        sp_span(p.0 as int, self.width as int) * sp_span(p.1 as int, self.height as int) - 1
    }

    /// 1 when `(x, y)` lies on the board and is set in grid `g`, else 0.
    pub open spec fn sp_ind(self, g: Seq<bool>, x: int, y: int) -> int {
        if 0 <= x && x < self.width && 0 <= y && y < self.height && g[y * self.width + x] {
            1int
        } else {
            0int
        }
    }

    /// The number of set cells of grid `g` among the neighbors of `p`.
    pub open spec fn sp_count8(self, g: Seq<bool>, p: Position) -> int {
        self.sp_ind(g, p.0 - 1, p.1 - 1) + self.sp_ind(g, p.0 as int, p.1 - 1) + self.sp_ind(
            g,
            p.0 + 1,
            p.1 - 1,
        ) + self.sp_ind(g, p.0 - 1, p.1 as int) + self.sp_ind(g, p.0 + 1, p.1 as int) + self.sp_ind(
            g,
            p.0 - 1,
            p.1 + 1,
        ) + self.sp_ind(g, p.0 as int, p.1 + 1) + self.sp_ind(g, p.0 + 1, p.1 + 1)
    }

    /// The number of mines among the neighbors of `p`. Range 0 to 8.
    pub open spec fn sp_mine_count(self, p: Position) -> int {
        self.sp_count8(self.mines@, p)
    }

    /// The number of flags among the neighbors of `p`. Range 0 to 8.
    pub open spec fn sp_flag_count(self, p: Position) -> int {
        self.sp_count8(self.flagged_fields@, p)
    }

    /// The board agrees with `post` on everything `open` never changes:
    /// extents, mine placement, and flags.
    pub open spec fn same_static(self, post: Minesweeper) -> bool {
        &&& post.width == self.width
        &&& post.height == self.height
        &&& post.mines@ == self.mines@
        &&& post.flagged_fields@ == self.flagged_fields@
        &&& post.flag_count == self.flag_count
    }

    /// Every cell revealed in `self` is still revealed in `post`.
    pub open spec fn sp_opens_grew(self, post: Minesweeper) -> bool {
        forall|q: Position|
            #![trigger post.sp_open(q)]
            #![trigger self.sp_open(q)]
            self.sp_in_bounds(q) && self.sp_open(q) ==> post.sp_open(q)
    }

    /// `c` is revealed in `post` but was not in `self`.
    pub open spec fn sp_newly_open(self, post: Minesweeper, c: Position) -> bool {
        self.sp_in_bounds(c) && !self.sp_open(c) && post.sp_open(c)
    }

    /// `z` was newly revealed, is safe, and has no neighboring mines: the
    /// cells flood fill propagates from.
    pub open spec fn sp_zero_source(self, post: Minesweeper, z: Position) -> bool {
        self.sp_newly_open(post, z) && !self.sp_mine(z) && self.sp_mine_count(z) == 0
    }

    /// Some mine was newly revealed between `self` and `post`.
    pub open spec fn sp_mine_was_opened(self, post: Minesweeper) -> bool {
        exists|q: Position| #[trigger] self.sp_newly_open(post, q) && self.sp_mine(q)
    }

    /// Flood fill left nothing behind: every neighbor of a newly revealed
    /// zero-count cell ends up revealed or flagged.
    pub open spec fn sp_flood_done(self, post: Minesweeper) -> bool {
        forall|z: Position, q: Position|
            #![trigger self.sp_zero_source(post, z), self.sp_neighbors(z, q)]
            self.sp_zero_source(post, z) && self.sp_neighbors(z, q) ==> post.sp_open(q)
                || post.sp_flagged(q)
    }

    /// Reveal reaches no further than `source`, its neighbors, and the
    /// cascade out of newly revealed zero-count cells: flood fill stops at
    /// every cell with a neighboring mine.
    pub open spec fn sp_cascade_from(self, post: Minesweeper, source: Position) -> bool {
        forall|c: Position|
            #[trigger] self.sp_newly_open(post, c) ==> c == source || self.sp_neighbors(source, c)
                || (exists|z: Position|
                #[trigger] self.sp_zero_source(post, z) && self.sp_neighbors(z, c))
    }

    /// Structural soundness of a board: positive extents, the three grids
    /// cover the area, the two counters agree with their grids, and no cell
    /// is both open and flagged.
    pub open spec fn wf(self) -> bool {
        &&& 1 <= self.width
        &&& 1 <= self.height
        &&& self.mines@.len() == self.area()
        &&& self.open_fields@.len() == self.area()
        &&& self.flagged_fields@.len() == self.area()
        &&& self.open_count == count_true(self.open_fields@)
        &&& self.flag_count == count_true(self.flagged_fields@)
        &&& forall|i: int|
            #![trigger self.open_fields@[i]]
            #![trigger self.flagged_fields@[i]]
            0 <= i < self.area() ==> !(self.open_fields@[i] && self.flagged_fields@[i])
    }

    /// The row-major index of an in-bounds position, with its range bound.
    fn cell_index(&self, p: Position) -> (idx: usize)
        requires
            self.wf(),
            self.sp_in_bounds(p),
        ensures
            idx == self.sp_idx(p),
            idx < self.mines@.len(),
    {
        proof {
            lemma_idx_bounds(self.width as int, self.height as int, p.0 as int, p.1 as int);
        }
        let _n = self.mines.len();
        p.1 * self.width + p.0
    }

    fn mine_at(&self, p: Position) -> (r: bool)
        requires
            self.wf(),
            self.sp_in_bounds(p),
        ensures
            r == self.sp_mine(p),
    {
        let idx = self.cell_index(p);
        self.mines[idx]
    }

    fn open_at(&self, p: Position) -> (r: bool)
        requires
            self.wf(),
            self.sp_in_bounds(p),
        ensures
            r == self.sp_open(p),
    {
        let idx = self.cell_index(p);
        self.open_fields[idx]
    }

    fn flagged_at(&self, p: Position) -> (r: bool)
        requires
            self.wf(),
            self.sp_in_bounds(p),
        ensures
            r == self.sp_flagged(p),
    {
        let idx = self.cell_index(p);
        self.flagged_fields[idx]
    }

    /// Reveal one cell, maintaining the counter and the disjointness
    /// invariant. Everything else is untouched.
    fn set_open(&mut self, p: Position)
        requires
            old(self).wf(),
            old(self).sp_in_bounds(p),
            !old(self).sp_open(p),
            !old(self).sp_flagged(p),
        ensures
            final(self).wf(),
            final(self).width == old(self).width,
            final(self).height == old(self).height,
            final(self).mines@ == old(self).mines@,
            final(self).flagged_fields@ == old(self).flagged_fields@,
            final(self).flag_count == old(self).flag_count,
            final(self).lost == old(self).lost,
            final(self).open_fields@ == old(self).open_fields@.update(old(self).sp_idx(p), true),
            final(self).open_count == old(self).open_count + 1,
            final(self).sp_open(p),
            forall|q: Position|
                old(self).sp_in_bounds(q) && q != p ==> #[trigger] final(self).sp_open(q) == old(self).sp_open(q),
    {
        let idx = self.cell_index(p);
        let _n = self.open_fields.len();
        self.open_fields[idx] = true;
        proof {
            lemma_count_true_update(old(self).open_fields@, old(self).sp_idx(p), true);
            lemma_count_true_bounds(self.open_fields@);
        }
        self.open_count = self.open_count + 1;
        proof {
            assert forall|q: Position| old(self).sp_in_bounds(q) && q != p implies #[trigger] self
                .sp_open(q) == old(self).sp_open(q) by {
                lemma_idx_bounds(
                    self.width as int,
                    self.height as int,
                    q.0 as int,
                    q.1 as int,
                );
                if old(self).sp_idx(q) == old(self).sp_idx(p) {
                    lemma_idx_injective(
                        self.width as int,
                        q.0 as int,
                        q.1 as int,
                        p.0 as int,
                        p.1 as int,
                    );
                }
            }
        }
    }

    /// Flag or unflag one cell, maintaining the counter and the disjointness
    /// invariant. Everything else is untouched.
    fn set_flag(&mut self, p: Position, value: bool)
        requires
            old(self).wf(),
            old(self).sp_in_bounds(p),
            value != old(self).sp_flagged(p),
            value ==> !old(self).sp_open(p),
        ensures
            final(self).wf(),
            final(self).width == old(self).width,
            final(self).height == old(self).height,
            final(self).mines@ == old(self).mines@,
            final(self).open_fields@ == old(self).open_fields@,
            final(self).open_count == old(self).open_count,
            final(self).lost == old(self).lost,
            final(self).flagged_fields@ == old(self).flagged_fields@.update(
                old(self).sp_idx(p),
                value,
            ),
            final(self).flag_count == old(self).flag_count + (if value {
                1int
            } else {
                -1int
            }),
            final(self).sp_flagged(p) == value,
            forall|q: Position|
                old(self).sp_in_bounds(q) && q != p ==> #[trigger] final(self).sp_flagged(q) == old(self).sp_flagged(q),
    {
        let idx = self.cell_index(p);
        let _n = self.flagged_fields.len();
        proof {
            lemma_count_true_update(old(self).flagged_fields@, old(self).sp_idx(p), value);
            lemma_count_true_bounds(old(self).flagged_fields@.update(old(self).sp_idx(p), value));
        }
        self.flagged_fields[idx] = value;
        if value {
            self.flag_count = self.flag_count + 1;
        } else {
            self.flag_count = self.flag_count - 1;
        }
        proof {
            assert forall|q: Position| old(self).sp_in_bounds(q) && q != p implies #[trigger] self
                .sp_flagged(q) == old(self).sp_flagged(q) by {
                lemma_idx_bounds(
                    self.width as int,
                    self.height as int,
                    q.0 as int,
                    q.1 as int,
                );
                if old(self).sp_idx(q) == old(self).sp_idx(p) {
                    lemma_idx_injective(
                        self.width as int,
                        q.0 as int,
                        q.1 as int,
                        p.0 as int,
                        p.1 as int,
                    );
                }
            }
        }
    }

    /// Build a board. Mines are placed by repeated random draws until the
    /// requested count of distinct positions is reached; each draw picks
    /// uniformly among the cells that are still free. Construction is
    /// refused unless both extents are positive, the area is representable,
    /// and the mine count leaves at least one free cell.
    pub fn new(width: usize, height: usize, mine_count: usize) -> (r: Result<
        Minesweeper,
        GameError,
    >)
        ensures
            r is Ok <==> (1 <= width && 1 <= height && width * height <= usize::MAX && mine_count
                < width * height),
            r matches Ok(b) ==> {
                &&& b.wf()
                &&& b.width == width
                &&& b.height == height
                &&& count_true(b.mines@) == mine_count
                &&& b.open_count == 0
                &&& b.flag_count == 0
                &&& !b.lost
                &&& forall|i: int|
                    #![trigger b.open_fields@[i]]
                    #![trigger b.flagged_fields@[i]]
                    0 <= i < b.area() ==> !b.open_fields@[i] && !b.flagged_fields@[i]
                &&& b.sp_flood_closed()
            },
            r matches Err(e) ==> e == GameError::InvalidConfiguration,
    {
        if width == 0 || height == 0 {
            return Err(GameError::InvalidConfiguration);
        }
        let area = match width.checked_mul(height) {
            Some(a) => a,
            None => {
                return Err(GameError::InvalidConfiguration);
            },
        };
        if mine_count >= area {
            return Err(GameError::InvalidConfiguration);
        }
        let mut mines: Vec<bool> = make_grid(area);
        let mut placed: usize = 0;
        while placed < mine_count
            invariant
                mines@.len() == area,
                placed <= mine_count,
                mine_count < area,
                placed == count_true(mines@),
            decreases mine_count - placed,
        {
            let pick = random_range(0, area - placed);
            let idx = nth_unset(&mines, pick);
            proof {
                lemma_count_true_update(mines@, idx as int, true);
            }
            mines[idx] = true;
            placed = placed + 1;
        }
        let board = Minesweeper {
            width,
            height,
            mines,
            open_fields: make_grid(area),
            flagged_fields: make_grid(area),
            open_count: 0,
            flag_count: 0,
            lost: false,
        };
        proof {
            // nothing is revealed yet, so flood-closure holds vacuously
            assert forall|z: Position, q: Position|
                board.sp_in_bounds(z) && board.sp_open(z) && !board.sp_mine(z) && board.sp_mine_count(z) == 0 && board.sp_neighbors(z, q) implies board.sp_open(q) || board.sp_flagged(q) by {
                lemma_idx_bounds(
                    board.width as int,
                    board.height as int,
                    z.0 as int,
                    z.1 as int,
                );
            }
        }
        Ok(board)
    }

    /// The neighbors of an in-bounds position: every in-bounds cell adjacent
    /// to it (diagonals included), the position itself excluded. Edge and
    /// corner cells get fewer than eight.
    pub fn iter_neighbors(&self, pos: Position) -> (r: Vec<Position>)
        requires
            self.wf(),
            self.sp_in_bounds(pos),
        ensures
            forall|q: Position| #[trigger] r@.contains(q) <==> self.sp_neighbors(pos, q),
            forall|k1: int, k2: int| 0 <= k1 < k2 < r@.len() ==> r@[k1] != r@[k2],
            r@.len() == self.sp_neighbor_total(pos),
    {
        broadcast use vstd::seq_lib::group_seq_properties;

        let x = pos.0;
        let y = pos.1;
        let mut r: Vec<Position> = Vec::new();
        if x > 0 {
            if y > 0 {
                r.push((x - 1, y - 1));
            }
            r.push((x - 1, y));
            if y + 1 < self.height {
                r.push((x - 1, y + 1));
            }
        }
        if y > 0 {
            r.push((x, y - 1));
        }
        if y + 1 < self.height {
            r.push((x, y + 1));
        }
        if x + 1 < self.width {
            if y > 0 {
                r.push((x + 1, y - 1));
            }
            r.push((x + 1, y));
            if y + 1 < self.height {
                r.push((x + 1, y + 1));
            }
        }
        proof {
            let sx = sp_span(x as int, self.width as int);
            let sy = sp_span(y as int, self.height as int);
            assert(sx * sy == (if sx == 1 {
                sy
            } else if sx == 2 {
                sy + sy
            } else {
                sy + sy + sy
            })) by (nonlinear_arith)
                requires
                    1 <= sx <= 3,
            ;
        }
        r
    }

    /// The neighboring-mine count of an in-bounds position.
    pub fn neighboring_mines(&self, pos: Position) -> (r: u8)
        requires
            self.wf(),
            self.sp_in_bounds(pos),
        ensures
            r as int == self.sp_mine_count(pos),
            r <= 8,
    {
        let x = pos.0;
        let y = pos.1;
        let mut n: u8 = 0;
        if x > 0 && y > 0 && self.mine_at((x - 1, y - 1)) {
            n = n + 1;
        }
        if y > 0 && self.mine_at((x, y - 1)) {
            n = n + 1;
        }
        if x + 1 < self.width && y > 0 && self.mine_at((x + 1, y - 1)) {
            n = n + 1;
        }
        if x > 0 && self.mine_at((x - 1, y)) {
            n = n + 1;
        }
        if x + 1 < self.width && self.mine_at((x + 1, y)) {
            n = n + 1;
        }
        if x > 0 && y + 1 < self.height && self.mine_at((x - 1, y + 1)) {
            n = n + 1;
        }
        if y + 1 < self.height && self.mine_at((x, y + 1)) {
            n = n + 1;
        }
        if x + 1 < self.width && y + 1 < self.height && self.mine_at((x + 1, y + 1)) {
            n = n + 1;
        }
        n
    }

    /// The neighboring-flag count of an in-bounds position.
    fn neighboring_flags(&self, pos: Position) -> (r: u8)
        requires
            self.wf(),
            self.sp_in_bounds(pos),
        ensures
            r as int == self.sp_flag_count(pos),
            r <= 8,
    {
        let x = pos.0;
        let y = pos.1;
        let mut n: u8 = 0;
        if x > 0 && y > 0 && self.flagged_at((x - 1, y - 1)) {
            n = n + 1;
        }
        if y > 0 && self.flagged_at((x, y - 1)) {
            n = n + 1;
        }
        if x + 1 < self.width && y > 0 && self.flagged_at((x + 1, y - 1)) {
            n = n + 1;
        }
        if x > 0 && self.flagged_at((x - 1, y)) {
            n = n + 1;
        }
        if x + 1 < self.width && self.flagged_at((x + 1, y)) {
            n = n + 1;
        }
        if x > 0 && y + 1 < self.height && self.flagged_at((x - 1, y + 1)) {
            n = n + 1;
        }
        if y + 1 < self.height && self.flagged_at((x, y + 1)) {
            n = n + 1;
        }
        if x + 1 < self.width && y + 1 < self.height && self.flagged_at((x + 1, y + 1)) {
            n = n + 1;
        }
        n
    }

    /// A cell whose neighboring-mine count is zero has no mine on any of its
    /// neighbors.
    proof fn lemma_zero_count_no_mine(self, p: Position, q: Position)
        requires
            self.wf(),
            self.sp_in_bounds(p),
            self.sp_neighbors(p, q),
            self.sp_mine_count(p) == 0,
        ensures
            !self.sp_mine(q),
    {
        assert(self.sp_ind(self.mines@, q.0 as int, q.1 as int) == 0);
    }

    /// Depth-first reveal of a worklist of cells: the traversal shared by
    /// flood fill and chording. A popped cell is skipped when the game is
    /// lost or the cell is already revealed or flagged; otherwise it is
    /// revealed, a mine loses the game, and a safe cell with no neighboring
    /// mines queues all of its neighbors.
    fn open_positions(&mut self, work: Vec<Position>)
        requires
            old(self).wf(),
            forall|k: int| 0 <= k < work@.len() ==> old(self).sp_in_bounds(#[trigger] work@[k]),
        ensures
            final(self).wf(),
            old(self).same_static(*final(self)),
            old(self).sp_opens_grew(*final(self)),
            final(self).open_count >= old(self).open_count,
            old(self).lost ==> final(self).open_fields@ == old(self).open_fields@ && final(self).open_count == old(self).open_count && final(self).lost,
            final(self).lost <==> (old(self).lost || old(self).sp_mine_was_opened(*final(self))),
            !final(self).lost ==> forall|q: Position| #[trigger]
                work@.contains(q) ==> final(self).sp_open(q) || final(self).sp_flagged(q),
            !final(self).lost ==> old(self).sp_flood_done(*final(self)),
            forall|c: Position| #[trigger]
                old(self).sp_newly_open(*final(self), c) ==> work@.contains(c) || (exists|z: Position|
                    #[trigger] old(self).sp_zero_source(*final(self), z) && old(self).sp_neighbors(z, c)),
    {
        let ghost pre: Minesweeper = *self;
        let ghost items: Seq<Position> = work@;
        let mut stack = work;
        proof {
            lemma_count_true_bounds(self.open_fields@);
            assert forall|q: Position| items.contains(q) implies pre.sp_in_bounds(q) by {
                let k = choose|k: int| 0 <= k < items.len() && items[k] == q;
                assert(pre.sp_in_bounds(items[k]));
            }
        }
        while stack.len() != 0
            invariant
                self.wf(),
                pre.wf(),
                pre.same_static(*self),
                self.open_count <= self.area(),
                forall|q: Position| #[trigger] items.contains(q) ==> pre.sp_in_bounds(q),
                forall|k: int| 0 <= k < stack@.len() ==> pre.sp_in_bounds(#[trigger] stack@[k]),
                pre.sp_opens_grew(*self),
                self.open_count >= pre.open_count,
                pre.lost ==> self.open_fields@ == pre.open_fields@ && self.open_count == pre.open_count && self.lost,
                self.lost <==> (pre.lost || pre.sp_mine_was_opened(*self)),
                !self.lost ==> forall|q: Position| #[trigger]
                    items.contains(q) ==> self.sp_open(q) || self.sp_flagged(q) || stack@.contains(q),
                !self.lost ==> forall|z: Position, q: Position|
                    #![trigger pre.sp_zero_source(*self, z), pre.sp_neighbors(z, q)]
                    pre.sp_zero_source(*self, z) && pre.sp_neighbors(z, q) ==> self.sp_open(q) || self.sp_flagged(q) || stack@.contains(q),
                forall|c: Position| #[trigger]
                    pre.sp_newly_open(*self, c) ==> items.contains(c) || (exists|z: Position|
                        #[trigger] pre.sp_zero_source(*self, z) && pre.sp_neighbors(z, c)),
                forall|k: int|
                    0 <= k < stack@.len() ==> items.contains(#[trigger] stack@[k]) || (exists|z: Position|
                        #[trigger] pre.sp_zero_source(*self, z) && pre.sp_neighbors(z, stack@[k])),
            decreases self.area() - self.open_count, stack@.len(),
        {
            let ghost cur: Minesweeper = *self;
            let ghost sv: Seq<Position> = stack@;
            let p = stack.pop().unwrap();
            proof {
                assert(sv[sv.len() - 1] == p);
                assert forall|q: Position| sv.contains(q) implies stack@.contains(q) || q == p by {
                    let k = choose|k: int| 0 <= k < sv.len() && sv[k] == q;
                    if k < sv.len() - 1 {
                        assert(stack@[k] == q);
                    }
                }
                assert(forall|k: int| 0 <= k < stack@.len() ==> #[trigger] stack@[k] == sv[k]);
            }
            if self.is_lost() || self.open_at(p) || self.flagged_at(p) {
                // skipped: the popped cell needs no work
            } else {
                self.set_open(p);
                proof {
                    lemma_count_true_bounds(self.open_fields@);
                    assert(self.open_fields@ == cur.open_fields@.update(cur.sp_idx(p), true));
                }
                let ghost was_mine: bool = self.sp_mine(p);
                let ghost sv2: Seq<Position> = stack@;
                let ghost p_zero: bool = !was_mine && pre.sp_mine_count(p) == 0;
                if self.mine_at(p) {
                    self.lost = true;
                } else {
                    let nm = self.neighboring_mines(p);
                    if nm == 0 {
                        let mut nbrs = self.iter_neighbors(p);
                        let ghost nv: Seq<Position> = nbrs@;
                        stack.append(&mut nbrs);
                        proof {
                            assert(stack@ == sv2 + nv);
                            assert(pre.sp_mine_count(p) == self.sp_mine_count(p));
                            assert(pre.sp_zero_source(*self, p));
                            assert forall|q: Position| sv2.contains(q) || nv.contains(q) implies stack@.contains(q) by {
                                if sv2.contains(q) {
                                    let k = choose|k: int| 0 <= k < sv2.len() && sv2[k] == q;
                                    assert(stack@[k] == q);
                                } else {
                                    let k = choose|k: int| 0 <= k < nv.len() && nv[k] == q;
                                    assert(stack@[sv2.len() + k] == q);
                                }
                            }
                            assert forall|k: int| 0 <= k < stack@.len() implies pre.sp_in_bounds(#[trigger] stack@[k]) by {
                                if k >= sv2.len() {
                                    let q = nv[k - sv2.len()];
                                    assert(stack@[k] == q);
                                    assert(nv.contains(q));
                                    assert(self.sp_neighbors(p, q));
                                }
                            }
                            assert forall|q: Position| pre.sp_neighbors(p, q) implies stack@.contains(q) by {
                                assert(self.sp_neighbors(p, q));
                                assert(nv.contains(q));
                            }
                            assert forall|k: int| sv2.len() <= k < stack@.len() implies pre.sp_neighbors(p, #[trigger] stack@[k]) by {
                                let q = nv[k - sv2.len()];
                                assert(stack@[k] == q);
                                assert(nv.contains(q));
                                assert(self.sp_neighbors(p, q));
                            }
                        }
                    }
                }
                proof {
                    // Cross-state transfer: the reveal changed exactly cell p.
                    assert(self.open_fields@ == cur.open_fields@.update(cur.sp_idx(p), true));
                    assert(self.flagged_fields@ == cur.flagged_fields@);
                    assert forall|q: Position| cur.sp_in_bounds(q) && q != p implies #[trigger] self.sp_open(q) == cur.sp_open(q) by {
                        lemma_sp_idx_distinct(cur, p, q);
                    }
                    assert(self.sp_open(p));
                    assert(!pre.sp_open(p));
                    assert(pre.sp_newly_open(*self, p));
                    assert(was_mine == pre.sp_mine(p));
                    assert(pre.sp_mine_count(p) == self.sp_mine_count(p));
                    assert(self.lost == (cur.lost || was_mine));
                    assert(!cur.lost);

                    // zero sources persist and may gain p
                    assert forall|z: Position| pre.sp_zero_source(cur, z) implies #[trigger] pre.sp_zero_source(*self, z) by {
                        assert(z != p);
                        assert(self.sp_open(z) == cur.sp_open(z));
                    }

                    // loss characterization
                    if was_mine {
                        assert(pre.sp_newly_open(*self, p) && pre.sp_mine(p));
                        assert(pre.sp_mine_was_opened(*self));
                    } else {
                        if pre.sp_mine_was_opened(*self) {
                            let w = choose|w: Position| #[trigger] pre.sp_newly_open(*self, w) && pre.sp_mine(w);
                            assert(w != p);
                            assert(self.sp_open(w) == cur.sp_open(w));
                            assert(pre.sp_newly_open(cur, w));
                            assert(pre.sp_mine_was_opened(cur));
                        }
                        if pre.sp_mine_was_opened(cur) {
                            let w = choose|w: Position| #[trigger] pre.sp_newly_open(cur, w) && pre.sp_mine(w);
                            assert(w != p);
                            assert(self.sp_open(w) == cur.sp_open(w));
                            assert(pre.sp_newly_open(*self, w));
                            assert(pre.sp_mine_was_opened(*self));
                        }
                    }

                    // provenance of every newly revealed cell
                    assert forall|c: Position| pre.sp_newly_open(*self, c) implies items.contains(c) || (exists|z: Position|
                        #[trigger] pre.sp_zero_source(*self, z) && pre.sp_neighbors(z, c)) by {
                        if c == p {
                            assert(items.contains(p) || (exists|z: Position|
                                #[trigger] pre.sp_zero_source(cur, z) && pre.sp_neighbors(z, p)));
                            if !items.contains(p) {
                                let z = choose|z: Position| #[trigger] pre.sp_zero_source(cur, z) && pre.sp_neighbors(z, p);
                                assert(pre.sp_zero_source(*self, z));
                            }
                        } else {
                            assert(cur.sp_in_bounds(c));
                            assert(self.sp_open(c) == cur.sp_open(c));
                            assert(pre.sp_newly_open(cur, c));
                            if !items.contains(c) {
                                let z = choose|z: Position| #[trigger] pre.sp_zero_source(cur, z) && pre.sp_neighbors(z, c);
                                assert(pre.sp_zero_source(*self, z));
                            }
                        }
                    }

                    // provenance of the stack contents
                    assert forall|k: int| 0 <= k < stack@.len() implies items.contains(#[trigger] stack@[k]) || (exists|z: Position|
                        #[trigger] pre.sp_zero_source(*self, z) && pre.sp_neighbors(z, stack@[k])) by {
                        let q = stack@[k];
                        if k < sv.len() - 1 && sv[k] == q {
                            assert(items.contains(q) || (exists|z: Position|
                                #[trigger] pre.sp_zero_source(cur, z) && pre.sp_neighbors(z, q)));
                            if !items.contains(q) {
                                let z = choose|z: Position| #[trigger] pre.sp_zero_source(cur, z) && pre.sp_neighbors(z, q);
                                assert(pre.sp_zero_source(*self, z));
                            }
                        } else {
                            assert(k >= sv2.len());
                            assert(p_zero);
                            assert(pre.sp_neighbors(p, q));
                            assert(pre.sp_zero_source(*self, p));
                        }
                    }

                    if !self.lost {
                        // pending worklist obligations
                        assert forall|q: Position| items.contains(q) implies self.sp_open(q) || self.sp_flagged(q) || stack@.contains(q) by {
                            assert(cur.sp_open(q) || cur.sp_flagged(q) || sv.contains(q));
                            if q != p {
                                assert(self.sp_open(q) == cur.sp_open(q));
                                if sv.contains(q) && !cur.sp_open(q) && !cur.sp_flagged(q) {
                                    assert(stack@.contains(q) || q == p);
                                }
                            }
                        }
                        // pending flood obligations
                        assert forall|z: Position, q: Position|
                            pre.sp_zero_source(*self, z) && pre.sp_neighbors(z, q) implies self.sp_open(q) || self.sp_flagged(q) || stack@.contains(q) by {
                            if z == p {
                                assert(p_zero);
                                assert(stack@.contains(q));
                            } else {
                                assert(self.sp_open(z) == cur.sp_open(z));
                                assert(pre.sp_zero_source(cur, z));
                                assert(cur.sp_open(q) || cur.sp_flagged(q) || sv.contains(q));
                                if q != p {
                                    assert(self.sp_open(q) == cur.sp_open(q));
                                    if sv.contains(q) && !cur.sp_open(q) && !cur.sp_flagged(q) {
                                        assert(stack@.contains(q) || q == p);
                                    }
                                }
                            }
                        }
                    }
                }
            }
        }
    }

    /// The central state transition. On a fresh, unflagged cell of a live
    /// game it reveals the cell: a mine loses the game and answers
    /// `Some(Mine)`; a safe cell answers `Some(NoMine(n))` with its
    /// neighboring-mine count `n`, and when `n` is zero flood fill reveals
    /// the whole connected zero-region with its border. On an already
    /// revealed cell it chords: when the neighboring-mine count equals the
    /// neighboring-flag count, every unflagged unopened neighbor is revealed
    /// in turn; either way it answers `None`. A lost game and a flagged cell
    /// ignore the call.
    pub fn open(&mut self, position: Position) -> (r: Option<OpenResult>)
        requires
            old(self).wf(),
            old(self).sp_in_bounds(position),
        ensures
            final(self).wf(),
            old(self).same_static(*final(self)),
            old(self).sp_opens_grew(*final(self)),
            final(self).open_count >= old(self).open_count,
            old(self).lost ==> final(self).open_fields@ == old(self).open_fields@ && final(self).open_count == old(self).open_count && final(self).lost,
            final(self).lost <==> (old(self).lost || old(self).sp_mine_was_opened(*final(self))),
            old(self).sp_cascade_from(*final(self), position),
            !final(self).lost ==> old(self).sp_flood_done(*final(self)),
            old(self).sp_open(position) ==> r is None,
            old(self).sp_open(position) && old(self).sp_mine_count(position) != old(self).sp_flag_count(position) ==> final(self).open_fields@ == old(self).open_fields@ && final(self).open_count == old(self).open_count && final(self).lost == old(self).lost,
            old(self).sp_open(position) && old(self).sp_mine_count(position) == old(self).sp_flag_count(position) && !final(self).lost ==> forall|q: Position| old(self).sp_neighbors(position, q) ==> final(self).sp_open(q) || final(self).sp_flagged(q),
            !old(self).sp_open(position) && (old(self).lost || old(self).sp_flagged(position)) ==> r is None && final(self).open_fields@ == old(self).open_fields@ && final(self).open_count == old(self).open_count && final(self).lost == old(self).lost,
            !old(self).sp_open(position) && !old(self).lost && !old(self).sp_flagged(position) ==> {
                &&& final(self).sp_open(position)
                &&& r is Some
                &&& (old(self).sp_mine(position) ==> r == Some(OpenResult::Mine) && final(self).lost && final(self).open_fields@ == old(self).open_fields@.update(old(self).sp_idx(position), true) && final(self).open_count == old(self).open_count + 1)
                &&& (!old(self).sp_mine(position) ==> r == Some(OpenResult::NoMine(old(self).sp_mine_count(position) as u8)) && !final(self).lost)
            },
    {
        if self.open_at(position) {
            let nm = self.neighboring_mines(position);
            let nf = self.neighboring_flags(position);
            if nm == nf {
                let nbrs = self.iter_neighbors(position);
                proof {
                    assert forall|k: int| 0 <= k < nbrs@.len() implies self.sp_in_bounds(#[trigger] nbrs@[k]) by {
                        assert(nbrs@.contains(nbrs@[k]));
                    }
                }
                self.open_positions(nbrs);
                proof {
                    if !self.lost {
                        assert forall|q: Position|
                            old(self).sp_neighbors(position, q) implies self.sp_open(q) || self.sp_flagged(q) by {
                            assert(nbrs@.contains(q));
                        }
                    }
                    assert forall|c: Position|
                        old(self).sp_newly_open(*self, c) implies c == position || old(self).sp_neighbors(position, c) || (exists|z: Position|
                            #[trigger] old(self).sp_zero_source(*self, z) && old(self).sp_neighbors(z, c)) by {
                        if nbrs@.contains(c) {
                            assert(old(self).sp_neighbors(position, c));
                        }
                    }
                }
                return None;
            }
            return None;
        }
        if self.is_lost() || self.flagged_at(position) {
            return None;
        }
        let ghost pre: Minesweeper = *self;
        self.set_open(position);
        let ghost mid: Minesweeper = *self;
        proof {
            assert(mid.open_fields@ == pre.open_fields@.update(pre.sp_idx(position), true));
            assert forall|q: Position|
                pre.sp_in_bounds(q) && q != position implies #[trigger] mid.sp_open(q) == pre.sp_open(q) by {
                lemma_sp_idx_distinct(pre, position, q);
            }
            assert(mid.sp_open(position));
        }
        if self.mine_at(position) {
            self.lost = true;
            proof {
                assert(self.open_fields@ == mid.open_fields@);
                assert(pre.sp_newly_open(*self, position) && pre.sp_mine(position));
                assert(pre.sp_mine_was_opened(*self));
                assert forall|c: Position|
                    pre.sp_newly_open(*self, c) implies c == position by {
                    if c != position {
                        lemma_sp_idx_distinct(pre, position, c);
                        assert(self.sp_open(c) == pre.sp_open(c));
                    }
                }
                assert forall|q: Position|
                    pre.sp_in_bounds(q) && pre.sp_open(q) implies self.sp_open(q) by {
                    if q != position {
                        lemma_sp_idx_distinct(pre, position, q);
                        assert(self.sp_open(q) == pre.sp_open(q));
                    } else {
                        assert(self.sp_open(position));
                    }
                }
            }
            return Some(OpenResult::Mine);
        }
        let nm = self.neighboring_mines(position);
        proof {
            assert(pre.sp_mine_count(position) == mid.sp_mine_count(position));
            assert(!pre.sp_mine(position));
        }
        if nm == 0 {
            let nbrs = self.iter_neighbors(position);
            proof {
                assert forall|k: int| 0 <= k < nbrs@.len() implies mid.sp_in_bounds(#[trigger] nbrs@[k]) by {
                    assert(nbrs@.contains(nbrs@[k]));
                }
            }
            self.open_positions(nbrs);
            proof {
                // nothing revealed by the cascade is a mine, so the game is not lost
                assert forall|w: Position| mid.sp_newly_open(*self, w) implies !mid.sp_mine(w) by {
                    assert(nbrs@.contains(w) || (exists|z: Position|
                        #[trigger] mid.sp_zero_source(*self, z) && mid.sp_neighbors(z, w)));
                    if nbrs@.contains(w) {
                        assert(mid.sp_neighbors(position, w));
                        mid.lemma_zero_count_no_mine(position, w);
                    } else {
                        let z = choose|z: Position|
                            #[trigger] mid.sp_zero_source(*self, z) && mid.sp_neighbors(z, w);
                        mid.lemma_zero_count_no_mine(z, w);
                    }
                }
                assert(!mid.sp_mine_was_opened(*self));
                assert(!self.lost);

                // newly revealed cells relative to the state before the reveal
                assert forall|c: Position|
                    pre.sp_newly_open(*self, c) && c != position implies mid.sp_newly_open(*self, c) by {
                    assert(mid.sp_open(c) == pre.sp_open(c));
                }
                assert forall|z: Position|
                    mid.sp_zero_source(*self, z) implies pre.sp_zero_source(*self, z) && z != position by {
                    assert(!mid.sp_open(z));
                    assert(z != position);
                    assert(mid.sp_open(z) == pre.sp_open(z));
                }
                assert(pre.sp_zero_source(*self, position));

                // no mine was revealed at all
                if pre.sp_mine_was_opened(*self) {
                    let w = choose|w: Position| #[trigger] pre.sp_newly_open(*self, w) && pre.sp_mine(w);
                    assert(w != position);
                    assert(mid.sp_newly_open(*self, w));
                    assert(!mid.sp_mine(w));
                    assert(false);
                }

                // flood fill ran to completion
                assert forall|z: Position, q: Position|
                    pre.sp_zero_source(*self, z) && pre.sp_neighbors(z, q) implies self.sp_open(q) || self.sp_flagged(q) by {
                    if z == position {
                        assert(nbrs@.contains(q));
                    } else {
                        assert(mid.sp_open(z) == pre.sp_open(z));
                        assert(mid.sp_zero_source(*self, z));
                        assert(mid.sp_neighbors(z, q));
                    }
                }

                // reveal reaches no further than the cascade
                assert forall|c: Position|
                    pre.sp_newly_open(*self, c) implies c == position || pre.sp_neighbors(position, c) || (exists|z: Position|
                        #[trigger] pre.sp_zero_source(*self, z) && pre.sp_neighbors(z, c)) by {
                    if c != position {
                        assert(mid.sp_newly_open(*self, c));
                        assert(nbrs@.contains(c) || (exists|z: Position|
                            #[trigger] mid.sp_zero_source(*self, z) && mid.sp_neighbors(z, c)));
                        if nbrs@.contains(c) {
                            assert(pre.sp_neighbors(position, c));
                        } else {
                            let z = choose|z: Position|
                                #[trigger] mid.sp_zero_source(*self, z) && mid.sp_neighbors(z, c);
                            assert(pre.sp_zero_source(*self, z));
                        }
                    }
                }

                // reveals only grew
                assert forall|q: Position|
                    pre.sp_in_bounds(q) && pre.sp_open(q) implies self.sp_open(q) by {
                    assert(mid.sp_open(q));
                }
            }
        } else {
            proof {
                assert forall|c: Position|
                    pre.sp_newly_open(*self, c) implies c == position by {
                    if c != position {
                        assert(self.sp_open(c) == pre.sp_open(c));
                    }
                }
                assert(!pre.sp_mine_was_opened(*self));
                assert forall|z: Position, q: Position|
                    pre.sp_zero_source(*self, z) && pre.sp_neighbors(z, q) implies self.sp_open(q) || self.sp_flagged(q) by {
                    assert(z == position);
                    assert(pre.sp_mine_count(position) != 0);
                }
            }
        }
        Some(OpenResult::NoMine(nm))
    }

    /// Mark or unmark a hidden cell as a suspected mine. A lost game and a
    /// revealed cell ignore the call; otherwise the flag flips and nothing
    /// else changes.
    pub fn toggle_flag(&mut self, pos: Position)
        requires
            old(self).wf(),
            old(self).sp_in_bounds(pos),
        ensures
            final(self).wf(),
            final(self).width == old(self).width,
            final(self).height == old(self).height,
            final(self).mines@ == old(self).mines@,
            final(self).open_fields@ == old(self).open_fields@,
            final(self).open_count == old(self).open_count,
            final(self).lost == old(self).lost,
            old(self).lost || old(self).sp_open(pos) ==> final(self).flagged_fields@ == old(self).flagged_fields@ && final(self).flag_count == old(self).flag_count,
            !old(self).lost && !old(self).sp_open(pos) ==> {
                &&& final(self).sp_flagged(pos) == !old(self).sp_flagged(pos)
                &&& final(self).flagged_fields@ == old(self).flagged_fields@.update(old(self).sp_idx(pos), !old(self).sp_flagged(pos))
                &&& forall|q: Position| old(self).sp_in_bounds(q) && q != pos ==> #[trigger] final(self).sp_flagged(q) == old(self).sp_flagged(q)
                &&& final(self).flag_count == old(self).flag_count + (if old(self).sp_flagged(pos) {
                    -1int
                } else {
                    1int
                })
            },
    {
        if self.is_lost() || self.open_at(pos) {
            return;
        }
        if self.flagged_at(pos) {
            self.set_flag(pos, false);
        } else {
            self.set_flag(pos, true);
        }
    }

    /// `p` sits in a corner of the board.
    pub open spec fn sp_is_corner(self, p: Position) -> bool {
        (p.0 == 0 || p.0 + 1 == self.width) && (p.1 == 0 || p.1 + 1 == self.height)
    }

    /// `p` touches no edge of the board.
    pub open spec fn sp_is_interior(self, p: Position) -> bool {
        0 < p.0 && p.0 + 1 < self.width && 0 < p.1 && p.1 + 1 < self.height
    }

    /// Every revealed safe cell with no neighboring mines has each of its
    /// neighbors revealed or flagged: the state flood fill leaves behind.
    pub open spec fn sp_flood_closed(self) -> bool {
        forall|z: Position, q: Position|
            #![trigger self.sp_neighbors(z, q)]
            self.sp_in_bounds(z) && self.sp_open(z) && !self.sp_mine(z) && self.sp_mine_count(z) == 0 && self.sp_neighbors(z, q) ==> self.sp_open(q) || self.sp_flagged(q)
    }

    /// A chain of adjacent unflagged cells whose interior cells are all safe
    /// with no neighboring mines: the paths flood fill travels along.
    pub open spec fn sp_zero_chain(self, path: Seq<Position>) -> bool {
        &&& forall|k: int| 0 <= k < path.len() ==> self.sp_in_bounds(#[trigger] path[k]) && !self.sp_flagged(path[k])
        &&& forall|k: int| 0 <= k < path.len() - 1 ==> !self.sp_mine(#[trigger] path[k]) && self.sp_mine_count(path[k]) == 0 && self.sp_neighbors(path[k], path[k + 1])
    }

    /// What each cell currently shows: the row-major snapshot handed to a
    /// presentation layer.
    pub open spec fn sp_cell_state(self, p: Position) -> CellState {
        if !self.sp_open(p) {
            if self.lost && self.sp_mine(p) {
                CellState::Mine
            } else if self.sp_flagged(p) {
                CellState::Flagged
            } else {
                CellState::Hidden
            }
        } else if self.sp_mine(p) {
            CellState::Mine
        } else {
            CellState::Open(self.sp_mine_count(p) as u8)
        }
    }

    /// The row-major snapshot of the whole board: hidden, flagged, mine
    /// (revealed, or shown because the game is lost), or revealed with the
    /// neighboring-mine count.
    pub fn get_state(&self) -> (r: Vec<CellState>)
        requires
            self.wf(),
        ensures
            r@.len() == self.area(),
            forall|p: Position| #[trigger] self.sp_in_bounds(p) ==> r@[self.sp_idx(p)] == self.sp_cell_state(p),
    {
        let mut r: Vec<CellState> = Vec::new();
        let mut y: usize = 0;
        while y < self.height
            invariant
                self.wf(),
                y <= self.height,
                r@.len() == y * self.width,
                forall|p: Position| self.sp_in_bounds(p) && p.1 < y ==> r@[#[trigger] self.sp_idx(p)] == self.sp_cell_state(p),
            decreases self.height - y,
        {
            let mut x: usize = 0;
            while x < self.width
                invariant
                    self.wf(),
                    y < self.height,
                    x <= self.width,
                    r@.len() == y * self.width + x,
                    forall|p: Position| self.sp_in_bounds(p) && (p.1 < y || (p.1 == y && p.0 < x)) ==> r@[#[trigger] self.sp_idx(p)] == self.sp_cell_state(p),
                decreases self.width - x,
            {
                let ghost prev: Seq<CellState> = r@;
                let pos = (x, y);
                let state = if !self.open_at(pos) {
                    if self.is_lost() && self.mine_at(pos) {
                        CellState::Mine
                    } else if self.flagged_at(pos) {
                        CellState::Flagged
                    } else {
                        CellState::Hidden
                    }
                } else if self.mine_at(pos) {
                    CellState::Mine
                } else {
                    CellState::Open(self.neighboring_mines(pos))
                };
                r.push(state);
                proof {
                    assert forall|p: Position| self.sp_in_bounds(p) && (p.1 < y || (p.1 == y && p.0 < x + 1)) implies r@[#[trigger] self.sp_idx(p)] == self.sp_cell_state(p) by {
                        if p == pos {
                            assert(r@[self.sp_idx(p)] == state);
                        } else {
                            lemma_idx_lt(
                                self.width as int,
                                x as int,
                                y as int,
                                p.0 as int,
                                p.1 as int,
                            );
                            assert(r@[self.sp_idx(p)] == prev[self.sp_idx(p)]);
                        }
                    }
                }
                x = x + 1;
            }
            proof {
                assert((y + 1) * self.width == y * self.width + self.width) by (nonlinear_arith);
            }
            y = y + 1;
        }
        proof {
            assert(self.height * self.width == self.width * self.height);
        }
        r
    }

    /// Whether the game has been lost by revealing a mine.
    pub fn is_lost(&self) -> (r: bool)
        ensures
            r == self.lost,
    {
        self.lost
    }

    /// Whether the game is won: not lost, and every cell is accounted for as
    /// either revealed or flagged. No distinction is made between a correct
    /// and an incorrect flag.
    pub fn is_won(&self) -> (r: bool)
        requires
            self.wf(),
        ensures
            r == (!self.lost && count_true(self.flagged_fields@) + count_true(self.open_fields@)
                == self.area()),
    {
        if self.lost {
            return false;
        }
        proof {
            lemma_count_true_disjoint(self.open_fields@, self.flagged_fields@);
            lemma_count_true_bounds(self.open_fields@);
            lemma_count_true_bounds(self.flagged_fields@);
        }
        let n = self.mines.len();
        self.flag_count + self.open_count == n
    }
}

/// Neighbor geometry: on a board with both extents at least 3, a corner
/// cell has exactly 3 neighbors, an interior cell exactly 8, and every
/// other (edge) cell exactly 5.
pub proof fn lemma_neighbor_count(b: Minesweeper, p: Position)
    requires
        b.wf(),
        3 <= b.width,
        3 <= b.height,
        b.sp_in_bounds(p),
    ensures
        b.sp_is_corner(p) ==> b.sp_neighbor_total(p) == 3,
        b.sp_is_interior(p) ==> b.sp_neighbor_total(p) == 8,
        !b.sp_is_corner(p) && !b.sp_is_interior(p) ==> b.sp_neighbor_total(p) == 5,
{
    let sx = sp_span(p.0 as int, b.width as int);
    let sy = sp_span(p.1 as int, b.height as int);
    assert(sx * sy == (if sx == 1 {
        sy
    } else if sx == 2 {
        sy + sy
    } else {
        sy + sy + sy
    })) by (nonlinear_arith)
        requires
            1 <= sx <= 3,
    ;
}

/// Flag/open disjointness: no cell is ever both revealed and flagged on a
/// well-formed board, and every operation keeps the board well-formed.
pub proof fn lemma_open_flag_disjoint(b: Minesweeper, q: Position)
    requires
        b.wf(),
        b.sp_in_bounds(q),
    ensures
        !(b.sp_open(q) && b.sp_flagged(q)),
{
    lemma_idx_bounds(b.width as int, b.height as int, q.0 as int, q.1 as int);
}

/// Flood-closure is preserved by a reveal that ran its flood fill to
/// completion: combined with the contract of `open`, the board stays
/// flood-closed across any sequence of reveals that does not lose the game.
pub proof fn lemma_flood_closed_step(pre: Minesweeper, post: Minesweeper)
    requires
        pre.wf(),
        post.wf(),
        pre.same_static(post),
        pre.sp_opens_grew(post),
        pre.sp_flood_done(post),
        pre.sp_flood_closed(),
    ensures
        post.sp_flood_closed(),
{
    assert forall|z: Position, q: Position|
        post.sp_in_bounds(z) && post.sp_open(z) && !post.sp_mine(z) && post.sp_mine_count(z) == 0 && post.sp_neighbors(z, q) implies post.sp_open(q) || post.sp_flagged(q) by {
        assert(pre.sp_in_bounds(z));
        assert(pre.sp_mine_count(z) == post.sp_mine_count(z));
        assert(pre.sp_neighbors(z, q));
        if pre.sp_open(z) {
            assert(pre.sp_open(q) || pre.sp_flagged(q));
        } else {
            assert(pre.sp_zero_source(post, z));
        }
    }
}

/// Flood fill reveals whole zero-regions: in a flood-closed board, a chain
/// of adjacent unflagged zero-count cells starting at a revealed cell ends
/// at a revealed cell — the entire connected zero-region of a revealed
/// zero-count cell, and its unflagged border, is revealed.
pub proof fn lemma_flood_reaches(b: Minesweeper, path: Seq<Position>)
    requires
        b.wf(),
        b.sp_flood_closed(),
        b.sp_zero_chain(path),
        path.len() >= 1,
        b.sp_open(path[0]),
    ensures
        b.sp_open(path.last()),
    decreases path.len(),
{
    if path.len() > 1 {
        let front = path.drop_last();
        assert(b.sp_zero_chain(front));
        lemma_flood_reaches(b, front);
        let z = path[path.len() - 2];
        assert(front.last() == z);
        assert(b.sp_neighbors(z, path[path.len() - 1]));
        assert(b.sp_open(path.last()) || b.sp_flagged(path.last()));
    }
}

/// Win accounting: when the game is not lost and every cell is either
/// revealed or flagged, the two disjoint cell sets exactly cover the board,
/// which is the condition `is_won` answers with.
pub proof fn lemma_all_accounted_wins(b: Minesweeper)
    requires
        b.wf(),
        forall|i: int|
            #![trigger b.open_fields@[i]]
            #![trigger b.flagged_fields@[i]]
            0 <= i < b.area() ==> b.open_fields@[i] || b.flagged_fields@[i],
    ensures
        count_true(b.flagged_fields@) + count_true(b.open_fields@) == b.area(),
{
    lemma_count_true_cover(b.open_fields@, b.flagged_fields@);
}

} // verus!
