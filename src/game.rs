use vstd::prelude::*;

use crate::board::{block, coord, draws_fit, picks, row_major, lemma_neighbors_adjacent, lemma_on_grid_members, Board, Cell, Coord};
use crate::grid::{grid_covered, lemma_grid_covered_mono, lemma_grid_covered_set, same_shape};

verus! {

/// How densely the grid is mined.
#[derive(Debug, Clone, Copy, PartialEq, Eq, Structural)]
pub enum Difficulty {
    Easy,
    Medium,
    Hard,
}

/// The share of cells that are mines, in tenths: 10%, 20% and 40%.
pub open spec fn tenths(d: Difficulty) -> nat {
    match d {
        Difficulty::Easy => 1,
        Difficulty::Medium => 2,
        Difficulty::Hard => 4,
    }
}

/// floor(fraction * width * height): the number of mines a game of this size holds.
pub open spec fn bomb_total(width: nat, height: nat, d: Difficulty) -> nat {
    (width * height * tenths(d)) / 10
}

/// The number of mines for a grid of the given size and difficulty.
pub fn difficulty_lookup(width: usize, height: usize, difficulty: Difficulty) -> (r: usize)
    requires
        width * height <= usize::MAX,
    ensures
        r == bomb_total(width as nat, height as nat, difficulty),
        r <= width * height,
{
    let area: usize = width * height;
    let t: usize = match difficulty {
        Difficulty::Easy => 1,
        Difficulty::Medium => 2,
        Difficulty::Hard => 4,
    };
    let q: usize = area / 10;
    let rem: usize = area % 10;
    proof {
        assert(area == 10 * q + rem);
        assert(q * t <= area) by (nonlinear_arith)
            requires area == 10 * q + rem, t <= 4, rem < 10;
        assert((area * t) / 10 == q * t + (rem * t) / 10) by (nonlinear_arith)
            requires area == 10 * q + rem, t <= 4, rem < 10;
        assert(q * t + (rem * t) / 10 <= area) by (nonlinear_arith)
            requires area == 10 * q + rem, t <= 4, rem < 10;
    }
    q * t + (rem * t) / 10
}

/// Relies on rand's `thread_rng` and `Rng::gen_range`: a value drawn uniformly from
/// `0..max`; `gen_range` panics only on an empty range, which `max > 0` rules out.
#[verifier::external_body]
pub fn random(max: usize) -> (r: usize)
    requires
        max > 0,
    ensures
        r < max,
{
    rand::Rng::gen_range(&mut rand::thread_rng(), 0..max)
}

/// A `width` x `height` grid of booleans, every entry `value`.
fn bool_grid(width: usize, height: usize, value: bool) -> (r: Vec<Vec<bool>>)
    ensures
        r@.len() == height,
        forall|y: int| 0 <= y < height ==> #[trigger] r@[y]@.len() == width,
        forall|x: int, y: int| 0 <= x < width && 0 <= y < height ==> #[trigger] r@[y]@[x] == value,
{
    let mut grid: Vec<Vec<bool>> = Vec::new();
    for _y in 0..height
        invariant
            grid@.len() == _y,
            forall|j: int| 0 <= j < _y ==> #[trigger] grid@[j]@.len() == width,
            forall|i: int, j: int| 0 <= i < width && 0 <= j < _y ==> #[trigger] grid@[j]@[i] == value,
    {
        let mut row: Vec<bool> = Vec::new();
        for _x in 0..width
            invariant
                row@.len() == _x,
                forall|i: int| 0 <= i < _x ==> #[trigger] row@[i] == value,
        {
            row.push(value);
        }
        grid.push(row);
    }
    grid
}

/// One game: the mined grid, what the player has uncovered and flagged, and
/// whether play goes on.
pub struct Game {
    pub running: bool,
    pub board: Board,
    pub difficulty: Difficulty,
    pub uncovered: Vec<Vec<bool>>,
    pub flags: Vec<Coord>,
    pub num_bombs: usize,
}

/// `s` with `p` added if it was absent and taken out if it was present.
pub open spec fn toggle(s: Set<(int, int)>, p: (int, int)) -> Set<(int, int)> {
    if s.contains(p) {
        s.remove(p)
    } else {
        s.insert(p)
    }
}

impl Game {
    /// The board holds exactly `num_bombs` mines, the uncovered grid matches
    /// its size, and the flags are distinct positions on it.
    pub open spec fn wf(&self) -> bool {
        &&& self.board.wf()
        &&& self.board.bombs().finite()
        &&& self.board.bombs().len() == self.num_bombs
        &&& self.uncovered@.len() == self.board.height
        &&& forall|y: int| 0 <= y < self.board.height ==> #[trigger] self.uncovered@[y]@.len() == self.board.width
        &&& forall|i: int| 0 <= i < self.flags@.len() ==> #[trigger] self.flags@[i] == coord(self.flags@[i].x as int, self.flags@[i].y as int)
        &&& forall|i: int| 0 <= i < self.flags@.len() ==> self.board.in_range(#[trigger] self.flags@[i].x as int, self.flags@[i].y as int)
        &&& self.flags@.no_duplicates()
    }

    pub open spec fn is_uncovered(&self, x: int, y: int) -> bool {
        self.uncovered@[y]@[x]
    }

    pub open spec fn is_flagged(&self, x: int, y: int) -> bool {
        self.flags@.contains(coord(x, y))
    }

    /// The uncovered grid, row by row.
    pub open spec fn cover_grid(&self) -> Seq<Seq<bool>> {
        self.uncovered@.map_values(|r: Vec<bool>| r@)
    }

    /// `path` is a chain of touching cells along which uncovering `path[0]`
    /// spreads: each cell but the last has no mine around it, and each cell
    /// after the first is still covered.
    pub open spec fn spreads_along(&self, path: Seq<(int, int)>) -> bool {
        &&& path.len() >= 1
        &&& forall|i: int| 0 <= i < path.len() ==> self.board.in_range((#[trigger] path[i]).0, path[i].1)
        &&& forall|i: int|
            0 <= i < path.len() - 1 ==> self.board.bomb_count((#[trigger] path[i]).0, path[i].1) == 0
                && self.board.adjacent(path[i], path[i + 1])
        &&& forall|i: int| 1 <= i < path.len() ==> !self.is_uncovered((#[trigger] path[i]).0, path[i].1)
    }

    /// Uncovering `p` spreads to `q`: `p` itself, every cell of the connected
    /// covered region of zero counts around it, and the border of that region.
    pub open spec fn reaches(&self, p: (int, int), q: (int, int)) -> bool {
        exists|path: Seq<(int, int)>| #[trigger] self.spreads_along(path) && path[0] == p && path.last() == q
    }

    /// Every cell adjacent to `q` is uncovered, where `q` has no mine around it.
    pub open spec fn closed_at(&self, q: (int, int)) -> bool {
        self.board.bomb_count(q.0, q.1) == 0 ==> forall|r: (int, int)|
            self.board.adjacent(q, r) ==> #[trigger] self.is_uncovered(r.0, r.1)
    }

    /// Every uncovered cell with no mine around it has its neighbors uncovered
    /// too: true of a fresh game and kept by uncovering, flagging and winning.
    pub open spec fn settled(&self) -> bool {
        forall|a: int, b: int| self.board.in_range(a, b) && #[trigger] self.is_uncovered(a, b) ==> self.closed_at((a, b))
    }

    /// Of two states with the same board, `later` has every cell uncovered that `self` has.
    pub open spec fn grows_to(&self, later: &Game) -> bool {
        &&& later.board == self.board
        &&& forall|x: int, y: int| self.board.in_range(x, y) && #[trigger] self.is_uncovered(x, y) ==> later.is_uncovered(x, y)
    }

    /// The flagged positions, as a set.
    pub open spec fn flag_set(&self) -> Set<(int, int)> {
        Set::new(|p: (int, int)| self.board.in_range(p.0, p.1) && self.is_flagged(p.0, p.1))
    }

    /// A fresh game: nothing uncovered, nothing flagged, running, and exactly
    /// `bomb_total` mines at distinct positions chosen at random.
    pub fn new(width: usize, height: usize, difficulty: Difficulty) -> (r: Game)
        requires
            width * height <= usize::MAX,
            width <= isize::MAX,
            height <= isize::MAX,
        ensures
            r.wf(),
            r.running,
            r.board.width == width,
            r.board.height == height,
            r.difficulty == difficulty,
            r.num_bombs == bomb_total(width as nat, height as nat, difficulty),
            r.board.bombs().finite(),
            r.board.bombs().len() == r.num_bombs,
            exists|draws: Seq<usize>|
                #![trigger picks(row_major(width as nat, height as nat), draws)]
                draws.len() == r.num_bombs && draws_fit(draws, width * height)
                    && r.board.bombs() == picks(row_major(width as nat, height as nat), draws).to_set(),
            r.flags@.len() == 0,
            forall|x: int, y: int| r.board.in_range(x, y) ==> !#[trigger] r.is_uncovered(x, y),
            r.settled(),
    {
        let mut board = Board::new(width, height);
        let uncovered = bool_grid(width, height, false);
        let num_bombs = difficulty_lookup(width, height, difficulty);
        // Each draw picks one of the cells still empty, uniformly: where
        // redrawing until an empty cell comes up would land.
        let cells: usize = width * height;
        let mut draws: Vec<usize> = Vec::new();
        for i in 0..num_bombs
            invariant
                num_bombs <= cells,
                cells == width * height,
                draws@.len() == i,
                draws_fit(draws@, cells as int),
        {
            draws.push(random(cells - i));
        }
        board.place_bombs(&draws);
        Game { running: true, board, difficulty, uncovered, flags: Vec::new(), num_bombs }
    }

    /// The cells around `(x, y)` (itself included) that lie on the grid, row by row.
    pub fn get_valid_neighbors(&self, x: usize, y: usize) -> (r: Vec<Coord>)
        requires
            self.board.wf(),
            self.board.in_range(x as int, y as int),
        ensures
            r@ == self.board.neighbors(x as int, y as int),
    {
        let x = x as isize;
        let y = y as isize;
        let cells_to_check = vec![
            Coord::new(x - 1, y - 1),
            Coord::new(x, y - 1),
            Coord::new(x + 1, y - 1),
            Coord::new(x - 1, y),
            Coord::new(x, y),
            Coord::new(x + 1, y),
            Coord::new(x - 1, y + 1),
            Coord::new(x, y + 1),
            Coord::new(x + 1, y + 1),
        ];
        let ghost cands = block(x as int, y as int);
        assert(cells_to_check@ =~= cands);
        let mut valid_cells: Vec<Coord> = Vec::new();
        for i in 0..cells_to_check.len()
            invariant
                cells_to_check@ == cands,
                cands == block(x as int, y as int),
                self.board.wf(),
                valid_cells@ == self.board.on_grid(cands.take(i as int)),
        {
            let mut c = cells_to_check[i];
            if c.x < 0 || c.y < 0 {
                c.valid = false;
            }
            if c.x >= self.board.width as isize || c.y >= self.board.height as isize {
                c.valid = false;
            }
            if c.valid {
                valid_cells.push(c);
            }
            assert(cands.take(i + 1).drop_last() =~= cands.take(i as int));
        }
        assert(cands.take(9) =~= cands);
        valid_cells
    }

    /// The number of mines among the cells around `(x, y)`, itself included.
    pub fn get_bomb_count(&self, x: usize, y: usize) -> (r: usize)
        requires
            self.board.wf(),
            self.board.in_range(x as int, y as int),
        ensures
            r == self.board.bomb_count(x as int, y as int),
            r <= 9,
    {
        let cells = self.get_valid_neighbors(x, y);
        let ghost ns = cells@;
        proof {
            lemma_on_grid_members(&self.board, block(x as int, y as int));
        }
        let mut bomb_count: usize = 0;
        for i in 0..cells.len()
            invariant
                cells@ == ns,
                ns == self.board.neighbors(x as int, y as int),
                ns.len() <= 9,
                self.board.wf(),
                forall|k: int| 0 <= k < ns.len() ==> self.board.in_range((#[trigger] ns[k]).x as int, ns[k].y as int),
                bomb_count == self.board.bombs_among(ns.take(i as int)),
                bomb_count <= i,
        {
            let cell = cells[i];
            assert(ns.take(i + 1).drop_last() =~= ns.take(i as int));
            if *self.board.get(cell.x as usize, cell.y as usize) == Cell::Bomb {
                bomb_count += 1;
            }
        }
        assert(ns.take(ns.len() as int) =~= ns);
        bomb_count
    }

    pub fn check_uncovered(&self, x: usize, y: usize) -> (r: bool)
        requires
            self.wf(),
            self.board.in_range(x as int, y as int),
        ensures
            r == self.is_uncovered(x as int, y as int),
    {
        self.uncovered[y][x]
    }

    pub fn check_flagged(&self, x: usize, y: usize) -> (r: bool)
        requires
            self.wf(),
            self.board.in_range(x as int, y as int),
        ensures
            r == self.is_flagged(x as int, y as int),
    {
        let target = Coord::new(x as isize, y as isize);
        for i in 0..self.flags.len()
            invariant
                target == coord(x as int, y as int),
                forall|j: int| 0 <= j < i ==> self.flags@[j] != target,
        {
            if self.flags[i] == target {
                return true;
            }
        }
        false
    }

    /// Adds a flag at `(x, y)` if there is none, else takes it away.
    pub fn flag(&mut self, x: usize, y: usize)
        requires
            old(self).wf(),
            old(self).board.in_range(x as int, y as int),
        ensures
            final(self).wf(),
            final(self).board == old(self).board,
            final(self).uncovered == old(self).uncovered,
            final(self).running == old(self).running,
            final(self).num_bombs == old(self).num_bombs,
            final(self).difficulty == old(self).difficulty,
            final(self).flag_set() == toggle(old(self).flag_set(), (x as int, y as int)),
            !old(self).is_flagged(x as int, y as int) ==> final(self).flags@ == old(self).flags@.push(coord(x as int, y as int)),
            old(self).is_flagged(x as int, y as int) ==> exists|i: int|
                0 <= i < old(self).flags@.len() && old(self).flags@[i] == coord(x as int, y as int)
                    && final(self).flags@ == old(self).flags@.remove(i),
    {
        let target = Coord::new(x as isize, y as isize);
        let ghost p = (x as int, y as int);
        let ghost before = self.flags@;
        if !self.check_flagged(x, y) {
            self.flags.push(target);
            proof {
                assert forall|i: int, j: int| 0 <= i < j < self.flags@.len() implies self.flags@[i] != self.flags@[j] by {
                    if j == before.len() {
                        assert(before.contains(before[i]));
                    }
                }
                assert(self.flag_set() =~= old(self).flag_set().insert(p)) by {
                    assert(self.flags@[before.len() as int] == target);
                    assert forall|q: (int, int)| #[trigger] self.flag_set().contains(q) implies old(self).flag_set().insert(p).contains(q) by {
                        if q != p {
                            let k = choose|k: int| 0 <= k < self.flags@.len() && self.flags@[k] == coord(q.0, q.1);
                            assert(k != before.len());
                            assert(before[k] == coord(q.0, q.1));
                        }
                    }
                    assert forall|q: (int, int)| #[trigger] old(self).flag_set().contains(q) implies self.flag_set().contains(q) by {
                        let k = choose|k: int| 0 <= k < before.len() && before[k] == coord(q.0, q.1);
                        assert(self.flags@[k] == coord(q.0, q.1));
                    }
                }
            }
        } else {
            let mut i: usize = 0;
            while i < self.flags.len()
                invariant
                    self.flags@ == before,
                    p == (x as int, y as int),
                    *self == *old(self),
                    self.wf(),
                    self.is_flagged(x as int, y as int),
                    self.board.in_range(x as int, y as int),
                    target == coord(x as int, y as int),
                    forall|j: int| 0 <= j < i ==> before[j] != target,
                decreases self.flags.len() - i,
            {
                if self.flags[i] == target {
                    self.flags.remove(i);
                    proof {
                        let after = self.flags@;
                        assert(after == before.remove(i as int));
                        assert forall|a: int, b: int| 0 <= a < b < after.len() implies after[a] != after[b] by {
                            let a0 = if a < i { a } else { a + 1 };
                            let b0 = if b < i { b } else { b + 1 };
                            assert(after[a] == before[a0]);
                            assert(after[b] == before[b0]);
                        }
                        assert forall|k: int| 0 <= k < after.len() implies #[trigger] after[k] == coord(after[k].x as int, after[k].y as int)
                            && self.board.in_range(after[k].x as int, after[k].y as int) by {
                            let k0 = if k < i { k } else { k + 1 };
                            assert(after[k] == before[k0]);
                        }
                        assert(self.flag_set() =~= old(self).flag_set().remove(p)) by {
                            assert forall|q: (int, int)| #[trigger] self.flag_set().contains(q) implies old(self).flag_set().remove(p).contains(q) by {
                                let k = choose|k: int| 0 <= k < after.len() && after[k] == coord(q.0, q.1);
                                let k0 = if k < i { k } else { k + 1 };
                                assert(after[k] == before[k0]);
                                assert(before[i as int] == target);
                                assert(k0 != i);
                                assert(before[k0] != before[i as int]);
                            }
                            assert forall|q: (int, int)| #[trigger] old(self).flag_set().contains(q) && q != p implies self.flag_set().contains(q) by {
                                let k = choose|k: int| 0 <= k < before.len() && before[k] == coord(q.0, q.1);
                                assert(coord(q.0, q.1).x as int == q.0 && coord(q.0, q.1).y as int == q.1);
                                assert(before[i as int] == target);
                                assert(k != i);
                                let k1 = if k < i { k } else { k - 1 };
                                assert(after[k1] == before[k]);
                            }
                        }
                    }
                    return;
                }
                i += 1;
            }
            proof {
                let k = choose|k: int| 0 <= k < before.len() && before[k] == target;
                assert(before[k] != target);
            }
        }
    }

    /// Uncovers the whole grid and ends the game.
    pub fn uncover_all(&mut self)
        requires
            old(self).wf(),
        ensures
            final(self).wf(),
            !final(self).running,
            final(self).board == old(self).board,
            final(self).flags == old(self).flags,
            final(self).num_bombs == old(self).num_bombs,
            final(self).difficulty == old(self).difficulty,
            forall|x: int, y: int| final(self).board.in_range(x, y) ==> #[trigger] final(self).is_uncovered(x, y),
            final(self).settled(),
    {
        self.uncovered = bool_grid(self.board.width, self.board.height, true);
        self.running = false;
    }

    /// Play is won when exactly `num_bombs` flags stand and each one is on a mine.
    pub open spec fn won(&self) -> bool {
        &&& self.flags@.len() == self.num_bombs
        &&& forall|i: int| 0 <= i < self.flags@.len() ==> self.board.is_bomb(
            (#[trigger] self.flags@[i]).x as int,
            self.flags@[i].y as int,
        )
    }

    /// Tells whether the game is won; a won game is ended with the whole grid shown.
    pub fn check_win(&mut self) -> (r: bool)
        requires
            old(self).wf(),
        ensures
            final(self).wf(),
            r == old(self).won(),
            r == (old(self).flag_set() == old(self).board.bombs()),
            r ==> !final(self).running,
            r ==> forall|x: int, y: int| final(self).board.in_range(x, y) ==> #[trigger] final(self).is_uncovered(x, y),
            !r ==> *final(self) == *old(self),
            final(self).board == old(self).board,
            final(self).flags == old(self).flags,
            final(self).num_bombs == old(self).num_bombs,
            final(self).difficulty == old(self).difficulty,
    {
        proof {
            lemma_won_iff_flags_are_bombs(self);
        }
        if self.flags.len() == self.num_bombs {
            let mut all_bombs = true;
            for i in 0..self.flags.len()
                invariant
                    self.wf(),
                    all_bombs == forall|j: int| 0 <= j < i ==> self.board.is_bomb(
                        (#[trigger] self.flags@[j]).x as int,
                        self.flags@[j].y as int,
                    ),
            {
                let flag = self.flags[i];
                if *self.board.get(flag.x as usize, flag.y as usize) != Cell::Bomb {
                    all_bombs = false;
                }
            }
            if all_bombs {
                self.uncover_all();
                return true;
            }
        }
        false
    }

    pub fn is_running(&self) -> (r: bool)
        ensures
            r == self.running,
    {
        self.running
    }

    /// Uncovers `(x, y)` and, where no mine is around it, spreads to the
    /// covered cells next to it.
    fn spread(&mut self, x: usize, y: usize, Ghost(measure): Ghost<nat>)
        requires
            measure == 2 * grid_covered(old(self).cover_grid()) + if old(self).is_uncovered(x as int, y as int) { 1nat } else { 0nat },
            old(self).wf(),
            old(self).board.in_range(x as int, y as int),
        ensures
            final(self).wf(),
            final(self).board == old(self).board,
            final(self).flags == old(self).flags,
            final(self).running == old(self).running,
            final(self).num_bombs == old(self).num_bombs,
            final(self).difficulty == old(self).difficulty,
            old(self).grows_to(final(self)),
            final(self).is_uncovered(x as int, y as int),
            final(self).closed_at((x as int, y as int)),
            forall|a: int, b: int|
                old(self).board.in_range(a, b) && #[trigger] final(self).is_uncovered(a, b) && !old(self).is_uncovered(a, b)
                    ==> old(self).reaches((x as int, y as int), (a, b)) && final(self).closed_at((a, b)),
        decreases measure,
    {
        let ghost g0 = *self;
        let ghost p = (x as int, y as int);
        self.uncovered[y][x] = true;
        proof {
            assert(self.cover_grid() =~= g0.cover_grid().update(y as int, g0.cover_grid()[y as int].update(x as int, true)));
            lemma_grid_covered_set(g0.cover_grid(), x as int, y as int);
            assert(g0.spreads_along(seq![p]));
        }
        if self.get_bomb_count(x, y) == 0 {
            let cells = self.get_valid_neighbors(x, y);
            let ghost ns = cells@;
            proof {
                lemma_neighbors_adjacent(&self.board, x as int, y as int);
            }
            for i in 0..cells.len()
                invariant
                    cells@ == ns,
                    ns == self.board.neighbors(x as int, y as int),
                    forall|k: int| 0 <= k < ns.len() ==> {
                        let c = #[trigger] ns[k];
                        c == coord(c.x as int, c.y as int) && self.board.adjacent(p, (c.x as int, c.y as int))
                    },
                    p == (x as int, y as int),
                    g0.board.bomb_count(p.0, p.1) == 0,
                    g0.wf(),
                    g0.board.in_range(p.0, p.1),
                    measure == 2 * grid_covered(g0.cover_grid()) + if g0.is_uncovered(p.0, p.1) { 1nat } else { 0nat },
                    self.wf(),
                    self.board == g0.board,
                    self.flags == g0.flags,
                    self.running == g0.running,
                    self.num_bombs == g0.num_bombs,
                    self.difficulty == g0.difficulty,
                    g0.grows_to(self),
                    self.is_uncovered(p.0, p.1),
                    grid_covered(self.cover_grid()) + (if g0.is_uncovered(p.0, p.1) { 0nat } else { 1nat }) <= grid_covered(g0.cover_grid()),
                    forall|k: int| 0 <= k < i ==> self.is_uncovered((#[trigger] ns[k]).x as int, ns[k].y as int),
                    forall|a: int, b: int|
                        g0.board.in_range(a, b) && #[trigger] self.is_uncovered(a, b) && !g0.is_uncovered(a, b)
                            ==> g0.reaches(p, (a, b)) && ((a, b) != p ==> self.closed_at((a, b))),
            {
                let n = cells[i];
                if !self.check_uncovered(n.x as usize, n.y as usize) {
                    let ghost s = *self;
                    let ghost q = (n.x as int, n.y as int);
                    proof {
                        assert(same_shape(g0.cover_grid(), s.cover_grid()));
                        assert(!g0.is_uncovered(q.0, q.1));
                        assert(2 * grid_covered(s.cover_grid()) + (if s.is_uncovered(q.0, q.1) { 1nat } else { 0nat })
                            < 2 * grid_covered(g0.cover_grid()) + (if g0.is_uncovered(p.0, p.1) { 1nat } else { 0nat }));
                    }
                    let nx = n.x as usize;
                    let ny = n.y as usize;
                    assert(nx as int == q.0 && ny as int == q.1);
                    self.spread(nx, ny, Ghost(2 * grid_covered(s.cover_grid())));
                    proof {
                        assert(same_shape(s.cover_grid(), self.cover_grid()));
                        assert forall|i: int, j: int| 0 <= i < s.cover_grid().len() && 0 <= j < s.cover_grid()[i].len()
                            && #[trigger] s.cover_grid()[i][j] implies self.cover_grid()[i][j] by {
                            assert(s.cover_grid()[i] == s.uncovered@[i]@);
                            assert(self.cover_grid()[i] == self.uncovered@[i]@);
                            assert(s.is_uncovered(j, i));
                        }
                        lemma_grid_covered_mono(s.cover_grid(), self.cover_grid());
                        assert forall|a: int, b: int|
                            g0.board.in_range(a, b) && #[trigger] self.is_uncovered(a, b) && !g0.is_uncovered(a, b)
                                implies g0.reaches(p, (a, b)) && ((a, b) != p ==> self.closed_at((a, b))) by {
                            if !s.is_uncovered(a, b) {
                                let path = choose|path: Seq<(int, int)>| #[trigger] s.spreads_along(path) && path[0] == q && path.last() == (a, b);
                                let longer = seq![p] + path;
                                assert(longer[0] == p);
                                assert forall|k: int| 0 <= k < longer.len() - 1 implies g0.board.bomb_count((#[trigger] longer[k]).0, longer[k].1) == 0
                                    && g0.board.adjacent(longer[k], longer[k + 1]) by {
                                    if k > 0 {
                                        assert(longer[k] == path[k - 1]);
                                        assert(longer[k + 1] == path[k]);
                                    }
                                }
                                assert forall|k: int| 1 <= k < longer.len() implies !g0.is_uncovered((#[trigger] longer[k]).0, longer[k].1) by {
                                    assert(longer[k] == path[k - 1]);
                                    if k > 1 {
                                        assert(!s.is_uncovered(path[k - 1].0, path[k - 1].1));
                                    }
                                }
                                assert forall|k: int| 0 <= k < longer.len() implies g0.board.in_range((#[trigger] longer[k]).0, longer[k].1) by {
                                    if k > 0 {
                                        assert(longer[k] == path[k - 1]);
                                    }
                                }
                                assert(g0.spreads_along(longer));
                                assert(longer.last() == (a, b));
                            } else if (a, b) != p {
                                assert(s.closed_at((a, b)));
                                if s.board.bomb_count(a, b) == 0 {
                                    assert forall|r: (int, int)| self.board.adjacent((a, b), r) implies #[trigger] self.is_uncovered(r.0, r.1) by {
                                        assert(s.is_uncovered(r.0, r.1));
                                    }
                                }
                            }
                        }
                    }
                }
            }
            proof {
                assert forall|r: (int, int)| self.board.adjacent(p, r) implies #[trigger] self.is_uncovered(r.0, r.1) by {
                    assert(ns.contains(coord(r.0, r.1)));
                    let k = choose|k: int| 0 <= k < ns.len() && ns[k] == coord(r.0, r.1);
                    assert(ns[k].x as int == r.0);
                }
            }
        }
    }

    /// Uncovers `(x, y)` unless it is both uncovered and flagged already. A
    /// cell with no mine around it spreads to its whole covered region of zero
    /// counts and that region's border; a mine ends the game with the whole
    /// grid shown.
    pub fn uncover(&mut self, x: usize, y: usize)
        requires
            old(self).wf(),
            old(self).board.in_range(x as int, y as int),
        ensures
            final(self).wf(),
            final(self).board == old(self).board,
            final(self).flags == old(self).flags,
            final(self).num_bombs == old(self).num_bombs,
            final(self).difficulty == old(self).difficulty,
            old(self).is_uncovered(x as int, y as int) && old(self).is_flagged(x as int, y as int) ==> *final(self) == *old(self),
            old(self).settled() ==> final(self).settled(),
            !(old(self).is_uncovered(x as int, y as int) && old(self).is_flagged(x as int, y as int)) ==> if old(self).board.is_bomb(x as int, y as int) {
                &&& !final(self).running
                &&& forall|a: int, b: int| old(self).board.in_range(a, b) ==> #[trigger] final(self).is_uncovered(a, b)
            } else {
                &&& final(self).running == old(self).running
                &&& forall|a: int, b: int| old(self).board.in_range(a, b) ==>
                    (#[trigger] final(self).is_uncovered(a, b) <==> old(self).is_uncovered(a, b) || old(self).reaches((x as int, y as int), (a, b)))
            },
    {
        if !self.check_uncovered(x, y) || !self.check_flagged(x, y) {
            let ghost g0 = *self;
            let ghost p = (x as int, y as int);
            self.spread(x, y, Ghost(2 * grid_covered(self.cover_grid()) + if self.is_uncovered(x as int, y as int) { 1nat } else { 0nat }));
            proof {
                assert forall|a: int, b: int| g0.board.in_range(a, b) && g0.reaches(p, (a, b)) implies #[trigger] self.is_uncovered(a, b) by {
                    let path = choose|path: Seq<(int, int)>| #[trigger] g0.spreads_along(path) && path[0] == p && path.last() == (a, b);
                    lemma_spread_complete(&g0, self, p, path);
                }
                if g0.settled() {
                    assert forall|a: int, b: int| self.board.in_range(a, b) && #[trigger] self.is_uncovered(a, b) implies self.closed_at((a, b)) by {
                        if g0.is_uncovered(a, b) && (a, b) != p {
                            assert(g0.closed_at((a, b)));
                            if g0.board.bomb_count(a, b) == 0 {
                                assert forall|r: (int, int)| self.board.adjacent((a, b), r) implies #[trigger] self.is_uncovered(r.0, r.1) by {
                                    assert(g0.is_uncovered(r.0, r.1));
                                }
                            }
                        }
                    }
                }
            }
            if *self.board.get(x, y) == Cell::Bomb {
                self.uncover_all();
            }
        }
    }
}

/// Once every newly uncovered cell with no mine around it has its neighbors
/// uncovered too, so has every cell that uncovering `p` spreads to.
pub proof fn lemma_spread_complete(g0: &Game, g1: &Game, p: (int, int), path: Seq<(int, int)>)
    requires
        g0.grows_to(g1),
        g1.is_uncovered(p.0, p.1),
        g1.closed_at(p),
        forall|a: int, b: int|
            g0.board.in_range(a, b) && #[trigger] g1.is_uncovered(a, b) && !g0.is_uncovered(a, b) ==> g1.closed_at((a, b)),
        g0.spreads_along(path),
        path[0] == p,
    ensures
        g1.is_uncovered(path.last().0, path.last().1),
    decreases path.len(),
{
    if path.len() > 1 {
        let prefix = path.drop_last();
        assert(g0.spreads_along(prefix)) by {
            assert forall|i: int| 0 <= i < prefix.len() - 1 implies g0.board.bomb_count((#[trigger] prefix[i]).0, prefix[i].1) == 0
                && g0.board.adjacent(prefix[i], prefix[i + 1]) by {
                assert(prefix[i] == path[i] && prefix[i + 1] == path[i + 1]);
            }
            assert forall|i: int| 1 <= i < prefix.len() implies !g0.is_uncovered((#[trigger] prefix[i]).0, prefix[i].1) by {
                assert(prefix[i] == path[i]);
            }
            assert forall|i: int| 0 <= i < prefix.len() implies g0.board.in_range((#[trigger] prefix[i]).0, prefix[i].1) by {
                assert(prefix[i] == path[i]);
            }
        }
        lemma_spread_complete(g0, g1, p, prefix);
        let k = path.len() - 2;
        let c = path[k];
        assert(prefix.last() == c);
        assert(g0.board.bomb_count(c.0, c.1) == 0 && g0.board.adjacent(c, path[k + 1]));
        if k > 0 {
            assert(!g0.is_uncovered(c.0, c.1));
            assert(g0.board.in_range(c.0, c.1));
        }
        assert(g1.closed_at(c));
        assert(g1.is_uncovered(path[k + 1].0, path[k + 1].1));
    }
}

/// Uncovering a cell again, once uncovering it has spread, uncovers nothing
/// more: a second uncovering of the same safe cell leaves the grid as it is.
pub proof fn lemma_spread_idempotent(g0: &Game, g1: &Game, p: (int, int))
    requires
        g1.board == g0.board,
        g0.board.in_range(p.0, p.1),
        forall|a: int, b: int| g0.board.in_range(a, b) ==>
            (#[trigger] g1.is_uncovered(a, b) <==> g0.is_uncovered(a, b) || g0.reaches(p, (a, b))),
    ensures
        forall|a: int, b: int| g1.board.in_range(a, b) ==>
            (#[trigger] g1.is_uncovered(a, b) || g1.reaches(p, (a, b)) <==> g1.is_uncovered(a, b)),
{
    assert forall|a: int, b: int| g1.board.in_range(a, b) && g1.reaches(p, (a, b)) implies #[trigger] g1.is_uncovered(a, b) by {
        let path = choose|path: Seq<(int, int)>| #[trigger] g1.spreads_along(path) && path[0] == p && path.last() == (a, b);
        assert(g0.spreads_along(seq![p]));
        assert(g1.is_uncovered(p.0, p.1));
        if path.len() > 1 {
            let n = path[1];
            assert(g1.board.adjacent(p, n) && g1.board.bomb_count(p.0, p.1) == 0);
            assert(!g1.is_uncovered(n.0, n.1));
            let short = seq![p, n];
            assert(g0.spreads_along(short));
            assert(g0.reaches(p, n));
            assert(false);
        }
    }
}

/// Flagging the same cell twice leaves the flags as they were.
pub proof fn lemma_toggle_twice(s: Set<(int, int)>, p: (int, int))
    ensures
        toggle(toggle(s, p), p) == s,
{
    assert(toggle(toggle(s, p), p) =~= s);
}

/// The flags after flagging each of `ps` in turn, starting from `s`.
pub open spec fn toggle_all(s: Set<(int, int)>, ps: Seq<(int, int)>) -> Set<(int, int)>
    decreases ps.len(),
{
    if ps.len() == 0 {
        s
    } else {
        toggle(toggle_all(s, ps.drop_last()), ps.last())
    }
}

/// Flagging `n` distinct cells, with no flag set before, leaves exactly those
/// `n` cells flagged.
pub proof fn lemma_toggle_distinct(ps: Seq<(int, int)>)
    requires
        ps.no_duplicates(),
    ensures
        toggle_all(Set::empty(), ps) == ps.to_set(),
        toggle_all(Set::empty(), ps).len() == ps.len(),
    decreases ps.len(),
{
    if ps.len() > 0 {
        let rest = ps.drop_last();
        assert(rest.no_duplicates()) by {
            assert forall|i: int, j: int| 0 <= i < rest.len() && 0 <= j < rest.len() && i != j implies rest[i] != rest[j] by {
                assert(rest[i] == ps[i] && rest[j] == ps[j]);
            }
        }
        lemma_toggle_distinct(rest);
        assert(!rest.to_set().contains(ps.last())) by {
            if rest.to_set().contains(ps.last()) {
                let k = choose|k: int| 0 <= k < rest.len() && rest[k] == ps.last();
                assert(ps[k] == ps[ps.len() - 1]);
            }
        }
        assert(ps.to_set() =~= rest.to_set().insert(ps.last())) by {
            assert forall|q: (int, int)| ps.to_set().contains(q) implies rest.to_set().insert(ps.last()).contains(q) by {
                let k = choose|k: int| 0 <= k < ps.len() && ps[k] == q;
                if k < ps.len() - 1 {
                    assert(rest[k] == q);
                }
            }
            assert forall|q: (int, int)| rest.to_set().contains(q) implies ps.to_set().contains(q) by {
                let k = choose|k: int| 0 <= k < rest.len() && rest[k] == q;
                assert(ps[k] == q);
            }
        }
    }
    ps.unique_seq_to_set();
}

/// The game is won exactly when the flagged cells are precisely the mined ones.
pub proof fn lemma_won_iff_flags_are_bombs(g: &Game)
    requires
        g.wf(),
    ensures
        g.won() <==> g.flag_set() == g.board.bombs(),
{
    let ps = g.flags@.map_values(|c: Coord| (c.x as int, c.y as int));
    assert(ps.no_duplicates()) by {
        assert forall|i: int, j: int| 0 <= i < ps.len() && 0 <= j < ps.len() && i != j implies ps[i] != ps[j] by {
            assert(g.flags@[i] == coord(g.flags@[i].x as int, g.flags@[i].y as int));
            assert(g.flags@[j] == coord(g.flags@[j].x as int, g.flags@[j].y as int));
            assert(g.flags@[i] != g.flags@[j]);
        }
    }
    assert(ps.to_set() =~= g.flag_set()) by {
        assert forall|q: (int, int)| ps.to_set().contains(q) implies g.flag_set().contains(q) by {
            let k = choose|k: int| 0 <= k < ps.len() && ps[k] == q;
            assert(g.flags@[k] == coord(g.flags@[k].x as int, g.flags@[k].y as int));
            assert(g.flags@.contains(coord(q.0, q.1)));
        }
        assert forall|q: (int, int)| g.flag_set().contains(q) implies ps.to_set().contains(q) by {
            let k = choose|k: int| 0 <= k < g.flags@.len() && g.flags@[k] == coord(q.0, q.1);
            assert(ps[k] == q);
        }
    }
    ps.unique_seq_to_set();
    if g.won() {
        assert(g.flag_set().subset_of(g.board.bombs())) by {
            assert forall|q: (int, int)| g.flag_set().contains(q) implies g.board.bombs().contains(q) by {
                let k = choose|k: int| 0 <= k < g.flags@.len() && g.flags@[k] == coord(q.0, q.1);
                assert(g.board.is_bomb(g.flags@[k].x as int, g.flags@[k].y as int));
            }
        }
        vstd::set_lib::lemma_subset_equality(g.flag_set(), g.board.bombs());
    }
    if g.flag_set() == g.board.bombs() {
        assert forall|i: int| 0 <= i < g.flags@.len() implies g.board.is_bomb(
            (#[trigger] g.flags@[i]).x as int,
            g.flags@[i].y as int,
        ) by {
            assert(ps[i] == (g.flags@[i].x as int, g.flags@[i].y as int));
            assert(ps.to_set().contains(ps[i]));
        }
    }
}

/// `path` runs from cell to touching cell, each cell but the last having no
/// mine around it.
pub open spec fn zero_chain(b: &Board, path: Seq<(int, int)>) -> bool {
    &&& path.len() >= 1
    &&& forall|i: int| 0 <= i < path.len() ==> b.in_range((#[trigger] path[i]).0, path[i].1)
    &&& forall|i: int|
        0 <= i < path.len() - 1 ==> b.bomb_count((#[trigger] path[i]).0, path[i].1) == 0 && b.adjacent(path[i], path[i + 1])
}

/// `q` lies in the connected region of zero counts around `p`, or on its
/// border: a zero chain joins `p` to `q`.
pub open spec fn zero_linked(b: &Board, p: (int, int), q: (int, int)) -> bool {
    exists|path: Seq<(int, int)>| #[trigger] zero_chain(b, path) && path[0] == p && path.last() == q
}

/// In a settled game, uncovering `p` adds exactly the cells of the zero region
/// around `p` and its border that were still covered: together with what
/// `uncover` ensures, the uncovered cells afterwards are those uncovered before
/// and those zero-linked to `p`.
pub proof fn lemma_spread_region(g: &Game, p: (int, int))
    requires
        g.settled(),
        g.board.in_range(p.0, p.1),
    ensures
        forall|a: int, b: int| g.board.in_range(a, b) ==>
            (g.is_uncovered(a, b) || #[trigger] g.reaches(p, (a, b)) <==> g.is_uncovered(a, b) || zero_linked(&g.board, p, (a, b))),
{
    assert forall|a: int, b: int| g.board.in_range(a, b) implies
        (g.is_uncovered(a, b) || #[trigger] g.reaches(p, (a, b)) <==> g.is_uncovered(a, b) || zero_linked(&g.board, p, (a, b))) by {
        if g.reaches(p, (a, b)) {
            let path = choose|path: Seq<(int, int)>| #[trigger] g.spreads_along(path) && path[0] == p && path.last() == (a, b);
            assert(zero_chain(&g.board, path));
        }
        if zero_linked(&g.board, p, (a, b)) {
            let path = choose|path: Seq<(int, int)>| #[trigger] zero_chain(&g.board, path) && path[0] == p && path.last() == (a, b);
            lemma_chain_uncovered_or_reached(g, p, path);
        }
    }
}

/// The end of a zero chain from `p` is already uncovered, or uncovering `p`
/// reaches it.
proof fn lemma_chain_uncovered_or_reached(g: &Game, p: (int, int), path: Seq<(int, int)>)
    requires
        g.settled(),
        zero_chain(&g.board, path),
        path[0] == p,
    ensures
        g.is_uncovered(path.last().0, path.last().1) || g.reaches(p, path.last()),
    decreases path.len(),
{
    if path.len() == 1 {
        assert(g.spreads_along(seq![p]));
    } else {
        let prefix = path.drop_last();
        assert(zero_chain(&g.board, prefix)) by {
            assert forall|i: int| 0 <= i < prefix.len() - 1 implies g.board.bomb_count((#[trigger] prefix[i]).0, prefix[i].1) == 0
                && g.board.adjacent(prefix[i], prefix[i + 1]) by {
                assert(prefix[i] == path[i] && prefix[i + 1] == path[i + 1]);
            }
            assert forall|i: int| 0 <= i < prefix.len() implies g.board.in_range((#[trigger] prefix[i]).0, prefix[i].1) by {
                assert(prefix[i] == path[i]);
            }
        }
        lemma_chain_uncovered_or_reached(g, p, prefix);
        let k = path.len() - 2;
        let c = path[k];
        let q = path.last();
        assert(prefix.last() == c);
        assert(g.board.bomb_count(c.0, c.1) == 0 && g.board.adjacent(c, path[k + 1]));
        assert(path[k + 1] == q);
        if g.is_uncovered(c.0, c.1) {
            assert(g.closed_at(c));
            assert(g.is_uncovered(q.0, q.1));
        } else if !g.is_uncovered(q.0, q.1) {
            let sp = choose|sp: Seq<(int, int)>| #[trigger] g.spreads_along(sp) && sp[0] == p && sp.last() == c;
            let longer = sp.push(q);
            assert forall|i: int| 0 <= i < longer.len() - 1 implies g.board.bomb_count((#[trigger] longer[i]).0, longer[i].1) == 0
                && g.board.adjacent(longer[i], longer[i + 1]) by {
                assert(longer[i] == sp[i]);
                if i < sp.len() - 1 {
                    assert(longer[i + 1] == sp[i + 1]);
                }
            }
            assert forall|i: int| 1 <= i < longer.len() implies !g.is_uncovered((#[trigger] longer[i]).0, longer[i].1) by {
                if i < sp.len() {
                    assert(longer[i] == sp[i]);
                }
            }
            assert forall|i: int| 0 <= i < longer.len() implies g.board.in_range((#[trigger] longer[i]).0, longer[i].1) by {
                if i < sp.len() {
                    assert(longer[i] == sp[i]);
                }
            }
            assert(g.spreads_along(longer));
            assert(longer[0] == p && longer.last() == q);
        }
    }
}

} // verus!
