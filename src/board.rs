use vstd::prelude::*;

verus! {

/// The contents of one square of the grid.
#[derive(Debug, Clone, Copy, PartialEq, Eq, Structural)]
pub enum Cell {
    Bomb,
    Empty,
}

/// A position on the grid; `valid` is false for a candidate that lies off it.
#[derive(Debug, Clone, Copy, PartialEq, Eq, Structural)]
pub struct Coord {
    pub x: isize,
    pub y: isize,
    pub valid: bool,
}

impl Coord {
    pub fn new(x: isize, y: isize) -> (r: Coord)
        ensures
            r == (Coord { x, y, valid: true }),
    {
        Coord { x, y, valid: true }
    }
}

/// The position `(x, y)` as a valid `Coord`.
pub open spec fn coord(x: int, y: int) -> Coord {
    Coord { x: x as isize, y: y as isize, valid: true }
}

/// The 3x3 block centred on `(x, y)`, the centre included, row by row.
pub open spec fn block(x: int, y: int) -> Seq<Coord> {
    seq![
        coord(x - 1, y - 1), coord(x, y - 1), coord(x + 1, y - 1),
        coord(x - 1, y), coord(x, y), coord(x + 1, y),
        coord(x - 1, y + 1), coord(x, y + 1), coord(x + 1, y + 1),
    ]
}

/// The cells of a `width` x `height` grid, row by row.
pub open spec fn row_major(width: nat, height: nat) -> Seq<(int, int)>
    decreases height,
{
    if height == 0 {
        seq![]
    } else {
        row_major(width, (height - 1) as nat) + Seq::new(width, |x: int| (x, height - 1))
    }
}

/// The cells that successive draws pick from `free`: each draw is an index
/// into the cells not picked yet, kept in their order.
pub open spec fn picks(free: Seq<(int, int)>, draws: Seq<usize>) -> Seq<(int, int)>
    decreases draws.len(),
{
    if draws.len() == 0 {
        seq![]
    } else {
        seq![free[draws[0] as int]] + picks(free.remove(draws[0] as int), draws.drop_first())
    }
}

/// Each draw indexes into what is left of `total` cells: the `i`-th lies below `total - i`.
pub open spec fn draws_fit(draws: Seq<usize>, total: int) -> bool {
    forall|i: int| 0 <= i < draws.len() ==> draws[i] + i < total
}

/// A `width` x `height` grid of cells, stored row by row: `values[y][x]`.
pub struct Board {
    pub width: usize,
    pub height: usize,
    pub values: Vec<Vec<Cell>>,
}

impl Board {
    /// The grid has `height` rows of `width` cells each, and every position
    /// fits in an `isize`.
    pub open spec fn wf(&self) -> bool {
        &&& self.values@.len() == self.height
        &&& forall|y: int| 0 <= y < self.height ==> #[trigger] self.values@[y]@.len() == self.width
        &&& self.width <= isize::MAX
        &&& self.height <= isize::MAX
    }

    pub open spec fn in_range(&self, x: int, y: int) -> bool {
        0 <= x < self.width && 0 <= y < self.height
    }

    pub open spec fn cell(&self, x: int, y: int) -> Cell {
        self.values@[y]@[x]
    }

    pub open spec fn is_bomb(&self, x: int, y: int) -> bool {
        self.in_range(x, y) && self.cell(x, y) == Cell::Bomb
    }

    /// The positions of all mines on the grid.
    pub open spec fn bombs(&self) -> Set<(int, int)> {
        Set::new(|p: (int, int)| self.is_bomb(p.0, p.1))
    }

    /// Whether `(x, y)` holds a mine, as a number.
    pub open spec fn bomb_at(&self, x: int, y: int) -> nat {
        if self.is_bomb(x, y) { 1 } else { 0 }
    }

    /// The members of `cs` that lie on the grid, in their order.
    pub open spec fn on_grid(&self, cs: Seq<Coord>) -> Seq<Coord>
        decreases cs.len(),
    {
        if cs.len() == 0 {
            cs
        } else {
            let rest = self.on_grid(cs.drop_last());
            if self.in_range(cs.last().x as int, cs.last().y as int) {
                rest.push(cs.last())
            } else {
                rest
            }
        }
    }

    /// How many members of `cs` hold a mine.
    pub open spec fn bombs_among(&self, cs: Seq<Coord>) -> nat
        decreases cs.len(),
    {
        if cs.len() == 0 {
            0
        } else {
            self.bombs_among(cs.drop_last()) + self.bomb_at(cs.last().x as int, cs.last().y as int)
        }
    }

    /// The cells of the 3x3 block around `(x, y)` that lie on the grid.
    pub open spec fn neighbors(&self, x: int, y: int) -> Seq<Coord> {
        self.on_grid(block(x, y))
    }

    /// The number of mines among `neighbors(x, y)`.
    pub open spec fn bomb_count(&self, x: int, y: int) -> nat {
        self.bombs_among(self.neighbors(x, y))
    }

    /// `q` is on the grid and touches `p` (or is `p`).
    pub open spec fn adjacent(&self, p: (int, int), q: (int, int)) -> bool {
        &&& self.in_range(q.0, q.1)
        &&& -1 <= q.0 - p.0 <= 1
        &&& -1 <= q.1 - p.1 <= 1
    }

    /// A grid of the given size with every cell `Empty`.
    pub fn new(width: usize, height: usize) -> (r: Board)
        requires
            width <= isize::MAX,
            height <= isize::MAX,
        ensures
            r.wf(),
            r.width == width,
            r.height == height,
            forall|x: int, y: int| r.in_range(x, y) ==> #[trigger] r.cell(x, y) == Cell::Empty,
            r.bombs() == Set::<(int, int)>::empty(),
    {
        let mut values: Vec<Vec<Cell>> = Vec::new();
        for _y in 0..height
            invariant
                values@.len() == _y,
                forall|j: int| 0 <= j < _y ==> #[trigger] values@[j]@.len() == width,
                forall|j: int, i: int|
                    0 <= j < _y && 0 <= i < width ==> #[trigger] values@[j]@[i] == Cell::Empty,
        {
            let mut row: Vec<Cell> = Vec::new();
            for _x in 0..width
                invariant
                    row@.len() == _x,
                    forall|i: int| 0 <= i < _x ==> #[trigger] row@[i] == Cell::Empty,
            {
                row.push(Cell::Empty);
            }
            values.push(row);
        }
        let r = Board { width, height, values };
        assert(r.bombs() =~= Set::<(int, int)>::empty());
        r
    }

    /// Puts a mine on each cell that `draws` picks from the cells in row
    /// order: the `i`-th draw indexes into the cells not picked before it.
    pub fn place_bombs(&mut self, draws: &Vec<usize>)
        requires
            old(self).wf(),
            forall|x: int, y: int| old(self).in_range(x, y) ==> #[trigger] old(self).cell(x, y) == Cell::Empty,
            draws@.len() <= old(self).width * old(self).height,
            draws_fit(draws@, old(self).width * old(self).height),
        ensures
            final(self).wf(),
            final(self).width == old(self).width,
            final(self).height == old(self).height,
            final(self).bombs() == picks(row_major(old(self).width as nat, old(self).height as nat), draws@).to_set(),
            final(self).bombs().finite(),
            final(self).bombs().len() == draws@.len(),
    {
        let width = self.width;
        let height = self.height;
        let ghost d = draws@;
        let ghost all = row_major(width as nat, height as nat);
        let mut free: Vec<(usize, usize)> = Vec::new();
        assert(0 * width == 0) by (nonlinear_arith);
        for y in 0..height
            invariant
                free@.len() == y * width,
                free@.len() == row_major(width as nat, y as nat).len(),
                forall|k: int| 0 <= k < free@.len() ==> ((#[trigger] free@[k]).0 as int, free@[k].1 as int) == row_major(width as nat, y as nat)[k],
                forall|k: int| 0 <= k < free@.len() ==> (#[trigger] free@[k]).0 < width && free@[k].1 < y,
                forall|k1: int, k2: int|
                    0 <= k1 < k2 < free@.len() ==> #[trigger] free@[k1] != #[trigger] free@[k2],
        {
            let ghost before = free@.len();
            let ghost rows = row_major(width as nat, y as nat);
            for x in 0..width
                invariant
                    free@.len() == before + x,
                    before == y * width,
                    before == rows.len(),
                    rows == row_major(width as nat, y as nat),
                    y < height,
                    forall|k: int| 0 <= k < before ==> ((#[trigger] free@[k]).0 as int, free@[k].1 as int) == rows[k],
                    forall|k: int| before <= k < free@.len() ==> ((#[trigger] free@[k]).0 as int, free@[k].1 as int) == (k - before, y as int),
                    forall|k: int| 0 <= k < before ==> (#[trigger] free@[k]).0 < width && free@[k].1 < y,
                    forall|k: int| before <= k < free@.len() ==> (#[trigger] free@[k]).0 < x && free@[k].1 == y,
                    forall|k1: int, k2: int|
                        0 <= k1 < k2 < free@.len() ==> #[trigger] free@[k1] != #[trigger] free@[k2],
            {
                free.push((x, y));
            }
            assert((y + 1) * width == y * width + width) by (nonlinear_arith);
            let ghost next = row_major(width as nat, (y + 1) as nat);
            assert(next =~= rows + Seq::new(width as nat, |x: int| (x, y as int)));
            assert forall|k: int| 0 <= k < free@.len() implies ((#[trigger] free@[k]).0 as int, free@[k].1 as int) == next[k] by {
                if k >= before {
                    assert(next[k] == (k - before, y as int));
                }
            }
        }
        assert(height * width == width * height) by (nonlinear_arith);
        let ghost mut left = all;
        let ghost mut chosen: Seq<(int, int)> = seq![];
        assert(d.skip(0) =~= d);
        assert(self.bombs() =~= chosen.to_set());
        for i in 0..draws.len()
            invariant
                self.wf(),
                self.width == width,
                self.height == height,
                d == draws@,
                d.len() <= width * height,
                draws_fit(d, width * height),
                free@.len() + i == width * height,
                free@.len() == left.len(),
                forall|k: int| 0 <= k < free@.len() ==> ((#[trigger] free@[k]).0 as int, free@[k].1 as int) == left[k],
                forall|k: int| 0 <= k < free@.len() ==> self.in_range(#[trigger] free@[k].0 as int, free@[k].1 as int),
                forall|k: int| 0 <= k < free@.len() ==> self.cell(#[trigger] free@[k].0 as int, free@[k].1 as int) == Cell::Empty,
                forall|k1: int, k2: int|
                    0 <= k1 < k2 < free@.len() ==> #[trigger] free@[k1] != #[trigger] free@[k2],
                picks(all, d) == chosen + picks(left, d.skip(i as int)),
                all == row_major(width as nat, height as nat),
                self.bombs() == chosen.to_set(),
                chosen.no_duplicates(),
                chosen.len() == i,
        {
            let k = draws[i];
            let (x, y) = free[k];
            let ghost p = (x as int, y as int);
            let ghost b0 = *self;
            self.set(x, y, Cell::Bomb);
            proof {
                let rest = d.skip(i as int);
                assert(rest[0] == d[i as int]);
                assert(rest.drop_first() =~= d.skip(i + 1));
                assert(left[k as int] == p);
                assert(picks(left, rest) == seq![p] + picks(left.remove(k as int), d.skip(i + 1)));
                assert(chosen + picks(left, rest) =~= chosen.push(p) + picks(left.remove(k as int), d.skip(i + 1)));
                assert(!b0.bombs().contains(p));
                assert(!chosen.contains(p)) by {
                    if chosen.contains(p) {
                        assert(chosen.to_set().contains(p));
                    }
                }
                assert(chosen.push(p).no_duplicates()) by {
                    assert forall|a: int, b: int| 0 <= a < chosen.len() + 1 && 0 <= b < chosen.len() + 1 && a != b
                        implies chosen.push(p)[a] != chosen.push(p)[b] by {
                        if a < chosen.len() && b < chosen.len() {
                        } else if a < chosen.len() {
                            assert(chosen.contains(chosen[a]));
                        } else {
                            assert(chosen.contains(chosen[b]));
                        }
                    }
                }
                assert(self.bombs() =~= chosen.push(p).to_set()) by {
                    assert forall|q: (int, int)| #[trigger] self.bombs().contains(q) implies chosen.push(p).to_set().contains(q) by {
                        if q != p {
                            assert(b0.is_bomb(q.0, q.1));
                            assert(b0.bombs().contains(q));
                            let j = choose|j: int| 0 <= j < chosen.len() && chosen[j] == q;
                            assert(chosen.push(p)[j] == q);
                        } else {
                            assert(chosen.push(p)[chosen.len() as int] == q);
                        }
                    }
                    assert forall|q: (int, int)| #[trigger] chosen.push(p).to_set().contains(q) implies self.bombs().contains(q) by {
                        let j = choose|j: int| 0 <= j < chosen.len() + 1 && chosen.push(p)[j] == q;
                        if j < chosen.len() {
                            assert(chosen[j] == q);
                            assert(chosen.to_set().contains(q));
                        }
                    }
                }
                chosen = chosen.push(p);
            }
            let ghost old_free = free@;
            let ghost old_left = left;
            free.remove(k);
            proof {
                left = old_left.remove(k as int);
                assert forall|j: int| 0 <= j < free@.len() implies ((#[trigger] free@[j]).0 as int, free@[j].1 as int) == left[j]
                    && self.cell(free@[j].0 as int, free@[j].1 as int) == Cell::Empty by {
                    let j0 = if j < k { j } else { j + 1 };
                    assert(free@[j] == old_free[j0]);
                    assert(left[j] == old_left[j0]);
                    assert(old_free[j0] != old_free[k as int]);
                }
                assert forall|k1: int, k2: int| 0 <= k1 < k2 < free@.len() implies #[trigger] free@[k1] != #[trigger] free@[k2] by {
                    let a = if k1 < k { k1 } else { k1 + 1 };
                    let b = if k2 < k { k2 } else { k2 + 1 };
                    assert(free@[k1] == old_free[a]);
                    assert(free@[k2] == old_free[b]);
                }
            }
        }
        proof {
            assert(d.skip(d.len() as int).len() == 0);
            assert(chosen + picks(left, d.skip(d.len() as int)) =~= chosen);
            chosen.unique_seq_to_set();
        }
    }

    pub fn get(&self, x: usize, y: usize) -> (r: &Cell)
        requires
            self.wf(),
            self.in_range(x as int, y as int),
        ensures
            *r == self.cell(x as int, y as int),
    {
        &self.values[y][x]
    }

    pub fn set(&mut self, x: usize, y: usize, value: Cell)
        requires
            old(self).wf(),
            old(self).in_range(x as int, y as int),
        ensures
            final(self).wf(),
            final(self).width == old(self).width,
            final(self).height == old(self).height,
            forall|i: int, j: int|
                old(self).in_range(i, j) ==> #[trigger] final(self).cell(i, j) == if i == x && j == y {
                    value
                } else {
                    old(self).cell(i, j)
                },
    {
        self.values[y][x] = value;
    }
}

/// `on_grid` keeps exactly the members of `cs` that lie on the grid.
pub proof fn lemma_on_grid_members(b: &Board, cs: Seq<Coord>)
    ensures
        b.on_grid(cs).len() <= cs.len(),
        forall|i: int| 0 <= i < b.on_grid(cs).len() ==> {
            let c = #[trigger] b.on_grid(cs)[i];
            b.in_range(c.x as int, c.y as int) && cs.contains(c)
        },
        forall|i: int| 0 <= i < cs.len() && b.in_range(cs[i].x as int, cs[i].y as int)
            ==> b.on_grid(cs).contains(#[trigger] cs[i]),
    decreases cs.len(),
{
    if cs.len() > 0 {
        let rest = cs.drop_last();
        lemma_on_grid_members(b, rest);
        assert forall|i: int| 0 <= i < b.on_grid(cs).len() implies {
            let c = #[trigger] b.on_grid(cs)[i];
            b.in_range(c.x as int, c.y as int) && cs.contains(c)
        } by {
            let c = b.on_grid(cs)[i];
            if i < b.on_grid(rest).len() {
                assert(b.on_grid(rest)[i] == c);
                let j = choose|j: int| 0 <= j < rest.len() && rest[j] == c;
                assert(cs[j] == c);
            } else {
                assert(cs[cs.len() - 1] == c);
            }
        }
        assert forall|i: int| 0 <= i < cs.len() && b.in_range(cs[i].x as int, cs[i].y as int)
            implies b.on_grid(cs).contains(#[trigger] cs[i]) by {
            if i < cs.len() - 1 {
                assert(rest[i] == cs[i]);
                let j = choose|j: int| 0 <= j < b.on_grid(rest).len() && b.on_grid(rest)[j] == cs[i];
                assert(b.on_grid(cs)[j] == cs[i]);
            } else {
                assert(b.on_grid(cs).last() == cs[i]);
            }
        }
    }
}

/// Cells off the grid hold no mine, so dropping them keeps the count.
pub proof fn lemma_bombs_among_on_grid(b: &Board, cs: Seq<Coord>)
    ensures
        b.bombs_among(b.on_grid(cs)) == b.bombs_among(cs),
    decreases cs.len(),
{
    if cs.len() > 0 {
        lemma_bombs_among_on_grid(b, cs.drop_last());
        let rest = b.on_grid(cs.drop_last());
        if b.in_range(cs.last().x as int, cs.last().y as int) {
            assert(rest.push(cs.last()).drop_last() =~= rest);
        }
    }
}

/// The neighbors of a cell on the grid are exactly the cells adjacent to it.
pub proof fn lemma_neighbors_adjacent(b: &Board, x: int, y: int)
    requires
        b.wf(),
        b.in_range(x, y),
    ensures
        forall|i: int| 0 <= i < b.neighbors(x, y).len() ==> {
            let c = #[trigger] b.neighbors(x, y)[i];
            c == coord(c.x as int, c.y as int) && b.adjacent((x, y), (c.x as int, c.y as int))
        },
        forall|q: (int, int)| b.adjacent((x, y), q) ==> #[trigger] b.neighbors(x, y).contains(coord(q.0, q.1)),
{
    let cs = block(x, y);
    lemma_on_grid_members(b, cs);
    assert forall|q: (int, int)| b.adjacent((x, y), q) implies #[trigger] b.neighbors(x, y).contains(coord(q.0, q.1)) by {
        let i = (q.1 - y + 1) * 3 + (q.0 - x + 1);
        assert(cs[i] == coord(q.0, q.1));
    }
    assert forall|i: int| 0 <= i < b.neighbors(x, y).len() implies {
        let c = #[trigger] b.neighbors(x, y)[i];
        c == coord(c.x as int, c.y as int) && b.adjacent((x, y), (c.x as int, c.y as int))
    } by {
        let c = b.neighbors(x, y)[i];
        let j = choose|j: int| 0 <= j < cs.len() && cs[j] == c;
        assert(0 <= j < 9);
    }
}

/// For an empty cell, the count is the number of mines among the up to eight
/// cells touching it, a cell off the grid counting as no mine.
pub proof fn lemma_bomb_count_moore(b: &Board, x: int, y: int)
    requires
        b.wf(),
        b.in_range(x, y),
        b.cell(x, y) == Cell::Empty,
    ensures
        b.bomb_count(x, y) == b.bomb_at(x - 1, y - 1) + b.bomb_at(x, y - 1) + b.bomb_at(x + 1, y - 1)
            + b.bomb_at(x - 1, y) + b.bomb_at(x + 1, y)
            + b.bomb_at(x - 1, y + 1) + b.bomb_at(x, y + 1) + b.bomb_at(x + 1, y + 1),
{
    let cs = block(x, y);
    lemma_bombs_among_on_grid(b, cs);
    assert forall|i: int| 0 <= i < 9 implies (#[trigger] cs[i]).x as int == x - 1 + i % 3 && cs[i].y as int == y - 1 + i / 3 by {}
    reveal_with_fuel(Board::bombs_among, 10);
    assert(cs.drop_last().drop_last().drop_last().drop_last().drop_last().drop_last().drop_last().drop_last().drop_last().len() == 0);
}

} // verus!
